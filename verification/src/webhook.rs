//! What becomes of a comment event: whether it is believed, what it is answered,
//! and how the slip it asks for is seen through.
//!
//! Everything here answers 200 unless the caller failed to prove, by its signature,
//! that it was Linear. Linear retries a non-200 at one minute, one hour and six
//! hours, and disables the webhook after three failures: a printer with its cover
//! open, or a clock that is wrong, must not be allowed to turn the integration off.

use crate::linear;
use crate::linear::{note, signature_matches, CommentEvent, Verdict};
use crate::text;
use crate::text::same;
use std::collections::VecDeque;
use vstd::prelude::*;
use vstd::string::StringSliceAdditionalSpecFns;

verus! {

/// What the caller is answered: an HTTP status code, and why.
pub struct Reply {
    pub code: u16,
    pub message: String,
}

impl Reply {
    pub open spec fn is(self, code: u16, message: Seq<char>) -> bool {
        self.code == code && self.message@ == message
    }
}

fn reply(code: u16, message: &str) -> (r: Reply)
    ensures
        r.is(code, message@),
{
    Reply { code, message: message.to_string() }
}

// --- setting up ------------------------------------------------------------

/// Whether Linear is set up.
pub enum Setup {
    On { secret: String, key: String },
    Off,
    /// One of the two without the other.
    Half,
}

/// Both or neither: an integration that verifies requests but cannot fetch anything
/// is worse than one that is plainly off.
pub fn setup(secret: Option<String>, key: Option<String>) -> (r: Setup)
    ensures
        r == (match (secret, key) {
            (Some(secret), Some(key)) => Setup::On { secret, key },
            (None, None) => Setup::Off,
            _ => Setup::Half,
        }),
{
    match (secret, key) {
        (Some(secret), Some(key)) => Setup::On { secret, key },
        (None, None) => Setup::Off,
        _ => Setup::Half,
    }
}

// --- is it Linear? ---------------------------------------------------------

/// The answer to a caller before the body is read, if it goes no further.
pub fn vouch(configured: bool, signed: bool) -> (r: Result<(), Reply>)
    ensures
        match r {
            Ok(_) => configured && signed,
            Err(why) => if configured {
                !signed && why.is(401, "bad signature"@)
            } else {
                why.is(503, "linear is not configured"@)
            },
        },
{
    if !configured {
        return Err(reply(503, "linear is not configured"));
    }
    if !signed {
        return Err(reply(401, "bad signature"));
    }
    Ok(())
}

/// Whether a request proves that it is Linear's, by the signature in its header. A
/// request without one counts as one with an empty one.
pub open spec fn is_proven(secret: Seq<u8>, raw_body: Seq<u8>, signature: Option<&str>) -> bool {
    linear::is_signed(
        secret,
        raw_body,
        match signature {
            Some(signature) => signature@,
            None => ""@,
        },
    )
}

/// Whether to believe a request, before its body is read: the signature covers the
/// bytes as sent.
pub fn receive(secret: Option<&str>, raw_body: &[u8], signature: Option<&str>) -> (r: Result<
    (),
    Reply,
>)
    ensures
        match secret {
            None => r matches Err(why) && why.is(503, "linear is not configured"@),
            Some(secret) => if is_proven(secret.spec_bytes(), raw_body@, signature) {
                r is Ok
            } else {
                r matches Err(why) && why.is(401, "bad signature"@)
            },
        },
{
    match secret {
        None => vouch(false, false),
        Some(secret) => {
            let header = match signature {
                Some(signature) => signature,
                None => "",
            };
            vouch(true, signature_matches(secret, raw_body, header))
        },
    }
}

// --- what was seen before --------------------------------------------------

/// How many recent deliveries to remember, so a retry does not reprint.
pub const SEEN_LIMIT: usize = 200;

/// The keys that are remembered once one more has come: the most recent ones.
pub open spec fn kept(keys: Seq<Seq<char>>, key: Seq<char>) -> Seq<Seq<char>> {
    let all = keys.push(key);
    if all.len() > SEEN_LIMIT {
        all.skip(all.len() - SEEN_LIMIT)
    } else {
        all
    }
}

pub open spec fn kept_all(keys: Seq<Seq<char>>, more: Seq<Seq<char>>) -> Seq<Seq<char>>
    decreases more.len(),
{
    if more.len() == 0 {
        keys
    } else {
        kept(kept_all(keys, more.drop_last()), more.last())
    }
}

/// A key is remembered until as many others have come as are remembered at all.
pub proof fn a_key_is_remembered_for_a_while(
    keys: Seq<Seq<char>>,
    key: Seq<char>,
    more: Seq<Seq<char>>,
)
    requires
        more.len() < SEEN_LIMIT,
    ensures
        kept_all(kept(keys, key), more).contains(key),
{
    lemma_key_moves_up(keys, key, more);
    let now = kept_all(kept(keys, key), more);
    assert(now[now.len() - 1 - more.len()] == key);
}

/// Of all the keys that came, the last 200 are remembered, in the order they came in, and
/// no others.
pub proof fn the_last_keys_are_remembered(keys: Seq<Seq<char>>, more: Seq<Seq<char>>)
    requires
        keys.len() <= 200,
    ensures
        ({
            let all = keys + more;
            let over = if all.len() > 200 {
                all.len() - 200
            } else {
                0
            };
            kept_all(keys, more) == all.skip(over)
        }),
    decreases more.len(),
{
    let all = keys + more;
    if more.len() == 0 {
        assert(all.skip(0) =~= keys);
    } else {
        let fewer = more.drop_last();
        the_last_keys_are_remembered(keys, fewer);
        let before = keys + fewer;
        assert(all =~= before.push(more.last()));
        let over = if before.len() > 200 {
            before.len() - 200
        } else {
            0
        };
        let now = before.skip(over).push(more.last());
        if now.len() > SEEN_LIMIT {
            assert(now.skip(now.len() - SEEN_LIMIT) =~= all.skip(all.len() - 200));
        } else {
            assert(now =~= all.skip(0));
        }
    }
}

proof fn lemma_key_moves_up(keys: Seq<Seq<char>>, key: Seq<char>, more: Seq<Seq<char>>)
    requires
        more.len() < SEEN_LIMIT,
    ensures
        ({
            let now = kept_all(kept(keys, key), more);
            &&& more.len() < now.len() <= SEEN_LIMIT
            &&& now[now.len() - 1 - more.len()] == key
        }),
    decreases more.len(),
{
    if more.len() > 0 {
        lemma_key_moves_up(keys, key, more.drop_last());
    }
}

/// Deliveries already acted on. Linear retries, and a retry must not mean a second
/// receipt.
pub struct Seen {
    keys: VecDeque<String>,
}

impl View for Seen {
    type V = Seq<Seq<char>>;

    closed spec fn view(&self) -> Seq<Seq<char>> {
        text::views(self.keys@)
    }
}

impl Seen {
    pub fn new() -> (r: Seen)
        ensures
            r@ == Seq::<Seq<char>>::empty(),
    {
        let r = Seen { keys: VecDeque::new() };
        assert(r@ =~= Seq::<Seq<char>>::empty());
        r
    }

    /// Whether the key is among those remembered.
    pub fn already_seen(&self, key: &str) -> (r: bool)
        ensures
            r == self@.contains(key@),
    {
        for i in 0..self.keys.len()
            invariant
                forall|k: int| 0 <= k < i ==> #[trigger] self@[k] != key@,
        {
            assert(self@[i as int] == self.keys@[i as int]@);
            if same(self.keys[i].as_str(), key) {
                return true;
            }
        }
        assert(self@.len() == self.keys@.len());
        false
    }

    /// Remembers one more key, and forgets the oldest where there are too many.
    pub fn remember(&mut self, key: String)
        ensures
            final(self)@ == kept(old(self)@, key@),
    {
        let ghost all = self@.push(key@);
        self.keys.push_back(key);
        assert(self@ =~= all);
        assert(all.skip(0) =~= all);
        while self.keys.len() > SEEN_LIMIT
            invariant
                self@.len() == self.keys@.len() <= all.len(),
                self@ == all.skip(all.len() - self@.len()),
                self@.len() < SEEN_LIMIT ==> self@.len() == all.len(),
            decreases self.keys@.len(),
        {
            let ghost before = self@;
            self.keys.pop_front();
            assert(self@ =~= before.skip(1));
            assert(before.skip(1) =~= all.skip(all.len() - before.len() + 1));
        }
    }
}

// --- what it asks for ------------------------------------------------------

/// What to do about an event.
pub enum Outcome {
    /// Answer, and no more.
    Answer(Reply),
    /// Answer now, print after: fetching the issue alone can outlast the time that
    /// Linear allows.
    Print { reply: Reply, issue_id: String, note: String },
}

impl Outcome {
    /// What the caller is answered.
    pub open spec fn answer(self) -> Reply {
        match self {
            Outcome::Answer(reply) => reply,
            Outcome::Print { reply, .. } => reply,
        }
    }
}

/// Whether the event asks for a slip that is still to be printed: it is fresh, the
/// verdict is to print, and neither the delivery nor the comment was seen before.
pub open spec fn is_due(
    event: CommentEvent,
    now_ms: int,
    viewer: Seq<char>,
    delivery: Seq<char>,
    seen: Seq<Seq<char>>,
) -> bool {
    &&& event.fresh_at(now_ms)
    &&& linear::judged(event, viewer) == Verdict::Print
    &&& !seen.contains(delivery)
    &&& !seen.contains(event.data.id@)
}

/// Why an event is not due.
pub open spec fn turned_away(event: CommentEvent, now_ms: int, viewer: Seq<char>) -> Seq<char> {
    if !event.fresh_at(now_ms) {
        "stale timestamp"@
    } else if linear::judged(event, viewer) != Verdict::Print {
        linear::judged(event, viewer).words()
    } else {
        "already handled"@
    }
}

/// The key of a delivery: the id it came with, or else that of its comment.
pub open spec fn delivery_key(event: CommentEvent, delivery: Option<String>) -> Seq<char> {
    match delivery {
        Some(delivery) => delivery@,
        None => event.data.id@,
    }
}

/// What becomes of a signed request: the outcome, and what is remembered before and
/// after. It is Linear's, so it is answered 200 whatever it holds; one that cannot be
/// read is just an event of a shape that is not handled.
pub open spec fn is_handled(
    event: Result<CommentEvent, String>,
    now_ms: int,
    viewer: Seq<char>,
    delivery: Option<String>,
    before: Seq<Seq<char>>,
    outcome: Outcome,
    after: Seq<Seq<char>>,
) -> bool {
    match event {
        Err(why) => {
            &&& outcome matches Outcome::Answer(reply)
            &&& reply.is(200, "ignored: "@ + why@)
            &&& after == before
        },
        Ok(event) => {
            let key = delivery_key(event, delivery);
            if is_due(event, now_ms, viewer, key, before) {
                &&& outcome matches Outcome::Print { reply, issue_id, note }
                &&& reply.is(200, "printing"@)
                &&& issue_id@ == event.data.issue_id@
                &&& note@ == linear::noted(event.data.body@)
                &&& after == kept(kept(before, key), event.data.id@)
            } else {
                &&& outcome matches Outcome::Answer(reply)
                &&& reply.is(200, turned_away(event, now_ms, viewer))
                &&& after == before
            }
        },
    }
}

/// Handle a signed request.
///
/// A retry carries the same delivery id, and an edit carries the same comment id;
/// either way it is the same request for the same paper.
pub fn handle(
    event: Result<CommentEvent, String>,
    now_ms: i64,
    viewer: &str,
    delivery: Option<String>,
    seen: &mut Seen,
) -> (r: Outcome)
    ensures
        r.answer().code == 200,
        is_handled(event, now_ms as int, viewer@, delivery, old(seen)@, r, final(seen)@),
{
    let event = match event {
        Ok(event) => event,
        Err(why) => {
            let mut message = "ignored: ".to_string();
            message.append(why.as_str());
            return Outcome::Answer(Reply { code: 200, message });
        },
    };
    if !event.is_fresh(now_ms) {
        return Outcome::Answer(reply(200, "stale timestamp"));
    }
    let verdict = event.verdict(viewer);
    if verdict != Verdict::Print {
        return Outcome::Answer(reply(200, verdict.describe()));
    }
    let key = match delivery {
        Some(delivery) => delivery,
        None => event.data.id.clone(),
    };
    if seen.already_seen(key.as_str()) || seen.already_seen(event.data.id.as_str()) {
        return Outcome::Answer(reply(200, "already handled"));
    }
    let note = note(event.data.body.as_str());
    seen.remember(key);
    seen.remember(event.data.id);
    Outcome::Print { reply: reply(200, "printing"), issue_id: event.data.issue_id, note }
}

/// What a caller sent, besides the event that its body holds.
pub struct Request<'a> {
    pub raw_body: &'a [u8],
    pub signature: Option<&'a str>,
    pub delivery: Option<String>,
}

/// Answer a request. Nothing is printed, and nothing remembered, for a caller that
/// did not prove it was Linear, whatever event its body holds.
pub fn respond(
    secret: Option<&str>,
    request: Request,
    event: Result<CommentEvent, String>,
    now_ms: i64,
    viewer: &str,
    seen: &mut Seen,
) -> (r: Outcome)
    ensures
        match secret {
            None => {
                &&& r matches Outcome::Answer(reply)
                &&& reply.is(503, "linear is not configured"@)
                &&& final(seen)@ == old(seen)@
            },
            Some(secret) => if is_proven(secret.spec_bytes(), request.raw_body@, request.signature) {
                is_handled(
                    event,
                    now_ms as int,
                    viewer@,
                    request.delivery,
                    old(seen)@,
                    r,
                    final(seen)@,
                )
            } else {
                &&& r matches Outcome::Answer(reply)
                &&& reply.is(401, "bad signature"@)
                &&& final(seen)@ == old(seen)@
            },
        },
{
    match receive(secret, request.raw_body, request.signature) {
        Ok(_) => handle(event, now_ms, viewer, request.delivery, seen),
        Err(why) => Outcome::Answer(why),
    }
}

/// A retry does not mean a second receipt: once a slip was due, an event with the
/// same delivery or the same comment is not, until as many keys have come as are
/// remembered.
pub proof fn a_retry_is_not_due(
    first: CommentEvent,
    key: Seq<char>,
    seen: Seq<Seq<char>>,
    more: Seq<Seq<char>>,
    again: CommentEvent,
    again_key: Seq<char>,
    now_ms: int,
    viewer: Seq<char>,
)
    requires
        more.len() + 1 < SEEN_LIMIT,
        again_key == key || again.data.id@ == first.data.id@,
    ensures
        !is_due(
            again,
            now_ms,
            viewer,
            again_key,
            kept_all(kept(kept(seen, key), first.data.id@), more),
        ),
{
    let id = first.data.id@;
    a_key_is_remembered_for_a_while(kept(seen, key), id, more);
    let both = seq![id] + more;
    lemma_kept_in_turn(kept(seen, key), id, more);
    a_key_is_remembered_for_a_while(seen, key, both);
}

/// What is asked for is printed, once, and nothing else is. A comment of yours that asks,
/// fresh and not seen before, is answered and printed with the issue it hangs off and
/// what else it says; and whatever is printed was asked for so.
pub proof fn what_is_asked_for_is_printed(
    event: CommentEvent,
    now_ms: int,
    viewer: Seq<char>,
    delivery: Option<String>,
    before: Seq<Seq<char>>,
    outcome: Outcome,
    after: Seq<Seq<char>>,
)
    requires
        is_handled(Ok(event), now_ms, viewer, delivery, before, outcome, after),
    ensures
        ({
            let fresh = event.webhook_timestamp is None || event.webhook_timestamp->0 - 60_000
                < now_ms < event.webhook_timestamp->0 + 60_000;
            let yours = event.data.user_id is Some && event.data.user_id->0@ == viewer;
            let arrives = event.action@ == "update"@ ==> event.updated_from is Some
                && event.updated_from->0.body is Some && !linear::asks(
                event.updated_from->0.body->0@,
            );
            let known = before.contains(event.data.id@) || (delivery is Some && before.contains(
                delivery->0@,
            ));
            let asked = event.kind@ == "Comment"@ && event.action@ != "remove"@ && linear::asks(
                event.data.body@,
            );
            &&& outcome is Print <==> fresh && yours && arrives && asked && !known
            &&& outcome is Print ==> outcome->issue_id@ == event.data.issue_id@
                && outcome->note@ == linear::noted(event.data.body@)
            &&& outcome is Print ==> after.contains(event.data.id@)
            &&& outcome is Print && delivery is Some ==> after.contains(delivery->0@)
            &&& !(outcome is Print) ==> after == before
            &&& outcome.answer().code == 200
        }),
{
    let key = delivery_key(event, delivery);
    if outcome is Print {
        let none = Seq::<Seq<char>>::empty();
        a_key_is_remembered_for_a_while(kept(before, key), event.data.id@, none);
        let one = seq![event.data.id@];
        a_key_is_remembered_for_a_while(before, key, one);
        assert(one.drop_last() =~= none);
        assert(kept_all(kept(before, key), one) == kept(
            kept_all(kept(before, key), none),
            event.data.id@,
        ));
    }
}

/// What is not printed is answered with the reason. A stale event is told only that it is
/// stale; a fresh one that does not ask for a slip is told why not; and one that asks is
/// told that it was handled before.
pub proof fn what_is_not_printed_is_told_why(
    event: CommentEvent,
    now_ms: int,
    viewer: Seq<char>,
    delivery: Option<String>,
    before: Seq<Seq<char>>,
    outcome: Outcome,
    after: Seq<Seq<char>>,
)
    requires
        is_handled(Ok(event), now_ms, viewer, delivery, before, outcome, after),
    ensures
        ({
            let told = outcome.answer().message@;
            let fresh = event.webhook_timestamp is None || event.webhook_timestamp->0 - 60_000
                < now_ms < event.webhook_timestamp->0 + 60_000;
            let verdict = linear::judged(event, viewer);
            &&& outcome is Print ==> told == "printing"@
            &&& !fresh ==> told == "stale timestamp"@
            &&& fresh && verdict != Verdict::Print ==> told == verdict.words()
            &&& fresh && verdict == Verdict::Print && !(outcome is Print) ==> told
                == "already handled"@
        }),
{
}

/// After every attempt that fails the errand rests for half a minute.
pub proof fn a_failed_attempt_rests_half_a_minute(errand: Errand)
    ensures
        errand.follows(News::Printed(false)) == (errand, Step::Rest(30)),
{
}

proof fn lemma_kept_in_turn(keys: Seq<Seq<char>>, key: Seq<char>, more: Seq<Seq<char>>)
    ensures
        kept_all(keys, seq![key] + more) == kept_all(kept(keys, key), more),
    decreases more.len(),
{
    let both = seq![key] + more;
    if more.len() == 0 {
        assert(both.drop_last() =~= Seq::<Seq<char>>::empty());
        assert(kept_all(keys, both.drop_last()) == keys);
        assert(both.last() == key);
    } else {
        lemma_kept_in_turn(keys, key, more.drop_last());
        assert(both.drop_last() =~= seq![key] + more.drop_last());
        assert(both.last() == more.last());
    }
}

// --- seeing a slip through -------------------------------------------------

/// How long to wait before a slip is tried again, in seconds.
pub const REST_SECS: u64 = 30;

/// How a slip ended.
#[derive(Clone, Copy, PartialEq, Eq, Structural)]
pub enum Ending {
    Printed,
    /// Printing was paused.
    Dropped,
    GaveUp,
}

/// What to do next about a slip.
#[derive(Clone, Copy, PartialEq, Eq, Structural)]
pub enum Step {
    /// Look whether printing is paused.
    Look,
    /// Try to print it.
    Print,
    /// Wait so many seconds.
    Rest(u64),
    Stop(Ending),
}

/// What came of the last step.
#[derive(Clone, Copy, PartialEq, Eq, Structural)]
pub enum News {
    Paused(bool),
    Printed(bool),
    Rested,
}

/// A slip to be printed, tried a few times over a few minutes, because the usual
/// reason it fails is a cover left open.
#[derive(Clone, Copy, PartialEq, Eq, Structural)]
pub struct Errand {
    /// The attempt that is under way, from 1.
    pub attempt: u32,
    /// How many attempts to make.
    pub retries: u32,
}

impl Errand {
    /// Where an errand begins, and its first step.
    pub open spec fn begun(retries: u32) -> (Errand, Step) {
        (
            Errand { attempt: 1, retries },
            if retries >= 1 {
                Step::Look
            } else {
                Step::Stop(Ending::GaveUp)
            },
        )
    }

    /// Where an errand goes, and its next step. The pause file wins over every
    /// attempt, and every attempt that fails is followed by a rest.
    pub open spec fn follows(self, news: News) -> (Errand, Step) {
        match news {
            News::Paused(true) => (self, Step::Stop(Ending::Dropped)),
            News::Paused(false) => (self, Step::Print),
            News::Printed(true) => (self, Step::Stop(Ending::Printed)),
            News::Printed(false) => (self, Step::Rest(REST_SECS)),
            News::Rested => if self.attempt < self.retries {
                (Errand { attempt: (self.attempt + 1) as u32, retries: self.retries }, Step::Look)
            } else {
                (self, Step::Stop(Ending::GaveUp))
            },
        }
    }

    /// An errand of so many attempts, and its first step.
    pub fn begin(retries: u32) -> (r: (Errand, Step))
        ensures
            r == Errand::begun(retries),
    {
        let errand = Errand { attempt: 1, retries };
        if retries >= 1 {
            (errand, Step::Look)
        } else {
            (errand, Step::Stop(Ending::GaveUp))
        }
    }

    /// Takes in what came of the last step and says what to do next.
    pub fn next(&mut self, news: News) -> (r: Step)
        ensures
            (*final(self), r) == old(self).follows(news),
    {
        match news {
            News::Paused(paused) => if paused {
                Step::Stop(Ending::Dropped)
            } else {
                Step::Print
            },
            News::Printed(printed) => if printed {
                Step::Stop(Ending::Printed)
            } else {
                Step::Rest(REST_SECS)
            },
            News::Rested => if self.attempt < self.retries {
                self.attempt = self.attempt + 1;
                Step::Look
            } else {
                Step::Stop(Ending::GaveUp)
            },
        }
    }
}

/// How an errand ends that is about to look whether printing is paused, and at
/// which attempt. The two functions say what each attempt meets: whether printing
/// is paused, and whether it prints.
pub open spec fn ending(
    errand: Errand,
    paused: spec_fn(int) -> bool,
    prints: spec_fn(int) -> bool,
) -> (Ending, int)
    decreases errand.retries - errand.attempt,
{
    let k = errand.attempt as int;
    match errand.follows(News::Paused(paused(k))).1 {
        Step::Stop(end) => (end, k),
        _ => match errand.follows(News::Printed(prints(k))).1 {
            Step::Stop(end) => (end, k),
            _ => match errand.follows(News::Rested) {
                (_, Step::Stop(end)) => (end, k),
                (rested, _) => if errand.attempt < errand.retries {
                    ending(rested, paused, prints)
                } else {
                    (Ending::GaveUp, k)
                },
            },
        },
    }
}

/// An errand makes at most its attempts. It prints at the first that works, drops
/// the slip at the first that finds printing paused, and gives up only when every
/// attempt has failed.
pub proof fn an_errand_is_seen_through(
    errand: Errand,
    paused: spec_fn(int) -> bool,
    prints: spec_fn(int) -> bool,
)
    requires
        1 <= errand.attempt <= errand.retries,
    ensures
        ({
            let (end, at) = ending(errand, paused, prints);
            &&& errand.attempt <= at <= errand.retries
            &&& forall|k: int|
                errand.attempt <= k < at ==> !#[trigger] paused(k) && !prints(k)
            &&& match end {
                Ending::Dropped => paused(at),
                Ending::Printed => !paused(at) && prints(at),
                Ending::GaveUp => !paused(at) && !prints(at) && at == errand.retries,
            }
        }),
    decreases errand.retries - errand.attempt,
{
    let k = errand.attempt as int;
    if !paused(k) && !prints(k) && errand.attempt < errand.retries {
        an_errand_is_seen_through(errand.follows(News::Rested).0, paused, prints);
    }
}

} // verus!
