//! A gate in front of the printer: a cooldown and a daily allowance for each
//! client, and a cap for the whole day.
//!
//! Paper is finite, so allowances are spent before printing and handed back if
//! the printer refuses. Counts live in memory and reset at local midnight.

use crate::refusal::Refusal;
use std::collections::HashMap;
use vstd::multiset::Multiset;
use vstd::prelude::*;

verus! {

broadcast use vstd::std_specs::hash::group_hash_axioms;

/// The address of a client.
#[derive(Clone, Copy, PartialEq, Eq, Structural)]
pub enum Address {
    V4(u32),
    V6(u128),
}

/// What is known of a client.
#[derive(Clone, Copy, PartialEq, Eq, Structural)]
pub struct Client {
    /// When the client last spent a print, in nanoseconds from a fixed moment.
    pub last: u64,
    /// Prints spent today.
    pub today: usize,
}

/// The limits. Each is off when it is zero, and all of them can be: the password
/// is the real gate, these only stop a loop.
#[derive(Clone, Copy, PartialEq, Eq, Structural)]
pub struct Limits {
    /// Seconds a client must wait between prints.
    pub cooldown: u64,
    /// Prints allowed per client per day.
    pub per_client_daily: usize,
    /// Prints allowed across everyone per day.
    pub daily_cap: usize,
}

// --- the model -------------------------------------------------------------

/// What a gate has counted: on which day, in all, and for each client.
pub struct Tally {
    pub day: i32,
    pub total: nat,
    pub clients: Map<Address, Client>,
}

pub open spec fn nothing_counted(day: i32) -> Tally {
    Tally { day, total: 0, clients: Map::empty() }
}

/// The nanoseconds of so many seconds.
pub open spec fn nanos(secs: nat) -> nat {
    secs * 1_000_000_000
}

/// The nanoseconds from `last` to `now`; a clock never runs backwards.
pub open spec fn since(last: u64, now: u64) -> nat {
    if now >= last {
        (now - last) as nat
    } else {
        0
    }
}

impl Tally {
    /// The tally once the local date has been looked at: a new day starts from
    /// nothing.
    pub open spec fn on(self, day: i32) -> Tally {
        if day == self.day {
            self
        } else {
            nothing_counted(day)
        }
    }

    /// The limit that stops a client from printing, if one does.
    pub open spec fn refused(self, who: Address, now: u64, limits: Limits) -> Option<Refusal> {
        if limits.daily_cap > 0 && self.total >= limits.daily_cap {
            Some(Refusal::DailyCap)
        } else if !self.clients.contains_key(who) {
            None
        } else {
            let client = self.clients[who];
            if since(client.last, now) < nanos(limits.cooldown as nat) {
                Some(
                    Refusal::Cooldown(
                        ((nanos(limits.cooldown as nat) - since(client.last, now)) / 1_000_000_000
                            + 1) as u128,
                    ),
                )
            } else if limits.per_client_daily > 0 && client.today >= limits.per_client_daily {
                Some(Refusal::ClientDaily)
            } else {
                None
            }
        }
    }

    /// Prints that a client has spent today.
    pub open spec fn today(self, who: Address) -> nat {
        if self.clients.contains_key(who) {
            self.clients[who].today as nat
        } else {
            0
        }
    }

    /// One print more, for the client and for the day.
    pub open spec fn spent(self, who: Address, now: u64) -> Tally {
        Tally {
            day: self.day,
            total: self.total + 1,
            clients: self.clients.insert(
                who,
                Client { last: now, today: (self.today(who) + 1) as usize },
            ),
        }
    }

    /// One print handed back. The cooldown stays.
    pub open spec fn handed_back(self, who: Address) -> Tally {
        Tally {
            day: self.day,
            total: if self.total > 0 {
                (self.total - 1) as nat
            } else {
                0
            },
            clients: if self.clients.contains_key(who) {
                let client = self.clients[who];
                self.clients.insert(
                    who,
                    Client {
                        last: client.last,
                        today: if client.today > 0 {
                            (client.today - 1) as usize
                        } else {
                            0
                        },
                    },
                )
            } else {
                self.clients
            },
        }
    }

    /// The tally once a print that was spent on that day is handed back. What an
    /// earlier day counted is gone, so a print of an earlier day gives nothing to this
    /// one.
    pub open spec fn refunded(self, who: Address, day: i32) -> Tally {
        if day == self.day {
            self.handed_back(who)
        } else {
            self
        }
    }

    /// How many prints are left of the day, where a cap counts them.
    pub open spec fn left(self, limits: Limits) -> Option<usize> {
        if limits.daily_cap == 0 {
            None
        } else if limits.daily_cap > self.total {
            Some((limits.daily_cap - self.total) as usize)
        } else {
            Some(0)
        }
    }

    /// Whether one print more can still be counted.
    pub open spec fn can_count(self, who: Address) -> bool {
        self.total < usize::MAX && self.today(who) < usize::MAX
    }
}

// --- laws ------------------------------------------------------------------

/// What can happen to a tally.
pub enum Event {
    /// A client asks for a print.
    Claim { who: Address, day: i32, now: u64 },
    /// A print that was spent on that day never reached paper.
    Refund { who: Address, day: i32 },
    /// Somebody looks at what is left of the day.
    Look { day: i32 },
}

/// A tally, and the prints that stand: those that were granted and not handed back
/// since, each by its client and its day.
pub struct Record {
    pub tally: Tally,
    pub standing: Multiset<(Address, i32)>,
}

/// The prints of that day.
pub open spec fn of_day(prints: Multiset<(Address, i32)>, day: i32) -> Multiset<(Address, i32)> {
    prints.filter(|print: (Address, i32)| print.1 == day)
}

impl Record {
    /// The record once something more has happened.
    pub open spec fn after(self, event: Event, limits: Limits) -> Record {
        match event {
            Event::Claim { who, day, now } => {
                let tally = self.tally.on(day);
                if tally.refused(who, now, limits) is Some {
                    Record { tally, standing: self.standing }
                } else {
                    Record {
                        tally: tally.spent(who, now),
                        standing: self.standing.insert((who, day)),
                    }
                }
            },
            Event::Refund { who, day } => Record {
                tally: self.tally.refunded(who, day),
                standing: self.standing.remove((who, day)),
            },
            Event::Look { day } => Record { tally: self.tally.on(day), standing: self.standing },
        }
    }

    /// Whether the event can come next: the date does not go back, and what is handed
    /// back is a print that stands.
    pub open spec fn allows(self, event: Event) -> bool {
        match event {
            Event::Claim { day, .. } => day >= self.tally.day,
            Event::Refund { who, day } => self.standing.count((who, day)) > 0,
            Event::Look { day } => day >= self.tally.day,
        }
    }

    /// How many prints of that day stand.
    pub open spec fn prints(self, day: i32) -> nat {
        of_day(self.standing, day).len()
    }

    /// How many prints of that client on that day stand.
    pub open spec fn prints_of(self, who: Address, day: i32) -> nat {
        self.standing.count((who, day))
    }
}

/// The record of everything that happened since a gate was put up on that day.
pub open spec fn recorded(day: i32, events: Seq<Event>, limits: Limits) -> Record
    decreases events.len(),
{
    if events.len() == 0 {
        Record { tally: nothing_counted(day), standing: Multiset::empty() }
    } else {
        recorded(day, events.drop_last(), limits).after(events.last(), limits)
    }
}

/// Whether the events can happen in that order.
pub open spec fn can_happen(day: i32, events: Seq<Event>, limits: Limits) -> bool
    decreases events.len(),
{
    events.len() == 0 || {
        &&& can_happen(day, events.drop_last(), limits)
        &&& recorded(day, events.drop_last(), limits).allows(events.last())
    }
}

proof fn lemma_one_more(standing: Multiset<(Address, i32)>, who: Address, day: i32, other: i32)
    ensures
        of_day(standing.insert((who, day)), other).len() == of_day(standing, other).len()
            + if other == day {
            1nat
        } else {
            0
        },
{
    broadcast use vstd::multiset::group_multiset_axioms;

    let after = of_day(standing.insert((who, day)), other);
    if other == day {
        assert(after =~= of_day(standing, other).insert((who, day)));
    } else {
        assert(after =~= of_day(standing, other));
    }
}

proof fn lemma_one_less(standing: Multiset<(Address, i32)>, who: Address, day: i32, other: i32)
    requires
        standing.count((who, day)) > 0,
    ensures
        of_day(standing, other).len() == of_day(standing.remove((who, day)), other).len()
            + if other == day {
            1nat
        } else {
            0
        },
{
    broadcast use vstd::multiset::group_multiset_axioms;

    let left = standing.remove((who, day));
    assert(left.insert((who, day)) =~= standing);
    lemma_one_more(left, who, day, other);
}

/// What a record keeps: the tally counts the prints of its day that stand, no print
/// is of a later day, and no day has more than the limits allow.
spec fn in_balance(record: Record, limits: Limits) -> bool {
    let today = record.tally.day;
    &&& record.tally.total == record.prints(today)
    &&& forall|who: Address| #[trigger] record.tally.today(who) == record.prints_of(who, today)
    &&& forall|day: i32| day > today ==> #[trigger] record.prints(day) == 0
    &&& forall|who: Address, day: i32|
        day > today ==> #[trigger] record.prints_of(who, day) == 0
    &&& limits.daily_cap > 0 ==> forall|day: i32| #[trigger]
        record.prints(day) <= limits.daily_cap
    &&& limits.per_client_daily > 0 ==> forall|who: Address, day: i32| #[trigger]
        record.prints_of(who, day) <= limits.per_client_daily
}

proof fn lemma_on(record: Record, day: i32, limits: Limits)
    requires
        in_balance(record, limits),
        day >= record.tally.day,
    ensures
        in_balance(Record { tally: record.tally.on(day), standing: record.standing }, limits),
{
    let after = Record { tally: record.tally.on(day), standing: record.standing };
    assert forall|d: i32| #[trigger] after.prints(d) == record.prints(d) by {}
    assert forall|who: Address, d: i32| #[trigger]
        after.prints_of(who, d) == record.prints_of(who, d) by {}
}

proof fn lemma_kept(day: i32, events: Seq<Event>, limits: Limits)
    requires
        limits.daily_cap > 0 || limits.per_client_daily > 0,
        can_happen(day, events, limits),
    ensures
        in_balance(recorded(day, events, limits), limits),
    decreases events.len(),
{
    broadcast use vstd::multiset::group_multiset_axioms;

    let now = recorded(day, events, limits);
    if events.len() == 0 {
        assert forall|d: i32| #[trigger] now.prints(d) == 0 by {
            assert(of_day(now.standing, d) =~= Multiset::empty());
        }
    } else {
        let before = recorded(day, events.drop_last(), limits);
        lemma_kept(day, events.drop_last(), limits);
        match events.last() {
            Event::Claim { who, day: d, now: at } => {
                lemma_on(before, d, limits);
                let rolled = Record { tally: before.tally.on(d), standing: before.standing };
                if rolled.tally.refused(who, at, limits) is None {
                    assert(rolled.tally.today(who) == rolled.prints_of(who, d));
                    assert(of_day(rolled.standing, d).count((who, d)) == rolled.prints_of(who, d));
                    assert(rolled.tally.today(who) <= rolled.tally.total);
                    assert(rolled.tally.today(who) < usize::MAX);
                    assert forall|other: i32| #[trigger] now.prints(other) == rolled.prints(other)
                        + if other == d {
                        1nat
                    } else {
                        0
                    } by {
                        lemma_one_more(rolled.standing, who, d, other);
                    }
                    assert forall|w: Address, other: i32| #[trigger]
                        now.prints_of(w, other) == rolled.prints_of(w, other) + if (w, other) == (
                            who,
                            d,
                        ) {
                            1nat
                        } else {
                            0
                        } by {}
                    assert forall|w: Address| #[trigger] now.tally.today(w) == now.prints_of(w, d) by {
                        assert(rolled.tally.today(w) == rolled.prints_of(w, d));
                    }
                }
            },
            Event::Refund { who, day: d } => {
                let today = before.tally.day;
                assert(before.prints_of(who, d) > 0);
                assert(of_day(before.standing, d).count((who, d)) > 0);
                assert(before.tally.today(who) == before.prints_of(who, today));
                assert forall|other: i32| #[trigger] now.prints(other) + (if other == d {
                    1nat
                } else {
                    0
                }) == before.prints(other) by {
                    lemma_one_less(before.standing, who, d, other);
                }
                assert forall|w: Address, other: i32| #[trigger]
                    now.prints_of(w, other) + (if (w, other) == (who, d) {
                        1nat
                    } else {
                        0
                    }) == before.prints_of(w, other) by {}
                assert forall|w: Address| #[trigger]
                    now.tally.today(w) == now.prints_of(w, today) by {
                    assert(before.tally.today(w) == before.prints_of(w, today));
                }
            },
            Event::Look { day: d } => {
                lemma_on(before, d, limits);
            },
        }
    }
}

/// Whatever happens, the prints of a day that are granted and not handed back never
/// pass the cap: no jam, and no midnight, mints an extra print.
pub proof fn no_days_prints_pass_the_cap(
    day: i32,
    events: Seq<Event>,
    limits: Limits,
    any_day: i32,
)
    requires
        limits.daily_cap > 0,
        can_happen(day, events, limits),
    ensures
        recorded(day, events, limits).prints(any_day) <= limits.daily_cap,
{
    lemma_kept(day, events, limits);
}

/// Whatever happens, the prints of a client on a day that are granted and not handed
/// back never pass their allowance.
pub proof fn no_clients_prints_pass_their_allowance(
    day: i32,
    events: Seq<Event>,
    limits: Limits,
    who: Address,
    any_day: i32,
)
    requires
        limits.per_client_daily > 0,
        can_happen(day, events, limits),
    ensures
        recorded(day, events, limits).prints_of(who, any_day) <= limits.per_client_daily,
{
    lemma_kept(day, events, limits);
}

/// When that client was last granted a print on that day, if one was, whether or not
/// it was handed back since.
pub open spec fn last_granted(
    start: i32,
    events: Seq<Event>,
    limits: Limits,
    who: Address,
    day: i32,
) -> Option<u64>
    decreases events.len(),
{
    if events.len() == 0 {
        None
    } else {
        let before = events.drop_last();
        match events.last() {
            Event::Claim { who: w, day: d, now } if w == who && d == day && recorded(
                start,
                events,
                limits,
            ).prints_of(who, day) > recorded(start, before, limits).prints_of(who, day) => Some(now),
            _ => last_granted(start, before, limits, who, day),
        }
    }
}

proof fn lemma_last_granted(start: i32, events: Seq<Event>, limits: Limits, who: Address, day: i32)
    requires
        can_happen(start, events, limits),
    ensures
        ({
            let tally = recorded(start, events, limits).tally;
            let last = last_granted(start, events, limits, who, day);
            &&& day == tally.day ==> tally.clients.contains_key(who) == (last is Some)
            &&& day == tally.day && last is Some ==> tally.clients[who].last == last->0
            &&& day > tally.day ==> last is None
        }),
    decreases events.len(),
{
    broadcast use vstd::multiset::group_multiset_axioms;

    if events.len() > 0 {
        let before = recorded(start, events.drop_last(), limits);
        lemma_last_granted(start, events.drop_last(), limits, who, day);
        match events.last() {
            Event::Claim { who: w, day: d, now } => {
                let rolled = before.tally.on(d);
                if rolled.refused(w, now, limits) is None {
                    assert(before.standing.insert((w, d)).count((w, d)) == before.standing.count(
                        (w, d),
                    ) + 1);
                }
            },
            Event::Refund { who: w, day: d } => {},
            Event::Look { day: d } => {},
        }
    }
}

/// The counts are the prints: on a day that has come, a gate that looks at the date has
/// counted the prints of the day that stand, and for each client those of the client.
pub proof fn the_counts_are_the_prints(start: i32, events: Seq<Event>, limits: Limits, who: Address, day: i32)
    requires
        limits.daily_cap > 0 || limits.per_client_daily > 0,
        can_happen(start, events, limits),
        day >= recorded(start, events, limits).tally.day,
    ensures
        ({
            let record = recorded(start, events, limits);
            &&& record.tally.on(day).total == record.prints(day)
            &&& record.tally.on(day).today(who) == record.prints_of(who, day)
        }),
{
    let record = recorded(start, events, limits);
    lemma_kept(start, events, limits);
    if day > record.tally.day {
        assert(record.prints(day) == 0);
        assert(record.prints_of(who, day) == 0);
    } else {
        assert(record.tally.today(who) == record.prints_of(who, day));
    }
}

/// Who is refused, and why, told from the prints that stand. The cap refuses exactly
/// where the prints of the day are as many; then the cooldown, exactly where the
/// client's last print was granted less than so many seconds ago; then the allowance,
/// exactly where the client's prints of the day are as many. A limit of zero refuses
/// nobody, and whom no limit refuses is granted the print.
pub proof fn limits_refuse_exactly_when_reached(
    start: i32,
    events: Seq<Event>,
    limits: Limits,
    who: Address,
    day: i32,
    now: u64,
)
    requires
        can_happen(start, events.push(Event::Claim { who, day, now }), limits),
    ensures
        ({
            let record = recorded(start, events, limits);
            let after = recorded(start, events.push(Event::Claim { who, day, now }), limits);
            let refusal = record.tally.on(day).refused(who, now, limits);
            let last = last_granted(start, events, limits, who, day);
            let capped = limits.daily_cap > 0 && record.prints(day) >= limits.daily_cap;
            let waiting = limits.cooldown > 0 && last is Some && now - last->0 < limits.cooldown
                * 1_000_000_000;
            let spent = limits.per_client_daily > 0 && record.prints_of(who, day)
                >= limits.per_client_daily;
            &&& capped <==> refusal == Some(Refusal::DailyCap)
            &&& !capped && waiting <==> (refusal matches Some(Refusal::Cooldown(_)))
            &&& !capped && !waiting && spent <==> refusal == Some(Refusal::ClientDaily)
            &&& !capped && !waiting && !spent <==> refusal is None
            &&& after.prints_of(who, day) == record.prints_of(who, day) + (if refusal is None {
                1int
            } else {
                0
            })
            &&& after.prints(day) == record.prints(day) + (if refusal is None {
                1int
            } else {
                0
            })
        }),
{
    broadcast use vstd::multiset::group_multiset_axioms;

    let claim = Event::Claim { who, day, now };
    let record = recorded(start, events, limits);
    assert(events.push(claim).drop_last() =~= events);
    assert(can_happen(start, events, limits) && record.allows(claim));
    lemma_last_granted(start, events, limits, who, day);
    if limits.daily_cap > 0 || limits.per_client_daily > 0 {
        the_counts_are_the_prints(start, events, limits, who, day);
    }
    lemma_one_more(record.standing, who, day, day);
}

/// What is left of a day and what was printed on it make up the cap, so nothing is left
/// exactly where the cap refuses the next claim; without a cap there is no count.
pub proof fn what_is_left_and_what_was_printed_make_the_cap(
    start: i32,
    events: Seq<Event>,
    limits: Limits,
    day: i32,
    who: Address,
    now: u64,
)
    requires
        can_happen(start, events, limits),
        day >= recorded(start, events, limits).tally.day,
    ensures
        ({
            let record = recorded(start, events, limits);
            let left = record.tally.on(day).left(limits);
            &&& left is None <==> limits.daily_cap == 0
            &&& left is Some ==> left->0 + record.prints(day) == limits.daily_cap
            &&& left == Some(0usize) <==> record.tally.on(day).refused(who, now, limits) == Some(
                Refusal::DailyCap,
            )
        }),
{
    if limits.daily_cap > 0 {
        the_counts_are_the_prints(start, events, limits, who, day);
        no_days_prints_pass_the_cap(start, events, limits, day);
    }
}

/// The wait that a client is told ends within a second of the cooldown, never before
/// it: so many whole seconds are more than what is left, and one less are not.
pub proof fn the_wait_told_is_the_wait_left(
    tally: Tally,
    who: Address,
    now: u64,
    limits: Limits,
)
    requires
        tally.refused(who, now, limits) matches Some(Refusal::Cooldown(_)),
        tally.clients[who].last <= now,
    ensures
        ({
            let secs = tally.refused(who, now, limits)->0->Cooldown_0;
            let left = limits.cooldown * 1_000_000_000 - (now - tally.clients[who].last);
            (secs - 1) * 1_000_000_000 <= left < secs * 1_000_000_000
        }),
{
    let left = nanos(limits.cooldown as nat) - since(tally.clients[who].last, now);
    assert(left / 1_000_000_000 + 1 <= u64::MAX + 1);
}

/// What one client does leaves every other client's account alone: their prints, and
/// when they last had one.
pub proof fn clients_are_counted_apart(tally: Tally, who: Address, other: Address, now: u64)
    requires
        who != other,
    ensures
        tally.spent(who, now).today(other) == tally.today(other),
        tally.refunded(who, tally.day).today(other) == tally.today(other),
        tally.spent(who, now).clients.contains_key(other) == tally.clients.contains_key(other),
        tally.spent(who, now).clients[other] == tally.clients[other],
{
}

/// A print that was spent before midnight and failed after it takes nothing off the
/// counts of the new day.
pub proof fn a_refund_stays_on_its_day(tally: Tally, who: Address, day: i32)
    requires
        day != tally.day,
    ensures
        tally.refunded(who, day) == tally,
{
}

/// A refund gives back exactly what a claim spent: every count is what it was
/// before, and only the moment of the claim, which the cooldown runs from, stays.
pub proof fn a_refund_undoes_a_claim(tally: Tally, who: Address, now: u64, other: Address)
    requires
        tally.can_count(who),
    ensures
        ({
            let after = tally.spent(who, now).refunded(who, tally.day);
            &&& after.day == tally.day
            &&& after.total == tally.total
            &&& after.today(other) == tally.today(other)
            &&& after.clients[who].last == now
            &&& other != who ==> after.clients.contains_key(other) == tally.clients.contains_key(
                other,
            ) && after.clients[other] == tally.clients[other]
        }),
{
}

/// A jammed printer does not invite a retry storm: after a claim, even one that was
/// refunded, the client is refused until the cooldown is over.
pub proof fn the_cooldown_outlasts_a_refund(
    tally: Tally,
    who: Address,
    now: u64,
    later: u64,
    limits: Limits,
)
    requires
        since(now, later) < nanos(limits.cooldown as nat),
    ensures
        tally.spent(who, now).refused(who, later, limits) is Some,
        tally.spent(who, now).refunded(who, tally.day).refused(who, later, limits) is Some,
{
}

/// Every limit is off when it is zero.
pub proof fn limits_are_off_at_zero(tally: Tally, who: Address, now: u64)
    ensures
        tally.refused(who, now, Limits { cooldown: 0, per_client_daily: 0, daily_cap: 0 }) is None,
{
}

/// A client who waits as long as they were told is past the cooldown.
pub proof fn waiting_as_told_is_enough(
    tally: Tally,
    who: Address,
    now: u64,
    later: u64,
    limits: Limits,
)
    requires
        tally.refused(who, now, limits) matches Some(Refusal::Cooldown(secs)) && later - now
            >= nanos(secs as nat),
        tally.clients[who].last <= now,
    ensures
        !(tally.refused(who, later, limits) matches Some(Refusal::Cooldown(_))),
{
    let secs = tally.refused(who, now, limits)->0->Cooldown_0;
    let left = nanos(limits.cooldown as nat) - since(tally.clients[who].last, now);
    assert(left / 1_000_000_000 + 1 <= u64::MAX + 1);
    assert(nanos(secs as nat) > left);
}

/// Allowances reset at midnight: on a new day nothing is counted yet and nobody is
/// refused.
pub proof fn midnight_resets_the_counts(
    tally: Tally,
    day: i32,
    who: Address,
    now: u64,
    limits: Limits,
)
    requires
        day != tally.day,
    ensures
        tally.on(day).total == 0,
        tally.on(day).today(who) == 0,
        tally.on(day).refused(who, now, limits) is None,
{
}

// --- a gate ----------------------------------------------------------------

/// Rate limiting, per client and in total. The day is a local-time ordinal, so
/// allowances reset at midnight where the printer is rather than at UTC.
pub struct Gate {
    day: i32,
    total_today: usize,
    v4: HashMap<u32, Client>,
    v6: HashMap<u128, Client>,
}

impl View for Gate {
    type V = Tally;

    closed spec fn view(&self) -> Tally {
        Tally {
            day: self.day,
            total: self.total_today as nat,
            clients: Map::new(
                |who: Address|
                    match who {
                        Address::V4(a) => self.v4@.contains_key(a),
                        Address::V6(a) => self.v6@.contains_key(a),
                    },
                |who: Address|
                    match who {
                        Address::V4(a) => self.v4@[a],
                        Address::V6(a) => self.v6@[a],
                    },
            ),
        }
    }
}

impl Gate {
    /// A gate that has let nobody through yet.
    pub fn new(day: i32) -> (r: Gate)
        ensures
            r@ == nothing_counted(day),
    {
        let r = Gate { day, total_today: 0, v4: HashMap::new(), v6: HashMap::new() };
        assert(r@.clients =~= Map::<Address, Client>::empty());
        r
    }

    fn client(&self, who: Address) -> (r: Option<Client>)
        ensures
            r == (if self@.clients.contains_key(who) {
                Some(self@.clients[who])
            } else {
                None
            }),
    {
        let found = match who {
            Address::V4(a) => self.v4.get(&a),
            Address::V6(a) => self.v6.get(&a),
        };
        match found {
            Some(client) => Some(*client),
            None => None,
        }
    }

    fn put(&mut self, who: Address, client: Client)
        ensures
            final(self)@.day == old(self)@.day,
            final(self)@.total == old(self)@.total,
            final(self)@.clients == old(self)@.clients.insert(who, client),
    {
        match who {
            Address::V4(a) => {
                self.v4.insert(a, client);
            },
            Address::V6(a) => {
                self.v6.insert(a, client);
            },
        }
        assert(self@.clients =~= old(self)@.clients.insert(who, client));
    }

    /// Clear the day's counts when the local date changes.
    pub fn roll_over(&mut self, day: i32)
        ensures
            final(self)@ == old(self)@.on(day),
    {
        if day != self.day {
            self.day = day;
            self.total_today = 0;
            self.v4.clear();
            self.v6.clear();
            assert(self@.clients =~= Map::<Address, Client>::empty());
        }
    }

    /// Whether one print more can still be counted on that day.
    pub fn can_count(&self, who: Address, day: i32) -> (r: bool)
        ensures
            r == self@.on(day).can_count(who),
    {
        if day != self.day {
            return true;
        }
        let today: usize = match self.client(who) {
            Some(client) => client.today,
            None => 0,
        };
        self.total_today < usize::MAX && today < usize::MAX
    }

    /// Spend one print from the caller's allowance and from the day's, or say
    /// which limit stopped them.
    pub fn claim(&mut self, who: Address, day: i32, now: u64, limits: Limits) -> (r: Result<
        (),
        Refusal,
    >)
        requires
            old(self)@.on(day).can_count(who),
        ensures
            match old(self)@.on(day).refused(who, now, limits) {
                Some(why) => r == Err::<(), Refusal>(why) && final(self)@ == old(self)@.on(day),
                None => r is Ok && final(self)@ == old(self)@.on(day).spent(who, now),
            },
    {
        self.roll_over(day);
        if limits.daily_cap > 0 && self.total_today >= limits.daily_cap {
            return Err(Refusal::DailyCap);
        }
        let today: usize = match self.client(who) {
            Some(client) => {
                let elapsed: u128 = if now >= client.last {
                    (now - client.last) as u128
                } else {
                    0
                };
                let cooldown: u128 = limits.cooldown as u128 * 1_000_000_000;
                if elapsed < cooldown {
                    return Err(Refusal::Cooldown((cooldown - elapsed) / 1_000_000_000 + 1));
                }
                if limits.per_client_daily > 0 && client.today >= limits.per_client_daily {
                    return Err(Refusal::ClientDaily);
                }
                client.today
            },
            None => 0,
        };
        self.put(who, Client { last: now, today: today + 1 });
        self.total_today = self.total_today + 1;
        Ok(())
    }

    /// Give back an allowance that was spent, on that day, on a print that never
    /// reached paper. Once the counts of that day are gone there is nothing to give
    /// back to. The cooldown stays: a jammed printer should not invite a retry storm.
    pub fn refund(&mut self, who: Address, day: i32)
        ensures
            final(self)@ == old(self)@.refunded(who, day),
    {
        if day != self.day {
            return;
        }
        self.total_today = if self.total_today > 0 {
            self.total_today - 1
        } else {
            0
        };
        assert(self@.clients =~= old(self)@.clients);
        if let Some(client) = self.client(who) {
            let today: usize = if client.today > 0 {
                client.today - 1
            } else {
                0
            };
            self.put(who, Client { last: client.last, today });
        }
    }

    /// How many prints are left of the day, where a cap counts them.
    pub fn remaining(&mut self, day: i32, limits: Limits) -> (r: Option<usize>)
        ensures
            final(self)@ == old(self)@.on(day),
            r == final(self)@.left(limits),
            r == (if limits.daily_cap == 0 {
                None::<usize>
            } else if limits.daily_cap > final(self)@.total {
                Some((limits.daily_cap - final(self)@.total) as usize)
            } else {
                Some(0)
            }),
    {
        self.roll_over(day);
        if limits.daily_cap == 0 {
            None
        } else if limits.daily_cap > self.total_today {
            Some(limits.daily_cap - self.total_today)
        } else {
            Some(0)
        }
    }
}

} // verus!
