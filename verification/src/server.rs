//! The rules of the endpoint that prints what people send it.
//!
//! One printer, one roll of paper, one USB claim: every guard here exists because
//! the thing on the other end is physical and finite.

use crate::device;
use crate::device::{blockers, is_blocking};
use crate::escpos;
use crate::escpos::LF;
use crate::gate::{Address, Gate, Limits};
use crate::refusal::Refusal;
use crate::text;
use crate::text::{chars_of, control, is_blank, join, split_on, string_of, trim_of};
use crate::wrap;
use vstd::prelude::*;
use vstd::slice::slice_subrange;
use vstd::utf8;

verus! {

/// The longest a sender's name can be on a slip.
pub const NAME_CHARS: usize = 24;

// --- what people send ------------------------------------------------------

/// What somebody sent.
pub struct Submission {
    pub password: String,
    pub name: String,
    pub text: String,
}

/// What of it goes on the paper.
pub struct Slip {
    pub text: String,
    pub name: String,
}

/// Whether the printer can be handed the character: a newline, or anything but a
/// control character.
pub open spec fn is_kept(c: char) -> bool {
    c == '\n' || !text::is_control(c)
}

/// A text without what the printer cannot render anyway.
pub open spec fn cleaned(s: Seq<char>) -> Seq<char> {
    s.filter(|c: char| is_kept(c))
}

/// Strip what the printer cannot render anyway: control characters other than
/// newline, the carriage returns of browsers on Windows among them. What is not
/// ASCII survives; the code page has some of it and a question mark for the rest.
pub fn clean(s: &str) -> (r: String)
    ensures
        r@ == cleaned(s@),
{
    let cs = chars_of(s);
    let mut out = String::new();
    proof {
        reveal(Seq::filter);
    }
    assert(out@ =~= cleaned(cs@.take(0)));
    for i in 0..cs.len()
        invariant
            out@ == cleaned(cs@.take(i as int)),
    {
        proof {
            reveal(Seq::filter);
        }
        assert(cs@.take(i + 1).drop_last() =~= cs@.take(i as int));
        let c = cs[i];
        if c == '\n' || !control(c) {
            out.push(c);
        }
    }
    assert(cs@.take(cs@.len() as int) =~= cs@);
    out
}

/// Whether two passwords are the same. Every byte is compared, whatever the others
/// showed, so the time it takes does not tell how much of the password matched.
pub fn constant_time_eq(a: &[u8], b: &[u8]) -> (r: bool)
    ensures
        r == (a@ == b@),
{
    if a.len() != b.len() {
        return false;
    }
    let mut differing: u8 = 0;
    for i in 0..a.len()
        invariant
            a@.len() == b@.len(),
            differing == 0 <==> forall|k: int| 0 <= k < i ==> a@[k] == b@[k],
    {
        let (x, y): (u8, u8) = (a[i], b[i]);
        let ghost before = differing;
        differing = differing | (x ^ y);
        assert(before | (x ^ y) == 0 <==> before == 0 && x == y) by (bit_vector);
    }
    assert(differing == 0 ==> a@ =~= b@);
    differing == 0
}

/// What comes of a submission before any allowance is spent.
pub open spec fn admission(
    submission: Submission,
    password: Seq<char>,
    max_chars: nat,
    paused: bool,
) -> Result<(Seq<char>, Seq<char>), Refusal> {
    let message = cleaned(submission.text@);
    let name = text::trimmed(cleaned(submission.name@));
    if submission.password@ != password {
        Err(Refusal::Password)
    } else if paused {
        Err(Refusal::Paused)
    } else if text::trimmed(message).len() == 0 {
        Err(Refusal::Empty)
    } else if message.len() > max_chars {
        Err(Refusal::TooLong(max_chars as usize))
    } else {
        Ok(
            (
                message,
                if name.len() <= NAME_CHARS {
                    name
                } else {
                    name.take(NAME_CHARS as int)
                },
            ),
        )
    }
}

/// Whether a submission is let through: the right password, printing
/// not paused, and a message that is neither empty nor too long.
pub fn screen(
    submission: &Submission,
    password: &str,
    max_chars: usize,
    paused: bool,
) -> (r: Result<Slip, Refusal>)
    ensures
        match admission(*submission, password@, max_chars as nat, paused) {
            Ok((message, name)) => r matches Ok(slip) && slip.text@ == message && slip.name@
                == name,
            Err(why) => r == Err::<Slip, Refusal>(why),
        },
{
    proof {
        utf8::encode_utf8_decode_utf8(submission.password@);
        utf8::encode_utf8_decode_utf8(password@);
    }
    if !constant_time_eq(submission.password.as_str().as_bytes(), password.as_bytes()) {
        return Err(Refusal::Password);
    }
    if paused {
        return Err(Refusal::Paused);
    }
    let message = clean(submission.text.as_str());
    if is_blank(message.as_str()) {
        return Err(Refusal::Empty);
    }
    if chars_of(message.as_str()).len() > max_chars {
        return Err(Refusal::TooLong(max_chars));
    }
    let name = chars_of(clean(submission.name.as_str()).as_str());
    let name = trim_of(name.as_slice());
    let name = if name.len() <= NAME_CHARS {
        string_of(name)
    } else {
        string_of(slice_subrange(name, 0, NAME_CHARS))
    };
    Ok(Slip { text: message, name })
}

/// What the house allows.
pub struct Rules {
    /// The shared password.
    pub password: String,
    /// Longest message accepted, in characters.
    pub max_chars: usize,
    pub limits: Limits,
}

/// When somebody asks, and who.
#[derive(Clone, Copy, PartialEq, Eq, Structural)]
pub struct Visit {
    pub who: Address,
    /// The local date, as a count of days.
    pub day: i32,
    /// The time, in nanoseconds from a fixed moment.
    pub now: u64,
    /// Whether printing is paused.
    pub paused: bool,
}

/// Take a submission in: screen it, then spend one print of the sender's allowance.
/// The allowance is taken before printing, so that someone who is over their limit
/// cannot spend paper by racing a second request through; a submission that does
/// not pass costs nothing.
pub fn accept(gate: &mut Gate, submission: &Submission, rules: &Rules, visit: Visit) -> (r: Result<
    Slip,
    Refusal,
>)
    requires
        old(gate)@.on(visit.day).can_count(visit.who),
    ensures
        match admission(
            *submission,
            rules.password@,
            rules.max_chars as nat,
            visit.paused,
        ) {
            Err(why) => r == Err::<Slip, Refusal>(why) && *final(gate) == *old(gate),
            Ok((message, name)) => {
                let tally = old(gate)@.on(visit.day);
                match tally.refused(visit.who, visit.now, rules.limits) {
                    Some(why) => r == Err::<Slip, Refusal>(why) && final(gate)@ == tally,
                    None => {
                        &&& r matches Ok(slip)
                        &&& slip.text@ == message
                        &&& slip.name@ == name
                        &&& final(gate)@ == tally.spent(visit.who, visit.now)
                    },
                }
            },
        },
{
    let slip = match screen(submission, rules.password.as_str(), rules.max_chars, visit.paused) {
        Ok(slip) => slip,
        Err(why) => {
            return Err(why);
        },
    };
    match gate.claim(visit.who, visit.day, visit.now, rules.limits) {
        Ok(_) => Ok(slip),
        Err(why) => Err(why),
    }
}

/// Whether a password is worth having: there is something in it.
pub fn is_usable_password(password: &str) -> (r: bool)
    ensures
        r == (text::trimmed(password@).len() > 0),
{
    !is_blank(password)
}

// --- who is asking ---------------------------------------------------------

/// The first address of a list of them, as a proxy writes it into a header.
pub fn first_hop(header: &str) -> (r: String)
    ensures
        r@ == text::trimmed(text::split(header@, ',')[0]),
{
    let cs = chars_of(header);
    let hops = split_on(cs.as_slice(), ',');
    assert(text::split(header@, ',')[0] == hops@[0]@);
    string_of(trim_of(hops[0].as_slice()))
}

/// Who is asking. Behind a tunnel every connection arrives from localhost, so the
/// real address is whatever the proxy put in a header, and only a proxy we control
/// puts one there, since nothing else can reach the port.
pub fn client_ip(connecting: Option<Address>, forwarded: Option<Address>, peer: Address) -> (r:
    Address)
    ensures
        r == (match (connecting, forwarded) {
            (Some(ip), _) => ip,
            (None, Some(ip)) => ip,
            (None, None) => peer,
        }),
{
    match connecting {
        Some(ip) => ip,
        None => match forwarded {
            Some(ip) => ip,
            None => peer,
        },
    }
}

// --- the printer's answer --------------------------------------------------

/// Whether a job may go out: nothing that blocks is wrong with the printer. A roll
/// that is merely getting low still has plenty on it, and refusing there would stop
/// printing days early.
pub fn unblocked(problems: &[String]) -> (r: Result<(), String>)
    ensures
        ({
            let stopping = device::blocking(text::views(problems@));
            if stopping.len() == 0 {
                r is Ok
            } else {
                r matches Err(why) && why@ == text::joined(stopping, "; "@)
            }
        }),
{
    let stopping = blockers(problems);
    assert(text::views(stopping@).len() == stopping@.len());
    if stopping.len() == 0 {
        Ok(())
    } else {
        Err(join(stopping.as_slice(), "; "))
    }
}

/// What the sender is told once the job was handed to the printer. Where the paper
/// was never spent the allowance is handed back to the day it was taken from.
pub fn settle(gate: &mut Gate, visit: Visit, printed: Result<(), String>) -> (r: Result<
    String,
    Refusal,
>)
    ensures
        match printed {
            Ok(_) => (r matches Ok(message) && message@ == "printing"@) && *final(gate) == *old(
                gate,
            ),
            Err(why) => r == Err::<String, Refusal>(Refusal::Printer(why)) && final(gate)@ == old(
                gate,
            )@.refunded(visit.who, visit.day),
        },
{
    match printed {
        Ok(_) => Ok("printing".to_string()),
        Err(why) => {
            gate.refund(visit.who, visit.day);
            Err(Refusal::Printer(why))
        },
    }
}

/// How the endpoint is, as the page shows it.
pub struct Status {
    pub ready: bool,
    pub detail: String,
    pub paused: bool,
    pub remaining_today: Option<usize>,
    pub max_chars: usize,
}

/// Whether a printer with these problems can print.
pub open spec fn can_print(problems: Seq<Seq<char>>) -> bool {
    device::blocking(problems).len() == 0
}

proof fn lemma_one_blocks(problems: Seq<Seq<char>>, i: int)
    requires
        0 <= i < problems.len(),
        device::blocks(problems[i]),
    ensures
        !can_print(problems),
{
    problems.lemma_filter_contains(|p: Seq<char>| device::blocks(p), i);
    assert(device::blocking(problems).contains(problems[i]));
}

/// How the endpoint is, from what the printer says is wrong with it, or why it
/// could not be asked. Say what is wrong either way; only a blocker makes it not
/// ready.
pub fn status(
    asked: Result<Vec<String>, String>,
    paused: bool,
    remaining: Option<usize>,
    max_chars: usize,
) -> (r: Status)
    ensures
        r.paused == paused,
        r.remaining_today == remaining,
        r.max_chars == max_chars,
        r.ready == (!paused && remaining != Some(0usize) && (asked matches Ok(problems)
            && can_print(text::views(problems@)))),
        r.detail@ == (match asked {
            Ok(problems) => if problems@.len() == 0 {
                "ready"@
            } else {
                text::joined(text::views(problems@), "; "@)
            },
            Err(why) => why@,
        }),
{
    let (well, detail) = match asked {
        Ok(problems) => {
            let mut blocked = false;
            let ghost all = text::views(problems@);
            for i in 0..problems.len()
                invariant
                    all == text::views(problems@),
                    blocked <==> exists|k: int| 0 <= k < i && device::blocks(#[trigger] all[k]),
            {
                assert(all[i as int] == problems@[i as int]@);
                if is_blocking(problems[i].as_str()) {
                    blocked = true;
                }
            }
            proof {
                if blocked {
                    let k = choose|k: int|
                        0 <= k < all.len() && device::blocks(#[trigger] all[k]);
                    lemma_one_blocks(all, k);
                } else {
                    all.lemma_all_neg_filter_empty(|p: Seq<char>| device::blocks(p));
                }
            }
            let detail = if problems.len() == 0 {
                "ready".to_string()
            } else {
                join(problems.as_slice(), "; ")
            };
            (!blocked, detail)
        },
        Err(why) => (false, why),
    };
    let spent = match remaining {
        Some(left) => left == 0,
        None => false,
    };
    Status {
        ready: well && !paused && !spent,
        detail,
        paused,
        remaining_today: remaining,
        max_chars,
    }
}

// --- laws ------------------------------------------------------------------

/// A byte that the printer prints, or the end of a line: no part of a command.
pub open spec fn is_harmless(byte: u8) -> bool {
    byte == LF || (byte >= 0x20 && byte != 0x7f)
}

/// Whether there is no control character in a text.
pub open spec fn is_quiet(s: Seq<char>) -> bool {
    forall|i: int| 0 <= i < s.len() ==> !text::is_control(#[trigger] s[i])
}

/// A text with no control character but the separator falls into quiet pieces.
proof fn lemma_quiet_pieces(s: Seq<char>, sep: char)
    requires
        forall|i: int| 0 <= i < s.len() ==> #[trigger] s[i] == sep || !text::is_control(s[i]),
    ensures
        forall|k: int|
            0 <= k < text::split(s, sep).len() ==> is_quiet(#[trigger] text::split(s, sep)[k]),
{
    text::split_pieces_are_stretches(s, sep);
}

proof fn lemma_quiet_blocks(word: Seq<char>, width: nat)
    requires
        width > 0,
        is_quiet(word),
    ensures
        is_quiet(wrap::last_block(word, width)),
        forall|k: int|
            0 <= k < wrap::full_blocks(word, width).len() ==> is_quiet(
                #[trigger] wrap::full_blocks(word, width)[k],
            ),
    decreases word.len(),
{
    if word.len() > width {
        let rest = word.skip(width as int);
        assert(is_quiet(rest)) by {
            assert forall|i: int| 0 <= i < rest.len() implies !text::is_control(
                #[trigger] rest[i],
            ) by {
                assert(rest[i] == word[i + width]);
            }
        }
        lemma_quiet_blocks(rest, width);
        let blocks = wrap::full_blocks(word, width);
        assert forall|k: int| 0 <= k < blocks.len() implies is_quiet(#[trigger] blocks[k]) by {
            if k == 0 {
                assert(blocks[0] == word.take(width as int));
            } else {
                assert(blocks[k] == wrap::full_blocks(rest, width)[k - 1]);
            }
        }
    }
}

proof fn lemma_quiet_layout(words: Seq<Seq<char>>, width: nat)
    requires
        width > 0,
        forall|k: int| 0 <= k < words.len() ==> is_quiet(#[trigger] words[k]),
    ensures
        is_quiet(wrap::laid(words, width).open_line),
        forall|k: int|
            0 <= k < wrap::laid(words, width).lines.len() ==> is_quiet(
                #[trigger] wrap::laid(words, width).lines[k],
            ),
    decreases words.len(),
{
    if words.len() > 0 {
        let before = wrap::laid(words.drop_last(), width);
        let now = wrap::laid(words, width);
        let word = words.last();
        assert forall|k: int| 0 <= k < words.drop_last().len() implies is_quiet(
            #[trigger] words.drop_last()[k],
        ) by {
            assert(words.drop_last()[k] == words[k]);
        }
        lemma_quiet_layout(words.drop_last(), width);
        assert(is_quiet(words[words.len() - 1]));
        lemma_quiet_blocks(word, width);
        assert forall|k: int| 0 <= k < now.lines.len() implies is_quiet(#[trigger] now.lines[k]) by {
            if k < before.lines.len() {
                assert(now.lines[k] == before.lines[k]);
            } else if word.len() > width {
                let blocks = wrap::full_blocks(word, width);
                let at = k - before.all().len();
                if at >= 0 {
                    assert(now.lines[k] == blocks[at]);
                }
            }
        }
    }
}

proof fn lemma_quiet_wrap(lines: Seq<Seq<char>>, width: nat)
    requires
        width > 0,
        forall|k: int| 0 <= k < lines.len() ==> is_quiet(#[trigger] lines[k]),
    ensures
        forall|k: int|
            0 <= k < escpos::wrapped_all(lines, width).len() ==> is_quiet(
                #[trigger] escpos::wrapped_all(lines, width)[k],
            ),
    decreases lines.len(),
{
    if lines.len() > 0 {
        let init = lines.drop_last();
        assert forall|k: int| 0 <= k < init.len() implies is_quiet(#[trigger] init[k]) by {
            assert(init[k] == lines[k]);
        }
        lemma_quiet_wrap(init, width);
        let line = lines.last();
        assert(is_quiet(lines[lines.len() - 1]));
        lemma_quiet_pieces(line, ' ');
        lemma_quiet_layout(text::split(line, ' '), width);
        let before = escpos::wrapped_all(init, width);
        let last = wrap::wrapped(line, width);
        let all = escpos::wrapped_all(lines, width);
        assert forall|k: int| 0 <= k < last.len() implies is_quiet(#[trigger] last[k]) by {}
        assert forall|k: int| 0 <= k < all.len() implies is_quiet(#[trigger] all[k]) by {
            if k < before.len() {
                assert(all[k] == before[k]);
            } else {
                assert(all[k] == last[k - before.len()]);
            }
        }
    }
}

proof fn lemma_quiet_rows(lines: Seq<Seq<char>>)
    requires
        forall|k: int| 0 <= k < lines.len() ==> is_quiet(#[trigger] lines[k]),
    ensures
        forall|i: int|
            0 <= i < escpos::rows(lines).len() ==> is_harmless(#[trigger] escpos::rows(lines)[i]),
    decreases lines.len(),
{
    if lines.len() > 0 {
        let init = lines.drop_last();
        assert forall|k: int| 0 <= k < init.len() implies is_quiet(#[trigger] init[k]) by {
            assert(init[k] == lines[k]);
        }
        lemma_quiet_rows(init);
        let before = escpos::rows(init);
        let line = lines.last();
        let all = escpos::rows(lines);
        assert(is_quiet(lines[lines.len() - 1]));
        assert forall|i: int| 0 <= i < all.len() implies is_harmless(#[trigger] all[i]) by {
            if i < before.len() {
                assert(all[i] == before[i]);
            } else {
                let at = i - before.len();
                assert(all[i] == escpos::encoded(line).push(LF)[at]);
                if at < line.len() {
                    assert(!text::is_control(line[at]));
                }
            }
        }
    }
}

proof fn lemma_kept_is_harmless(s: Seq<char>, width: nat)
    requires
        width > 0,
        forall|i: int| 0 <= i < s.len() ==> is_kept(#[trigger] s[i]),
    ensures
        forall|i: int|
            0 <= i < escpos::text_bytes(s, width).len() ==> is_harmless(
                #[trigger] escpos::text_bytes(s, width)[i],
            ),
        forall|i: int|
            0 <= i < escpos::text_raw_bytes(s).len() ==> is_harmless(
                #[trigger] escpos::text_raw_bytes(s)[i],
            ),
{
    lemma_quiet_pieces(s, '\n');
    let lines = text::split(s, '\n');
    lemma_quiet_rows(lines);
    lemma_quiet_wrap(lines, width);
    lemma_quiet_rows(escpos::wrapped_all(lines, width));
}

proof fn lemma_cleaned_is_kept(s: Seq<char>)
    ensures
        forall|i: int| 0 <= i < cleaned(s).len() ==> is_kept(#[trigger] cleaned(s)[i]),
{
    assert forall|i: int| 0 <= i < cleaned(s).len() implies is_kept(#[trigger] cleaned(s)[i]) by {
        s.lemma_filter_pred(|c: char| is_kept(c), i);
    }
}

/// Nothing that people send can command the printer: of a cleaned text it is sent
/// printable bytes and line feeds and nothing else, however it is wrapped.
pub proof fn a_cleaned_text_commands_nothing(s: Seq<char>, width: nat)
    requires
        width > 0,
    ensures
        forall|i: int|
            0 <= i < escpos::text_bytes(cleaned(s), width).len() ==> is_harmless(
                #[trigger] escpos::text_bytes(cleaned(s), width)[i],
            ),
{
    lemma_cleaned_is_kept(s);
    lemma_kept_is_harmless(cleaned(s), width);
}

/// Neither can the name they send: the line with the name of a sender who was let
/// in, and the time, holds printable bytes and line feeds and nothing else.
pub proof fn a_senders_name_commands_nothing(
    submission: Submission,
    password: Seq<char>,
    max_chars: nat,
    paused: bool,
    when: Seq<char>,
)
    requires
        admission(submission, password, max_chars, paused) is Ok,
        forall|i: int| 0 <= i < when.len() ==> is_kept(#[trigger] when[i]),
    ensures
        ({
            let name = (admission(submission, password, max_chars, paused)->Ok_0).1;
            let bytes = escpos::columns_bytes("from "@ + name, when);
            &&& name.len() <= NAME_CHARS
            &&& forall|i: int| 0 <= i < bytes.len() ==> is_harmless(#[trigger] bytes[i])
        }),
{
    let all = cleaned(submission.name@);
    let name = (admission(submission, password, max_chars, paused)->Ok_0).1;
    lemma_cleaned_is_kept(submission.name@);
    reveal_strlit("from ");
    let started = text::trimmed_start(all, text::Class::Space);
    text::trims_are_maximal(all, text::Class::Space);
    text::trims_are_maximal(started, text::Class::Space);
    assert forall|i: int| 0 <= i < name.len() implies is_kept(#[trigger] name[i]) by {
        assert(name[i] == all[i + text::lead(all, text::Class::Space)]);
    }
    let left = "from "@ + name;
    assert forall|i: int| 0 <= i < left.len() implies is_kept(#[trigger] left[i]) by {
        if i >= 5 {
            assert(left[i] == name[i - 5]);
        }
    }
    let line = escpos::columns_text(left, when);
    assert forall|i: int| 0 <= i < line.len() implies is_kept(#[trigger] line[i]) by {
        let at = i - (line.len() - when.len());
        if at >= 0 {
            assert(line[i] == when[at]);
        }
    }
    lemma_kept_is_harmless(line, 1);
}

/// Cleaning takes out control characters alone, and all but the newlines: a text
/// without any stays as it is.
pub proof fn cleaning_leaves_other_text_alone(s: Seq<char>)
    requires
        forall|i: int| 0 <= i < s.len() ==> is_kept(#[trigger] s[i]),
    ensures
        cleaned(s) == s,
    decreases s.len(),
{
    reveal(Seq::filter);
    if s.len() > 0 {
        assert forall|i: int| 0 <= i < s.drop_last().len() implies is_kept(
            #[trigger] s.drop_last()[i],
        ) by {
            assert(s.drop_last()[i] == s[i]);
        }
        cleaning_leaves_other_text_alone(s.drop_last());
        assert(is_kept(s[s.len() - 1]));
        assert(s =~= s.drop_last().push(s.last()));
    } else {
        assert(cleaned(s) =~= s);
    }
}

/// Cleaning goes by each character on its own, wherever it stands: a control character
/// other than a newline is taken out, and every other stays where it was.
pub proof fn cleaning_goes_character_by_character(a: Seq<char>, c: char, b: Seq<char>)
    ensures
        cleaned(a + seq![c] + b) == cleaned(a) + (if c != '\n' && ((c as u32) < 0x20 || 0x7f
            <= c as u32 <= 0x9f) {
            Seq::<char>::empty()
        } else {
            seq![c]
        }) + cleaned(b),
{
    let one = seq![c];
    Seq::filter_distributes_over_add(a, one, |c: char| is_kept(c));
    Seq::filter_distributes_over_add(a + one, b, |c: char| is_kept(c));
    reveal(Seq::filter);
    let none = Seq::<char>::empty();
    assert(one.drop_last() =~= none);
    assert(cleaned(none) =~= none);
    assert(cleaned(one) == if is_kept(one.last()) {
        cleaned(one.drop_last()).push(one.last())
    } else {
        cleaned(one.drop_last())
    });
    assert(none.push(c) =~= one);
    assert(cleaned(one) =~= if is_kept(c) {
        one
    } else {
        Seq::empty()
    });
}

proof fn lemma_nothing_to_print(s: Seq<char>)
    ensures
        text::trimmed(cleaned(s)).len() == 0 <==> forall|i: int|
            0 <= i < s.len() ==> text::is_space(#[trigger] s[i]) || text::is_control(s[i]),
{
    let kept = cleaned(s);
    text::white_space_alone_trims_to_nothing(kept);
    lemma_cleaned_is_kept(s);
    if forall|i: int| 0 <= i < s.len() ==> text::is_space(#[trigger] s[i]) || text::is_control(
        s[i],
    ) {
        assert forall|k: int| 0 <= k < kept.len() implies text::is_space(#[trigger] kept[k]) by {
            s.lemma_filter_contains_rev(|c: char| is_kept(c), kept[k]);
            let i = choose|i: int| 0 <= i < s.len() && s[i] == kept[k];
            assert(text::is_space(s[i]) || text::is_control(s[i]));
            assert(is_kept(kept[k]));
        }
    } else {
        let i = choose|i: int|
            0 <= i < s.len() && !(text::is_space(#[trigger] s[i]) || text::is_control(s[i]));
        s.lemma_filter_contains(|c: char| is_kept(c), i);
        assert(kept.contains(s[i]));
        let k = choose|k: int| 0 <= k < kept.len() && kept[k] == s[i];
        assert(!text::is_space(kept[k]));
    }
}

/// What becomes of a submission. A wrong password is told of nothing but the password;
/// a pause refuses everybody else; a message is refused where it shows nothing, or where
/// more than so many characters of it would be printed. Every other is let in: its
/// message whole but for control characters, and of its sender's name the first 24
/// characters.
pub proof fn every_other_submission_is_let_in(
    submission: Submission,
    password: Seq<char>,
    max_chars: nat,
    paused: bool,
)
    requires
        max_chars <= usize::MAX,
    ensures
        ({
            let r = admission(submission, password, max_chars, paused);
            let message = submission.text@;
            let kept = cleaned(message);
            let name = text::trimmed(cleaned(submission.name@));
            let known = submission.password@ == password;
            let blank = forall|i: int|
                0 <= i < message.len() ==> text::is_space(#[trigger] message[i])
                    || text::is_control(message[i]);
            &&& !known <==> r == Err::<(Seq<char>, Seq<char>), Refusal>(Refusal::Password)
            &&& known && paused <==> r == Err::<(Seq<char>, Seq<char>), Refusal>(Refusal::Paused)
            &&& known && !paused && blank <==> r == Err::<(Seq<char>, Seq<char>), Refusal>(
                Refusal::Empty,
            )
            &&& known && !paused && !blank && kept.len() > max_chars <==> r == Err::<
                (Seq<char>, Seq<char>),
                Refusal,
            >(Refusal::TooLong(max_chars as usize))
            &&& known && !paused && !blank && kept.len() <= max_chars <==> r is Ok
            &&& r is Ok ==> (r->Ok_0).0 == kept && (r->Ok_0).1 == name.take(
                if name.len() < 24 {
                    name.len() as int
                } else {
                    24
                },
            )
        }),
{
    lemma_nothing_to_print(submission.text@);
    let name = text::trimmed(cleaned(submission.name@));
    assert(name.take(name.len() as int) =~= name);
}

} // verus!
