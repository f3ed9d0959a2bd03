//! The rule for turning a spoken note into a print job.
//!
//! A recorder posts every recording, so most of what arrives is an ordinary note
//! that must be left alone. Only a transcription that *starts* with the word
//! "print" is a request to print, and only the rest of it goes on the paper.

use crate::text;
use crate::text::{
    chars_of, same_but_for_case, string_of, trim_of, trim_start_of, Class,
};
use vstd::prelude::*;
use vstd::slice::slice_subrange;

verus! {

/// The word that asks for a print, at the start of the message and nowhere else.
pub const TRIGGER: &'static str = "print";

/// What `char::is_alphanumeric` says of a character.
pub uninterp spec fn alphanumeric(c: char) -> bool;

/// The ASCII letters and digits.
pub open spec fn is_ascii_word(c: char) -> bool {
    let n = c as u32;
    0x30 <= n <= 0x39 || 0x41 <= n <= 0x5a || 0x61 <= n <= 0x7a
}

/// `char::is_alphanumeric` goes by the character alone: it is true of those that
/// Unicode has as alphabetic or numeric. Among the ASCII characters those are the
/// letters and the digits; which they are beyond ASCII is left to its name.
pub assume_specification[ char::is_alphanumeric ](c: char) -> (r: bool)
    ensures
        r == alphanumeric(c),
        (c as u32) < 0x80 ==> r == is_ascii_word(c),
;

/// Whether the text begins with the trigger, in small letters or capitals.
pub open spec fn is_triggered(said: Seq<char>) -> bool {
    said.len() >= 5 && text::same_ignoring_case(said.take(5), TRIGGER@)
}

/// What was said, without the white space before it.
pub open spec fn said(transcription: Seq<char>) -> Seq<char> {
    text::trimmed_start(transcription, Class::Space)
}

/// The message that follows the trigger: punctuation, of any script, and white space
/// between the two are dropped, and white space at the end.
pub open spec fn message_of(rest: Seq<char>) -> Seq<char> {
    text::trimmed(text::trimmed_start(rest, Class::SpaceOrPunctuation))
}

/// The message, unless the trigger was only the start of a longer word or nothing
/// follows it.
pub open spec fn message_after(rest: Seq<char>, runs_on: bool) -> Option<Seq<char>> {
    if runs_on || message_of(rest).len() == 0 {
        None
    } else {
        Some(message_of(rest))
    }
}

/// The part to print; `runs_on` says of a character whether it would make a longer
/// word of the trigger.
pub open spec fn request(transcription: Seq<char>, runs_on: spec_fn(char) -> bool) -> Option<
    Seq<char>,
> {
    let text = said(transcription);
    if is_triggered(text) {
        message_after(text.skip(5), text.len() > 5 && runs_on(text[5]))
    } else {
        None
    }
}

/// A request prints one unbroken stretch of what was said: it begins after the
/// trigger, what stands between the two is white space and punctuation alone, and
/// what follows it is white space alone. It is never empty, nor begins with white
/// space or punctuation, nor ends in white space.
pub proof fn a_request_is_a_stretch_of_the_note(
    transcription: Seq<char>,
    runs_on: spec_fn(char) -> bool,
)
    requires
        request(transcription, runs_on) is Some,
    ensures
        ({
            let text = said(transcription);
            let message = request(transcription, runs_on)->0;
            &&& message.len() > 0
            &&& !Class::SpaceOrPunctuation.has(message[0])
            &&& !Class::Space.has(message.last())
            &&& exists|from: int, to: int|
                {
                    &&& 5 <= from < to <= text.len()
                    &&& message == #[trigger] text.subrange(from, to)
                    &&& forall|i: int|
                        5 <= i < from ==> Class::SpaceOrPunctuation.has(#[trigger] text[i])
                    &&& forall|i: int| to <= i < text.len() ==> Class::Space.has(#[trigger] text[i])
                }
        }),
{
    let text = said(transcription);
    let rest = text.skip(5);
    let a = text::trimmed_start(rest, Class::SpaceOrPunctuation);
    let b = text::trimmed_start(a, Class::Space);
    let message = message_of(rest);
    text::trims_are_maximal(rest, Class::SpaceOrPunctuation);
    text::trims_are_maximal(a, Class::Space);
    text::trims_are_maximal(b, Class::Space);
    assert(text::lead(a, Class::Space) == 0);
    assert(b =~= a);
    let from = 5 + text::lead(rest, Class::SpaceOrPunctuation);
    let to = text.len() - text::tail(b, Class::Space);
    assert(message =~= text.subrange(from as int, to as int));
    assert forall|i: int| 5 <= i < from implies Class::SpaceOrPunctuation.has(#[trigger] text[i]) by {
        assert(text[i] == rest[i - 5]);
    }
    assert forall|i: int| to <= i < text.len() implies Class::Space.has(#[trigger] text[i]) by {
        assert(text[i] == b[i - from]);
    }
}

/// Whatever punctuation, of any script, and white space stand between the trigger
/// and the message are dropped, and the message is printed as it stands.
pub proof fn punctuation_after_the_trigger_is_dropped(
    trigger: Seq<char>,
    gap: Seq<char>,
    message: Seq<char>,
    runs_on: spec_fn(char) -> bool,
)
    requires
        text::same_ignoring_case(trigger, TRIGGER@),
        gap.len() > 0,
        !runs_on(gap[0]),
        forall|i: int| 0 <= i < gap.len() ==> Class::SpaceOrPunctuation.has(#[trigger] gap[i]),
        message.len() > 0,
        !Class::SpaceOrPunctuation.has(message[0]),
        !Class::Space.has(message.last()),
    ensures
        request(trigger + gap + message, runs_on) == Some(message),
{
    reveal_strlit("print");
    let all = trigger + gap + message;
    assert(text::folded(trigger[0]) == text::folded('p'));
    assert(all[0] == trigger[0]);
    text::lead_is_known(all, Class::Space, 0);
    assert(all.skip(0) =~= all);
    assert(all.take(5) =~= trigger);
    let rest = all.skip(5);
    assert(rest =~= gap + message);
    text::lead_is_known(rest, Class::SpaceOrPunctuation, gap.len() as int);
    assert(rest.skip(gap.len() as int) =~= message);
    text::trimming_finds_the_text(Seq::empty(), message, Seq::empty());
    assert(Seq::<char>::empty() + message + Seq::<char>::empty() =~= message);
    assert(all[5] == gap[0]);
}

/// What triggers is a text that begins with the word print, each letter small or
/// capital.
pub proof fn the_trigger_is_the_word_print(text: Seq<char>)
    ensures
        is_triggered(text) <==> {
            &&& text.len() >= 5
            &&& text[0] == 'p' || text[0] == 'P'
            &&& text[1] == 'r' || text[1] == 'R'
            &&& text[2] == 'i' || text[2] == 'I'
            &&& text[3] == 'n' || text[3] == 'N'
            &&& text[4] == 't' || text[4] == 'T'
        },
{
    reveal_strlit("print");
    if text.len() >= 5 {
        let there = text.take(5);
        let m = TRIGGER@;
        assert(m.len() == 5);
        assert(m[0] == 'p' && m[1] == 'r' && m[2] == 'i' && m[3] == 'n' && m[4] == 't');
        assert(there[0] == text[0] && there[1] == text[1] && there[2] == text[2] && there[3]
            == text[3] && there[4] == text[4]);
        text::case_is_ignored(text[0]);
        text::case_is_ignored(text[1]);
        text::case_is_ignored(text[2]);
        text::case_is_ignored(text[3]);
        text::case_is_ignored(text[4]);
        if text::same_ignoring_case(there, m) {
            assert(text::folded(there[0]) == text::folded(m[0]));
            assert(text::folded(there[1]) == text::folded(m[1]));
            assert(text::folded(there[2]) == text::folded(m[2]));
            assert(text::folded(there[3]) == text::folded(m[3]));
            assert(text::folded(there[4]) == text::folded(m[4]));
        } else {
            let i = choose|i: int|
                0 <= i < there.len() && text::folded(#[trigger] there[i]) != text::folded(m[i]);
            assert(i == 0 || i == 1 || i == 2 || i == 3 || i == 4);
        }
    }
}

/// White space before the trigger and behind the message changes nothing: the message is
/// printed as it stands between the two.
pub proof fn a_spoken_message_is_printed_as_it_stands(
    before: Seq<char>,
    trigger: Seq<char>,
    gap: Seq<char>,
    message: Seq<char>,
    after: Seq<char>,
    runs_on: spec_fn(char) -> bool,
)
    requires
        forall|i: int| 0 <= i < before.len() ==> text::is_space(#[trigger] before[i]),
        trigger.len() == 5,
        is_triggered(trigger),
        gap.len() > 0,
        !runs_on(gap[0]),
        forall|i: int|
            0 <= i < gap.len() ==> text::is_space(#[trigger] gap[i]) || text::is_any_punctuation(
                gap[i],
            ),
        message.len() > 0,
        !text::is_space(message[0]) && !text::is_any_punctuation(message[0]),
        !text::is_space(message.last()),
        forall|i: int| 0 <= i < after.len() ==> text::is_space(#[trigger] after[i]),
    ensures
        request(before + trigger + gap + message + after, runs_on) == Some(message),
{
    let all = before + trigger + gap + message + after;
    the_trigger_is_the_word_print(trigger);
    assert forall|i: int| 0 <= i < before.len() implies Class::Space.has(#[trigger] all[i]) by {
        assert(all[i] == before[i]);
    }
    assert(all[before.len() as int] == trigger[0]);
    text::lead_is_known(all, Class::Space, before.len() as int);
    let text = all.skip(before.len() as int);
    assert(said(all) == text);
    assert(text.take(5) =~= trigger);
    assert(trigger.take(5) =~= trigger);
    let rest = text.skip(5);
    assert(rest =~= gap + message + after);
    assert forall|i: int| 0 <= i < gap.len() implies Class::SpaceOrPunctuation.has(
        #[trigger] rest[i],
    ) by {
        assert(rest[i] == gap[i]);
    }
    assert(rest[gap.len() as int] == message[0]);
    text::lead_is_known(rest, Class::SpaceOrPunctuation, gap.len() as int);
    let none = Seq::<char>::empty();
    assert(rest.skip(gap.len() as int) =~= none + message + after);
    text::trimming_finds_the_text(none, message, after);
    assert(text[5] == gap[0]);
}

/// The trigger has to be a word of its own, with something behind it: what only begins
/// with it is no request, and neither is the trigger with nothing but punctuation and
/// white space behind it.
pub proof fn the_trigger_has_to_stand_alone(
    before: Seq<char>,
    trigger: Seq<char>,
    rest: Seq<char>,
    runs_on: spec_fn(char) -> bool,
)
    requires
        forall|i: int| 0 <= i < before.len() ==> text::is_space(#[trigger] before[i]),
        trigger.len() == 5,
        is_triggered(trigger),
        rest.len() > 0 && runs_on(rest[0]) || forall|i: int|
            0 <= i < rest.len() ==> text::is_space(#[trigger] rest[i]) || text::is_any_punctuation(
                rest[i],
            ),
    ensures
        request(before + trigger + rest, runs_on) is None,
{
    let all = before + trigger + rest;
    the_trigger_is_the_word_print(trigger);
    assert forall|i: int| 0 <= i < before.len() implies Class::Space.has(#[trigger] all[i]) by {
        assert(all[i] == before[i]);
    }
    assert(all[before.len() as int] == trigger[0]);
    text::lead_is_known(all, Class::Space, before.len() as int);
    let text = all.skip(before.len() as int);
    assert(text.skip(5) =~= rest);
    if rest.len() > 0 && runs_on(rest[0]) {
        assert(text[5] == rest[0]);
    } else {
        text::lead_is_known(rest, Class::SpaceOrPunctuation, rest.len() as int);
        let none = rest.skip(rest.len() as int);
        text::trims_are_maximal(none, Class::Space);
        assert(message_of(rest).len() == 0);
    }
}

/// A note that does not start with the trigger is left alone, whatever else it
/// says.
pub proof fn an_ordinary_note_is_left_alone(
    transcription: Seq<char>,
    runs_on: spec_fn(char) -> bool,
)
    requires
        !is_triggered(said(transcription)),
    ensures
        request(transcription, runs_on) is None,
{
}

/// The message after the trigger, where `runs_on` says whether the trigger was
/// only the start of a longer word.
pub fn after_trigger(rest: &[char], runs_on: bool) -> (r: Option<String>)
    ensures
        text::view_of(r) == message_after(rest@, runs_on),
{
    if runs_on {
        return None;
    }
    let body = trim_of(trim_start_of(rest, Class::SpaceOrPunctuation));
    if body.len() == 0 {
        None
    } else {
        Some(string_of(body))
    }
}

/// The part to print, or None when this was just a note.
///
/// The word has to stand alone: "printer jammed" and "printing the report" are
/// somebody talking, not an instruction. Speech-to-text likes to add a comma or a
/// colon after an opening word, so any punctuation between the trigger and the
/// message is dropped too.
pub fn requested(transcription: &str) -> (r: Option<String>)
    ensures
        text::view_of(r) == request(transcription@, |c: char| alphanumeric(c)),
        said(transcription@).len() <= 5 || (said(transcription@)[5] as u32) < 0x80
            ==> text::view_of(r) == request(transcription@, |c: char| is_ascii_word(c)),
{
    proof {
        reveal_strlit("print");
    }
    let cs = chars_of(transcription);
    let text = trim_start_of(cs.as_slice(), Class::Space);
    let trigger = chars_of(TRIGGER);
    if text.len() < 5 || !same_but_for_case(slice_subrange(text, 0, 5), trigger.as_slice()) {
        return None;
    }
    let rest = slice_subrange(text, 5, text.len());
    // "printer", "printing": the trigger has to be a word of its own.
    let runs_on = rest.len() > 0 && rest[0].is_alphanumeric();
    after_trigger(rest, runs_on)
}

} // verus!
