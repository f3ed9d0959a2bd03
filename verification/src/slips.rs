//! What goes on the paper for the endpoint: submissions and issues, laid out as
//! print jobs.

use crate::escpos;
use crate::linear::{Issue, Named};
use crate::paper;
use crate::paper::{Manner, Mark, Paper};
use crate::printer::{Align, Font, Printer, Style, WIDTH, WIDTH_BIG};
use crate::text;
use crate::text::{
    chars_of, is_blank, join, lines_of, repeat, string_of, trim_end_of, trim_of, Class,
};
use crate::wrap;
use vstd::prelude::*;
use vstd::slice::slice_subrange;

verus! {

/// The horizontal rule on a printed slip: a solid line in code page 437.
pub const RULE: char = '\u{2550}';

/// Longest slice of an issue description to put on paper.
pub const DESCRIPTION_CHARS: usize = 400;

// --- a submission ----------------------------------------------------------

/// The bytes of one submission: a rule, the message, a rule, then who and when in
/// small type.
pub open spec fn slip_bytes(message: Seq<char>, name: Seq<char>, when: Seq<char>) -> Seq<u8> {
    escpos::init_bytes() + escpos::align_bytes(Align::Left) + escpos::rule_bytes(RULE)
        + escpos::feed_bytes(1) + escpos::text_bytes(message, WIDTH as nat) + escpos::feed_bytes(1)
        + escpos::rule_bytes(RULE) + escpos::font_bytes(Font::B) + escpos::style_bytes(
        Style::plain_spec(),
    ) + (if name.len() == 0 {
        escpos::align_bytes(Align::Right) + escpos::text_bytes(when, WIDTH as nat)
    } else {
        escpos::columns_bytes("from "@ + name, when)
    }) + escpos::align_bytes(Align::Left) + escpos::font_bytes(Font::A) + escpos::feed_bytes(3)
        + escpos::cut_bytes()
}

/// What a submission is on paper: a rule, the message between two blank lines, a rule,
/// and who and when in small type.
pub open spec fn slip_marks(message: Seq<char>, name: Seq<char>, when: Seq<char>) -> Seq<Mark> {
    let rule = paper::lines(seq![paper::rule('\u{2550}')], Manner::plain());
    let small = Manner { font: Font::B, ..Manner::plain() };
    rule + seq![Mark::Feed(1)] + paper::lines(
        escpos::wrapped_all(text::split(message, '\n'), 48),
        Manner::plain(),
    ) + seq![Mark::Feed(1)] + rule + (if name.len() == 0 {
        paper::lines(
            escpos::wrapped_all(text::split(when, '\n'), 48),
            Manner { align: Align::Right, ..small },
        )
    } else {
        paper::lines(text::split(escpos::columns_text("from "@ + name, when), '\n'), small)
    }) + seq![Mark::Feed(3), Mark::Cut(4)]
}

proof fn lemma_signature(p: Paper, name: Seq<char>, when: Seq<char>)
    requires
        p.is_ready(),
        p.manner.align == Align::Left,
        paper::is_printable(name),
        paper::is_printable(when),
    ensures
        ({
            let bytes = if name.len() == 0 {
                escpos::align_bytes(Align::Right) + escpos::text_bytes(when, 48)
            } else {
                escpos::columns_bytes("from "@ + name, when)
            };
            let out = p.run(bytes + escpos::align_bytes(Align::Left));
            let marks = if name.len() == 0 {
                paper::lines(
                    escpos::wrapped_all(text::split(when, '\n'), 48),
                    Manner { align: Align::Right, ..p.manner },
                )
            } else {
                paper::lines(
                    text::split(escpos::columns_text("from "@ + name, when), '\n'),
                    p.manner,
                )
            };
            out == p.with(marks)
        }),
{
    let right = escpos::align_bytes(Align::Right);
    let left = escpos::align_bytes(Align::Left);
    let shown = escpos::text_bytes(when, 48);
    if name.len() == 0 {
        paper::runs_in_turn(p, right + shown, left);
        paper::runs_in_turn(p, right, shown);
        paper::align_is_obeyed(p, Align::Right);
        paper::wrapped_text_comes_out(p.run(right), when, 48);
        paper::align_is_obeyed(p.run(right).run(shown), Align::Left);
    } else {
        let from = "from "@ + name;
        reveal_strlit("from ");
        assert forall|i: int| 0 <= i < from.len() implies paper::is_inert(#[trigger] from[i]) by {
            if i >= 5 {
                assert(from[i] == name[i - 5]);
            }
        }
        paper::columns_are_printable(from, when);
        let line = escpos::columns_text(from, when);
        paper::runs_in_turn(p, escpos::columns_bytes(from, when), left);
        paper::raw_text_comes_out(p, line);
        paper::align_is_obeyed(p.run(escpos::columns_bytes(from, when)), Align::Left);
    }
}

/// What a submission is on paper, whatever was printed before. The printer is left as
/// it starts up.
pub proof fn a_submission_on_paper(
    p: Paper,
    message: Seq<char>,
    name: Seq<char>,
    when: Seq<char>,
)
    requires
        p.is_ready(),
        paper::is_printable(message),
        paper::is_printable(name),
        paper::is_printable(when),
    ensures
        ({
            let out = p.run(slip_bytes(message, name, when));
            &&& out.is_ready()
            &&& out.manner == Manner::plain()
            &&& out.marks == p.marks + slip_marks(message, name, when)
        }),
{
    let init = escpos::init_bytes();
    let left = escpos::align_bytes(Align::Left);
    let rule = escpos::rule_bytes(RULE);
    let feed = escpos::feed_bytes(1);
    let shown = escpos::text_bytes(message, 48);
    let small = escpos::font_bytes(Font::B);
    let plain = escpos::style_bytes(Style::plain_spec());
    let signature = if name.len() == 0 {
        escpos::align_bytes(Align::Right) + escpos::text_bytes(when, 48)
    } else {
        escpos::columns_bytes("from "@ + name, when)
    };
    let font = escpos::font_bytes(Font::A);
    let three = escpos::feed_bytes(3);
    let cut = escpos::cut_bytes();
    let s1 = init + left;
    let s2 = s1 + rule;
    let s3 = s2 + feed;
    let s4 = s3 + shown;
    let s5 = s4 + feed;
    let s6 = s5 + rule;
    let s7 = s6 + small;
    let s8 = s7 + plain;
    let s9 = s8 + signature + left;
    let s10 = s9 + font;
    let s11 = s10 + three;
    paper::runs_in_turn(p, s11, cut);
    paper::runs_in_turn(p, s10, three);
    paper::runs_in_turn(p, s9, font);
    escpos::added_in_turn(s8, signature, left);
    paper::runs_in_turn(p, s8, signature + left);
    paper::runs_in_turn(p, s7, plain);
    paper::runs_in_turn(p, s6, small);
    paper::runs_in_turn(p, s5, rule);
    paper::runs_in_turn(p, s4, feed);
    paper::runs_in_turn(p, s3, shown);
    paper::runs_in_turn(p, s2, feed);
    paper::runs_in_turn(p, s1, rule);
    paper::runs_in_turn(p, init, left);
    paper::init_is_obeyed(p);
    let a = p.run(init);
    paper::align_is_obeyed(a, Align::Left);
    let b = a.run(left);
    paper::a_rule_comes_out(b, RULE);
    let c = b.run(rule);
    paper::feed_is_obeyed(c, 1);
    let d = c.run(feed);
    paper::wrapped_text_comes_out(d, message, 48);
    let e = d.run(shown);
    paper::feed_is_obeyed(e, 1);
    let f = e.run(feed);
    paper::a_rule_comes_out(f, RULE);
    let g = f.run(rule);
    paper::font_is_obeyed(g, Font::B);
    let h = g.run(small);
    paper::style_is_obeyed(h, Style::plain_spec());
    let i = h.run(plain);
    lemma_signature(i, name, when);
    let j = i.run(signature + left);
    paper::font_is_obeyed(j, Font::A);
    let k = j.run(font);
    paper::feed_is_obeyed(k, 3);
    paper::cut_is_obeyed(k.run(three));
    assert(p.run(slip_bytes(message, name, when)).marks =~= p.marks + slip_marks(
        message,
        name,
        when,
    ));
}

/// Every character of a message but its spaces and newlines is on the paper, in order,
/// and no line of it is wider than the paper.
pub proof fn a_message_is_printed_whole(message: Seq<char>)
    ensures
        ({
            let rows = escpos::wrapped_all(text::split(message, '\n'), 48);
            &&& wrap::ink(rows.flatten()) == escpos::visible(message)
            &&& forall|i: int| 0 <= i < rows.len() ==> (#[trigger] rows[i]).len() * 12 <= 576
        }),
{
    escpos::wrapping_a_text_keeps_every_character(message, 48);
    escpos::wrapped_texts_fit(text::split(message, '\n'), 48);
}

/// Lay out one submission. The bytes go out when the job is sent.
pub fn compose(p: &mut Printer, message: &str, name: &str, when: &str)
    ensures
        final(p).extends(*old(p), slip_bytes(message@, name@, when@)),
{
    broadcast use escpos::sums_associate;

    p.init();
    p.align(Align::Left).rule(RULE).feed(1);
    p.text_wrapped(message, WIDTH);
    p.feed(1).rule(RULE);
    p.font(Font::B).style(Style::default());
    if name.is_empty() {
        p.align(Align::Right).text(when);
    } else {
        let mut from = "from ".to_string();
        from.append(name);
        p.columns(from.as_str(), when);
    }
    p.align(Align::Left).font(Font::A);
    p.feed(3).cut();
}

// --- an issue --------------------------------------------------------------

/// A text cut to so many characters, and a mark that it was cut.
pub open spec fn truncated(s: Seq<char>, max: nat) -> Seq<char> {
    let all = text::trimmed(s);
    if all.len() <= max {
        all
    } else {
        text::trimmed_end(all.take(max as int), Class::Space).push('\u{2026}')
    }
}

/// A text cut short is at most one character longer than it was to be, and begins
/// as the text does; a text that is not cut is itself, trimmed.
pub proof fn truncating_keeps_the_start(s: Seq<char>, max: nat)
    ensures
        truncated(s, max).len() <= max + 1,
        text::trimmed(s).len() <= max ==> truncated(s, max) == text::trimmed(s),
        text::trimmed(s).len() > max ==> truncated(s, max).drop_last().is_prefix_of(
            text::trimmed(s),
        ),
{
    let all = text::trimmed(s);
    if all.len() > max {
        text::trims_are_maximal(all.take(max as int), Class::Space);
        assert(truncated(s, max).drop_last() =~= text::trimmed_end(
            all.take(max as int),
            Class::Space,
        ));
    }
}

/// A text is cut only where it is too long, and no more of it than must be: all of its
/// first so many characters are kept, but for the white space that would stand before
/// the mark.
pub proof fn truncating_cuts_no_more_than_it_must(s: Seq<char>, max: nat)
    ensures
        ({
            let all = text::trimmed(s);
            let cut = truncated(s, max);
            let kept = cut.len() - 1;
            &&& all.len() <= max ==> cut == all
            &&& all.len() > max ==> {
                &&& 0 <= kept <= max
                &&& cut.last() == '\u{2026}'
                &&& forall|i: int| 0 <= i < kept ==> #[trigger] cut[i] == all[i]
                &&& forall|i: int| kept <= i < max ==> text::is_space(#[trigger] all[i])
                &&& kept > 0 ==> !text::is_space(all[kept - 1])
            }
        }),
{
    let all = text::trimmed(s);
    if all.len() > max {
        let first = all.take(max as int);
        text::trims_are_maximal(first, Class::Space);
        let cut = truncated(s, max);
        let kept = cut.len() - 1;
        assert forall|i: int| kept <= i < max implies text::is_space(#[trigger] all[i]) by {
            assert(first[i] == all[i]);
            assert(Class::Space.has(first[i]));
        }
        if kept > 0 {
            assert(text::trimmed_end(first, Class::Space).last() == all[kept - 1]);
        }
    }
}

/// Cut on a character boundary, and say that it was cut.
pub fn truncate(s: &str, max: usize) -> (out: String)
    ensures
        out@ == truncated(s@, max as nat),
{
    let cs = chars_of(s);
    let all = trim_of(cs.as_slice());
    if all.len() <= max {
        return string_of(all);
    }
    let mut out = string_of(trim_end_of(slice_subrange(all, 0, max), Class::Space));
    out.push('\u{2026}');
    out
}

/// `Label      value`, or nothing at all where there is no value: an empty field
/// tells you nothing and costs a line of paper.
pub open spec fn field_bytes(label: Seq<char>, value: Option<Seq<char>>) -> Seq<u8> {
    match value {
        Some(value) if text::trimmed(value).len() > 0 => escpos::text_bytes(
            label + text::repeated(
                ' ',
                if label.len() < 11 {
                    (11 - label.len()) as nat
                } else {
                    0
                },
            ) + value,
            WIDTH as nat,
        ),
        _ => Seq::empty(),
    }
}

pub fn field(p: &mut Printer, label: &str, value: Option<&str>)
    ensures
        final(p).extends(
            *old(p),
            field_bytes(
                label@,
                match value {
                    Some(value) => Some(value@),
                    None => None,
                },
            ),
        ),
{
    assert(p@ =~= old(p)@ + Seq::<u8>::empty());
    let value = match value {
        Some(value) => value,
        None => {
            return;
        },
    };
    if is_blank(value) {
        return;
    }
    let count: usize = chars_of(label).len();
    let indent = repeat(
        ' ',
        if count < 11 {
            11 - count
        } else {
            0
        },
    );
    let mut line = label.to_string();
    line.append(indent.as_str());
    line.append(value);
    p.text_wrapped(line.as_str(), WIDTH);
}

pub open spec fn name_of(named: Option<Named>) -> Option<Seq<char>> {
    match named {
        Some(named) => Some(named.name@),
        None => None,
    }
}

/// The head of an issue: its identifier and priority between rules, then its title
/// at double size.
pub open spec fn heading_bytes(issue: Issue) -> Seq<u8> {
    escpos::rule_bytes(RULE) + escpos::columns_bytes(
        issue.identifier@,
        match issue.priority_label {
            Some(label) => label@,
            None => Seq::empty(),
        },
    ) + escpos::rule_bytes(RULE) + escpos::feed_bytes(1) + escpos::style_bytes(Style::big_spec())
        + escpos::line_spacing_bytes(48) + escpos::text_bytes(issue.title@, WIDTH_BIG as nat)
        + escpos::default_spacing_bytes() + escpos::style_bytes(Style::plain_spec())
        + escpos::feed_bytes(1)
}

/// The fields of an issue, one line each.
pub open spec fn fields_bytes(issue: Issue) -> Seq<u8> {
    field_bytes("State"@, name_of(issue.state)) + field_bytes("Assignee"@, name_of(issue.assignee))
        + field_bytes("Estimate"@, text::view_of(issue.estimate)) + field_bytes(
        "Due"@,
        text::view_of(issue.due_date),
    ) + field_bytes("Project"@, name_of(issue.project)) + field_bytes(
        "Labels"@,
        Some(text::joined(issue.labelled(), ", "@)),
    )
}

/// The description of an issue, as far as it goes on paper.
pub open spec fn description_bytes(description: Option<String>) -> Seq<u8> {
    match description {
        Some(description) if text::trimmed(description@).len() > 0 => escpos::feed_bytes(1)
            + escpos::text_bytes(
            truncated(description@, DESCRIPTION_CHARS as nat),
            WIDTH as nat,
        ),
        _ => Seq::empty(),
    }
}

/// Lines of a note, quoted.
pub open spec fn quoted_bytes(lines: Seq<Seq<char>>) -> Seq<u8>
    decreases lines.len(),
{
    if lines.len() == 0 {
        Seq::empty()
    } else {
        quoted_bytes(lines.drop_last()) + escpos::text_bytes("> "@ + lines.last(), WIDTH as nat)
    }
}

/// The note that came with the request, quoted, so it reads as the thing you wrote
/// rather than part of the issue.
pub open spec fn note_bytes(note: Seq<char>) -> Seq<u8> {
    if note.len() == 0 {
        Seq::empty()
    } else {
        escpos::feed_bytes(1) + quoted_bytes(text::lines(note))
    }
}

/// The foot of an issue: a rule, and the time in small type.
pub open spec fn foot_bytes(when: Seq<char>) -> Seq<u8> {
    escpos::feed_bytes(1) + escpos::rule_bytes(RULE) + escpos::font_bytes(Font::B)
        + escpos::align_bytes(Align::Centre) + escpos::text_bytes(when, WIDTH as nat)
        + escpos::align_bytes(Align::Left) + escpos::font_bytes(Font::A) + escpos::feed_bytes(3)
        + escpos::cut_bytes()
}

/// One issue, one receipt.
pub open spec fn issue_bytes(issue: Issue, note: Seq<char>, when: Seq<char>) -> Seq<u8> {
    escpos::init_bytes() + escpos::align_bytes(Align::Left) + heading_bytes(issue) + fields_bytes(
        issue,
    ) + description_bytes(issue.description) + note_bytes(note) + foot_bytes(when)
}

// --- an issue on paper -----------------------------------------------------

/// Whether there is anything in a text but white space.
pub open spec fn says_something(s: Seq<char>) -> bool {
    exists|i: int| 0 <= i < s.len() && !text::is_space(#[trigger] s[i])
}

proof fn lemma_says_something(s: Seq<char>)
    ensures
        says_something(s) == (text::trimmed(s).len() > 0),
{
    text::white_space_alone_trims_to_nothing(s);
}

/// The lines of a field: its label, brought up to eleven columns, and its value. Where
/// the value says nothing there are none.
pub open spec fn field_rows(label: Seq<char>, value: Option<Seq<char>>) -> Seq<Seq<char>> {
    match value {
        Some(value) if says_something(value) => {
            let gap = if label.len() < 11 {
                (11 - label.len()) as nat
            } else {
                0
            };
            escpos::wrapped_all(
                text::split(label + Seq::new(gap, |i: int| ' ') + value, '\n'),
                48,
            )
        },
        _ => Seq::empty(),
    }
}

/// The lines of a note, each of them quoted.
pub open spec fn note_rows(lines: Seq<Seq<char>>) -> Seq<Seq<char>>
    decreases lines.len(),
{
    if lines.len() == 0 {
        Seq::empty()
    } else {
        note_rows(lines.drop_last()) + wrap::wrapped(seq!['>', ' '] + lines.last(), 48)
    }
}

/// What the head of an issue is on paper: identifier and priority at the two ends of a
/// line between rules, and the title in large type.
pub open spec fn heading_marks(issue: Issue) -> Seq<Mark> {
    let rule = paper::lines(seq![paper::rule('\u{2550}')], Manner::plain());
    let priority = match issue.priority_label {
        Some(label) => label@,
        None => Seq::empty(),
    };
    let large = Manner {
        style: Style { bold: true, tall: true, wide: true, underline: false },
        spacing: Some(48),
        ..Manner::plain()
    };
    rule + paper::lines(
        text::split(escpos::columns_text(issue.identifier@, priority), '\n'),
        Manner::plain(),
    ) + rule + seq![Mark::Feed(1)] + paper::lines(
        escpos::wrapped_all(text::split(issue.title@, '\n'), 24),
        large,
    ) + seq![Mark::Feed(1)]
}

/// What a field is on paper whose value is the name of something.
pub open spec fn named_marks(label: Seq<char>, named: Option<Named>) -> Seq<Mark> {
    match named {
        Some(named) => paper::lines(field_rows(label, Some(named.name@)), Manner::plain()),
        None => Seq::empty(),
    }
}

/// What a field is on paper whose value is a text.
pub open spec fn text_marks(label: Seq<char>, value: Option<String>) -> Seq<Mark> {
    match value {
        Some(value) => paper::lines(field_rows(label, Some(value@)), Manner::plain()),
        None => Seq::empty(),
    }
}

/// What the fields of an issue are on paper, one below the other.
pub open spec fn fields_marks(issue: Issue) -> Seq<Mark> {
    named_marks("State"@, issue.state) + named_marks("Assignee"@, issue.assignee) + text_marks(
        "Estimate"@,
        issue.estimate,
    ) + text_marks("Due"@, issue.due_date) + named_marks("Project"@, issue.project) + paper::lines(
        field_rows("Labels"@, Some(text::joined(issue.labelled(), ", "@))),
        Manner::plain(),
    )
}

/// What the description of an issue is on paper, a blank line below the fields.
pub open spec fn description_marks(description: Option<String>) -> Seq<Mark> {
    match description {
        Some(description) if says_something(description@) => seq![Mark::Feed(1)] + paper::lines(
            escpos::wrapped_all(text::split(truncated(description@, 400), '\n'), 48),
            Manner::plain(),
        ),
        _ => Seq::empty(),
    }
}

/// What a note is on paper, a blank line below the rest.
pub open spec fn note_marks(note: Seq<char>) -> Seq<Mark> {
    if note.len() == 0 {
        Seq::empty()
    } else {
        seq![Mark::Feed(1)] + paper::lines(note_rows(text::lines(note)), Manner::plain())
    }
}

/// What the foot of an issue is on paper: a rule, the time in small type in the middle,
/// and the cut.
pub open spec fn foot_marks(when: Seq<char>) -> Seq<Mark> {
    let small = Manner { font: Font::B, align: Align::Centre, ..Manner::plain() };
    seq![Mark::Feed(1)] + paper::lines(seq![paper::rule('\u{2550}')], Manner::plain())
        + paper::lines(escpos::wrapped_all(text::split(when, '\n'), 48), small) + seq![
        Mark::Feed(3),
        Mark::Cut(4),
    ]
}

/// Whether a text, if there is one, holds no character that begins a command.
pub open spec fn is_printable_if_any(s: Option<Seq<char>>) -> bool {
    s matches Some(s) ==> paper::is_printable(s)
}

/// Whether no text of an issue holds a character that begins a command.
pub open spec fn is_printable_issue(issue: Issue) -> bool {
    &&& paper::is_printable(issue.identifier@)
    &&& paper::is_printable(issue.title@)
    &&& issue.description is Some ==> paper::is_printable(issue.description->0@)
    &&& issue.priority_label is Some ==> paper::is_printable(issue.priority_label->0@)
    &&& issue.estimate is Some ==> paper::is_printable(issue.estimate->0@)
    &&& issue.due_date is Some ==> paper::is_printable(issue.due_date->0@)
    &&& issue.state is Some ==> paper::is_printable(issue.state->0.name@)
    &&& issue.assignee is Some ==> paper::is_printable(issue.assignee->0.name@)
    &&& issue.project is Some ==> paper::is_printable(issue.project->0.name@)
    &&& paper::is_printable(text::joined(issue.labelled(), ", "@))
}

proof fn lemma_heading(p: Paper, issue: Issue)
    requires
        p.is_ready(),
        p.manner == Manner::plain(),
        is_printable_issue(issue),
    ensures
        p.run(heading_bytes(issue)) == p.with(heading_marks(issue)),
{
    let priority = match issue.priority_label {
        Some(label) => label@,
        None => Seq::empty(),
    };
    assert(paper::is_printable(priority));
    paper::columns_are_printable(issue.identifier@, priority);
    let line = escpos::columns_text(issue.identifier@, priority);
    let rule = escpos::rule_bytes(RULE);
    let top = escpos::columns_bytes(issue.identifier@, priority);
    let feed = escpos::feed_bytes(1);
    let big = escpos::style_bytes(Style::big_spec());
    let spacing = escpos::line_spacing_bytes(48);
    let title = escpos::text_bytes(issue.title@, 24);
    let default = escpos::default_spacing_bytes();
    let plain = escpos::style_bytes(Style::plain_spec());
    let s1 = rule + top;
    let s2 = s1 + rule;
    let s3 = s2 + feed;
    let s4 = s3 + big;
    let s5 = s4 + spacing;
    let s6 = s5 + title;
    let s7 = s6 + default;
    let s8 = s7 + plain;
    paper::runs_in_turn(p, s8, feed);
    paper::runs_in_turn(p, s7, plain);
    paper::runs_in_turn(p, s6, default);
    paper::runs_in_turn(p, s5, title);
    paper::runs_in_turn(p, s4, spacing);
    paper::runs_in_turn(p, s3, big);
    paper::runs_in_turn(p, s2, feed);
    paper::runs_in_turn(p, s1, rule);
    paper::runs_in_turn(p, rule, top);
    paper::a_rule_comes_out(p, RULE);
    let a = p.run(rule);
    paper::raw_text_comes_out(a, line);
    let b = a.run(top);
    paper::a_rule_comes_out(b, RULE);
    let c = b.run(rule);
    paper::feed_is_obeyed(c, 1);
    let d = c.run(feed);
    paper::style_is_obeyed(d, Style::big_spec());
    let e = d.run(big);
    paper::spacing_is_obeyed(e, 48);
    let f = e.run(spacing);
    paper::wrapped_text_comes_out(f, issue.title@, 24);
    let g = f.run(title);
    paper::default_spacing_is_obeyed(g);
    let h = g.run(default);
    paper::style_is_obeyed(h, Style::plain_spec());
    let i = h.run(plain);
    paper::feed_is_obeyed(i, 1);
    assert(p.run(heading_bytes(issue)).marks =~= p.marks + heading_marks(issue));
}

/// What a field is on paper: its label, brought up to eleven columns, and its value;
/// and nothing at all where the value says nothing.
pub proof fn a_field_on_paper(p: Paper, label: Seq<char>, value: Option<Seq<char>>)
    requires
        p.is_ready(),
        paper::is_printable(label),
        is_printable_if_any(value),
    ensures
        p.run(field_bytes(label, value)) == p.with(
            paper::lines(field_rows(label, value), p.manner),
        ),
{
    let rows = field_rows(label, value);
    if value is Some {
        lemma_says_something(value->0);
    }
    if value is Some && says_something(value->0) {
        let gap = if label.len() < 11 {
            (11 - label.len()) as nat
        } else {
            0
        };
        let line = label + text::repeated(' ', gap) + value->0;
        assert(line =~= label + Seq::new(gap, |i: int| ' ') + value->0);
        assert forall|i: int| 0 <= i < line.len() implies paper::is_inert(#[trigger] line[i]) by {
            if i < label.len() {
                assert(line[i] == label[i]);
            } else if i >= label.len() + gap {
                assert(line[i] == value->0[i - label.len() - gap]);
            }
        }
        paper::wrapped_text_comes_out(p, line, 48);
    } else {
        paper::nothing_does_nothing(p);
        assert(p.marks + paper::lines(rows, p.manner) =~= p.marks);
    }
}

proof fn lemma_fields(p: Paper, issue: Issue)
    requires
        p.is_ready(),
        p.manner == Manner::plain(),
        is_printable_issue(issue),
    ensures
        p.run(fields_bytes(issue)) == p.with(fields_marks(issue)),
{
    reveal_strlit("State");
    reveal_strlit("Assignee");
    reveal_strlit("Estimate");
    reveal_strlit("Due");
    reveal_strlit("Project");
    reveal_strlit("Labels");
    let state = field_bytes("State"@, name_of(issue.state));
    let assignee = field_bytes("Assignee"@, name_of(issue.assignee));
    let estimate = field_bytes("Estimate"@, text::view_of(issue.estimate));
    let due = field_bytes("Due"@, text::view_of(issue.due_date));
    let project = field_bytes("Project"@, name_of(issue.project));
    let joined = Some(text::joined(issue.labelled(), ", "@));
    let labels = field_bytes("Labels"@, joined);
    let s1 = state + assignee;
    let s2 = s1 + estimate;
    let s3 = s2 + due;
    let s4 = s3 + project;
    paper::runs_in_turn(p, s4, labels);
    paper::runs_in_turn(p, s3, project);
    paper::runs_in_turn(p, s2, due);
    paper::runs_in_turn(p, s1, estimate);
    paper::runs_in_turn(p, state, assignee);
    a_field_on_paper(p, "State"@, name_of(issue.state));
    let a = p.run(state);
    a_field_on_paper(a, "Assignee"@, name_of(issue.assignee));
    let b = a.run(assignee);
    a_field_on_paper(b, "Estimate"@, text::view_of(issue.estimate));
    let c = b.run(estimate);
    a_field_on_paper(c, "Due"@, text::view_of(issue.due_date));
    let d = c.run(due);
    a_field_on_paper(d, "Project"@, name_of(issue.project));
    let e = d.run(project);
    a_field_on_paper(e, "Labels"@, joined);
    let plain = Manner::plain();
    assert(named_marks("State"@, issue.state) =~= paper::lines(
        field_rows("State"@, name_of(issue.state)),
        plain,
    ));
    assert(named_marks("Assignee"@, issue.assignee) =~= paper::lines(
        field_rows("Assignee"@, name_of(issue.assignee)),
        plain,
    ));
    assert(text_marks("Estimate"@, issue.estimate) =~= paper::lines(
        field_rows("Estimate"@, text::view_of(issue.estimate)),
        plain,
    ));
    assert(text_marks("Due"@, issue.due_date) =~= paper::lines(
        field_rows("Due"@, text::view_of(issue.due_date)),
        plain,
    ));
    assert(named_marks("Project"@, issue.project) =~= paper::lines(
        field_rows("Project"@, name_of(issue.project)),
        plain,
    ));
    assert(p.run(fields_bytes(issue)).marks =~= p.marks + fields_marks(issue));
}

proof fn lemma_truncated_is_printable(s: Seq<char>, max: nat)
    requires
        paper::is_printable(s),
    ensures
        paper::is_printable(truncated(s, max)),
{
    let all = text::trimmed(s);
    let started = text::trimmed_start(s, Class::Space);
    text::trims_are_maximal(s, Class::Space);
    text::trims_are_maximal(started, Class::Space);
    assert forall|i: int| 0 <= i < all.len() implies paper::is_inert(#[trigger] all[i]) by {
        assert(all[i] == s[i + text::lead(s, Class::Space)]);
    }
    truncating_cuts_no_more_than_it_must(s, max);
}

proof fn lemma_description(p: Paper, description: Option<String>)
    requires
        p.is_ready(),
        p.manner == Manner::plain(),
        is_printable_if_any(text::view_of(description)),
    ensures
        p.run(description_bytes(description)) == p.with(description_marks(description)),
{
    if description is Some {
        lemma_says_something(description->0@);
    }
    if description is Some && says_something(description->0@) {
        let shown = truncated(description->0@, 400);
        lemma_truncated_is_printable(description->0@, 400);
        let feed = escpos::feed_bytes(1);
        paper::runs_in_turn(p, feed, escpos::text_bytes(shown, 48));
        paper::feed_is_obeyed(p, 1);
        paper::wrapped_text_comes_out(p.run(feed), shown, 48);
        assert(p.run(description_bytes(description)).marks =~= p.marks + description_marks(
            description,
        ));
    } else {
        paper::nothing_does_nothing(p);
        assert(p.marks + description_marks(description) =~= p.marks);
    }
}

proof fn lemma_quoted(p: Paper, lines: Seq<Seq<char>>)
    requires
        p.is_ready(),
        forall|i: int|
            0 <= i < lines.len() ==> paper::is_printable(#[trigger] lines[i])
                && !lines[i].contains('\n'),
    ensures
        p.run(quoted_bytes(lines)) == p.with(paper::lines(note_rows(lines), p.manner)),
    decreases lines.len(),
{
    if lines.len() == 0 {
        paper::nothing_does_nothing(p);
        assert(p.marks + paper::lines(note_rows(lines), p.manner) =~= p.marks);
    } else {
        let before = lines.drop_last();
        assert(forall|i: int| 0 <= i < before.len() ==> #[trigger] before[i] == lines[i]);
        lemma_quoted(p, before);
        let last = lines[lines.len() - 1];
        reveal_strlit("> ");
        let line = "> "@ + last;
        assert(line =~= seq!['>', ' '] + last);
        assert forall|i: int| 0 <= i < line.len() implies paper::is_inert(#[trigger] line[i])
            && line[i] != '\n' by {
            if i >= 2 {
                assert(line[i] == last[i - 2]);
                assert(last.contains(last[i - 2]));
            }
        }
        assert(!line.contains('\n'));
        text::a_text_without_separators_is_one_piece(line, '\n');
        let none = Seq::<Seq<char>>::empty();
        escpos::lines_are_wrapped_one_by_one(none, line, none, 48);
        assert(none + seq![line] + none =~= seq![line]);
        assert(escpos::wrapped_all(seq![line], 48) =~= wrap::wrapped(line, 48));
        let q = p.run(quoted_bytes(before));
        paper::runs_in_turn(p, quoted_bytes(before), escpos::text_bytes(line, 48));
        paper::wrapped_text_comes_out(q, line, 48);
        assert(p.run(quoted_bytes(lines)).marks =~= p.marks + paper::lines(
            note_rows(lines),
            p.manner,
        ));
    }
}

proof fn lemma_note(p: Paper, note: Seq<char>)
    requires
        p.is_ready(),
        p.manner == Manner::plain(),
        paper::is_printable(note),
    ensures
        p.run(note_bytes(note)) == p.with(note_marks(note)),
{
    if note.len() == 0 {
        paper::nothing_does_nothing(p);
        assert(p.marks + note_marks(note) =~= p.marks);
    } else {
        let all = text::lines(note);
        let parts = text::split(note, '\n');
        text::split_pieces_are_stretches(note, '\n');
        assert forall|i: int| 0 <= i < all.len() implies paper::is_printable(#[trigger] all[i])
            && !all[i].contains('\n') by {
            assert forall|k: int| 0 <= k < all[i].len() implies paper::is_inert(
                #[trigger] all[i][k],
            ) && all[i][k] != '\n' by {
                assert(all[i][k] == parts[i][k]);
                assert(note.contains(parts[i][k]));
            }
        }
        let feed = escpos::feed_bytes(1);
        paper::runs_in_turn(p, feed, quoted_bytes(all));
        paper::feed_is_obeyed(p, 1);
        lemma_quoted(p.run(feed), all);
        assert(p.run(note_bytes(note)).marks =~= p.marks + note_marks(note));
    }
}

proof fn lemma_foot(p: Paper, when: Seq<char>)
    requires
        p.is_ready(),
        p.manner == Manner::plain(),
        paper::is_printable(when),
    ensures
        p.run(foot_bytes(when)) == p.with(foot_marks(when)),
{
    let feed = escpos::feed_bytes(1);
    let rule = escpos::rule_bytes(RULE);
    let small = escpos::font_bytes(Font::B);
    let centre = escpos::align_bytes(Align::Centre);
    let shown = escpos::text_bytes(when, 48);
    let left = escpos::align_bytes(Align::Left);
    let font = escpos::font_bytes(Font::A);
    let three = escpos::feed_bytes(3);
    let cut = escpos::cut_bytes();
    let s1 = feed + rule;
    let s2 = s1 + small;
    let s3 = s2 + centre;
    let s4 = s3 + shown;
    let s5 = s4 + left;
    let s6 = s5 + font;
    let s7 = s6 + three;
    paper::runs_in_turn(p, s7, cut);
    paper::runs_in_turn(p, s6, three);
    paper::runs_in_turn(p, s5, font);
    paper::runs_in_turn(p, s4, left);
    paper::runs_in_turn(p, s3, shown);
    paper::runs_in_turn(p, s2, centre);
    paper::runs_in_turn(p, s1, small);
    paper::runs_in_turn(p, feed, rule);
    paper::feed_is_obeyed(p, 1);
    let a = p.run(feed);
    paper::a_rule_comes_out(a, RULE);
    let b = a.run(rule);
    paper::font_is_obeyed(b, Font::B);
    let c = b.run(small);
    paper::align_is_obeyed(c, Align::Centre);
    let d = c.run(centre);
    paper::wrapped_text_comes_out(d, when, 48);
    let e = d.run(shown);
    paper::align_is_obeyed(e, Align::Left);
    let f = e.run(left);
    paper::font_is_obeyed(f, Font::A);
    let g = f.run(font);
    paper::feed_is_obeyed(g, 3);
    paper::cut_is_obeyed(g.run(three));
    assert(p.run(foot_bytes(when)).marks =~= p.marks + foot_marks(when));
}

/// What an issue is on paper, from top to bottom, whatever was printed before. The
/// printer is left as it starts up.
pub proof fn an_issue_on_paper(p: Paper, issue: Issue, note: Seq<char>, when: Seq<char>)
    requires
        p.is_ready(),
        is_printable_issue(issue),
        paper::is_printable(note),
        paper::is_printable(when),
    ensures
        ({
            let out = p.run(issue_bytes(issue, note, when));
            &&& out.is_ready()
            &&& out.manner == Manner::plain()
            &&& out.marks == p.marks + (heading_marks(issue) + fields_marks(issue)
                + description_marks(issue.description) + note_marks(note) + foot_marks(when))
        }),
{
    let init = escpos::init_bytes();
    let left = escpos::align_bytes(Align::Left);
    let heading = heading_bytes(issue);
    let fields = fields_bytes(issue);
    let description = description_bytes(issue.description);
    let quoted = note_bytes(note);
    let foot = foot_bytes(when);
    let s1 = init + left;
    let s2 = s1 + heading;
    let s3 = s2 + fields;
    let s4 = s3 + description;
    let s5 = s4 + quoted;
    paper::runs_in_turn(p, s5, foot);
    paper::runs_in_turn(p, s4, quoted);
    paper::runs_in_turn(p, s3, description);
    paper::runs_in_turn(p, s2, fields);
    paper::runs_in_turn(p, s1, heading);
    paper::runs_in_turn(p, init, left);
    paper::init_is_obeyed(p);
    let a = p.run(init);
    paper::align_is_obeyed(a, Align::Left);
    let b = a.run(left);
    lemma_heading(b, issue);
    let c = b.run(heading);
    lemma_fields(c, issue);
    let d = c.run(fields);
    lemma_description(d, issue.description);
    let e = d.run(description);
    lemma_note(e, note);
    let f = e.run(quoted);
    lemma_foot(f, when);
    let (h, i, j) = (heading_marks(issue), fields_marks(issue), description_marks(
        issue.description,
    ));
    paper::marks_add_up(p.marks, h, i);
    paper::marks_add_up(p.marks, h + i, j);
    paper::marks_add_up(p.marks, h + i + j, note_marks(note));
    paper::marks_add_up(p.marks, h + i + j + note_marks(note), foot_marks(when));
}

proof fn lemma_third_stands(
    before: Seq<Mark>,
    a: Seq<Mark>,
    b: Seq<Mark>,
    c: Seq<Mark>,
    d: Seq<Mark>,
    e: Seq<Mark>,
)
    ensures
        paper::holds(before + (a + b + c + d + e), before.len() as int, c),
{
    let all = before + (a + b + c + d + e);
    let at = before.len() + a.len() + b.len();
    assert(all.subrange(at as int, (at + c.len()) as int) =~= c);
    assert(paper::stand_at(all, c, at as int));
}

proof fn lemma_description_stands(p: Paper, issue: Issue, note: Seq<char>, when: Seq<char>)
    requires
        p.is_ready(),
        is_printable_issue(issue),
        paper::is_printable(note),
        paper::is_printable(when),
    ensures
        paper::holds(
            p.run(issue_bytes(issue, note, when)).marks,
            p.marks.len() as int,
            description_marks(issue.description),
        ),
{
    an_issue_on_paper(p, issue, note, when);
    lemma_third_stands(
        p.marks,
        heading_marks(issue),
        fields_marks(issue),
        description_marks(issue.description),
        note_marks(note),
        foot_marks(when),
    );
}

proof fn lemma_mark_is_visible(s: Seq<char>)
    ensures
        escpos::visible(s.push('\u{2026}')) == escpos::visible(s).push('\u{2026}'),
{
    reveal(Seq::filter);
    assert(s.push('\u{2026}').drop_last() =~= s);
}

/// Whether a text is cut there so that of its first so many characters all are kept, but
/// for the white space at their end.
pub open spec fn is_cut_at(s: Seq<char>, kept: int, max: int) -> bool {
    &&& 0 <= kept <= max
    &&& forall|i: int| kept <= i < max ==> text::is_space(#[trigger] s[i])
}

/// Every description that is not blank is on the receipt. A blank line stands above it.
/// One of at most 400 characters is there whole: all its characters but spaces and
/// newlines, in order. Of a longer one the first 400 are, and a mark that it was cut. No
/// line of it is wider than the paper.
pub proof fn a_description_is_on_the_receipt(
    p: Paper,
    issue: Issue,
    note: Seq<char>,
    when: Seq<char>,
) -> (rows: Seq<Seq<char>>)
    requires
        p.is_ready(),
        is_printable_issue(issue),
        paper::is_printable(note),
        paper::is_printable(when),
        issue.description matches Some(d) && says_something(d@),
    ensures
        ({
            let out = p.run(issue_bytes(issue, note, when)).marks;
            let given = text::trimmed(issue.description->0@);
            &&& paper::holds(
                out,
                p.marks.len() as int,
                seq![Mark::Feed(1)] + paper::lines(rows, Manner::plain()),
            )
            &&& forall|i: int| 0 <= i < rows.len() ==> (#[trigger] rows[i]).len() * 12 <= 576
            &&& given.len() <= 400 ==> wrap::ink(rows.flatten()) == escpos::visible(given)
            &&& given.len() > 400 ==> exists|kept: int| #[trigger]
                is_cut_at(given, kept, 400) && wrap::ink(rows.flatten()) == escpos::visible(
                    given.take(kept),
                ).push('\u{2026}')
        }),
{
    let described = issue.description->0@;
    let given = text::trimmed(described);
    let shown = truncated(described, 400);
    let rows = escpos::wrapped_all(text::split(shown, '\n'), 48);
    lemma_description_stands(p, issue, note, when);
    escpos::wrapping_a_text_keeps_every_character(shown, 48);
    escpos::wrapped_texts_fit(text::split(shown, '\n'), 48);
    truncating_cuts_no_more_than_it_must(described, 400);
    if given.len() > 400 {
        let kept = shown.len() - 1;
        assert(shown =~= given.take(kept).push('\u{2026}'));
        lemma_mark_is_visible(given.take(kept));
        assert(is_cut_at(given, kept, 400));
    }
    rows
}

fn compose_heading(p: &mut Printer, issue: &Issue)
    ensures
        final(p).extends(*old(p), heading_bytes(*issue)),
{
    broadcast use escpos::sums_associate;

    let priority = match &issue.priority_label {
        Some(label) => label.as_str(),
        None => "",
    };
    proof {
        reveal_strlit("");
        assert(""@ =~= Seq::<char>::empty());
    }
    p.rule(RULE);
    p.columns(issue.identifier.as_str(), priority);
    p.rule(RULE);
    p.feed(1);
    // Double-size needs double line spacing or the rows pull apart.
    p.style(Style::big()).line_spacing(Font::A.height() * 2);
    p.text_wrapped(issue.title.as_str(), WIDTH_BIG);
    p.default_spacing().style(Style::default());
    p.feed(1);
}

fn name_in(named: &Option<Named>) -> (r: Option<&str>)
    ensures
        match r {
            Some(s) => name_of(*named) == Some(s@),
            None => name_of(*named) is None,
        },
{
    match named {
        Some(named) => Some(named.name.as_str()),
        None => None,
    }
}

fn text_in(s: &Option<String>) -> (r: Option<&str>)
    ensures
        match r {
            Some(t) => text::view_of(*s) == Some(t@),
            None => text::view_of(*s) is None,
        },
{
    match s {
        Some(s) => Some(s.as_str()),
        None => None,
    }
}

/// The names of an issue's labels on one line.
fn labels_of(issue: &Issue) -> (r: String)
    ensures
        r@ == text::joined(issue.labelled(), ", "@),
{
    let names = issue.label_names();
    let ghost shown = names@.map_values(|s: &str| s@);
    let mut labels: Vec<String> = Vec::new();
    for i in 0..names.len()
        invariant
            shown == names@.map_values(|s: &str| s@),
            text::views(labels@) == shown.take(i as int),
    {
        let ghost before = labels@;
        let label = names[i].to_string();
        assert(label@ == shown[i as int]);
        labels.push(label);
        assert(text::views(labels@) =~= text::views(before).push(shown[i as int]));
        assert(shown.take(i + 1) =~= shown.take(i as int).push(shown[i as int]));
    }
    assert(shown.take(names@.len() as int) =~= shown);
    join(labels.as_slice(), ", ")
}

fn compose_fields(p: &mut Printer, issue: &Issue)
    ensures
        final(p).extends(*old(p), fields_bytes(*issue)),
{
    let labels = labels_of(issue);
    let ghost job = p@;
    let ghost state = field_bytes("State"@, name_of(issue.state));
    let ghost assignee = field_bytes("Assignee"@, name_of(issue.assignee));
    let ghost estimate = field_bytes("Estimate"@, text::view_of(issue.estimate));
    let ghost due = field_bytes("Due"@, text::view_of(issue.due_date));
    let ghost project = field_bytes("Project"@, name_of(issue.project));
    field(p, "State", name_in(&issue.state));
    field(p, "Assignee", name_in(&issue.assignee));
    field(p, "Estimate", text_in(&issue.estimate));
    field(p, "Due", text_in(&issue.due_date));
    field(p, "Project", name_in(&issue.project));
    field(p, "Labels", Some(labels.as_str()));
    proof {
        escpos::added_in_turn(job, state, assignee);
        escpos::added_in_turn(job, state + assignee, estimate);
        escpos::added_in_turn(job, state + assignee + estimate, due);
        escpos::added_in_turn(job, state + assignee + estimate + due, project);
        escpos::added_in_turn(
            job,
            state + assignee + estimate + due + project,
            field_bytes("Labels"@, Some(labels@)),
        );
    }
}

fn compose_description(p: &mut Printer, description: &Option<String>)
    ensures
        final(p).extends(*old(p), description_bytes(*description)),
{
    assert(p@ =~= old(p)@ + Seq::<u8>::empty());
    if let Some(description) = description {
        if !is_blank(description.as_str()) {
            p.feed(1);
            let shown = truncate(description.as_str(), DESCRIPTION_CHARS);
            p.text_wrapped(shown.as_str(), WIDTH);
            assert(p@ =~= old(p)@ + (escpos::feed_bytes(1) + escpos::text_bytes(
                shown@,
                WIDTH as nat,
            )));
        }
    }
}

fn compose_note(p: &mut Printer, note: &str)
    ensures
        final(p).extends(*old(p), note_bytes(note@)),
{
    assert(p@ =~= old(p)@ + Seq::<u8>::empty());
    if note.is_empty() {
        return;
    }
    p.feed(1);
    let cs = chars_of(note);
    let lines = lines_of(cs.as_slice());
    let ghost all = text::lines(note@);
    assert(all.take(0) =~= Seq::<Seq<char>>::empty());
    assert(p@ =~= old(p)@ + (escpos::feed_bytes(1) + quoted_bytes(all.take(0))));
    for i in 0..lines.len()
        invariant
            all == text::pieces(lines@),
            p.extends(*old(p), escpos::feed_bytes(1) + quoted_bytes(all.take(i as int))),
    {
        let mut line = "> ".to_string();
        line.append(string_of(lines[i].as_slice()).as_str());
        p.text_wrapped(line.as_str(), WIDTH);
        assert(all.take(i + 1).drop_last() =~= all.take(i as int));
        assert(all.take(i + 1).last() == lines@[i as int]@);
        assert(p@ =~= old(p)@ + (escpos::feed_bytes(1) + quoted_bytes(all.take(i + 1))));
    }
    assert(all.take(lines@.len() as int) =~= all);
}

fn compose_foot(p: &mut Printer, when: &str)
    ensures
        final(p).extends(*old(p), foot_bytes(when@)),
{
    broadcast use escpos::sums_associate;

    p.feed(1).rule(RULE);
    p.font(Font::B).align(Align::Centre);
    p.text(when);
    p.align(Align::Left).font(Font::A);
    p.feed(3).cut();
}

/// Lay out one issue, with the note that came with the request.
pub fn compose_issue(p: &mut Printer, issue: &Issue, note: &str, when: &str)
    ensures
        final(p).extends(*old(p), issue_bytes(*issue, note@, when@)),
{
    let ghost job = p@;
    let ghost init = escpos::init_bytes();
    let ghost align = escpos::align_bytes(Align::Left);
    let ghost heading = heading_bytes(*issue);
    let ghost fields = fields_bytes(*issue);
    let ghost description = description_bytes(issue.description);
    p.init();
    p.align(Align::Left);
    compose_heading(p, issue);
    compose_fields(p, issue);
    compose_description(p, &issue.description);
    compose_note(p, note);
    compose_foot(p, when);
    proof {
        escpos::added_in_turn(job, init, align);
        escpos::added_in_turn(job, init + align, heading);
        escpos::added_in_turn(job, init + align + heading, fields);
        escpos::added_in_turn(job, init + align + heading + fields, description);
        escpos::added_in_turn(job, init + align + heading + fields + description, note_bytes(note@));
        escpos::added_in_turn(
            job,
            init + align + heading + fields + description + note_bytes(note@),
            foot_bytes(when@),
        );
    }
}

} // verus!
