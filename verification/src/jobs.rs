//! What goes on the paper from the command line: sheets of text, task slips,
//! drawings and pictures, laid out as print jobs.

use crate::escpos;
use crate::paper;
use crate::paper::{Manner, Mark, Paper};
use crate::printer::{Align, Font, Printer, Style, WIDTH, WIDTH_BIG};
use crate::raster::Bits;
use crate::slips::RULE;
use crate::text;
use crate::wrap;
use crate::text::{
    chars_of, decimal_of, join, repeat, same, split_on, string_of, trim, trim_end_of, Class,
};
use vstd::prelude::*;
use vstd::utf8;

verus! {

/// Height of the banner on a task slip, in dots (about 3cm at 203 dpi).
pub const BANNER_DOTS: usize = 240;

// --- where the text comes from ---------------------------------------------

/// Where the text to print comes from.
pub enum Source {
    /// The named file.
    File(String),
    /// The words on the command line.
    Words(String),
    /// What is piped in.
    Stdin,
    /// Nowhere; why not.
    Nothing(String),
}

/// Where the text to print comes from: a file before words before a pipe.
pub fn text_source(file: Option<String>, words: &[String], piped: bool) -> (r: Source)
    ensures
        match file {
            Some(path) => r == Source::File(path),
            None => if words@.len() > 0 {
                r matches Source::Words(line) && line@ == text::joined(text::views(words@), " "@)
            } else if piped {
                r == Source::Stdin
            } else {
                r matches Source::Nothing(why) && why@
                    == "nothing to print \u{2014} pass text, use --file, or pipe stdin"@
            },
        },
{
    match file {
        Some(path) => Source::File(path),
        None => {
            if words.len() > 0 {
                Source::Words(join(words, " "))
            } else if piped {
                Source::Stdin
            } else {
                Source::Nothing(
                    "nothing to print \u{2014} pass text, use --file, or pipe stdin".to_string(),
                )
            }
        },
    }
}

// --- a sheet of text -------------------------------------------------------

/// How a text is to be printed.
pub struct Sheet {
    /// A big centred heading above the text.
    pub title: Option<String>,
    pub font: Font,
    /// Close up the line spacing so rows of art join together.
    pub tight: bool,
    /// White on black.
    pub invert: bool,
    /// Double size.
    pub big: bool,
    /// Lines exactly as given, without word-wrapping.
    pub raw: bool,
    /// The content of a QR code below the text.
    pub qr: Option<String>,
    /// Leave the paper uncut.
    pub no_cut: bool,
}

pub open spec fn title_bytes(title: Option<String>) -> Seq<u8> {
    match title {
        Some(title) => escpos::align_bytes(Align::Centre) + escpos::style_bytes(Style::big_spec())
            + escpos::text_bytes(title@, WIDTH as nat) + escpos::style_bytes(Style::plain_spec())
            + escpos::text_bytes(""@, WIDTH as nat) + escpos::align_bytes(Align::Left),
        None => Seq::empty(),
    }
}

/// How many times its usual size the text is.
pub open spec fn scale(sheet: Sheet) -> nat {
    if sheet.big {
        2
    } else {
        1
    }
}

/// The font, and what else is switched on before the text.
pub open spec fn mode_bytes(sheet: Sheet) -> Seq<u8> {
    escpos::font_bytes(sheet.font) + (if sheet.tight {
        escpos::line_spacing_bytes((sheet.font.dots_high() * scale(sheet)) as u8)
    } else {
        Seq::empty()
    }) + (if sheet.invert {
        escpos::invert_bytes(true)
    } else {
        Seq::empty()
    }) + (if sheet.big {
        escpos::style_bytes(Style { bold: false, tall: true, wide: true, underline: false })
    } else {
        Seq::empty()
    })
}

/// The text, without the newlines at its end.
pub open spec fn body_bytes(sheet: Sheet, body: Seq<char>) -> Seq<u8> {
    let shown = text::trimmed_end(body, Class::Newline);
    if sheet.raw {
        escpos::text_raw_bytes(shown)
    } else {
        escpos::text_bytes(shown, sheet.font.characters() as nat / scale(sheet))
    }
}

/// Everything switched off again.
pub open spec fn plain_bytes() -> Seq<u8> {
    escpos::style_bytes(Style::plain_spec()) + escpos::invert_bytes(false)
        + escpos::default_spacing_bytes()
}

pub open spec fn code_bytes(qr: Option<String>) -> Seq<u8> {
    match qr {
        Some(content) => escpos::feed_bytes(1) + escpos::align_bytes(Align::Centre)
            + escpos::qr_bytes(utf8::encode_utf8(content@), 6) + escpos::align_bytes(Align::Left),
        None => Seq::empty(),
    }
}

/// The paper fed out by two lines and cut, unless it is to stay.
pub open spec fn end_bytes(no_cut: bool) -> Seq<u8> {
    escpos::feed_bytes(2) + (if no_cut {
        Seq::empty()
    } else {
        escpos::cut_bytes()
    })
}

/// The bytes of a sheet of text.
pub open spec fn sheet_bytes(sheet: Sheet, body: Seq<char>) -> Seq<u8> {
    escpos::init_bytes() + title_bytes(sheet.title) + mode_bytes(sheet) + body_bytes(sheet, body)
        + plain_bytes() + code_bytes(sheet.qr) + end_bytes(sheet.no_cut)
}

fn compose_title(p: &mut Printer, title: &str)
    ensures
        final(p).extends(
            *old(p),
            escpos::align_bytes(Align::Centre) + escpos::style_bytes(Style::big_spec())
                + escpos::text_bytes(title@, WIDTH as nat) + escpos::style_bytes(
                Style::plain_spec(),
            ) + escpos::text_bytes(""@, WIDTH as nat) + escpos::align_bytes(Align::Left),
        ),
{
    broadcast use escpos::sums_associate;

    p.align(Align::Centre).style(Style::big()).text(title);
    p.style(Style::default()).text("").align(Align::Left);
}

fn compose_mode(p: &mut Printer, sheet: &Sheet)
    ensures
        final(p).extends(*old(p), mode_bytes(*sheet)),
{
    let ghost none = Seq::<u8>::empty();
    let ghost font = escpos::font_bytes(sheet.font);
    p.font(sheet.font);
    let ghost mut spacing = none;
    if sheet.tight {
        let height: u8 = if sheet.big {
            sheet.font.height() * 2
        } else {
            sheet.font.height()
        };
        p.line_spacing(height);
        proof {
            spacing = escpos::line_spacing_bytes(height);
        }
    }
    assert(p@ =~= old(p)@ + (font + spacing));
    let ghost mut invert = none;
    if sheet.invert {
        p.invert(true);
        proof {
            invert = escpos::invert_bytes(true);
        }
    }
    assert(p@ =~= old(p)@ + (font + spacing + invert));
    let ghost mut style = none;
    if sheet.big {
        let double = Style { bold: false, tall: true, wide: true, underline: false };
        p.style(double);
        proof {
            style = escpos::style_bytes(double);
        }
    }
    assert(p@ =~= old(p)@ + (font + spacing + invert + style));
}

fn compose_body(p: &mut Printer, sheet: &Sheet, body: &str)
    ensures
        final(p).extends(*old(p), body_bytes(*sheet, body@)),
{
    let cs = chars_of(body);
    let shown = string_of(trim_end_of(cs.as_slice(), Class::Newline));
    if sheet.raw {
        p.text_raw(shown.as_str());
    } else {
        let width: usize = if sheet.big {
            sheet.font.columns() / 2
        } else {
            sheet.font.columns()
        };
        p.text_wrapped(shown.as_str(), width);
    }
}

fn compose_plain(p: &mut Printer)
    ensures
        final(p).extends(*old(p), plain_bytes()),
{
    broadcast use escpos::sums_associate;

    p.style(Style::default());
    p.invert(false).default_spacing();
}

fn compose_code(p: &mut Printer, content: &str)
    ensures
        final(p).extends(
            *old(p),
            escpos::feed_bytes(1) + escpos::align_bytes(Align::Centre) + escpos::qr_bytes(
                utf8::encode_utf8(content@),
                6,
            ) + escpos::align_bytes(Align::Left),
        ),
{
    let ghost job = p@;
    let ghost feed = escpos::feed_bytes(1);
    let ghost centre = escpos::align_bytes(Align::Centre);
    let ghost code = escpos::qr_bytes(utf8::encode_utf8(content@), 6);
    p.feed(1).align(Align::Centre).qr(content, 6).align(Align::Left);
    proof {
        escpos::added_in_turn(job, feed, centre);
        escpos::added_in_turn(job, feed + centre, code);
        escpos::added_in_turn(job, feed + centre + code, escpos::align_bytes(Align::Left));
    }
}

fn compose_end(p: &mut Printer, no_cut: bool)
    ensures
        final(p).extends(*old(p), end_bytes(no_cut)),
{
    p.feed(2);
    if !no_cut {
        p.cut();
    }
    assert(p@ =~= old(p)@ + end_bytes(no_cut));
}

/// Lay out a sheet of text.
pub fn compose_sheet(p: &mut Printer, sheet: &Sheet, body: &str)
    ensures
        final(p).extends(*old(p), sheet_bytes(*sheet, body@)),
{
    let ghost job = p@;
    let ghost init = escpos::init_bytes();
    let ghost title = title_bytes(sheet.title);
    let ghost mode = mode_bytes(*sheet);
    let ghost shown = body_bytes(*sheet, body@);
    let ghost plain = plain_bytes();
    let ghost code = code_bytes(sheet.qr);
    p.init();
    let ghost after_init = p@;
    if let Some(title) = &sheet.title {
        compose_title(p, title.as_str());
    }
    assert(p@ =~= after_init + title);
    compose_mode(p, sheet);
    compose_body(p, sheet, body);
    compose_plain(p);
    let ghost after_plain = p@;
    if let Some(qr) = &sheet.qr {
        compose_code(p, qr.as_str());
    }
    assert(p@ =~= after_plain + code);
    compose_end(p, sheet.no_cut);
    proof {
        escpos::added_in_turn(job, init, title);
        escpos::added_in_turn(job, init + title, mode);
        escpos::added_in_turn(job, init + title + mode, shown);
        escpos::added_in_turn(job, init + title + mode + shown, plain);
        escpos::added_in_turn(job, init + title + mode + shown + plain, code);
        escpos::added_in_turn(
            job,
            init + title + mode + shown + plain + code,
            end_bytes(sheet.no_cut),
        );
    }
}

// --- a sheet on paper ------------------------------------------------------

/// How the text of a sheet comes out.
pub open spec fn sheet_manner(sheet: Sheet) -> Manner {
    let high: int = match sheet.font {
        Font::A => 24,
        Font::B => 17,
    };
    Manner {
        font: sheet.font,
        style: Style { bold: false, tall: sheet.big, wide: sheet.big, underline: false },
        align: Align::Left,
        spacing: if !sheet.tight {
            None
        } else if sheet.big {
            Some((2 * high) as u8)
        } else {
            Some(high as u8)
        },
        invert: sheet.invert,
    }
}

/// The lines of a sheet: those of the text without the newlines at its end, and where
/// they may be broken, as many characters each as 576 dots have room for.
pub open spec fn sheet_rows(sheet: Sheet, body: Seq<char>) -> Seq<Seq<char>> {
    let given = text::split(text::trimmed_end(body, Class::Newline), '\n');
    if sheet.raw {
        given
    } else {
        escpos::wrapped_all(given, 576nat / sheet_manner(sheet).dots_wide())
    }
}

/// The heading of a sheet: bold, of double size and centred, with a blank line below.
pub open spec fn title_marks(title: Option<String>) -> Seq<Mark> {
    let centred = Manner { align: Align::Centre, ..Manner::plain() };
    let loud = Style { bold: true, tall: true, wide: true, underline: false };
    match title {
        Some(title) => paper::lines(
            escpos::wrapped_all(text::split(title@, '\n'), 48),
            Manner { style: loud, ..centred },
        ) + paper::lines(seq![Seq::<char>::empty()], centred),
        None => Seq::empty(),
    }
}

/// The QR code of a sheet, a line below the text.
pub open spec fn code_marks(qr: Option<String>) -> Seq<Mark> {
    match qr {
        Some(content) => seq![
            Mark::Feed(1),
            Mark::Code { data: utf8::encode_utf8(content@), size: 6, model: 2, level: 0 },
        ],
        None => Seq::empty(),
    }
}

pub open spec fn end_marks(no_cut: bool) -> Seq<Mark> {
    if no_cut {
        seq![Mark::Feed(2)]
    } else {
        seq![Mark::Feed(2), Mark::Cut(4)]
    }
}

/// Whether what goes on a sheet holds no character that begins a command, and its code
/// is not too long for the one command that carries it.
pub open spec fn can_be_read(sheet: Sheet, body: Seq<char>) -> bool {
    &&& paper::is_printable(body)
    &&& sheet.title matches Some(title) ==> paper::is_printable(title@)
    &&& sheet.qr matches Some(content) ==> utf8::encode_utf8(content@).len() + 3 < 0x1_0000
}

proof fn lemma_title(p: Paper, title: Option<String>)
    requires
        p.is_ready(),
        p.manner == Manner::plain(),
        title matches Some(title) ==> paper::is_printable(title@),
    ensures
        p.run(title_bytes(title)) == p.with(title_marks(title)),
{
    broadcast use paper::commands_are_obeyed;

    match title {
        Some(title) => {
            reveal_strlit("");
            assert(""@ =~= Seq::<char>::empty());
            assert(!""@.contains('\n'));
            text::a_text_without_separators_is_one_piece(""@, '\n');
            let none = Seq::<Seq<char>>::empty();
            escpos::lines_are_wrapped_one_by_one(none, ""@, none, 48);
            assert(none + seq![""@] + none =~= seq![""@]);
            assert(none + seq![""@] =~= seq![""@]);
            assert(escpos::wrapped_all(seq![""@], 48) =~= seq![""@]);
        },
        None => {
            paper::nothing_does_nothing(p);
            assert(p.marks + title_marks(title) =~= p.marks);
        },
    }
}

proof fn lemma_mode(p: Paper, sheet: Sheet)
    requires
        p.is_ready(),
        p.manner == Manner::plain(),
    ensures
        p.run(mode_bytes(sheet)) == (Paper { manner: sheet_manner(sheet), ..p }),
{
    let none = Seq::<u8>::empty();
    let font = escpos::font_bytes(sheet.font);
    let high = (sheet.font.dots_high() * scale(sheet)) as u8;
    let spacing = if sheet.tight {
        escpos::line_spacing_bytes(high)
    } else {
        none
    };
    let invert = if sheet.invert {
        escpos::invert_bytes(true)
    } else {
        none
    };
    let double = Style { bold: false, tall: true, wide: true, underline: false };
    let style = if sheet.big {
        escpos::style_bytes(double)
    } else {
        none
    };
    let a = p.run(font);
    let b = a.run(spacing);
    let c = b.run(invert);
    let d = c.run(style);
    paper::nothing_does_nothing(a);
    paper::nothing_does_nothing(b);
    paper::nothing_does_nothing(c);
    paper::font_is_obeyed(p, sheet.font);
    paper::spacing_is_obeyed(a, high);
    paper::invert_is_obeyed(b, true);
    paper::style_is_obeyed(c, double);
    paper::runs_in_turn(p, font, spacing);
    paper::runs_in_turn(p, font + spacing, invert);
    paper::runs_in_turn(p, font + spacing + invert, style);
}

proof fn lemma_room(sheet: Sheet, len: nat)
    ensures
        ({
            let width = sheet.font.characters() as nat / scale(sheet);
            let across = sheet_manner(sheet).dots_wide();
            &&& width > 0
            &&& width == 576nat / across
            &&& len * across <= 576 <==> len <= width
        }),
{
    let across = sheet_manner(sheet).dots_wide();
    match (sheet.font, sheet.big) {
        (Font::A, false) => {
            assert(across == 12);
            assert(576nat / 12 == 48 && 48nat / 1 == 48);
            assert(len * across == len * 12) by (nonlinear_arith)
                requires
                    across == 12,
            ;
        },
        (Font::A, true) => {
            assert(across == 24);
            assert(576nat / 24 == 24 && 48nat / 2 == 24);
            assert(len * across == len * 24) by (nonlinear_arith)
                requires
                    across == 24,
            ;
        },
        (Font::B, false) => {
            assert(across == 9);
            assert(576nat / 9 == 64 && 64nat / 1 == 64);
            assert(len * across == len * 9) by (nonlinear_arith)
                requires
                    across == 9,
            ;
        },
        (Font::B, true) => {
            assert(across == 18);
            assert(576nat / 18 == 32 && 64nat / 2 == 32);
            assert(len * across == len * 18) by (nonlinear_arith)
                requires
                    across == 18,
            ;
        },
    }
}

proof fn lemma_body(p: Paper, sheet: Sheet, body: Seq<char>)
    requires
        p.is_ready(),
        p.manner == sheet_manner(sheet),
        paper::is_printable(body),
    ensures
        p.run(body_bytes(sheet, body)) == p.with(
            paper::lines(sheet_rows(sheet, body), sheet_manner(sheet)),
        ),
{
    let shown = text::trimmed_end(body, Class::Newline);
    text::trims_are_maximal(body, Class::Newline);
    assert(paper::is_printable(shown));
    let width = sheet.font.characters() as nat / scale(sheet);
    lemma_room(sheet, 0);
    if sheet.raw {
        paper::raw_text_comes_out(p, shown);
    } else {
        paper::wrapped_text_comes_out(p, shown, width);
    }
}

proof fn lemma_plain(p: Paper)
    requires
        p.is_ready(),
        p.manner.align == Align::Left,
    ensures
        p.run(plain_bytes()) == (Paper {
            manner: Manner { font: p.manner.font, ..Manner::plain() },
            ..p
        }),
{
    broadcast use paper::commands_are_obeyed;

}

proof fn lemma_code(p: Paper, qr: Option<String>)
    requires
        p.is_ready(),
        p.manner.align == Align::Left,
        qr matches Some(content) ==> utf8::encode_utf8(content@).len() + 3 < 0x1_0000,
    ensures
        ({
            let out = p.run(code_bytes(qr));
            &&& out.is_ready()
            &&& out.manner == p.manner
            &&& out.marks == p.marks + code_marks(qr)
        }),
{
    match qr {
        Some(content) => {
            let data = utf8::encode_utf8(content@);
            let feed = escpos::feed_bytes(1);
            let centre = escpos::align_bytes(Align::Centre);
            let code = escpos::qr_bytes(data, 6);
            let left = escpos::align_bytes(Align::Left);
            let q = p.run(feed).run(centre);
            paper::runs_in_turn(p, feed, centre);
            paper::runs_in_turn(p, feed + centre, code);
            paper::runs_in_turn(p, feed + centre + code, left);
            paper::feed_is_obeyed(p, 1);
            paper::align_is_obeyed(p.run(feed), Align::Centre);
            paper::a_code_comes_out(q, data, 6);
            paper::align_is_obeyed(q.run(code), Align::Left);
            let mark = Mark::Code { data, size: 6, model: 2, level: 0 };
            paper::marks_add_up(p.marks, seq![Mark::Feed(1)], seq![mark]);
            assert(seq![Mark::Feed(1)] + seq![mark] =~= code_marks(qr));
        },
        None => {
            paper::nothing_does_nothing(p);
            assert(p.marks + code_marks(qr) =~= p.marks);
        },
    }
}

proof fn lemma_end(p: Paper, no_cut: bool)
    requires
        p.is_ready(),
    ensures
        p.run(end_bytes(no_cut)) == p.with(end_marks(no_cut)),
{
    let feed = escpos::feed_bytes(2);
    let q = p.run(feed);
    paper::feed_is_obeyed(p, 2);
    paper::cut_is_obeyed(q);
    paper::nothing_does_nothing(q);
    paper::runs_in_turn(
        p,
        feed,
        if no_cut {
            Seq::empty()
        } else {
            escpos::cut_bytes()
        },
    );
    assert(p.marks + seq![Mark::Feed(2)] + seq![Mark::Cut(4)] =~= p.marks + seq![
        Mark::Feed(2),
        Mark::Cut(4),
    ]);
}

/// What a sheet is on paper, from top to bottom, whatever was printed before: its
/// heading, its lines in the font and the size that were asked for, its code, and the
/// cut. The printer is left as it starts up, but for the font.
pub proof fn a_sheet_on_paper(p: Paper, sheet: Sheet, body: Seq<char>)
    requires
        p.is_ready(),
        can_be_read(sheet, body),
    ensures
        ({
            let out = p.run(sheet_bytes(sheet, body));
            &&& out.is_ready()
            &&& out.manner == (Manner { font: sheet.font, ..Manner::plain() })
            &&& out.marks == p.marks + (title_marks(sheet.title) + paper::lines(
                sheet_rows(sheet, body),
                sheet_manner(sheet),
            ) + code_marks(sheet.qr) + end_marks(sheet.no_cut))
        }),
{
    let init = escpos::init_bytes();
    let title = title_bytes(sheet.title);
    let mode = mode_bytes(sheet);
    let shown = body_bytes(sheet, body);
    let plain = plain_bytes();
    let code = code_bytes(sheet.qr);
    let end = end_bytes(sheet.no_cut);
    paper::runs_in_turn(p, init + title + mode + shown + plain + code, end);
    paper::runs_in_turn(p, init + title + mode + shown + plain, code);
    paper::runs_in_turn(p, init + title + mode + shown, plain);
    paper::runs_in_turn(p, init + title + mode, shown);
    paper::runs_in_turn(p, init + title, mode);
    paper::runs_in_turn(p, init, title);
    let a = p.run(init);
    paper::init_is_obeyed(p);
    lemma_title(a, sheet.title);
    let b = a.run(title);
    lemma_mode(b, sheet);
    let c = b.run(mode);
    lemma_body(c, sheet, body);
    let d = c.run(shown);
    lemma_plain(d);
    let e = d.run(plain);
    lemma_code(e, sheet.qr);
    let f = e.run(code);
    lemma_end(f, sheet.no_cut);
    let t = title_marks(sheet.title);
    let l = paper::lines(sheet_rows(sheet, body), sheet_manner(sheet));
    let q = code_marks(sheet.qr);
    let z = end_marks(sheet.no_cut);
    paper::marks_add_up(p.marks, t, l);
    paper::marks_add_up(p.marks, t + l, q);
    paper::marks_add_up(p.marks, t + l + q, z);
}

/// The text of a sheet uses the width of the paper and no more: unless it is printed
/// raw, no line of it is wider than 576 dots, and a line of the text that is not wider
/// than that goes out unbroken.
pub proof fn a_sheets_lines_fit_the_paper(p: Paper, sheet: Sheet, body: Seq<char>, k: int)
    requires
        p.is_ready(),
        can_be_read(sheet, body),
        !sheet.raw,
        0 <= k < text::split(text::trimmed_end(body, Class::Newline), '\n').len(),
    ensures
        ({
            let out = p.run(sheet_bytes(sheet, body)).marks;
            let line = text::split(text::trimmed_end(body, Class::Newline), '\n')[k];
            let across: nat = (match sheet.font {
                Font::A => 12nat,
                Font::B => 9nat,
            }) * (if sheet.big {
                2nat
            } else {
                1nat
            });
            &&& forall|i: int|
                p.marks.len() <= i < out.len() && ((#[trigger] out[i]) matches Mark::Line {
                    manner,
                    ..
                } && manner.align == Align::Left) ==> out[i].fits()
            &&& line.len() * across <= 576 ==> exists|i: int|
                p.marks.len() <= i < out.len() && (#[trigger] out[i]) == (Mark::Line {
                    text: escpos::encoded(line),
                    manner: sheet_manner(sheet),
                })
        }),
{
    let given = text::split(text::trimmed_end(body, Class::Newline), '\n');
    let manner = sheet_manner(sheet);
    let rows = sheet_rows(sheet, body);
    let width = 576nat / manner.dots_wide();
    let line = given[k];
    let out = p.run(sheet_bytes(sheet, body)).marks;
    a_sheet_on_paper(p, sheet, body);
    lemma_room(sheet, line.len());
    escpos::wrapped_texts_fit(given, width);
    let title = title_marks(sheet.title);
    let shown = paper::lines(rows, manner);
    let first = p.marks.len() + title.len();
    assert forall|i: int|
        p.marks.len() <= i < out.len() && ((#[trigger] out[i]) matches Mark::Line { manner, .. }
            && manner.align == Align::Left) implies out[i].fits() by {
        if first <= i < first + shown.len() {
            assert(out[i] == shown[i - first]);
            assert(rows[i - first].len() <= width);
            lemma_room(sheet, rows[i - first].len());
        } else if i < first {
            assert(out[i] == title[i - p.marks.len()]);
        } else {
            let rest = code_marks(sheet.qr) + end_marks(sheet.no_cut);
            assert(out[i] == rest[i - first - shown.len()]);
        }
    }
    if line.len() * manner.dots_wide() <= 576 {
        assert(line.len() <= width);
        wrap::a_line_that_fits_stays_as_it_is(line, width);
        escpos::lines_are_wrapped_one_by_one(given.take(k), line, given.skip(k + 1), width);
        assert(given =~= given.take(k) + seq![line] + given.skip(k + 1));
        let at = escpos::wrapped_all(given.take(k), width).len() as int;
        assert(rows[at] == line);
        assert(out[first + at] == shown[at]);
    }
}

/// Whatever characters a text holds, a line of it that is not wider than the paper goes
/// out as its characters and a line feed.
pub proof fn a_line_that_fits_is_sent_unbroken(sheet: Sheet, line: Seq<char>)
    requires
        !sheet.raw,
        !line.contains('\n'),
        line.len() * ((match sheet.font {
            Font::A => 12nat,
            Font::B => 9nat,
        }) * (if sheet.big {
            2nat
        } else {
            1nat
        })) <= 576,
    ensures
        body_bytes(sheet, line) == escpos::encoded(line).push(0x0a),
{
    let width = sheet.font.characters() as nat / scale(sheet);
    lemma_room(sheet, line.len());
    let none = Seq::<Seq<char>>::empty();
    if line.len() > 0 {
        assert(line.contains(line[line.len() - 1]));
    }
    text::tail_is_known(line, Class::Newline, 0);
    assert(line.take(line.len() as int) =~= line);
    text::a_text_without_separators_is_one_piece(line, '\n');
    wrap::a_line_that_fits_stays_as_it_is(line, width);
    escpos::lines_are_wrapped_one_by_one(none, line, none, width);
    assert(none + seq![line] + none =~= seq![line]);
    assert(escpos::wrapped_all(seq![line], width) =~= seq![line]);
    assert(seq![line].drop_last() =~= none);
    assert(escpos::rows(none) =~= Seq::<u8>::empty());
    assert(escpos::rows(seq![line]) =~= escpos::encoded(line).push(0x0a));
}

/// Each line of a text is sent on its own: a text of two parts with a newline between
/// them is sent as the one and after it the other.
pub proof fn a_text_is_sent_line_by_line(sheet: Sheet, a: Seq<char>, b: Seq<char>)
    requires
        a.len() == 0 || a.last() != '\n',
        b.len() > 0,
        b.last() != '\n',
    ensures
        body_bytes(sheet, a.push('\n') + b) == body_bytes(sheet, a) + body_bytes(sheet, b),
{
    let s = a.push('\n') + b;
    text::tail_is_known(a, Class::Newline, 0);
    text::tail_is_known(b, Class::Newline, 0);
    text::tail_is_known(s, Class::Newline, 0);
    assert(a.take(a.len() as int) =~= a);
    assert(b.take(b.len() as int) =~= b);
    assert(s.take(s.len() as int) =~= s);
    text::a_separator_parts_a_text(a, b, '\n');
    let (x, y) = (text::split(a, '\n'), text::split(b, '\n'));
    let width = sheet.font.characters() as nat / scale(sheet);
    escpos::rows_of_both(x, y);
    lemma_wrapped_both(x, y, width);
    escpos::rows_of_both(escpos::wrapped_all(x, width), escpos::wrapped_all(y, width));
}

proof fn lemma_wrapped_both(x: Seq<Seq<char>>, y: Seq<Seq<char>>, width: nat)
    ensures
        escpos::wrapped_all(x + y, width) == escpos::wrapped_all(x, width) + escpos::wrapped_all(
            y,
            width,
        ),
    decreases y.len(),
{
    if y.len() == 0 {
        assert(x + y =~= x);
        assert(escpos::wrapped_all(x, width) + escpos::wrapped_all(y, width) =~= escpos::wrapped_all(
            x,
            width,
        ));
    } else {
        lemma_wrapped_both(x, y.drop_last(), width);
        assert((x + y).drop_last() =~= x + y.drop_last());
        assert(escpos::wrapped_all(x + y, width) =~= escpos::wrapped_all(x, width)
            + escpos::wrapped_all(y, width));
    }
}

/// The newlines at the end of a text cost no paper.
pub proof fn newlines_at_the_end_cost_nothing(sheet: Sheet, body: Seq<char>)
    ensures
        body_bytes(sheet, body.push('\n')) == body_bytes(sheet, body),
{
    let more = body.push('\n');
    assert(more.drop_last() =~= body);
    text::trims_are_maximal(body, Class::Newline);
    assert(text::trimmed_end(more, Class::Newline) =~= text::trimmed_end(body, Class::Newline));
}

// --- a picture -------------------------------------------------------------

/// The bytes of a picture on its own.
pub open spec fn picture_bytes(bits: Bits, no_cut: bool) -> Seq<u8> {
    escpos::init_bytes() + escpos::image_bytes(bits) + end_bytes(no_cut)
}

/// Lay out a picture on its own.
pub fn compose_picture(p: &mut Printer, bits: &Bits, no_cut: bool)
    requires
        escpos::has_its_rows(*bits),
    ensures
        final(p).extends(*old(p), picture_bytes(*bits, no_cut)),
{
    let ghost job = p@;
    let ghost init = escpos::init_bytes();
    let ghost image = escpos::image_bytes(*bits);
    p.init().image(bits);
    compose_end(p, no_cut);
    proof {
        escpos::added_in_turn(job, init, image);
        escpos::added_in_turn(job, init + image, end_bytes(no_cut));
    }
}

/// What a picture is on paper: its dots, every row of them once, and the end.
pub proof fn a_picture_on_paper(p: Paper, bits: Bits, no_cut: bool)
    requires
        p.is_ready(),
        escpos::has_its_rows(bits),
        bits.row_bytes < 0x1_0000,
    ensures
        ({
            let out = p.run(picture_bytes(bits, no_cut));
            &&& out.is_ready()
            &&& out.manner == Manner::plain()
            &&& exists|dots: Seq<Mark>| #[trigger]
                paper::is_image(dots, bits) && out.marks == p.marks + (dots + end_marks(no_cut))
        }),
{
    let init = escpos::init_bytes();
    let image = escpos::image_bytes(bits);
    let end = end_bytes(no_cut);
    paper::runs_in_turn(p, init + image, end);
    paper::runs_in_turn(p, init, image);
    paper::init_is_obeyed(p);
    let dots = paper::an_image_comes_out(p.run(init), bits);
    lemma_end(p.run(init).run(image), no_cut);
    paper::marks_add_up(p.marks, dots, end_marks(no_cut));
}

// --- drawings --------------------------------------------------------------

/// A drawing made of characters, with the credit kept against it.
pub struct Art {
    pub name: String,
    pub title: String,
    pub artist: String,
    /// Columns and rows of the drawing.
    pub width: usize,
    pub height: usize,
    pub art: String,
}

/// How many drawings a sheet of samples shows.
pub const SAMPLES: usize = 12;

/// Spaces that bring so many characters up to a width.
pub open spec fn fill(taken: nat, width: nat) -> Seq<char> {
    text::repeated(
        ' ',
        if taken < width {
            (width - taken) as nat
        } else {
            0
        },
    )
}

impl Art {
    /// The caption of a drawing: its title, and the name it goes by.
    pub open spec fn captioned(self) -> Seq<char> {
        self.title@ + "  ["@ + self.name@ + "]"@
    }

    /// The drawing as it is listed: its name and its size in columns, then its title
    /// and who drew it.
    pub open spec fn listed(self) -> Seq<char> {
        let across = text::decimal(self.width as nat);
        let down = text::decimal(self.height as nat);
        self.name@ + fill(self.name@.len(), 28) + " "@ + fill(across.len(), 2) + across + "x"@
            + down + fill(down.len(), 2) + "  "@ + self.title@ + " (by "@ + self.artist@ + ")"@
    }

    fn caption(&self) -> (r: String)
        ensures
            r@ == self.captioned(),
    {
        let mut out = self.title.clone();
        out.append("  [");
        out.append(self.name.as_str());
        out.append("]");
        out
    }

    /// The drawing as it is listed.
    pub fn listing(&self) -> (r: String)
        ensures
            r@ == self.listed(),
    {
        let across = decimal_of(self.width as u128);
        let down = decimal_of(self.height as u128);
        let mut out = self.name.clone();
        out.append(fill_for(self.name.as_str(), 28).as_str());
        out.append(" ");
        out.append(fill_for(across.as_str(), 2).as_str());
        out.append(across.as_str());
        out.append("x");
        out.append(down.as_str());
        out.append(fill_for(down.as_str(), 2).as_str());
        out.append("  ");
        out.append(self.title.as_str());
        out.append(" (by ");
        out.append(self.artist.as_str());
        out.append(")");
        out
    }
}

/// Drawings are listed in columns. A name of at most 28 characters stands at the start of
/// the line and only spaces up to the 29th; the size, of two digits each way at most, is
/// next, the width to the right of its column; and from the 36th on the title and the
/// artist, whatever stands before.
pub proof fn drawings_are_listed_in_columns(piece: Art)
    requires
        piece.name@.len() <= 28,
        piece.width < 100,
        piece.height < 100,
    ensures
        ({
            let line = piece.listed();
            let (title, artist) = (piece.title@, piece.artist@);
            &&& line.take(piece.name@.len() as int) == piece.name@
            &&& forall|i: int| piece.name@.len() <= i < 29 ==> #[trigger] line[i] == ' '
            &&& line[29] == (if piece.width < 10 {
                ' '
            } else {
                text::digit((piece.width / 10) as nat)
            })
            &&& line[30] == text::digit((piece.width % 10) as nat)
            &&& line[31] == 'x'
            &&& line[32] == text::digit(
                if piece.height < 10 {
                    piece.height as nat
                } else {
                    (piece.height / 10) as nat
                },
            )
            &&& line[33] == (if piece.height < 10 {
                ' '
            } else {
                text::digit((piece.height % 10) as nat)
            })
            &&& line.skip(34) == seq![' ', ' '] + title + seq![' ', '(', 'b', 'y', ' '] + artist
                + seq![')']
        }),
{
    reveal_strlit(" ");
    reveal_strlit("x");
    reveal_strlit("  ");
    reveal_strlit(" (by ");
    reveal_strlit(")");
    reveal_with_fuel(text::decimal, 3);
    let line = piece.listed();
    let across = text::decimal(piece.width as nat);
    let down = text::decimal(piece.height as nat);
    assert(across.len() == if piece.width < 10 {
        1nat
    } else {
        2
    });
    assert(down.len() == if piece.height < 10 {
        1nat
    } else {
        2
    });
    assert(line.take(piece.name@.len() as int) =~= piece.name@);
    assert(line.skip(34) =~= seq![' ', ' '] + piece.title@ + seq![' ', '(', 'b', 'y', ' ']
        + piece.artist@ + seq![')']);
}

fn fill_for(s: &str, width: usize) -> (r: String)
    ensures
        r@ == fill(s@.len(), width as nat),
{
    let taken: usize = chars_of(s).len();
    repeat(
        ' ',
        if taken < width {
            width - taken
        } else {
            0
        },
    )
}

/// Where a collection holds the drawing of that name, if it does. Of two drawings of
/// one name it is the first.
pub fn by_name(pieces: &[Art], name: &str) -> (r: Option<usize>)
    ensures
        match r {
            Some(i) => {
                &&& i < pieces@.len()
                &&& pieces@[i as int].name@ == name@
                &&& forall|j: int| 0 <= j < i ==> (#[trigger] pieces@[j]).name@ != name@
            },
            None => forall|j: int|
                0 <= j < pieces@.len() ==> (#[trigger] pieces@[j]).name@ != name@,
        },
{
    for i in 0..pieces.len()
        invariant
            forall|j: int| 0 <= j < i ==> (#[trigger] pieces@[j]).name@ != name@,
    {
        if same(pieces[i].name.as_str(), name) {
            return Some(i);
        }
    }
    None
}

/// The drawings that a sheet of samples shows: the first of those that fit the paper
/// at double size.
pub open spec fn samples(pieces: Seq<Art>) -> Seq<Art>
    decreases pieces.len(),
{
    if pieces.len() == 0 {
        Seq::empty()
    } else {
        let before = samples(pieces.drop_last());
        if pieces.last().width <= WIDTH_BIG && before.len() < SAMPLES {
            before.push(pieces.last())
        } else {
            before
        }
    }
}

/// A sheet shows drawings in the order of the collection, each of them narrow enough,
/// and leaves one that fits out only when it is full.
pub proof fn samples_are_the_first_that_fit(pieces: Seq<Art>, i: int)
    requires
        0 <= i < pieces.len(),
    ensures
        samples(pieces).len() <= SAMPLES,
        forall|k: int|
            0 <= k < samples(pieces).len() ==> (#[trigger] samples(pieces)[k]).width <= WIDTH_BIG,
        pieces[i].width <= WIDTH_BIG && samples(pieces.take(i)).len() < SAMPLES
            ==> samples(pieces).len() > samples(pieces.take(i)).len() && samples(
            pieces,
        )[samples(pieces.take(i)).len() as int] == pieces[i],
    decreases pieces.len(),
{
    let init = pieces.drop_last();
    if i < init.len() {
        samples_are_the_first_that_fit(init, i);
        assert(init.take(i) =~= pieces.take(i));
        assert(init[i] == pieces[i]);
    } else {
        assert(init =~= pieces.take(i));
        if init.len() > 0 {
            samples_are_the_first_that_fit(init, init.len() - 1);
        }
    }
}

/// The samples are the first twelve of the drawings that are at most 24 columns wide, in
/// the order of the collection.
pub proof fn samples_are_the_first_dozen_that_fit(pieces: Seq<Art>)
    ensures
        ({
            let fit = pieces.filter(|piece: Art| piece.width <= 24);
            samples(pieces) == fit.take(
                if fit.len() < 12 {
                    fit.len() as int
                } else {
                    12
                },
            )
        }),
    decreases pieces.len(),
{
    reveal(Seq::filter);
    let fit = pieces.filter(|piece: Art| piece.width <= 24);
    if pieces.len() > 0 {
        samples_are_the_first_dozen_that_fit(pieces.drop_last());
        assert(samples(pieces) =~= fit.take(
            if fit.len() < 12 {
                fit.len() as int
            } else {
                12
            },
        ));
    } else {
        assert(samples(pieces) =~= fit.take(0));
    }
}

/// One drawing of a sheet of samples: its caption in bold, the drawing and a blank
/// line.
pub open spec fn sample_bytes(piece: Art) -> Seq<u8> {
    escpos::style_bytes(Style { bold: true, tall: false, wide: false, underline: false })
        + escpos::text_bytes(piece.captioned(), WIDTH as nat) + escpos::style_bytes(
        Style::plain_spec(),
    ) + escpos::text_raw_bytes(piece.art@) + escpos::feed_bytes(1)
}

pub open spec fn samples_bytes(shown: Seq<Art>) -> Seq<u8>
    decreases shown.len(),
{
    if shown.len() == 0 {
        Seq::empty()
    } else {
        samples_bytes(shown.drop_last()) + sample_bytes(shown.last())
    }
}

/// The bytes of a sheet of sample drawings, with their lines closed up.
pub open spec fn art_sheet_bytes(pieces: Seq<Art>) -> Seq<u8> {
    escpos::init_bytes() + escpos::line_spacing_bytes(24) + samples_bytes(samples(pieces)) + (
    escpos::default_spacing_bytes() + escpos::feed_bytes(2) + escpos::cut_bytes())
}

fn compose_sample(p: &mut Printer, piece: &Art)
    ensures
        final(p).extends(*old(p), sample_bytes(*piece)),
{
    broadcast use escpos::sums_associate;

    let caption = piece.caption();
    p.style(Style { bold: true, tall: false, wide: false, underline: false }).text(
        caption.as_str(),
    );
    p.style(Style::default()).text_raw(piece.art.as_str()).feed(1);
}

fn compose_samples(p: &mut Printer, pieces: &[Art])
    ensures
        final(p).extends(*old(p), samples_bytes(samples(pieces@))),
{
    let ghost job = p@;
    let mut count: usize = 0;
    assert(p@ =~= job + samples_bytes(samples(pieces@.take(0))));
    for i in 0..pieces.len()
        invariant
            count == samples(pieces@.take(i as int)).len(),
            count <= SAMPLES,
            job == old(p)@,
            p.extends(*old(p), samples_bytes(samples(pieces@.take(i as int)))),
    {
        let ghost so_far = samples(pieces@.take(i as int));
        assert(pieces@.take(i + 1).drop_last() =~= pieces@.take(i as int));
        if pieces[i].width <= WIDTH_BIG && count < SAMPLES {
            compose_sample(p, &pieces[i]);
            count += 1;
            assert(so_far.push(pieces@[i as int]).drop_last() =~= so_far);
            proof {
                escpos::added_in_turn(job, samples_bytes(so_far), sample_bytes(pieces@[i as int]));
            }
        }
    }
    assert(pieces@.take(pieces@.len() as int) =~= pieces@);
}

fn compose_art_end(p: &mut Printer)
    ensures
        final(p).extends(
            *old(p),
            escpos::default_spacing_bytes() + escpos::feed_bytes(2) + escpos::cut_bytes(),
        ),
{
    broadcast use escpos::sums_associate;

    p.default_spacing().feed(2).cut();
}

/// Lay out a sheet of sample drawings with their names.
pub fn compose_art_sheet(p: &mut Printer, pieces: &[Art])
    ensures
        final(p).extends(*old(p), art_sheet_bytes(pieces@)),
{
    let ghost job = p@;
    let ghost init = escpos::init_bytes();
    let ghost spacing = escpos::line_spacing_bytes(24);
    let ghost shown = samples_bytes(samples(pieces@));
    let ghost end = escpos::default_spacing_bytes() + escpos::feed_bytes(2) + escpos::cut_bytes();
    p.init().line_spacing(Font::A.height());
    compose_samples(p, pieces);
    compose_art_end(p);
    proof {
        escpos::added_in_turn(job, init, spacing);
        escpos::added_in_turn(job, init + spacing, shown);
        escpos::added_in_turn(job, init + spacing + shown, end);
    }
}

/// What the samples are on paper: of each its caption in bold, the drawing with its
/// lines closed up, and a blank line.
pub open spec fn samples_marks(shown: Seq<Art>) -> Seq<Mark>
    decreases shown.len(),
{
    if shown.len() == 0 {
        Seq::empty()
    } else {
        let piece = shown.last();
        let close = Manner { spacing: Some(24), ..Manner::plain() };
        let bold = Style { bold: true, tall: false, wide: false, underline: false };
        samples_marks(shown.drop_last()) + (paper::lines(
            escpos::wrapped_all(text::split(piece.title@ + "  ["@ + piece.name@ + "]"@, '\n'), 48),
            Manner { style: bold, ..close },
        ) + paper::lines(text::split(piece.art@, '\n'), close) + seq![Mark::Feed(1)])
    }
}

/// Whether what is shown of a drawing holds no character that begins a command.
pub open spec fn can_be_shown(piece: Art) -> bool {
    paper::is_printable(piece.title@) && paper::is_printable(piece.name@) && paper::is_printable(
        piece.art@,
    )
}

proof fn lemma_sample(p: Paper, piece: Art)
    requires
        p.is_ready(),
        p.manner == (Manner { spacing: Some(24), ..Manner::plain() }),
        can_be_shown(piece),
    ensures
        ({
            let bold = Style { bold: true, tall: false, wide: false, underline: false };
            p.run(sample_bytes(piece)) == p.with(
                paper::lines(
                    escpos::wrapped_all(
                        text::split(piece.title@ + "  ["@ + piece.name@ + "]"@, '\n'),
                        48,
                    ),
                    Manner { style: bold, ..p.manner },
                ) + paper::lines(text::split(piece.art@, '\n'), p.manner) + seq![Mark::Feed(1)],
            )
        }),
{
    broadcast use paper::commands_are_obeyed;

    reveal_strlit("  [");
    reveal_strlit("]");
    let (a, b) = (piece.title@ + "  ["@, piece.title@ + "  ["@ + piece.name@);
    let caption = piece.captioned();
    assert forall|i: int| 0 <= i < caption.len() implies paper::is_inert(#[trigger] caption[i]) by {
        if i < piece.title@.len() {
            assert(caption[i] == piece.title@[i]);
        } else if a.len() <= i < b.len() {
            assert(caption[i] == piece.name@[i - a.len()]);
        }
    }
    assert(paper::is_printable(caption));
}

proof fn lemma_samples(p: Paper, shown: Seq<Art>)
    requires
        p.is_ready(),
        p.manner == (Manner { spacing: Some(24), ..Manner::plain() }),
        forall|i: int| 0 <= i < shown.len() ==> can_be_shown(#[trigger] shown[i]),
    ensures
        p.run(samples_bytes(shown)) == p.with(samples_marks(shown)),
    decreases shown.len(),
{
    if shown.len() == 0 {
        paper::nothing_does_nothing(p);
        assert(p.marks + samples_marks(shown) =~= p.marks);
    } else {
        let before = shown.drop_last();
        assert(forall|i: int| 0 <= i < before.len() ==> #[trigger] before[i] == shown[i]);
        lemma_samples(p, before);
        assert(can_be_shown(shown[shown.len() - 1]));
        lemma_sample(p.with(samples_marks(before)), shown.last());
        paper::runs_in_turn(p, samples_bytes(before), sample_bytes(shown.last()));
        assert(p.run(samples_bytes(shown)).marks =~= p.marks + samples_marks(shown));
    }
}

proof fn lemma_samples_come_from(pieces: Seq<Art>)
    requires
        forall|i: int| 0 <= i < pieces.len() ==> can_be_shown(#[trigger] pieces[i]),
    ensures
        forall|i: int|
            0 <= i < samples(pieces).len() ==> can_be_shown(#[trigger] samples(pieces)[i]),
    decreases pieces.len(),
{
    if pieces.len() > 0 {
        let before = pieces.drop_last();
        assert(forall|i: int| 0 <= i < before.len() ==> #[trigger] before[i] == pieces[i]);
        lemma_samples_come_from(before);
        assert(can_be_shown(pieces[pieces.len() - 1]));
        let (was, now) = (samples(before), samples(pieces));
        assert forall|i: int| 0 <= i < now.len() implies can_be_shown(#[trigger] now[i]) by {
            if i < was.len() {
                assert(now[i] == was[i]);
            }
        }
    }
}

/// What a sheet of samples is on paper: the samples, two blank lines and the cut.
pub proof fn an_art_sheet_on_paper(p: Paper, pieces: Seq<Art>)
    requires
        p.is_ready(),
        forall|i: int| 0 <= i < pieces.len() ==> can_be_shown(#[trigger] pieces[i]),
    ensures
        ({
            let out = p.run(art_sheet_bytes(pieces));
            &&& out.is_ready()
            &&& out.manner == Manner::plain()
            &&& out.marks == p.marks + (samples_marks(samples(pieces)) + seq![
                Mark::Feed(2),
                Mark::Cut(4),
            ])
        }),
{
    let init = escpos::init_bytes();
    let spacing = escpos::line_spacing_bytes(24);
    let shown = samples_bytes(samples(pieces));
    let default = escpos::default_spacing_bytes();
    let feed = escpos::feed_bytes(2);
    let cut = escpos::cut_bytes();
    lemma_samples_come_from(pieces);
    paper::runs_in_turn(p, init + spacing + shown, default + feed + cut);
    paper::runs_in_turn(p, init + spacing, shown);
    paper::runs_in_turn(p, init, spacing);
    paper::init_is_obeyed(p);
    let a = p.run(init);
    paper::spacing_is_obeyed(a, 24);
    let b = a.run(spacing);
    lemma_samples(b, samples(pieces));
    let c = b.run(shown);
    paper::runs_in_turn(c, default + feed, cut);
    paper::runs_in_turn(c, default, feed);
    paper::default_spacing_is_obeyed(c);
    let d = c.run(default);
    paper::feed_is_obeyed(d, 2);
    paper::cut_is_obeyed(d.run(feed));
    assert(p.run(art_sheet_bytes(pieces)).marks =~= p.marks + (samples_marks(samples(pieces))
        + seq![Mark::Feed(2), Mark::Cut(4)]));
}

// --- a task slip -----------------------------------------------------------

/// The picture on a task slip.
pub enum Banner<'a> {
    /// A generated piece.
    Piece(&'a Bits),
    /// A drawing made of characters.
    Art(&'a str),
}

/// The length of the longest line.
pub open spec fn widest(lines: Seq<Seq<char>>) -> nat
    decreases lines.len(),
{
    if lines.len() == 0 {
        0
    } else if widest(lines.drop_last()) > lines.last().len() {
        widest(lines.drop_last())
    } else {
        lines.last().len()
    }
}

/// The spaces to the left of a drawing that is centred.
pub open spec fn margin(art: Seq<char>, width: nat) -> nat {
    let across = widest(text::split(art, '\n'));
    if across < width {
        ((width - across) / 2) as nat
    } else {
        0
    }
}

/// Each line with the spaces before it.
pub open spec fn indented(lines: Seq<Seq<char>>, by: nat) -> Seq<Seq<char>> {
    lines.map_values(|line: Seq<char>| text::repeated(' ', by) + line)
}

/// A drawing centred as a block: every line is padded equally, since centring each
/// line on its own would shear it apart.
pub open spec fn centred_art(art: Seq<char>, width: nat) -> Seq<char> {
    text::joined(indented(text::split(art, '\n'), margin(art, width)), "\n"@)
}

proof fn lemma_widest(lines: Seq<Seq<char>>, i: int)
    requires
        0 <= i < lines.len(),
    ensures
        lines[i].len() <= widest(lines),
    decreases lines.len(),
{
    if i < lines.len() - 1 {
        lemma_widest(lines.drop_last(), i);
        assert(lines.drop_last()[i] == lines[i]);
    }
}

/// A drawing that fits the paper still fits once it is centred, and each of its
/// lines keeps its place against the others.
pub proof fn centring_keeps_a_drawing_whole(art: Seq<char>, width: nat, i: int)
    requires
        widest(text::split(art, '\n')) <= width,
        0 <= i < text::split(art, '\n').len(),
    ensures
        ({
            let line = indented(text::split(art, '\n'), margin(art, width))[i];
            &&& line.len() <= width
            &&& line == text::repeated(' ', margin(art, width)) + text::split(art, '\n')[i]
        }),
{
    lemma_widest(text::split(art, '\n'), i);
}

/// A drawing is centred to within half a column, and one that is wider than the paper
/// is left where it is. Its width is that of its widest line.
pub proof fn drawings_are_centred(art: Seq<char>, width: nat)
    ensures
        ({
            let across = widest(text::split(art, '\n'));
            let left = margin(art, width) as int;
            let right = width - across - left;
            &&& across <= width ==> left <= right <= left + 1
            &&& across > width ==> left == 0
            &&& forall|i: int|
                0 <= i < text::split(art, '\n').len() ==> (#[trigger] text::split(
                    art,
                    '\n',
                )[i]).len() <= across
            &&& exists|i: int|
                0 <= i < text::split(art, '\n').len() && (#[trigger] text::split(
                    art,
                    '\n',
                )[i]).len() == across
        }),
{
    let all = text::split(art, '\n');
    text::split_pieces_rejoin(art, '\n');
    assert forall|i: int| 0 <= i < all.len() implies (#[trigger] all[i]).len() <= widest(all) by {
        lemma_widest(all, i);
    }
    lemma_widest_is_met(all);
}

proof fn lemma_widest_is_met(lines: Seq<Seq<char>>)
    requires
        lines.len() > 0,
    ensures
        exists|i: int| 0 <= i < lines.len() && (#[trigger] lines[i]).len() == widest(lines),
    decreases lines.len(),
{
    let last = lines.len() - 1;
    if lines[last].len() != widest(lines) {
        let before = lines.drop_last();
        assert(before.len() == 0 ==> widest(before) == 0);
        lemma_widest_is_met(before);
        let i = choose|i: int| 0 <= i < before.len() && (#[trigger] before[i]).len() == widest(
            before,
        );
        assert(lines[i].len() == widest(lines));
    }
}

/// A drawing that is centred has the lines it had, each the same number of spaces
/// further in.
pub proof fn centring_moves_every_line_alike(art: Seq<char>, width: nat)
    ensures
        text::split(centred_art(art, width), '\n') == text::split(art, '\n').map_values(
            |line: Seq<char>| text::repeated(' ', margin(art, width)) + line,
        ),
{
    let given = text::split(art, '\n');
    let by_ = margin(art, width);
    let moved = indented(given, by_);
    text::split_pieces_rejoin(art, '\n');
    assert forall|i: int| 0 <= i < moved.len() implies !(#[trigger] moved[i]).contains('\n') by {
        let line = given[i];
        assert forall|k: int| 0 <= k < moved[i].len() implies moved[i][k] != '\n' by {
            if k >= by_ {
                assert(moved[i][k] == line[k - by_]);
                assert(!given[i].contains('\n'));
                assert(given[i].contains(line[k - by_]));
            }
        }
    }
    reveal_strlit("\n");
    assert("\n"@ =~= seq!['\n']);
    text::splitting_undoes_joining(moved, '\n');
    assert(moved =~= given.map_values(|line: Seq<char>| text::repeated(' ', by_) + line));
}

/// The drawing centred as a block.
pub fn centred(art: &str, width: usize) -> (out: String)
    ensures
        out@ == centred_art(art@, width as nat),
{
    let cs = chars_of(art);
    let lines = split_on(cs.as_slice(), '\n');
    let ghost all = text::split(art@, '\n');
    let mut across: usize = 0;
    assert(all.take(0) =~= Seq::<Seq<char>>::empty());
    for i in 0..lines.len()
        invariant
            all == text::pieces(lines@),
            across == widest(all.take(i as int)),
    {
        assert(all.take(i + 1).drop_last() =~= all.take(i as int));
        assert(all.take(i + 1).last() == lines@[i as int]@);
        if lines[i].len() >= across {
            across = lines[i].len();
        }
    }
    assert(all.take(lines@.len() as int) =~= all);
    let by: usize = if across < width {
        (width - across) / 2
    } else {
        0
    };
    let mut out: Vec<String> = Vec::new();
    let ghost moved = indented(all, by as nat);
    for i in 0..lines.len()
        invariant
            all == text::pieces(lines@),
            moved == indented(all, by as nat),
            text::views(out@) == moved.take(i as int),
    {
        let ghost before = out@;
        let mut line = repeat(' ', by);
        line.append(string_of(lines[i].as_slice()).as_str());
        assert(all[i as int] == lines@[i as int]@);
        assert(line@ == moved[i as int]);
        out.push(line);
        assert(text::views(out@) =~= text::views(before).push(moved[i as int]));
        assert(moved.take(i + 1) =~= moved.take(i as int).push(moved[i as int]));
    }
    assert(moved.take(lines@.len() as int) =~= moved);
    join(out.as_slice(), "\n")
}

pub open spec fn banner_bytes(banner: Banner) -> Seq<u8> {
    match banner {
        Banner::Piece(bits) => escpos::image_bytes(*bits),
        Banner::Art(art) => escpos::style_bytes(
            Style { bold: false, tall: true, wide: true, underline: false },
        ) + escpos::line_spacing_bytes(48) + escpos::text_raw_bytes(
            centred_art(art@, WIDTH_BIG as nat),
        ) + escpos::default_spacing_bytes() + escpos::style_bytes(Style::plain_spec()),
    }
}

/// The head of a task slip: two rules.
pub open spec fn opening_bytes() -> Seq<u8> {
    escpos::init_bytes() + escpos::align_bytes(Align::Left) + escpos::rule_bytes(RULE)
        + escpos::rule_bytes(RULE) + escpos::feed_bytes(1)
}

/// The task in large type, and two more rules.
pub open spec fn task_text_bytes(task: Seq<char>) -> Seq<u8> {
    escpos::feed_bytes(1) + escpos::align_bytes(Align::Centre) + escpos::style_bytes(
        Style::big_spec(),
    ) + escpos::text_bytes(task, (WIDTH_BIG - 1) as nat) + escpos::style_bytes(Style::plain_spec())
        + escpos::align_bytes(Align::Left) + escpos::feed_bytes(1) + escpos::rule_bytes(RULE)
        + escpos::rule_bytes(RULE) + escpos::feed_bytes(3) + escpos::cut_bytes()
}

/// The bytes of a task slip: two rules, a banner, the task in large type, two more
/// rules.
pub open spec fn task_bytes(body: Seq<char>, banner: Banner) -> Seq<u8> {
    opening_bytes() + banner_bytes(banner) + task_text_bytes(text::trimmed(body))
}

/// What a task slip is on paper above its picture: two rules and a blank line.
pub open spec fn opening_marks() -> Seq<Mark> {
    let rule = paper::rule('\u{2550}');
    paper::lines(seq![rule, rule], Manner::plain()) + seq![Mark::Feed(1)]
}

/// What a task slip is on paper below its picture: the task without the white space
/// around it, in large type in the middle, and two rules.
pub open spec fn closing_marks(body: Seq<char>) -> Seq<Mark> {
    let rule = paper::rule('\u{2550}');
    let large = Manner {
        style: Style { bold: true, tall: true, wide: true, underline: false },
        align: Align::Centre,
        ..Manner::plain()
    };
    seq![Mark::Feed(1)] + paper::lines(
        escpos::wrapped_all(text::split(text::trimmed(body), '\n'), 23),
        large,
    ) + seq![Mark::Feed(1)] + paper::lines(seq![rule, rule], Manner::plain()) + seq![
        Mark::Feed(3),
        Mark::Cut(4),
    ]
}

/// What a drawing on a task slip is on paper: its lines at double size and closed up,
/// centred as a block.
pub open spec fn drawing_marks(art: Seq<char>) -> Seq<Mark> {
    let double = Manner {
        style: Style { bold: false, tall: true, wide: true, underline: false },
        spacing: Some(48),
        ..Manner::plain()
    };
    paper::lines(
        text::split(art, '\n').map_values(
            |line: Seq<char>| text::repeated(' ', margin(art, 24)) + line,
        ),
        double,
    )
}

proof fn lemma_opening(p: Paper)
    requires
        p.is_ready(),
    ensures
        p.run(opening_bytes()) == (Paper { manner: Manner::plain(), ..p }).with(opening_marks()),
{
    let init = escpos::init_bytes();
    let left = escpos::align_bytes(Align::Left);
    let rule = escpos::rule_bytes(RULE);
    let feed = escpos::feed_bytes(1);
    paper::runs_in_turn(p, init + left + rule + rule, feed);
    paper::runs_in_turn(p, init + left + rule, rule);
    paper::runs_in_turn(p, init + left, rule);
    paper::runs_in_turn(p, init, left);
    paper::init_is_obeyed(p);
    let a = p.run(init);
    paper::align_is_obeyed(a, Align::Left);
    paper::a_rule_comes_out(a, RULE);
    let b = a.run(rule);
    paper::a_rule_comes_out(b, RULE);
    paper::feed_is_obeyed(b.run(rule), 1);
    assert(p.run(opening_bytes()).marks =~= p.marks + opening_marks());
}

proof fn lemma_closing(p: Paper, body: Seq<char>)
    requires
        p.is_ready(),
        p.manner == Manner::plain(),
        paper::is_printable(body),
    ensures
        p.run(task_text_bytes(text::trimmed(body))) == p.with(closing_marks(body)),
{
    let task = text::trimmed(body);
    let started = text::trimmed_start(body, Class::Space);
    text::trims_are_maximal(body, Class::Space);
    text::trims_are_maximal(started, Class::Space);
    assert forall|i: int| 0 <= i < task.len() implies paper::is_inert(#[trigger] task[i]) by {
        assert(task[i] == body[i + text::lead(body, Class::Space)]);
    }
    let feed = escpos::feed_bytes(1);
    let centre = escpos::align_bytes(Align::Centre);
    let big = escpos::style_bytes(Style::big_spec());
    let shown = escpos::text_bytes(task, 23);
    let plain = escpos::style_bytes(Style::plain_spec());
    let left = escpos::align_bytes(Align::Left);
    let rule = escpos::rule_bytes(RULE);
    let three = escpos::feed_bytes(3);
    let cut = escpos::cut_bytes();
    let s1 = feed + centre;
    let s2 = s1 + big;
    let s3 = s2 + shown;
    let s4 = s3 + plain;
    let s5 = s4 + left;
    let s6 = s5 + feed;
    let s7 = s6 + rule;
    let s8 = s7 + rule;
    let s9 = s8 + three;
    paper::runs_in_turn(p, s9, cut);
    paper::runs_in_turn(p, s8, three);
    paper::runs_in_turn(p, s7, rule);
    paper::runs_in_turn(p, s6, rule);
    paper::runs_in_turn(p, s5, feed);
    paper::runs_in_turn(p, s4, left);
    paper::runs_in_turn(p, s3, plain);
    paper::runs_in_turn(p, s2, shown);
    paper::runs_in_turn(p, s1, big);
    paper::runs_in_turn(p, feed, centre);
    paper::feed_is_obeyed(p, 1);
    let a = p.run(feed);
    paper::align_is_obeyed(a, Align::Centre);
    let b = a.run(centre);
    paper::style_is_obeyed(b, Style::big_spec());
    let c = b.run(big);
    paper::wrapped_text_comes_out(c, task, 23);
    let d = c.run(shown);
    paper::style_is_obeyed(d, Style::plain_spec());
    let e = d.run(plain);
    paper::align_is_obeyed(e, Align::Left);
    let f = e.run(left);
    paper::feed_is_obeyed(f, 1);
    let g = f.run(feed);
    paper::a_rule_comes_out(g, RULE);
    let h = g.run(rule);
    paper::a_rule_comes_out(h, RULE);
    let i = h.run(rule);
    paper::feed_is_obeyed(i, 3);
    paper::cut_is_obeyed(i.run(three));
    assert(p.run(task_text_bytes(task)).marks =~= p.marks + closing_marks(body));
}

proof fn lemma_drawing(p: Paper, art: &str)
    requires
        p.is_ready(),
        p.manner == Manner::plain(),
        paper::is_printable(art@),
    ensures
        p.run(banner_bytes(Banner::Art(art))) == p.with(drawing_marks(art@)),
{
    let centred_text = centred_art(art@, 24);
    let double = Style { bold: false, tall: true, wide: true, underline: false };
    centring_moves_every_line_alike(art@, 24);
    lemma_centred_is_printable(art@, 24);
    let style = escpos::style_bytes(double);
    let spacing = escpos::line_spacing_bytes(48);
    let shown = escpos::text_raw_bytes(centred_text);
    let default = escpos::default_spacing_bytes();
    let plain = escpos::style_bytes(Style::plain_spec());
    paper::runs_in_turn(p, style + spacing + shown + default, plain);
    paper::runs_in_turn(p, style + spacing + shown, default);
    paper::runs_in_turn(p, style + spacing, shown);
    paper::runs_in_turn(p, style, spacing);
    paper::style_is_obeyed(p, double);
    let a = p.run(style);
    paper::spacing_is_obeyed(a, 48);
    let b = a.run(spacing);
    paper::raw_text_comes_out(b, centred_text);
    let c = b.run(shown);
    paper::default_spacing_is_obeyed(c);
    paper::style_is_obeyed(c.run(default), Style::plain_spec());
    assert(b.marks + paper::lines(text::split(centred_text, '\n'), b.manner) =~= p.marks
        + drawing_marks(art@));
}

proof fn lemma_joined_is_printable(parts: Seq<Seq<char>>)
    requires
        forall|i: int| 0 <= i < parts.len() ==> paper::is_printable(#[trigger] parts[i]),
    ensures
        paper::is_printable(text::joined(parts, seq!['\n'])),
    decreases parts.len(),
{
    if parts.len() == 1 {
        assert(paper::is_printable(parts[0]));
    } else if parts.len() > 1 {
        let before = parts.drop_last();
        assert(forall|i: int| 0 <= i < before.len() ==> #[trigger] before[i] == parts[i]);
        lemma_joined_is_printable(before);
        assert(paper::is_printable(parts[parts.len() - 1]));
    }
}

proof fn lemma_centred_is_printable(art: Seq<char>, width: nat)
    requires
        paper::is_printable(art),
    ensures
        paper::is_printable(centred_art(art, width)),
{
    let given = text::split(art, '\n');
    let moved = indented(given, margin(art, width));
    text::split_pieces_are_stretches(art, '\n');
    assert forall|i: int| 0 <= i < moved.len() implies paper::is_printable(#[trigger] moved[i]) by {
        let by_ = margin(art, width) as int;
        assert forall|k: int| 0 <= k < moved[i].len() implies paper::is_inert(#[trigger] moved[i][k]) by {
            if k >= by_ {
                assert(moved[i][k] == given[i][k - by_]);
                assert(art.contains(given[i][k - by_]));
            }
        }
    }
    reveal_strlit("\n");
    assert("\n"@ =~= seq!['\n']);
    lemma_joined_is_printable(moved);
}

/// What a task slip is on paper: two rules, the picture, the task in large type, and
/// two rules. The printer is left as it starts up.
pub proof fn a_task_slip_on_paper(p: Paper, body: Seq<char>, banner: Banner)
    requires
        p.is_ready(),
        paper::is_printable(body),
        match banner {
            Banner::Piece(bits) => escpos::has_its_rows(*bits) && bits.row_bytes < 0x1_0000,
            Banner::Art(art) => paper::is_printable(art@),
        },
    ensures
        ({
            let out = p.run(task_bytes(body, banner));
            &&& out.is_ready()
            &&& out.manner == Manner::plain()
            &&& match banner {
                Banner::Piece(bits) => exists|dots: Seq<Mark>| #[trigger]
                    paper::is_image(dots, *bits) && out.marks == p.marks + (opening_marks() + dots
                        + closing_marks(body)),
                Banner::Art(art) => out.marks == p.marks + (opening_marks() + drawing_marks(art@)
                    + closing_marks(body)),
            }
        }),
{
    let opening = opening_bytes();
    let picture = banner_bytes(banner);
    let closing = task_text_bytes(text::trimmed(body));
    paper::runs_in_turn(p, opening + picture, closing);
    paper::runs_in_turn(p, opening, picture);
    lemma_opening(p);
    let a = p.run(opening);
    let shown = match banner {
        Banner::Piece(bits) => paper::an_image_comes_out(a, *bits),
        Banner::Art(art) => {
            lemma_drawing(a, art);
            drawing_marks(art@)
        },
    };
    lemma_closing(a.run(picture), body);
    paper::marks_add_up(p.marks, opening_marks(), shown);
    paper::marks_add_up(p.marks, opening_marks() + shown, closing_marks(body));
}

fn compose_art(p: &mut Printer, art: &str)
    ensures
        final(p).extends(*old(p), banner_bytes(Banner::Art(art))),
{
    broadcast use escpos::sums_associate;

    // Double-size art needs double-height line spacing or the rows pull apart.
    p.style(Style { bold: false, tall: true, wide: true, underline: false });
    p.line_spacing(Font::A.height() * 2);
    let drawing = centred(art, WIDTH_BIG);
    p.text_raw(drawing.as_str());
    p.default_spacing().style(Style::default());
}

fn compose_opening(p: &mut Printer)
    ensures
        final(p).extends(*old(p), opening_bytes()),
{
    broadcast use escpos::sums_associate;

    p.init();
    p.align(Align::Left);
    p.rule(RULE).rule(RULE);
    p.feed(1);
}

fn compose_task_text(p: &mut Printer, task: &str)
    ensures
        final(p).extends(*old(p), task_text_bytes(task@)),
{
    broadcast use escpos::sums_associate;

    p.feed(1);
    p.align(Align::Centre).style(Style::big());
    p.text_wrapped(task, WIDTH_BIG - 1);
    p.style(Style::default()).align(Align::Left);
    p.feed(1);
    p.rule(RULE).rule(RULE);
    p.feed(3).cut();
}

/// Lay out a task slip.
pub fn print_task(p: &mut Printer, body: &str, banner: Banner)
    requires
        banner matches Banner::Piece(bits) ==> escpos::has_its_rows(*bits),
    ensures
        final(p).extends(*old(p), task_bytes(body@, banner)),
{
    let ghost job = p@;
    let task = trim(body);
    compose_opening(p);
    match banner {
        Banner::Piece(bits) => {
            p.image(bits);
        },
        Banner::Art(art) => {
            compose_art(p, art);
        },
    }
    compose_task_text(p, task.as_str());
    proof {
        escpos::added_in_turn(job, opening_bytes(), banner_bytes(banner));
        escpos::added_in_turn(job, opening_bytes() + banner_bytes(banner), task_text_bytes(task@));
    }
}

} // verus!
