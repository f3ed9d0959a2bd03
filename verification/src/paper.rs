//! What the printer makes of a job: the commands it takes out of the bytes, and the
//! lines, dots and codes that come out on the paper.
//!
//! This is the printer's side of ESC/POS, as far as jobs use it. It says what a job is
//! for, whatever bytes it is made of.

use crate::escpos;
use crate::printer::{Align, Font, Style};
use crate::raster::Bits;
use crate::text;
use crate::wrap;
use vstd::prelude::*;

verus! {

/// How text comes out.
pub struct Manner {
    pub font: Font,
    pub style: Style,
    pub align: Align,
    /// Dots from line to line, where they are set.
    pub spacing: Option<u8>,
    pub invert: bool,
}

/// One thing that comes out on the paper.
pub enum Mark {
    /// A line of characters, in code page 437.
    Line { text: Seq<u8>, manner: Manner },
    /// So many blank lines.
    Feed(u8),
    /// Rows of dots, so many bytes each.
    Dots { row_bytes: nat, data: Seq<u8> },
    /// A QR code of those bytes, so many dots to a module, of that model and at that
    /// level of error correction: the lowest, L, is 0.
    Code { data: Seq<u8>, size: u8, model: int, level: int },
    /// The paper is fed so many steps past the cutter and cut through.
    Cut(u8),
}

/// The printer and its paper: the command it is in the middle of, the line it is in the
/// middle of, the manner it prints in, the code it holds ready and how it will draw it,
/// and what came out.
pub struct Paper {
    pub command: Seq<u8>,
    pub line: Seq<u8>,
    pub manner: Manner,
    pub symbol: Seq<u8>,
    pub size: u8,
    pub model: int,
    pub level: int,
    pub marks: Seq<Mark>,
}

impl Manner {
    /// As the printer starts up.
    pub open spec fn plain() -> Manner {
        Manner {
            font: Font::A,
            style: Style { bold: false, tall: false, wide: false, underline: false },
            align: Align::Left,
            spacing: None,
            invert: false,
        }
    }

    /// Dots across one character.
    pub open spec fn dots_wide(self) -> nat {
        (match self.font {
            Font::A => 12nat,
            Font::B => 9nat,
        }) * (if self.style.wide {
            2nat
        } else {
            1nat
        })
    }
}

impl Mark {
    /// Whether it is not wider than the paper.
    pub open spec fn fits(self) -> bool {
        self matches Mark::Line { text, manner } ==> text.len() * manner.dots_wide() <= 576
    }
}

/// A count of two bytes, the low one first.
pub open spec fn count(low: u8, high: u8) -> nat {
    low as nat + 256 * high as nat
}

/// How long a command is that begins so, as far as its bytes tell.
pub open spec fn length(command: Seq<u8>) -> nat {
    if command.len() < 2 {
        2
    } else if command[0] == 0x1b {
        if command[1] == 0x40 || command[1] == 0x32 {
            2
        } else {
            3
        }
    } else if command[1] == 0x56 {
        4
    } else if command[1] == 0x76 {
        if command.len() < 8 {
            8
        } else {
            8 + count(command[4], command[5]) * count(command[6], command[7])
        }
    } else if command[1] == 0x28 {
        if command.len() < 5 {
            5
        } else {
            5 + count(command[3], command[4])
        }
    } else {
        3
    }
}

/// Whether that bit of the print mode is set.
pub open spec fn mode_has(mode: u8, bit: u8) -> bool {
    mode / bit % 2 == 1
}

impl Paper {
    /// Neither in the middle of a command nor of a line.
    pub open spec fn is_ready(self) -> bool {
        self.command == Seq::<u8>::empty() && self.line == Seq::<u8>::empty()
    }

    /// One more thing came out.
    pub open spec fn with(self, marks: Seq<Mark>) -> Paper {
        Paper { marks: self.marks + marks, ..self }
    }

    /// What a whole command does.
    pub open spec fn obey(self, command: Seq<u8>) -> Paper {
        let what = command[1];
        if command[0] == 0x1b {
            if what == 0x40 {
                Paper { manner: Manner::plain(), ..self }
            } else if what == 0x61 {
                let align = if command[2] == 0 {
                    Align::Left
                } else if command[2] == 1 {
                    Align::Centre
                } else {
                    Align::Right
                };
                Paper { manner: Manner { align, ..self.manner }, ..self }
            } else if what == 0x4d {
                let font = if command[2] == 0 {
                    Font::A
                } else {
                    Font::B
                };
                Paper { manner: Manner { font, ..self.manner }, ..self }
            } else if what == 0x33 {
                Paper { manner: Manner { spacing: Some(command[2]), ..self.manner }, ..self }
            } else if what == 0x32 {
                Paper { manner: Manner { spacing: None, ..self.manner }, ..self }
            } else if what == 0x21 {
                let style = Style {
                    bold: mode_has(command[2], 0x08),
                    tall: mode_has(command[2], 0x10),
                    wide: mode_has(command[2], 0x20),
                    underline: mode_has(command[2], 0x80),
                };
                Paper { manner: Manner { style, ..self.manner }, ..self }
            } else if what == 0x64 {
                self.with(seq![Mark::Feed(command[2])])
            } else {
                self
            }
        } else if what == 0x42 {
            Paper { manner: Manner { invert: command[2] % 2 == 1, ..self.manner }, ..self }
        } else if what == 0x56 && command[2] == 0x41 {
            self.with(seq![Mark::Cut(command[3])])
        } else if what == 0x76 && command[2] == 0x30 && command[3] == 0 {
            self.with(
                seq![
                    Mark::Dots { row_bytes: count(command[4], command[5]), data: command.skip(8) },
                ],
            )
        } else if what == 0x28 && command.len() >= 8 && command[2] == 0x6b && command[5] == 49 {
            if command[6] == 65 {
                Paper { model: command[7] - 48, ..self }
            } else if command[6] == 69 {
                Paper { level: command[7] - 48, ..self }
            } else if command[6] == 67 {
                Paper { size: command[7], ..self }
            } else if command[6] == 80 {
                Paper { symbol: command.skip(8), ..self }
            } else if command[6] == 81 {
                self.with(
                    seq![
                        Mark::Code {
                            data: self.symbol,
                            size: self.size,
                            model: self.model,
                            level: self.level,
                        },
                    ],
                )
            } else {
                self
            }
        } else {
            self
        }
    }

    /// What one byte does: it goes on with a command, begins one, ends a line or is
    /// printed.
    pub open spec fn take_in(self, byte: u8) -> Paper {
        if self.command.len() > 0 {
            let command = self.command.push(byte);
            if command.len() < length(command) {
                Paper { command, ..self }
            } else {
                (Paper { command: Seq::empty(), ..self }).obey(command)
            }
        } else if byte == 0x1b || byte == 0x1d {
            Paper { command: seq![byte], ..self }
        } else if byte == 0x0a {
            (Paper { line: Seq::empty(), ..self }).with(
                seq![Mark::Line { text: self.line, manner: self.manner }],
            )
        } else {
            Paper { line: self.line.push(byte), ..self }
        }
    }

    /// What the bytes do, one after the other.
    #[verifier::opaque]
    pub open spec fn run(self, bytes: Seq<u8>) -> Paper
        decreases bytes.len(),
    {
        if bytes.len() == 0 {
            self
        } else {
            self.run(bytes.drop_last()).take_in(bytes.last())
        }
    }
}

/// Lines of characters, one below the other.
pub open spec fn lines(rows: Seq<Seq<char>>, manner: Manner) -> Seq<Mark> {
    rows.map_values(|row: Seq<char>| Mark::Line { text: escpos::encoded(row), manner })
}

/// Whether a character is not one that a command begins with.
pub open spec fn is_inert(c: char) -> bool {
    c != '\u{1b}' && c != '\u{1d}'
}

/// Whether no command begins in the middle of a text. What people send is cleaned of all
/// control characters, so of these too.
pub open spec fn is_printable(s: Seq<char>) -> bool {
    forall|i: int| 0 <= i < s.len() ==> is_inert(#[trigger] s[i])
}

/// Whether the marks stand, one after the other, at that place.
pub open spec fn stand_at(all: Seq<Mark>, marks: Seq<Mark>, at: int) -> bool {
    0 <= at && at + marks.len() <= all.len() && all.subrange(at, at + marks.len()) == marks
}

/// Whether the marks stand, one after the other, from some place on or further down.
pub open spec fn holds(all: Seq<Mark>, from: int, marks: Seq<Mark>) -> bool {
    exists|at: int| from <= at && #[trigger] stand_at(all, marks, at)
}

// --- reading a job ---------------------------------------------------------

/// Bytes after bytes do what both do, one after the other.
pub broadcast proof fn runs_in_turn(p: Paper, a: Seq<u8>, b: Seq<u8>)
    ensures
        #[trigger] p.run(a + b) == p.run(a).run(b),
    decreases b.len(),
{
    reveal_with_fuel(Paper::run, 2);
    if b.len() == 0 {
        assert(a + b =~= a);
    } else {
        runs_in_turn(p, a, b.drop_last());
        assert((a + b).drop_last() =~= a + b.drop_last());
    }
}

/// No bytes do nothing.
pub broadcast proof fn nothing_does_nothing(p: Paper)
    ensures
        #[trigger] p.run(Seq::empty()) == p,
{
    reveal_with_fuel(Paper::run, 2);
}

/// Marks after marks are all of them, however they are grouped.
pub broadcast proof fn marks_add_up(a: Seq<Mark>, b: Seq<Mark>, c: Seq<Mark>)
    ensures
        #[trigger] ((a + b) + c) == a + (b + c),
{
    assert((a + b) + c =~= a + (b + c));
}

proof fn lemma_half_a_command(p: Paper, command: Seq<u8>, k: int)
    requires
        p.is_ready(),
        1 <= k < command.len(),
        command[0] == 0x1b || command[0] == 0x1d,
        forall|i: int| 1 <= i < command.len() ==> length(#[trigger] command.take(i)) > i,
    ensures
        p.run(command.take(k)) == (Paper { command: command.take(k), ..p }),
    decreases k,
{
    reveal_with_fuel(Paper::run, 2);
    let part = command.take(k);
    assert(part.drop_last() =~= command.take(k - 1));
    if k == 1 {
        assert(command.take(0).len() == 0);
        assert(part =~= seq![command[0]]);
    } else {
        lemma_half_a_command(p, command, k - 1);
        assert(part =~= command.take(k - 1).push(command[k - 1]));
    }
}

proof fn lemma_command(p: Paper, command: Seq<u8>)
    requires
        p.is_ready(),
        command.len() >= 2,
        command[0] == 0x1b || command[0] == 0x1d,
        forall|i: int| 1 <= i < command.len() ==> length(#[trigger] command.take(i)) > i,
        length(command) == command.len(),
    ensures
        p.run(command) == p.obey(command),
{
    reveal_with_fuel(Paper::run, 2);
    let k = command.len() - 1;
    lemma_half_a_command(p, command, k);
    assert(command.drop_last() =~= command.take(k));
    assert(command.take(k).push(command.last()) =~= command);
}

pub broadcast proof fn init_is_obeyed(p: Paper)
    requires
        p.is_ready(),
    ensures
        #[trigger] p.run(escpos::init_bytes()) == (Paper { manner: Manner::plain(), ..p }),
{
    lemma_command(p, escpos::init_bytes());
}

pub broadcast proof fn align_is_obeyed(p: Paper, how: Align)
    requires
        p.is_ready(),
    ensures
        #[trigger] p.run(escpos::align_bytes(how)) == (Paper {
            manner: Manner { align: how, ..p.manner },
            ..p
        }),
{
    lemma_command(p, escpos::align_bytes(how));
}

pub broadcast proof fn font_is_obeyed(p: Paper, font: Font)
    requires
        p.is_ready(),
    ensures
        #[trigger] p.run(escpos::font_bytes(font)) == (Paper {
            manner: Manner { font, ..p.manner },
            ..p
        }),
{
    lemma_command(p, escpos::font_bytes(font));
}

pub broadcast proof fn spacing_is_obeyed(p: Paper, dots: u8)
    requires
        p.is_ready(),
    ensures
        #[trigger] p.run(escpos::line_spacing_bytes(dots)) == (Paper {
            manner: Manner { spacing: Some(dots), ..p.manner },
            ..p
        }),
{
    lemma_command(p, escpos::line_spacing_bytes(dots));
}

pub broadcast proof fn default_spacing_is_obeyed(p: Paper)
    requires
        p.is_ready(),
    ensures
        #[trigger] p.run(escpos::default_spacing_bytes()) == (Paper {
            manner: Manner { spacing: None, ..p.manner },
            ..p
        }),
{
    lemma_command(p, escpos::default_spacing_bytes());
}

pub broadcast proof fn invert_is_obeyed(p: Paper, on: bool)
    requires
        p.is_ready(),
    ensures
        #[trigger] p.run(escpos::invert_bytes(on)) == (Paper {
            manner: Manner { invert: on, ..p.manner },
            ..p
        }),
{
    lemma_command(p, escpos::invert_bytes(on));
}

pub broadcast proof fn style_is_obeyed(p: Paper, style: Style)
    requires
        p.is_ready(),
    ensures
        #[trigger] p.run(escpos::style_bytes(style)) == (Paper {
            manner: Manner { style, ..p.manner },
            ..p
        }),
{
    lemma_command(p, escpos::style_bytes(style));
}

pub broadcast proof fn feed_is_obeyed(p: Paper, count: u8)
    requires
        p.is_ready(),
    ensures
        #[trigger] p.run(escpos::feed_bytes(count)) == p.with(seq![Mark::Feed(count)]),
{
    lemma_command(p, escpos::feed_bytes(count));
}

pub broadcast proof fn cut_is_obeyed(p: Paper)
    requires
        p.is_ready(),
    ensures
        #[trigger] p.run(escpos::cut_bytes()) == p.with(seq![Mark::Cut(4)]),
{
    lemma_command(p, escpos::cut_bytes());
}

/// Whether a line neither begins a command nor ends in its middle.
spec fn is_calm(row: Seq<char>) -> bool {
    forall|i: int| 0 <= i < row.len() ==> is_inert(#[trigger] row[i]) && row[i] != '\n'
}

proof fn lemma_calm_byte(c: char)
    requires
        is_inert(c),
        c != '\n',
    ensures
        escpos::cp437(c) != 0x1b && escpos::cp437(c) != 0x1d && escpos::cp437(c) != 0x0a,
{
}

proof fn lemma_calm_pieces(s: Seq<char>)
    requires
        is_printable(s),
    ensures
        forall|k: int|
            0 <= k < text::split(s, '\n').len() ==> is_calm(#[trigger] text::split(s, '\n')[k]),
{
    text::split_pieces_are_stretches(s, '\n');
    let all = text::split(s, '\n');
    assert forall|k: int| 0 <= k < all.len() implies is_calm(#[trigger] all[k]) by {
        assert forall|i: int| 0 <= i < all[k].len() implies is_inert(#[trigger] all[k][i])
            && all[k][i] != '\n' by {
            assert(s.contains(all[k][i]));
        }
    }
}

proof fn lemma_calm_wrap(given: Seq<Seq<char>>, width: nat)
    requires
        width > 0,
        forall|k: int| 0 <= k < given.len() ==> is_calm(#[trigger] given[k]),
    ensures
        forall|k: int|
            0 <= k < escpos::wrapped_all(given, width).len() ==> is_calm(
                #[trigger] escpos::wrapped_all(given, width)[k],
            ),
    decreases given.len(),
{
    if given.len() > 0 {
        let init = given.drop_last();
        assert(forall|k: int| 0 <= k < init.len() ==> #[trigger] init[k] == given[k]);
        lemma_calm_wrap(init, width);
        let line = given[given.len() - 1];
        let before = escpos::wrapped_all(init, width);
        let last = wrap::wrapped(line, width);
        let all = escpos::wrapped_all(given, width);
        wrap::wrapped_lines_are_stretches(line, width);
        assert forall|k: int| 0 <= k < all.len() implies is_calm(#[trigger] all[k]) by {
            if k < before.len() {
                assert(all[k] == before[k]);
            } else {
                let row = last[k - before.len()];
                assert(all[k] == row);
                assert(text::holds(line, row));
                let at = choose|at: int| text::stands_at(line, row, at);
                assert forall|i: int| 0 <= i < row.len() implies is_inert(#[trigger] row[i])
                    && row[i] != '\n' by {
                    assert(row[i] == line[at + i]);
                }
            }
        }
    }
}

proof fn lemma_row(p: Paper, row: Seq<char>, k: int)
    requires
        p.is_ready(),
        is_calm(row),
        0 <= k <= row.len(),
    ensures
        p.run(escpos::encoded(row).take(k)) == (Paper { line: escpos::encoded(row).take(k), ..p }),
    decreases k,
{
    reveal_with_fuel(Paper::run, 2);
    let bytes = escpos::encoded(row);
    let part = bytes.take(k);
    if k == 0 {
        assert(part =~= Seq::<u8>::empty());
    } else {
        lemma_row(p, row, k - 1);
        assert(part.drop_last() =~= bytes.take(k - 1));
        assert(is_inert(row[k - 1]) && row[k - 1] != '\n');
        lemma_calm_byte(row[k - 1]);
        assert(bytes.take(k - 1).push(part.last()) =~= part);
    }
}

proof fn lemma_rows(p: Paper, rows: Seq<Seq<char>>)
    requires
        p.is_ready(),
        forall|i: int| 0 <= i < rows.len() ==> is_calm(#[trigger] rows[i]),
    ensures
        p.run(escpos::rows(rows)) == p.with(lines(rows, p.manner)),
    decreases rows.len(),
{
    reveal_with_fuel(Paper::run, 2);
    if rows.len() == 0 {
        assert(p.marks + lines(rows, p.manner) =~= p.marks);
    } else {
        let before = rows.drop_last();
        let row = rows.last();
        assert(forall|i: int| 0 <= i < before.len() ==> #[trigger] before[i] == rows[i]);
        lemma_rows(p, before);
        let q = p.run(escpos::rows(before));
        let bytes = escpos::encoded(row);
        assert(is_calm(rows[rows.len() - 1]));
        lemma_row(q, row, row.len() as int);
        assert(bytes.take(row.len() as int) =~= bytes);
        runs_in_turn(p, escpos::rows(before), bytes.push(0x0a));
        assert(bytes.push(0x0a).drop_last() =~= bytes);
        assert(q.run(bytes.push(0x0a)) == q.run(bytes).take_in(0x0a));
        assert(q.marks + seq![Mark::Line { text: bytes, manner: p.manner }] =~= p.marks + lines(
            rows,
            p.manner,
        ));
    }
}

/// Text that is wrapped comes out line by line, in the manner that is set.
pub broadcast proof fn wrapped_text_comes_out(p: Paper, s: Seq<char>, width: nat)
    requires
        p.is_ready(),
        is_printable(s),
        width > 0,
    ensures
        #[trigger] p.run(escpos::text_bytes(s, width)) == p.with(
            lines(escpos::wrapped_all(text::split(s, '\n'), width), p.manner),
        ),
{
    lemma_calm_pieces(s);
    lemma_calm_wrap(text::split(s, '\n'), width);
    lemma_rows(p, escpos::wrapped_all(text::split(s, '\n'), width));
}

/// Text that is not wrapped comes out line by line as it stands.
pub broadcast proof fn raw_text_comes_out(p: Paper, s: Seq<char>)
    requires
        p.is_ready(),
        is_printable(s),
    ensures
        #[trigger] p.run(escpos::text_raw_bytes(s)) == p.with(
            lines(text::split(s, '\n'), p.manner),
        ),
{
    lemma_calm_pieces(s);
    lemma_rows(p, text::split(s, '\n'));
}

/// The line that a rule is: 48 of its character, from edge to edge.
pub open spec fn rule(ch: char) -> Seq<char> {
    Seq::new(48, |i: int| ch)
}

/// A rule comes out as one line.
pub proof fn a_rule_comes_out(p: Paper, ch: char)
    requires
        p.is_ready(),
        is_inert(ch),
        ch != '\n',
    ensures
        p.run(escpos::rule_bytes(ch)) == p.with(
            lines(seq![rule(ch)], p.manner),
        ),
{
    let line = text::repeated(ch, 48);
    assert(line =~= rule(ch));
    assert(!line.contains('\n'));
    text::a_text_without_separators_is_one_piece(line, '\n');
    raw_text_comes_out(p, line);
}

/// A line in two columns begins no command where neither of the two does.
pub proof fn columns_are_printable(left: Seq<char>, right: Seq<char>)
    requires
        is_printable(left),
        is_printable(right),
    ensures
        is_printable(escpos::columns_text(left, right)),
{
    let line = escpos::columns_text(left, right);
    assert forall|i: int| 0 <= i < line.len() implies is_inert(#[trigger] line[i]) by {
        let at = i - (line.len() - right.len());
        if at >= 0 {
            assert(line[i] == right[at]);
        } else if i < left.len() {
            assert(line[i] == left[i] || line[i] == ' ');
        }
    }
}

// --- pictures and codes ----------------------------------------------------

/// The dots that came out, from top to bottom.
pub open spec fn dots_of(marks: Seq<Mark>) -> Seq<u8>
    decreases marks.len(),
{
    if marks.len() == 0 {
        Seq::empty()
    } else {
        dots_of(marks.drop_last()) + (match marks.last() {
            Mark::Dots { data, .. } => data,
            _ => Seq::empty(),
        })
    }
}

/// Whether the marks are the image and nothing else: rows of its width, all of them,
/// from top to bottom, and at most 128 at a time.
pub open spec fn is_image(marks: Seq<Mark>, bits: Bits) -> bool {
    &&& forall|i: int|
        0 <= i < marks.len() ==> ((#[trigger] marks[i]) matches Mark::Dots { row_bytes, data }
            && row_bytes == bits.row_bytes && data.len() <= 128 * bits.row_bytes)
    &&& dots_of(marks) == bits.data@.take(bits.height * bits.row_bytes)
}

proof fn lemma_band(p: Paper, bits: Bits, start: nat)
    requires
        p.is_ready(),
        escpos::has_its_rows(bits),
        bits.row_bytes < 0x1_0000,
        start < bits.height,
    ensures
        p.run(escpos::band_bytes(bits, start)) == p.with(
            seq![
                Mark::Dots {
                    row_bytes: bits.row_bytes as nat,
                    data: escpos::band_dots(bits, start),
                },
            ],
        ),
        escpos::band_dots(bits, start).len() <= 128 * bits.row_bytes,
{
    let command = escpos::band_bytes(bits, start);
    let rows = escpos::band_rows(bits.height as nat, start);
    let data = escpos::band_dots(bits, start);
    let rb = bits.row_bytes as int;
    let h = bits.height as int;
    assert(0 <= start * rb && (start + rows) * rb <= h * rb && (start + rows) * rb - start * rb == rb
        * rows && rb * rows <= 128 * rb) by (nonlinear_arith)
        requires
            start + rows <= h,
            rb >= 0,
            0 <= rows <= 128,
            start >= 0,
    ;
    assert(data.len() == rb * rows);
    let header = command.take(8);
    assert(command.skip(8) =~= data);
    assert(command[4] == (rb as nat % 256) as u8 && command[5] == (rb as nat / 256 % 256) as u8);
    assert(command[6] == (rows % 256) as u8 && command[7] == (rows / 256 % 256) as u8);
    assert(count(command[4], command[5]) == rb);
    assert(count(command[6], command[7]) == rows);
    assert(length(command) == command.len());
    assert forall|i: int| 1 <= i < command.len() implies length(#[trigger] command.take(i)) > i by {
        let part = command.take(i);
        assert(part[0] == command[0]);
        if i >= 2 {
            assert(part[1] == command[1]);
        }
        if i >= 8 {
            assert(part[4] == command[4] && part[5] == command[5] && part[6] == command[6]
                && part[7] == command[7]);
        }
    }
    lemma_command(p, command);
}

proof fn lemma_bands(p: Paper, bits: Bits, count: nat) -> (marks: Seq<Mark>)
    requires
        p.is_ready(),
        escpos::has_its_rows(bits),
        bits.row_bytes < 0x1_0000,
        count == 0 || (count - 1) * escpos::BAND < bits.height,
    ensures
        p.run(escpos::bands_bytes(bits, count)) == p.with(marks),
        dots_of(marks) == escpos::bands_dots(bits, count),
        forall|i: int|
            0 <= i < marks.len() ==> ((#[trigger] marks[i]) matches Mark::Dots { row_bytes, data }
                && row_bytes == bits.row_bytes && data.len() <= 128 * bits.row_bytes),
    decreases count,
{
    reveal_with_fuel(Paper::run, 2);
    if count == 0 {
        let none = Seq::<Mark>::empty();
        assert(p.marks + none =~= p.marks);
        none
    } else {
        let before = lemma_bands(p, bits, (count - 1) as nat);
        let start = ((count - 1) * escpos::BAND) as nat;
        let q = p.with(before);
        lemma_band(q, bits, start);
        runs_in_turn(
            p,
            escpos::bands_bytes(bits, (count - 1) as nat),
            escpos::band_bytes(bits, start),
        );
        let mark = Mark::Dots {
            row_bytes: bits.row_bytes as nat,
            data: escpos::band_dots(bits, start),
        };
        let marks = before.push(mark);
        assert(p.marks + before + seq![mark] =~= p.marks + marks);
        assert(marks.drop_last() =~= before);
        marks
    }
}

/// An image comes out whole, row by row, and nothing but the image.
pub proof fn an_image_comes_out(p: Paper, bits: Bits) -> (marks: Seq<Mark>)
    requires
        p.is_ready(),
        escpos::has_its_rows(bits),
        bits.row_bytes < 0x1_0000,
    ensures
        p.run(escpos::image_bytes(bits)) == p.with(marks),
        is_image(marks, bits),
{
    let count = ((bits.height + escpos::BAND - 1) / escpos::BAND as int) as nat;
    escpos::bands_carry_every_row(bits);
    lemma_bands(p, bits, count)
}

proof fn lemma_code_part(p: Paper, command: Seq<u8>)
    requires
        p.is_ready(),
        command.len() >= 8,
        command[0] == 0x1d,
        command[1] == 0x28,
        count(command[3], command[4]) == command.len() - 5,
    ensures
        p.run(command) == p.obey(command),
{
    assert forall|i: int| 1 <= i < command.len() implies length(#[trigger] command.take(i)) > i by {
        let part = command.take(i);
        assert(part[0] == command[0]);
        if i >= 2 {
            assert(part[1] == command[1]);
        }
        if i >= 5 {
            assert(part[3] == command[3] && part[4] == command[4]);
        }
    }
    lemma_command(p, command);
}

/// A QR code of model 2 comes out that holds the data, in modules of that size and at the
/// lowest level of error correction.
pub proof fn a_code_comes_out(p: Paper, data: Seq<u8>, size: u8)
    requires
        p.is_ready(),
        data.len() + 3 < 0x1_0000,
    ensures
        p.run(escpos::qr_bytes(data, size)) == (Paper {
            symbol: data,
            size,
            model: 2,
            level: 0,
            ..p
        }).with(seq![Mark::Code { data, size, model: 2, level: 0 }]),
{
    let a = seq![0x1du8, 0x28u8, 0x6bu8, 4u8, 0u8, 49u8, 65u8, 50u8, 0u8];
    let b = seq![0x1du8, 0x28u8, 0x6bu8, 3u8, 0u8, 49u8, 67u8, size];
    let c = seq![0x1du8, 0x28u8, 0x6bu8, 3u8, 0u8, 49u8, 69u8, 48u8];
    let d = seq![0x1du8, 0x28u8, 0x6bu8] + escpos::low_high(data.len() + 3) + seq![49u8, 80u8, 48u8];
    let e = d + data;
    let f = seq![0x1du8, 0x28u8, 0x6bu8, 3u8, 0u8, 49u8, 81u8, 48u8];
    assert(escpos::qr_bytes(data, size) =~= a + b + c + e + f);
    runs_in_turn(p, a + b + c + e, f);
    runs_in_turn(p, a + b + c, e);
    runs_in_turn(p, a + b, c);
    runs_in_turn(p, a, b);
    lemma_code_part(p, a);
    lemma_code_part(Paper { model: 2, ..p }, b);
    lemma_code_part(Paper { model: 2, size, ..p }, c);
    let q = Paper { model: 2, size, level: 0, ..p };
    assert(e.skip(8) =~= data);
    assert(e[3] == ((data.len() + 3) as nat % 256) as u8 && e[4] == ((data.len() + 3) as nat / 256
        % 256) as u8);
    lemma_code_part(q, e);
    lemma_code_part(Paper { symbol: data, ..q }, f);
}

/// What the commands of a job do.
pub broadcast group commands_are_obeyed {
    runs_in_turn,
    nothing_does_nothing,
    marks_add_up,
    init_is_obeyed,
    align_is_obeyed,
    font_is_obeyed,
    spacing_is_obeyed,
    default_spacing_is_obeyed,
    invert_is_obeyed,
    style_is_obeyed,
    feed_is_obeyed,
    cut_is_obeyed,
    wrapped_text_comes_out,
    raw_text_comes_out,
}

} // verus!
