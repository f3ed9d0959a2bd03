//! The bytes of each ESC/POS command that the printer is sent, and what holds of
//! them.

use crate::printer::{Align, Font, Style, ESC, GS, WIDTH};
use crate::raster::Bits;
use crate::text;
use crate::wrap;
use vstd::prelude::*;

verus! {

pub const LF: u8 = 0x0a;

/// The byte of a character in code page 437, which is what the printer starts up
/// in. Box-drawing and shade characters are worth carrying across; anything else
/// outside ASCII becomes a question mark.
pub open spec fn cp437(c: char) -> u8 {
    let n = c as u32;
    if n < 0x80 {
        n as u8
    } else if n == 0x2500 {
        0xc4
    } else if n == 0x2550 {
        0xcd
    } else if n == 0x2588 {
        0xdb
    } else if n == 0x2584 {
        0xdc
    } else if n == 0x2580 {
        0xdf
    } else if n == 0x2591 {
        0xb0
    } else if n == 0x2592 {
        0xb1
    } else if n == 0x2593 {
        0xb2
    } else {
        0x3f
    }
}

pub open spec fn encoded(s: Seq<char>) -> Seq<u8> {
    s.map_values(|c: char| cp437(c))
}

/// The lines in code page 437, each followed by a line feed.
pub open spec fn rows(lines: Seq<Seq<char>>) -> Seq<u8>
    decreases lines.len(),
{
    if lines.len() == 0 {
        Seq::empty()
    } else {
        rows(lines.drop_last()) + encoded(lines.last()).push(LF)
    }
}

/// The lines, each wrapped to the width.
pub open spec fn wrapped_all(lines: Seq<Seq<char>>, width: nat) -> Seq<Seq<char>>
    decreases lines.len(),
{
    if lines.len() == 0 {
        Seq::empty()
    } else {
        wrapped_all(lines.drop_last(), width) + wrap::wrapped(lines.last(), width)
    }
}

/// Each line is wrapped on its own, whatever stands before and behind it.
pub proof fn lines_are_wrapped_one_by_one(
    before: Seq<Seq<char>>,
    line: Seq<char>,
    behind: Seq<Seq<char>>,
    width: nat,
)
    ensures
        wrapped_all(before + seq![line] + behind, width) == wrapped_all(before, width)
            + wrap::wrapped(line, width) + wrapped_all(behind, width),
    decreases behind.len(),
{
    let all = before + seq![line] + behind;
    if behind.len() == 0 {
        assert(all.drop_last() =~= before);
        assert(wrapped_all(all, width) =~= wrapped_all(before, width) + wrap::wrapped(line, width)
            + wrapped_all(behind, width));
    } else {
        lines_are_wrapped_one_by_one(before, line, behind.drop_last(), width);
        assert(all.drop_last() =~= before + seq![line] + behind.drop_last());
        assert(wrapped_all(all, width) =~= wrapped_all(before, width) + wrap::wrapped(line, width)
            + wrapped_all(behind, width));
    }
}

/// What of a text leaves a mark on the paper: all of it but its spaces and newlines.
pub open spec fn visible(s: Seq<char>) -> Seq<char> {
    s.filter(|c: char| c != ' ' && c != '\n')
}

proof fn lemma_ink_both(a: Seq<char>, b: Seq<char>)
    ensures
        wrap::ink(a + b) == wrap::ink(a) + wrap::ink(b),
{
    Seq::filter_distributes_over_add(a, b, |c: char| c != ' ');
}

proof fn lemma_all_ink(lines: Seq<Seq<char>>, width: nat)
    requires
        width > 0,
    ensures
        wrap::ink(wrapped_all(lines, width).flatten()) == wrap::ink(lines.flatten()),
    decreases lines.len(),
{
    if lines.len() == 0 {
        assert(wrapped_all(lines, width) =~= lines);
    } else {
        let before = lines.drop_last();
        let line = lines.last();
        lemma_all_ink(before, width);
        wrap::wrapping_keeps_every_character(line, width);
        vstd::seq_lib::lemma_flatten_concat(wrapped_all(before, width), wrap::wrapped(line, width));
        assert(lines =~= before.push(line));
        before.lemma_flatten_push(line);
        lemma_ink_both(wrapped_all(before, width).flatten(), wrap::wrapped(line, width).flatten());
        lemma_ink_both(before.flatten(), line);
    }
}

proof fn lemma_split_visible(s: Seq<char>)
    ensures
        text::split(s, '\n').len() > 0,
        wrap::ink(text::split(s, '\n').flatten()) == visible(s),
    decreases s.len(),
{
    reveal(Seq::filter);
    let now = text::split(s, '\n');
    let none = Seq::<Seq<char>>::empty();
    if s.len() == 0 {
        assert(s =~= Seq::<char>::empty());
        assert(now =~= none.push(s));
        none.lemma_flatten_push(s);
        assert(none.flatten() + s =~= s);
        assert(wrap::ink(s) =~= visible(s));
    } else {
        let init = s.drop_last();
        let before = text::split(init, '\n');
        lemma_split_visible(init);
        assert(before =~= before.drop_last().push(before.last()));
        before.drop_last().lemma_flatten_push(before.last());
        if s.last() == '\n' {
            before.lemma_flatten_push(Seq::empty());
            assert(now.flatten() =~= before.flatten());
        } else {
            before.drop_last().lemma_flatten_push(before.last().push(s.last()));
            let all = before.flatten().push(s.last());
            assert(now.flatten() =~= all);
            assert(all.drop_last() =~= before.flatten());
        }
    }
}

/// However a text is wrapped, its characters other than spaces and newlines all come
/// out, in order.
pub proof fn wrapping_a_text_keeps_every_character(s: Seq<char>, width: nat)
    requires
        width > 0,
    ensures
        wrap::ink(wrapped_all(text::split(s, '\n'), width).flatten()) == visible(s),
{
    lemma_all_ink(text::split(s, '\n'), width);
    lemma_split_visible(s);
}

/// No line of a wrapped text is wider than the width.
pub proof fn wrapped_texts_fit(lines: Seq<Seq<char>>, width: nat)
    requires
        width > 0,
    ensures
        forall|i: int|
            0 <= i < wrapped_all(lines, width).len() ==> (#[trigger] wrapped_all(
                lines,
                width,
            )[i]).len() <= width,
    decreases lines.len(),
{
    if lines.len() > 0 {
        let before = wrapped_all(lines.drop_last(), width);
        let last = wrap::wrapped(lines.last(), width);
        let all = wrapped_all(lines, width);
        wrapped_texts_fit(lines.drop_last(), width);
        wrap::wrapped_lines_fit(lines.last(), width);
        assert forall|i: int| 0 <= i < all.len() implies (#[trigger] all[i]).len() <= width by {
            if i < before.len() {
                assert(all[i] == before[i]);
            } else {
                assert(all[i] == last[i - before.len()]);
            }
        }
    }
}

/// Lines printed after lines are all of them printed.
pub proof fn rows_of_both(a: Seq<Seq<char>>, b: Seq<Seq<char>>)
    ensures
        rows(a + b) == rows(a) + rows(b),
    decreases b.len(),
{
    if b.len() == 0 {
        assert(a + b =~= a);
    } else {
        rows_of_both(a, b.drop_last());
        assert((a + b).drop_last() =~= a + b.drop_last());
    }
}

/// Bytes added to a job after bytes are both of them added.
pub proof fn added_in_turn(job: Seq<u8>, first: Seq<u8>, second: Seq<u8>)
    ensures
        job + first + second == job + (first + second),
{
    assert(job + first + second =~= job + (first + second));
}

/// However the parts of a job are grouped, it is the same job.
pub broadcast proof fn sums_associate(a: Seq<u8>, b: Seq<u8>, c: Seq<u8>)
    ensures
        #[trigger] ((a + b) + c) == a + (b + c),
{
    assert((a + b) + c =~= a + (b + c));
}

/// A text as it stands, line by line.
pub open spec fn text_raw_bytes(s: Seq<char>) -> Seq<u8> {
    rows(text::split(s, '\n'))
}

/// A text word-wrapped to the width, line by line.
pub open spec fn text_bytes(s: Seq<char>, width: nat) -> Seq<u8> {
    rows(wrapped_all(text::split(s, '\n'), width))
}

pub open spec fn init_bytes() -> Seq<u8> {
    seq![ESC, 0x40u8]
}

pub open spec fn align_bytes(how: Align) -> Seq<u8> {
    seq![
        ESC,
        0x61u8,
        match how {
            Align::Left => 0u8,
            Align::Centre => 1u8,
            Align::Right => 2u8,
        },
    ]
}

pub open spec fn font_bytes(font: Font) -> Seq<u8> {
    seq![
        ESC,
        0x4du8,
        match font {
            Font::A => 0u8,
            Font::B => 1u8,
        },
    ]
}

pub open spec fn line_spacing_bytes(dots: u8) -> Seq<u8> {
    seq![ESC, 0x33u8, dots]
}

pub open spec fn default_spacing_bytes() -> Seq<u8> {
    seq![ESC, 0x32u8]
}

pub open spec fn invert_bytes(on: bool) -> Seq<u8> {
    seq![
        GS,
        0x42u8,
        if on {
            1u8
        } else {
            0u8
        },
    ]
}

pub open spec fn style_bytes(style: Style) -> Seq<u8> {
    seq![ESC, 0x21u8, style.mode()]
}

pub open spec fn feed_bytes(lines: u8) -> Seq<u8> {
    seq![ESC, 0x64u8, lines]
}

pub open spec fn cut_bytes() -> Seq<u8> {
    seq![GS, 0x56u8, 0x41u8, 4u8]
}

pub open spec fn rule_bytes(ch: char) -> Seq<u8> {
    text_raw_bytes(text::repeated(ch, WIDTH as nat))
}

/// `left`, cut short where it would touch `right`, and `right` at the far edge.
pub open spec fn columns_text(left: Seq<char>, right: Seq<char>) -> Seq<char> {
    let space: int = if right.len() < WIDTH {
        WIDTH - right.len()
    } else {
        0
    };
    let room: int = if space > 0 {
        space - 1
    } else {
        0
    };
    let shown = if left.len() <= room {
        left
    } else {
        left.take(room)
    };
    shown + text::repeated(' ', (space - shown.len()) as nat) + right
}

pub open spec fn columns_bytes(left: Seq<char>, right: Seq<char>) -> Seq<u8> {
    text_raw_bytes(columns_text(left, right))
}

/// The low and the high byte of a count, as far as two bytes go.
pub open spec fn low_high(n: nat) -> Seq<u8> {
    seq![(n % 256) as u8, (n / 256 % 256) as u8]
}

/// A QR code: model 2, module size, error correction L, the data, print.
pub open spec fn qr_bytes(data: Seq<u8>, size: u8) -> Seq<u8> {
    seq![GS, 0x28u8, 0x6bu8, 4u8, 0u8, 49u8, 65u8, 50u8, 0u8] + seq![
        GS,
        0x28u8,
        0x6bu8,
        3u8,
        0u8,
        49u8,
        67u8,
        size,
    ] + seq![GS, 0x28u8, 0x6bu8, 3u8, 0u8, 49u8, 69u8, 48u8] + (seq![GS, 0x28u8, 0x6bu8] + low_high(
        data.len() + 3,
    ) + seq![49u8, 80u8, 48u8]) + data + seq![GS, 0x28u8, 0x6bu8, 3u8, 0u8, 49u8, 81u8, 48u8]
}

/// Rows of dots in one image command.
pub const BAND: usize = 128;

/// How many rows the band that begins at row `start` has.
pub open spec fn band_rows(height: nat, start: nat) -> nat {
    if height - start < BAND {
        (height - start) as nat
    } else {
        BAND as nat
    }
}

/// The dots of the band that begins at row `start`.
pub open spec fn band_dots(bits: Bits, start: nat) -> Seq<u8> {
    bits.data@.subrange(
        start * bits.row_bytes,
        (start + band_rows(bits.height as nat, start)) * bits.row_bytes,
    )
}

/// The GS v 0 command of the band that begins at row `start`.
pub open spec fn band_bytes(bits: Bits, start: nat) -> Seq<u8> {
    seq![GS, 0x76u8, 0x30u8, 0u8] + low_high(bits.row_bytes as nat) + low_high(
        band_rows(bits.height as nat, start),
    ) + band_dots(bits, start)
}

/// The first `count` bands of an image.
pub open spec fn bands_bytes(bits: Bits, count: nat) -> Seq<u8>
    decreases count,
{
    if count == 0 {
        Seq::empty()
    } else {
        bands_bytes(bits, (count - 1) as nat) + band_bytes(bits, ((count - 1) * BAND) as nat)
    }
}

/// An image, band by band from the top.
pub open spec fn image_bytes(bits: Bits) -> Seq<u8> {
    bands_bytes(bits, ((bits.height + BAND - 1) / BAND as int) as nat)
}

/// Whether the rows that an image says it has are there.
pub open spec fn has_its_rows(bits: Bits) -> bool {
    bits.height * bits.row_bytes <= bits.data@.len()
}

// --- laws ------------------------------------------------------------------

/// The dots of the first `count` bands, one band after the other.
pub open spec fn bands_dots(bits: Bits, count: nat) -> Seq<u8>
    decreases count,
{
    if count == 0 {
        Seq::empty()
    } else {
        bands_dots(bits, (count - 1) as nat) + band_dots(bits, ((count - 1) * BAND) as nat)
    }
}

proof fn lemma_bands_dots(bits: Bits, count: nat)
    requires
        has_its_rows(bits),
        count == 0 || (count - 1) * BAND < bits.height,
    ensures
        bands_dots(bits, count) == bits.data@.take(
            (if count * BAND < bits.height {
                count * BAND
            } else {
                bits.height as int
            }) * bits.row_bytes,
        ),
    decreases count,
{
    let rb = bits.row_bytes as int;
    let h = bits.height as int;
    if count == 0 {
        assert((count * BAND) * rb == 0) by (nonlinear_arith)
            requires
                count == 0,
        ;
        if h == 0 {
            assert(h * rb == 0) by (nonlinear_arith)
                requires
                    h == 0,
            ;
        }
    } else {
        let start = (count - 1) * BAND;
        lemma_bands_dots(bits, (count - 1) as nat);
        let end = start + band_rows(h as nat, start as nat);
        assert(0 <= start * rb && start * rb <= end * rb && end * rb <= h * rb) by (nonlinear_arith)
            requires
                0 <= start <= end <= h,
                rb >= 0,
        ;
        assert(bits.data@.take(start * rb) + bits.data@.subrange(start * rb, end * rb)
            =~= bits.data@.take(end * rb));
    }
}

/// Banding an image keeps every command to at most 128 rows and carries every
/// row exactly once, in order.
pub proof fn bands_carry_every_row(bits: Bits)
    requires
        has_its_rows(bits),
    ensures
        forall|start: nat| start < bits.height ==> 0 < #[trigger] band_rows(bits.height as nat, start) <= 128,
        bands_dots(bits, ((bits.height + BAND - 1) / BAND as int) as nat) == bits.data@.take(
            bits.height * bits.row_bytes,
        ),
{
    let count = ((bits.height + BAND - 1) / BAND as int) as nat;
    lemma_bands_dots(bits, count);
}

/// The two columns of a line share it edge to edge, with a space at least
/// between them, wherever the right one leaves room for that.
pub proof fn columns_fill_the_line(left: Seq<char>, right: Seq<char>)
    requires
        right.len() < WIDTH,
    ensures
        columns_text(left, right).len() == WIDTH,
        columns_text(left, right).skip(WIDTH - right.len()) == right,
        columns_text(left, right)[WIDTH - right.len() - 1] == ' ',
{
    assert(columns_text(left, right).skip(WIDTH - right.len()) =~= right);
}

/// The left column is cut short only as far as it must be: all of it is shown where a
/// space and the right column still find room behind it, otherwise as much as leaves that
/// room; and between the two there is nothing but spaces.
pub proof fn the_left_column_is_cut_only_to_make_room(left: Seq<char>, right: Seq<char>, i: int)
    requires
        right.len() < 48,
        0 <= i < 48 - right.len(),
    ensures
        i < left.len() && i < 47 - right.len() ==> columns_text(left, right)[i] == left[i],
        i >= left.len() || i == 47 - right.len() ==> columns_text(left, right)[i] == ' ',
{
}

/// A right column that leaves no room is all of the line.
pub proof fn a_full_right_column_stands_alone(left: Seq<char>, right: Seq<char>)
    requires
        right.len() >= 48,
    ensures
        columns_text(left, right) == right,
{
    assert(columns_text(left, right) =~= right);
}

/// ASCII text is printed as it stands, and so many characters are so many bytes. Two
/// lines, three blocks and three shades have bytes of their own, from 0xb0 up; anything
/// else outside ASCII is a question mark.
pub proof fn ascii_is_printed_as_it_stands(s: Seq<char>, i: int)
    requires
        0 <= i < s.len(),
    ensures
        ({
            let c = s[i];
            let b = encoded(s)[i];
            &&& encoded(s).len() == s.len()
            &&& (c as u32) < 0x80 ==> b as u32 == c as u32
            &&& (c as u32) >= 0x80 ==> (b == 0xc4 <==> c == '\u{2500}') && (b == 0xcd <==> c
                == '\u{2550}') && (b == 0xdb <==> c == '\u{2588}') && (b == 0xdc <==> c
                == '\u{2584}') && (b == 0xdf <==> c == '\u{2580}') && (b == 0xb0 <==> c
                == '\u{2591}') && (b == 0xb1 <==> c == '\u{2592}') && (b == 0xb2 <==> c
                == '\u{2593}')
            &&& (c as u32) >= 0x80 && b < 0xb0 ==> b == 0x3f
            &&& b >= 0xb0 ==> seq![0xc4u8, 0xcd, 0xdb, 0xdc, 0xdf, 0xb0, 0xb1, 0xb2].contains(b)
        }),
{
    let own = seq![0xc4u8, 0xcd, 0xdb, 0xdc, 0xdf, 0xb0, 0xb1, 0xb2];
    assert(own[0] == 0xc4 && own[1] == 0xcd && own[2] == 0xdb && own[3] == 0xdc && own[4] == 0xdf
        && own[5] == 0xb0 && own[6] == 0xb1 && own[7] == 0xb2);
    lemma_own_bytes(s[i]);
}

proof fn lemma_own_bytes(c: char)
    ensures
        c as u32 == 0x2500 <==> c == '\u{2500}',
        c as u32 == 0x2550 <==> c == '\u{2550}',
        c as u32 == 0x2588 <==> c == '\u{2588}',
        c as u32 == 0x2584 <==> c == '\u{2584}',
        c as u32 == 0x2580 <==> c == '\u{2580}',
        c as u32 == 0x2591 <==> c == '\u{2591}',
        c as u32 == 0x2592 <==> c == '\u{2592}',
        c as u32 == 0x2593 <==> c == '\u{2593}',
{
}

/// Every byte of a line of text is printable as it stands or a character of the
/// text below 128: nothing outside ASCII can reach the printer as a command.
pub proof fn only_ascii_text_can_command(s: Seq<char>, i: int)
    requires
        0 <= i < s.len(),
    ensures
        encoded(s)[i] < 0x20 ==> s[i] as u32 == encoded(s)[i] as u32,
        encoded(s)[i] == 0x7f ==> s[i] as u32 == 0x7f,
{
}

} // verus!
