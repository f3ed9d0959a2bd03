//! One-bit images, and how the tones of a picture become dots.
//!
//! The head is 576 dots across 80mm paper at 203 dpi. A picture is composed at
//! exactly that width so nothing is ever scaled and softened, then reduced to
//! one bit per dot, packed most significant bit first into rows of bytes. ESC/POS
//! has no concept of layout, only dots.

use crate::text::same;
use vstd::arithmetic::div_mod;
use vstd::prelude::*;

verus! {

/// Dots across the paper.
pub const DOTS: usize = 576;

/// How a tone is reduced to dots.
#[derive(Clone, Copy, PartialEq, Eq, Structural)]
pub enum Dither {
    /// Hard cut at 50%: right for line work that is already 1-bit.
    Threshold,
    /// Keeps line work crisp; the usual choice for thermal paper.
    Atkinson,
    /// Truer mid-tones, slightly mushier edges.
    FloydSteinberg,
    /// Ordered 8x8, which prints as a visible weave.
    Bayer,
}

impl Dither {
    /// The method of that name.
    pub open spec fn named(s: Seq<char>) -> Option<Dither> {
        if s == "threshold"@ || s == "none"@ {
            Some(Dither::Threshold)
        } else if s == "atkinson"@ {
            Some(Dither::Atkinson)
        } else if s == "floyd"@ || s == "floyd-steinberg"@ {
            Some(Dither::FloydSteinberg)
        } else if s == "bayer"@ || s == "ordered"@ {
            Some(Dither::Bayer)
        } else {
            None
        }
    }

    /// The method of that name, if there is one.
    pub fn parse(s: &str) -> (r: Option<Dither>)
        ensures
            r == Dither::named(s@),
    {
        if same(s, "threshold") || same(s, "none") {
            Some(Dither::Threshold)
        } else if same(s, "atkinson") {
            Some(Dither::Atkinson)
        } else if same(s, "floyd") || same(s, "floyd-steinberg") {
            Some(Dither::FloydSteinberg)
        } else if same(s, "bayer") || same(s, "ordered") {
            Some(Dither::Bayer)
        } else {
            None
        }
    }
}

// --- packed dots -----------------------------------------------------------

/// A packed 1-bit image, ready for GS v 0.
pub struct Bits {
    pub width: usize,
    pub height: usize,
    pub row_bytes: usize,
    pub data: Vec<u8>,
}

/// Whether bit `k` of a byte is set, counting from the most significant.
pub open spec fn bit_of(byte: u8, k: nat) -> bool {
    byte & (0x80u8 >> (k as u8)) != 0
}

proof fn lemma_bits_fix_the_byte(p: u8, q: u8)
    requires
        forall|k: nat| k < 8 ==> #[trigger] bit_of(p, k) == bit_of(q, k),
    ensures
        p == q,
{
    assert(bit_of(p, 0) == bit_of(q, 0) && bit_of(p, 1) == bit_of(q, 1));
    assert(bit_of(p, 2) == bit_of(q, 2) && bit_of(p, 3) == bit_of(q, 3));
    assert(bit_of(p, 4) == bit_of(q, 4) && bit_of(p, 5) == bit_of(q, 5));
    assert(bit_of(p, 6) == bit_of(q, 6) && bit_of(p, 7) == bit_of(q, 7));
    assert(p == q) by (bit_vector)
        requires
            (p & (0x80u8 >> 0u8) != 0) == (q & (0x80u8 >> 0u8) != 0),
            (p & (0x80u8 >> 1u8) != 0) == (q & (0x80u8 >> 1u8) != 0),
            (p & (0x80u8 >> 2u8) != 0) == (q & (0x80u8 >> 2u8) != 0),
            (p & (0x80u8 >> 3u8) != 0) == (q & (0x80u8 >> 3u8) != 0),
            (p & (0x80u8 >> 4u8) != 0) == (q & (0x80u8 >> 4u8) != 0),
            (p & (0x80u8 >> 5u8) != 0) == (q & (0x80u8 >> 5u8) != 0),
            (p & (0x80u8 >> 6u8) != 0) == (q & (0x80u8 >> 6u8) != 0),
            (p & (0x80u8 >> 7u8) != 0) == (q & (0x80u8 >> 7u8) != 0),
    ;
}

impl Bits {
    /// Rows are as many whole bytes as the width needs, one after the other.
    pub open spec fn wf(self) -> bool {
        &&& self.row_bytes == (self.width + 7) / 8
        &&& self.data@.len() == self.row_bytes * self.height
    }

    /// The byte that holds the dot.
    pub open spec fn byte_index(self, x: int, y: int) -> int {
        y * self.row_bytes + x / 8
    }

    /// Whether the dot is burnt.
    pub open spec fn dot(self, x: int, y: int) -> bool {
        bit_of(self.data@[self.byte_index(x, y)], (x % 8) as nat)
    }

    /// Whether nothing is burnt past the right edge, where the last byte of a row has
    /// bits to spare.
    pub open spec fn edge_is_white(self) -> bool {
        forall|x: int, y: int|
            self.width <= x < 8 * self.row_bytes && 0 <= y < self.height ==> !#[trigger] self.dot(
                x,
                y,
            )
    }

    /// Every dot of a well formed image, and every bit to spare past its right edge,
    /// lies within its data.
    pub proof fn dots_are_within(self, x: int, y: int)
        requires
            self.wf(),
            0 <= x < 8 * self.row_bytes,
            0 <= y < self.height,
        ensures
            0 <= self.byte_index(x, y) < self.data@.len(),
            0 <= y * self.row_bytes <= self.byte_index(x, y),
            x / 8 < self.row_bytes,
    {
        let rb = self.row_bytes as int;
        assert(x / 8 < rb);
        assert(0 <= y * rb && y * rb + rb <= self.height * rb) by (nonlinear_arith)
            requires
                0 <= y < self.height,
                rb >= 0,
        ;
        assert(self.height * rb == rb * self.height) by (nonlinear_arith);
    }

    /// Two dots in the same byte and at the same bit are the same dot.
    proof fn lemma_dots_apart(self, x: int, y: int, a: int, b: int)
        requires
            self.wf(),
            0 <= x < 8 * self.row_bytes,
            0 <= y < self.height,
            0 <= a < 8 * self.row_bytes,
            0 <= b < self.height,
            self.byte_index(x, y) == self.byte_index(a, b),
            x % 8 == a % 8,
        ensures
            x == a,
            y == b,
    {
        self.dots_are_within(x, y);
        self.dots_are_within(a, b);
        let rb = self.row_bytes as int;
        div_mod::lemma_fundamental_div_mod_converse(self.byte_index(x, y), rb, y, x / 8);
        div_mod::lemma_fundamental_div_mod_converse(self.byte_index(a, b), rb, b, a / 8);
    }

    /// The dots of an image fix its bytes: two images of one size with the same dots
    /// and nothing burnt past the edge are packed alike.
    pub proof fn dots_fix_the_bytes(self, other: Bits)
        requires
            self.wf(),
            other.wf(),
            self.edge_is_white(),
            other.edge_is_white(),
            self.width == other.width,
            self.height == other.height,
            forall|x: int, y: int|
                0 <= x < self.width && 0 <= y < self.height ==> #[trigger] self.dot(x, y)
                    == other.dot(x, y),
        ensures
            self.row_bytes == other.row_bytes,
            self.data@ == other.data@,
    {
        let rb = self.row_bytes as int;
        let h = self.height as int;
        assert forall|i: int| 0 <= i < self.data@.len() implies self.data@[i] == other.data@[i] by {
            assert(rb > 0) by (nonlinear_arith)
                requires
                    0 <= i < rb * h,
                    rb >= 0,
            ;
            let (y, col) = (i / rb, i % rb);
            div_mod::lemma_fundamental_div_mod(i, rb);
            assert(0 <= y < h) by (nonlinear_arith)
                requires
                    i == rb * y + col,
                    0 <= col < rb,
                    0 <= i < rb * h,
            ;
            assert(y * rb == rb * y) by (nonlinear_arith);
            assert forall|k: nat| k < 8 implies #[trigger] bit_of(self.data@[i], k) == bit_of(
                other.data@[i],
                k,
            ) by {
                let x = 8 * col + k;
                assert(x / 8 == col && x % 8 == k);
                assert(x < 8 * rb);
                assert(self.dot(x, y) == other.dot(x, y));
            }
            lemma_bits_fix_the_byte(self.data@[i], other.data@[i]);
        }
        assert(self.data@ =~= other.data@);
    }

    /// An image of white paper.
    pub fn blank(width: usize, height: usize) -> (r: Bits)
        requires
            ((width + 7) / 8) * height <= usize::MAX,
        ensures
            r.wf(),
            r.width == width,
            r.height == height,
            forall|x: int, y: int| 0 <= x < width && 0 <= y < height ==> !#[trigger] r.dot(x, y),
            r.edge_is_white(),
    {
        let row_bytes: usize = width / 8 + if width % 8 == 0 {
            0usize
        } else {
            1usize
        };
        assert(row_bytes == (width + 7) / 8);
        let r = Bits { width, height, row_bytes, data: vec![0u8;row_bytes * height] };
        assert forall|x: int, y: int| 0 <= x < 8 * row_bytes && 0 <= y < height implies
            !#[trigger] r.dot(x, y) by {
            r.dots_are_within(x, y);
            let k = (x % 8) as u8;
            assert(0u8 & (0x80u8 >> k) == 0) by (bit_vector);
        }
        r
    }

    /// Burns one dot and leaves every other as it was.
    pub fn burn(&mut self, x: usize, y: usize)
        requires
            old(self).wf(),
            x < old(self).width,
            y < old(self).height,
        ensures
            final(self).wf(),
            final(self).width == old(self).width,
            final(self).height == old(self).height,
            final(self).dot(x as int, y as int),
            forall|a: int, b: int|
                0 <= a < old(self).width && 0 <= b < old(self).height && (a, b) != (
                    x as int,
                    y as int,
                ) ==> #[trigger] final(self).dot(a, b) == old(self).dot(a, b),
            old(self).edge_is_white() ==> final(self).edge_is_white(),
    {
        let len: usize = self.data.len();
        proof {
            self.dots_are_within(x as int, y as int);
        }
        assert(y * self.row_bytes + x / 8 < len);
        let i: usize = y * self.row_bytes + x / 8;
        let k: u8 = (x % 8) as u8;
        let byte = self.data[i];
        let mask: u8 = 0x80u8 >> k;
        self.data.set(i, byte | mask);
        proof {
            let set = byte | mask;
            assert(set & mask != 0) by (bit_vector)
                requires
                    set == byte | mask,
                    mask == 0x80u8 >> k,
                    k < 8,
            ;
            assert forall|a: int, b: int|
                0 <= a < 8 * old(self).row_bytes && 0 <= b < old(self).height && (a, b) != (
                    x as int,
                    y as int,
                ) implies #[trigger] self.dot(a, b) == old(self).dot(a, b) by {
                old(self).dots_are_within(a, b);
                if old(self).byte_index(a, b) == i {
                    if a % 8 == x as int % 8 {
                        old(self).lemma_dots_apart(x as int, y as int, a, b);
                    }
                    let j = (a % 8) as u8;
                    assert((set & (0x80u8 >> j) != 0) == (byte & (0x80u8 >> j) != 0)) by (bit_vector)
                        requires
                            set == byte | mask,
                            mask == 0x80u8 >> k,
                            k < 8,
                            j < 8,
                            j != k,
                    ;
                }
            }
        }
    }

    /// Whether the dot is burnt.
    pub fn get(&self, x: usize, y: usize) -> (r: bool)
        requires
            self.byte_index(x as int, y as int) < self.data@.len(),
        ensures
            r == self.dot(x as int, y as int),
    {
        let len: usize = self.data.len();
        assert(0 <= y * self.row_bytes) by (nonlinear_arith);
        assert(y * self.row_bytes + x / 8 < len);
        let k: u8 = (x % 8) as u8;
        self.data[y * self.row_bytes + x / 8] & (0x80u8 >> k) != 0
    }

    /// The image in 8-bit grey, row by row: black where a dot is burnt and white
    /// where the paper shows. For checking a piece without spending paper.
    pub fn to_luma(&self) -> (out: Vec<u8>)
        requires
            self.wf(),
            self.width * self.height <= usize::MAX,
        ensures
            out@.len() == self.width * self.height,
            forall|i: int|
                0 <= i < out@.len() ==> #[trigger] out@[i] == if self.dot(
                    i % self.width as int,
                    i / self.width as int,
                ) {
                    0u8
                } else {
                    255u8
                },
    {
        let mut out: Vec<u8> = Vec::new();
        let mut x: usize = 0;
        let mut y: usize = 0;
        if self.width == 0 {
            assert(self.width * self.height == 0) by (nonlinear_arith)
                requires
                    self.width == 0,
            ;
            return out;
        }
        assert(y * self.width == 0) by (nonlinear_arith)
            requires
                y == 0,
        ;
        while y < self.height
            invariant
                self.wf(),
                x < self.width,
                y <= self.height,
                y == self.height ==> x == 0,
                out@.len() == y * self.width + x,
                forall|i: int|
                    0 <= i < out@.len() ==> #[trigger] out@[i] == if self.dot(
                        i % self.width as int,
                        i / self.width as int,
                    ) {
                        0u8
                    } else {
                        255u8
                    },
            decreases self.height - y, self.width - x,
        {
            proof {
                self.dots_are_within(x as int, y as int);
                div_mod::lemma_fundamental_div_mod_converse(
                    out@.len() as int,
                    self.width as int,
                    y as int,
                    x as int,
                );
            }
            let burnt = self.get(x, y);
            out.push(
                if burnt {
                    0u8
                } else {
                    255u8
                },
            );
            x += 1;
            if x == self.width {
                assert((y + 1) * self.width == y * self.width + self.width) by (nonlinear_arith);
                x = 0;
                y += 1;
            }
        }
        assert(self.height * self.width == self.width * self.height) by (nonlinear_arith);
        out
    }
}

/// A picture of pure black and white, one flag for each dot, row by row.
pub struct Mask {
    pub width: usize,
    pub height: usize,
    pub ink: Vec<bool>,
}

impl Mask {
    pub open spec fn wf(self) -> bool {
        self.ink@.len() == self.width * self.height
    }
}

// --- from tones to dots ----------------------------------------------------

/// The rank of a dot within a 2x2 block: 0 and 2 on the first row, 3 and 1 on
/// the second.
pub open spec fn corner(x: nat, y: nat) -> nat {
    if y % 2 == 0 {
        if x % 2 == 0 {
            0
        } else {
            2
        }
    } else {
        if x % 2 == 0 {
            3
        } else {
            1
        }
    }
}

/// The rank, 0 to 63, of a dot in the 8x8 Bayer matrix that tiles the paper.
pub open spec fn bayer(x: nat, y: nat) -> nat {
    16 * corner(x, y) + 4 * corner(x / 2, y / 2) + corner(x / 4, y / 4)
}

/// The matrix holds every rank from 0 to 63 once: no two places in it share one.
pub proof fn no_two_places_share_a_rank(x: nat, y: nat, a: nat, b: nat)
    requires
        x < 8,
        y < 8,
        a < 8,
        b < 8,
        bayer(x, y) == bayer(a, b),
    ensures
        bayer(x, y) < 64,
        x == a,
        y == b,
{
    assert(corner(x, y) == corner(a, b));
    assert(corner(x / 2, y / 2) == corner(a / 2, b / 2));
    assert(corner(x / 4, y / 4) == corner(a / 4, b / 4));
}

/// The matrix tiles the paper: it comes again every eight dots along and down.
pub proof fn the_matrix_tiles_the_paper(x: nat, y: nat)
    ensures
        bayer(x + 8, y) == bayer(x, y),
        bayer(x, y + 8) == bayer(x, y),
        bayer(x, y) < 64,
{
    assert((x + 8) / 2 == x / 2 + 4 && (x + 8) / 4 == x / 4 + 2);
    assert((y + 8) / 2 == y / 2 + 4 && (y + 8) / 4 == y / 4 + 2);
}

/// The ranks are spread as evenly as can be. Of four dots in a square they are 16 apart,
/// of four such squares 4 apart, and of the four quarters of the matrix 1 apart, each
/// time in the same order: a corner, the one across, the one beside it and the one below.
pub proof fn ranks_are_spread_evenly(x: nat, y: nat)
    ensures
        x % 2 == 0 && y % 2 == 0 ==> bayer(x + 1, y + 1) == bayer(x, y) + 16 && bayer(x + 1, y)
            == bayer(x, y) + 32 && bayer(x, y + 1) == bayer(x, y) + 48,
        x % 4 < 2 && y % 4 < 2 ==> bayer(x + 2, y + 2) == bayer(x, y) + 4 && bayer(x + 2, y)
            == bayer(x, y) + 8 && bayer(x, y + 2) == bayer(x, y) + 12,
        x % 8 < 4 && y % 8 < 4 ==> bayer(x + 4, y + 4) == bayer(x, y) + 1 && bayer(x + 4, y)
            == bayer(x, y) + 2 && bayer(x, y + 4) == bayer(x, y) + 3,
        bayer(0, 0) == 0,
{
    assert((x + 2) / 2 == x / 2 + 1 && (y + 2) / 2 == y / 2 + 1);
    assert((x + 4) / 2 == x / 2 + 2 && (y + 4) / 2 == y / 2 + 2);
    assert((x + 4) / 4 == x / 4 + 1 && (y + 4) / 4 == y / 4 + 1);
}

fn corner_of(x: usize, y: usize) -> (r: u8)
    ensures
        r == corner(x as nat, y as nat),
        r <= 3,
{
    if y % 2 == 0 {
        if x % 2 == 0 {
            0
        } else {
            2
        }
    } else {
        if x % 2 == 0 {
            3
        } else {
            1
        }
    }
}

/// What a tone, 0 for white and 1 for black, is held against to decide a dot.
#[derive(Clone, Copy, PartialEq, Eq, Structural)]
pub enum Cut {
    /// Burnt from half tone up.
    Half,
    /// Burnt where 64 times the tone is more than half above the rank.
    Rank(u8),
}

/// A dot about to be decided: where its tone stands, row by row, and the cut.
#[derive(Clone, Copy, PartialEq, Eq, Structural)]
pub struct Dot {
    pub index: usize,
    pub cut: Cut,
}

/// The part of a dot's error, in sixteenths, that another dot takes on.
#[derive(Clone, Copy, PartialEq, Eq, Structural)]
pub struct Share {
    pub index: usize,
    pub sixteenths: u8,
}

/// Where a method passes a dot's error: steps right and down, and sixteenths.
pub open spec fn reach(method: Dither) -> Seq<(int, int, int)> {
    match method {
        Dither::Atkinson => seq![
            (1, 0, 2),
            (2, 0, 2),
            (-1, 1, 2),
            (0, 1, 2),
            (1, 1, 2),
            (0, 2, 2),
        ],
        Dither::FloydSteinberg => seq![(1, 0, 7), (-1, 1, 3), (0, 1, 5), (1, 1, 1)],
        _ => Seq::empty(),
    }
}

/// The steps that stay on the paper, as places row by row and sixteenths.
pub open spec fn landed(steps: Seq<(int, int, int)>, x: int, y: int, width: int, height: int) -> Seq<
    (int, int),
>
    decreases steps.len(),
{
    if steps.len() == 0 {
        Seq::empty()
    } else {
        let before = landed(steps.drop_last(), x, y, width, height);
        let (dx, dy, part) = steps.last();
        if 0 <= x + dx < width && 0 <= y + dy < height {
            before.push(((y + dy) * width + (x + dx), part))
        } else {
            before
        }
    }
}

/// What a list of shares says.
pub open spec fn told(shares: Seq<Share>) -> Seq<(int, int)> {
    shares.map_values(|s: Share| (s.index as int, s.sixteenths as int))
}

/// The sixteenths of a list of shares, added up.
pub open spec fn total(shares: Seq<(int, int)>) -> int
    decreases shares.len(),
{
    if shares.len() == 0 {
        0
    } else {
        total(shares.drop_last()) + shares.last().1
    }
}

proof fn lemma_landed_forward(
    steps: Seq<(int, int, int)>,
    x: int,
    y: int,
    width: int,
    height: int,
)
    requires
        0 <= x < width,
        0 <= y < height,
        forall|i: int|
            0 <= i < steps.len() ==> (#[trigger] steps[i]).1 > 0 || steps[i].1 == 0 && steps[i].0
                > 0,
    ensures
        forall|i: int|
            0 <= i < landed(steps, x, y, width, height).len() ==> y * width + x < (
            #[trigger] landed(steps, x, y, width, height)[i]).0 < width * height,
    decreases steps.len(),
{
    if steps.len() > 0 {
        assert(forall|i: int|
            0 <= i < steps.len() - 1 ==> #[trigger] steps.drop_last()[i] == steps[i]);
        lemma_landed_forward(steps.drop_last(), x, y, width, height);
        let (dx, dy, part) = steps[steps.len() - 1];
        let (a, b) = (x + dx, y + dy);
        let before = landed(steps.drop_last(), x, y, width, height);
        if 0 <= a < width && 0 <= b < height {
            assert(landed(steps, x, y, width, height) == before.push((b * width + a, part)));
            assert(y * width + x < b * width + a && b * width + a < width * height)
                by (nonlinear_arith)
                requires
                    0 <= x < width,
                    0 <= a < width,
                    0 <= y <= b < height,
                    b > y || a > x,
            ;
        }
    }
}

/// A dot's error goes only to dots that are still to be decided, and to no dot
/// off the paper.
pub proof fn error_goes_forward(method: Dither, x: int, y: int, width: int, height: int)
    requires
        0 <= x < width,
        0 <= y < height,
    ensures
        forall|i: int|
            0 <= i < landed(reach(method), x, y, width, height).len() ==> y * width + x < (
            #[trigger] landed(reach(method), x, y, width, height)[i]).0 < width * height,
{
    lemma_landed_forward(reach(method), x, y, width, height);
}

/// Every share of a dot's error lands beside or below the dot, at the step that the
/// method takes there, and a step off the paper lands nowhere: nothing is carried round
/// to another row.
pub proof fn error_lands_beside_the_dot(method: Dither, x: int, y: int, width: int, height: int)
    requires
        0 <= x < width,
        0 <= y < height,
    ensures
        ({
            let all = landed(reach(method), x, y, width, height);
            &&& forall|i: int|
                0 <= i < all.len() ==> {
                    let (index, part) = #[trigger] all[i];
                    reach(method).contains((index % width - x, index / width - y, part))
                }
            &&& forall|k: int|
                0 <= k < reach(method).len() && 0 <= x + (#[trigger] reach(method)[k]).0 < width
                    && y + reach(method)[k].1 < height ==> all.contains(
                    (
                        (y + reach(method)[k].1) * width + (x + reach(method)[k].0),
                        reach(method)[k].2,
                    ),
                )
            &&& forall|k: int|
                0 <= k < reach(method).len() ==> -1 <= (#[trigger] reach(method)[k]).0 <= 2 && 0
                    <= reach(method)[k].1 <= 2
        }),
{
    lemma_landed(reach(method), x, y, width, height);
}

proof fn lemma_landed(steps: Seq<(int, int, int)>, x: int, y: int, width: int, height: int)
    requires
        0 <= x < width,
        0 <= y < height,
    ensures
        forall|i: int|
            0 <= i < landed(steps, x, y, width, height).len() ==> {
                let (index, part) = #[trigger] landed(steps, x, y, width, height)[i];
                steps.contains((index % width - x, index / width - y, part))
            },
        forall|k: int|
            0 <= k < steps.len() && 0 <= x + (#[trigger] steps[k]).0 < width && 0 <= y + steps[k].1
                < height ==> landed(steps, x, y, width, height).contains(
                ((y + steps[k].1) * width + (x + steps[k].0), steps[k].2),
            ),
    decreases steps.len(),
{
    if steps.len() > 0 {
        let init = steps.drop_last();
        let last = steps.len() - 1;
        let (dx, dy, part) = steps[last];
        let before = landed(init, x, y, width, height);
        let now = landed(steps, x, y, width, height);
        lemma_landed(init, x, y, width, height);
        assert(forall|k: int| 0 <= k < init.len() ==> #[trigger] init[k] == steps[k]);
        let lands = 0 <= x + dx < width && 0 <= y + dy < height;
        let index = (y + dy) * width + (x + dx);
        if lands {
            div_mod::lemma_fundamental_div_mod_converse(index, width, y + dy, x + dx);
        }
        assert forall|i: int| 0 <= i < now.len() implies {
            let (index, part) = #[trigger] now[i];
            steps.contains((index % width - x, index / width - y, part))
        } by {
            if i < before.len() {
                assert(now[i] == before[i]);
                let (at, p) = before[i];
                let step = (at % width - x, at / width - y, p);
                assert(init.contains(step));
                let k = choose|k: int| 0 <= k < init.len() && init[k] == step;
                assert(steps[k] == step);
            } else {
                assert(steps[last] == (dx, dy, part));
            }
        }
        assert forall|k: int|
            0 <= k < steps.len() && 0 <= x + (#[trigger] steps[k]).0 < width && 0 <= y + steps[k].1
                < height implies now.contains(
            ((y + steps[k].1) * width + (x + steps[k].0), steps[k].2),
        ) by {
            let share = ((y + steps[k].1) * width + (x + steps[k].0), steps[k].2);
            if k < last {
                assert(init[k] == steps[k]);
                assert(before.contains(share));
                let j = choose|j: int| 0 <= j < before.len() && before[j] == share;
                assert(now[j] == share);
            } else {
                assert(now[before.len() as int] == share);
            }
        }
    }
}

/// Away from the edges Floyd-Steinberg passes on the whole of a dot's error and
/// Atkinson three quarters of it, which is why it keeps edges crisp; the other
/// two methods pass on none. At the edges no more than that is passed on.
pub proof fn error_passed_on(method: Dither, x: int, y: int, width: int, height: int)
    requires
        0 <= x < width,
        0 <= y < height,
    ensures
        ({
            let most: int = match method {
                Dither::Atkinson => 12,
                Dither::FloydSteinberg => 16,
                _ => 0,
            };
            let passed = total(landed(reach(method), x, y, width, height));
            0 <= passed <= most && (1 <= x < width - 2 && y < height - 2 ==> passed == most)
        }),
{
    lemma_total_landed(reach(method), x, y, width, height);
    reveal_with_fuel(weight, 7);
    let r = reach(method);
    match method {
        Dither::Atkinson => {
            assert(r.drop_last().drop_last().drop_last().drop_last().drop_last().drop_last().len()
                == 0);
            assert(weight(r) == 12);
        },
        Dither::FloydSteinberg => {
            assert(r.drop_last().drop_last().drop_last().drop_last().len() == 0);
            assert(weight(r) == 16);
        },
        _ => {},
    }
}

spec fn weight(steps: Seq<(int, int, int)>) -> int
    decreases steps.len(),
{
    if steps.len() == 0 {
        0
    } else {
        weight(steps.drop_last()) + steps.last().2
    }
}

proof fn lemma_total_landed(steps: Seq<(int, int, int)>, x: int, y: int, width: int, height: int)
    requires
        forall|i: int| 0 <= i < steps.len() ==> (#[trigger] steps[i]).2 >= 0,
    ensures
        0 <= total(landed(steps, x, y, width, height)) <= weight(steps),
        (forall|i: int|
            0 <= i < steps.len() ==> 0 <= x + (#[trigger] steps[i]).0 < width && 0 <= y + steps[i].1
                < height) ==> total(landed(steps, x, y, width, height)) == weight(steps),
    decreases steps.len(),
{
    if steps.len() > 0 {
        assert(forall|i: int|
            0 <= i < steps.len() - 1 ==> #[trigger] steps.drop_last()[i] == steps[i]);
        lemma_total_landed(steps.drop_last(), x, y, width, height);
        let before = landed(steps.drop_last(), x, y, width, height);
        let (dx, dy, part) = steps[steps.len() - 1];
        let now = landed(steps, x, y, width, height);
        if 0 <= x + dx < width && 0 <= y + dy < height {
            assert(now.drop_last() =~= before);
        }
    }
}

/// Adds the share that lies `dx` to the right and `dy` down, if it is on paper.
fn offer(
    shares: &mut Vec<Share>,
    x: usize,
    y: usize,
    width: usize,
    height: usize,
    dx: i8,
    dy: usize,
    sixteenths: u8,
)
    requires
        x < width,
        y < height,
        width * height <= usize::MAX,
        -1 <= dx <= 2,
        dy <= 2,
    ensures
        forall|steps: Seq<(int, int, int)>|
            told(old(shares)@) == #[trigger] landed(
                steps,
                x as int,
                y as int,
                width as int,
                height as int,
            ) ==> told(final(shares)@) == landed(
                steps.push((dx as int, dy as int, sixteenths as int)),
                x as int,
                y as int,
                width as int,
                height as int,
            ),
{
    let ghost step = (dx as int, dy as int, sixteenths as int);
    let ghost before = shares@;
    if dy < height - y && (if dx < 0 {
        x > 0
    } else {
        (dx as usize) < width - x
    }) {
        let a: usize = if dx < 0 {
            x - 1
        } else {
            x + dx as usize
        };
        let b: usize = y + dy;
        assert(a == x + dx);
        assert(0 <= b * width && b * width + a < width * height) by (nonlinear_arith)
            requires
                0 <= a < width,
                0 <= b < height,
        ;
        shares.push(Share { index: b * width + a, sixteenths });
        assert(told(shares@) =~= told(before).push((b * width + a, sixteenths as int)));
    }
    assert forall|steps: Seq<(int, int, int)>|
        told(before) == #[trigger] landed(
            steps,
            x as int,
            y as int,
            width as int,
            height as int,
        ) implies told(shares@) == landed(
        steps.push(step),
        x as int,
        y as int,
        width as int,
        height as int,
    ) by {
        assert(steps.push(step).drop_last() =~= steps);
    }
}

/// Where the error of the dot at `x`, `y` goes.
pub fn shares_of(method: Dither, x: usize, y: usize, width: usize, height: usize) -> (out: Vec<
    Share,
>)
    requires
        x < width,
        y < height,
        width * height <= usize::MAX,
    ensures
        told(out@) == landed(reach(method), x as int, y as int, width as int, height as int),
{
    let mut out: Vec<Share> = Vec::new();
    let ghost none = Seq::<(int, int, int)>::empty();
    assert(told(out@) =~= landed(none, x as int, y as int, width as int, height as int));
    match method {
        Dither::Atkinson => {
            offer(&mut out, x, y, width, height, 1, 0, 2);
            offer(&mut out, x, y, width, height, 2, 0, 2);
            offer(&mut out, x, y, width, height, -1, 1, 2);
            offer(&mut out, x, y, width, height, 0, 1, 2);
            offer(&mut out, x, y, width, height, 1, 1, 2);
            offer(&mut out, x, y, width, height, 0, 2, 2);
            assert(none.push((1, 0, 2)).push((2, 0, 2)).push((-1, 1, 2)).push((0, 1, 2)).push(
                (1, 1, 2),
            ).push((0, 2, 2)) =~= reach(method));
        },
        Dither::FloydSteinberg => {
            offer(&mut out, x, y, width, height, 1, 0, 7);
            offer(&mut out, x, y, width, height, -1, 1, 3);
            offer(&mut out, x, y, width, height, 0, 1, 5);
            offer(&mut out, x, y, width, height, 1, 1, 1);
            assert(none.push((1, 0, 7)).push((-1, 1, 3)).push((0, 1, 5)).push((1, 1, 1)) =~= reach(
                method,
            ));
        },
        _ => {},
    }
    out
}

/// A picture on its way from tones to dots, decided one dot at a time, row by
/// row from the top left. The tones themselves stay with the caller, who decides
/// each dot against its cut and passes its error on as told.
pub struct Halftone {
    method: Dither,
    x: usize,
    y: usize,
    bits: Bits,
}

impl Halftone {
    pub closed spec fn method(self) -> Dither {
        self.method
    }

    pub closed spec fn width(self) -> nat {
        self.bits.width as nat
    }

    pub closed spec fn height(self) -> nat {
        self.bits.height as nat
    }

    spec fn count(self) -> int {
        self.y * self.bits.width + self.x
    }

    /// The dots decided so far, row by row.
    pub closed spec fn decided(self) -> Seq<bool> {
        Seq::new(
            self.count() as nat,
            |i: int| self.bits.dot(i % self.bits.width as int, i / self.bits.width as int),
        )
    }

    pub closed spec fn wf(self) -> bool {
        let w = self.bits.width;
        let h = self.bits.height;
        &&& self.bits.wf()
        &&& self.bits.edge_is_white()
        &&& w * h <= usize::MAX
        &&& if w == 0 {
            self.x == 0 && self.y == 0
        } else {
            self.x < w && self.y <= h && (self.y == h ==> self.x == 0)
        }
        &&& forall|a: int, b: int|
            0 <= a < w && 0 <= b < h && b * w + a >= self.count() ==> !#[trigger] self.bits.dot(
                a,
                b,
            )
    }

    proof fn lemma_count(self)
        requires
            self.wf(),
        ensures
            0 <= self.count() <= self.width() * self.height(),
            self.decided().len() == self.count(),
            self.bits.width > 0 && self.y < self.bits.height ==> {
                &&& self.count() < self.width() * self.height()
                &&& self.count() % self.bits.width as int == self.x
                &&& self.count() / self.bits.width as int == self.y
            },
            self.bits.width == 0 || self.y == self.bits.height ==> self.count() == self.width()
                * self.height(),
    {
        let w = self.bits.width as int;
        let h = self.bits.height as int;
        let (x, y) = (self.x as int, self.y as int);
        if w > 0 {
            assert(0 <= y * w + x && (y < h ==> y * w + x < w * h) && (y == h && x == 0 ==> y * w + x
                == w * h)) by (nonlinear_arith)
                requires
                    0 <= x < w,
                    0 <= y <= h,
            ;
            if y < h {
                div_mod::lemma_fundamental_div_mod_converse(y * w + x, w, y, x);
            }
        } else {
            assert(y * w + x == 0 && w * h == 0) by (nonlinear_arith)
                requires
                    w == 0,
                    x == 0,
            ;
        }
    }

    /// A picture with every dot still to be decided.
    pub fn new(width: usize, height: usize, method: Dither) -> (r: Halftone)
        requires
            width * height <= usize::MAX,
            ((width + 7) / 8) * height <= usize::MAX,
        ensures
            r.wf(),
            r.width() == width,
            r.height() == height,
            r.method() == method,
            r.decided() == Seq::<bool>::empty(),
    {
        let r = Halftone { method, x: 0, y: 0, bits: Bits::blank(width, height) };
        proof {
            r.lemma_count();
            assert(r.y * r.bits.width == 0) by (nonlinear_arith)
                requires
                    r.y == 0,
            ;
        }
        r
    }

    /// The dot to decide next; none when all are decided.
    pub fn next(&self) -> (r: Option<Dot>)
        requires
            self.wf(),
        ensures
            r is None <==> self.decided().len() == self.width() * self.height(),
            r matches Some(dot) ==> {
                &&& dot.index == self.decided().len()
                &&& dot.cut == if self.method() == Dither::Bayer {
                    Cut::Rank(
                        bayer(
                            self.decided().len() % self.width(),
                            self.decided().len() / self.width(),
                        ) as u8,
                    )
                } else {
                    Cut::Half
                }
            },
    {
        proof {
            self.lemma_count();
        }
        if self.bits.width == 0 || self.y == self.bits.height {
            return None;
        }
        assert(0 <= self.y * self.bits.width) by (nonlinear_arith);
        let index: usize = self.y * self.bits.width + self.x;
        let cut = match self.method {
            Dither::Bayer => {
                let rank: u8 = 16 * corner_of(self.x, self.y) + 4 * corner_of(
                    self.x / 2,
                    self.y / 2,
                ) + corner_of(self.x / 4, self.y / 4);
                Cut::Rank(rank)
            },
            _ => Cut::Half,
        };
        Some(Dot { index, cut })
    }

    /// Decides the next dot, and says where its error goes.
    pub fn place(&mut self, burnt: bool) -> (shares: Vec<Share>)
        requires
            old(self).wf(),
            old(self).decided().len() < old(self).width() * old(self).height(),
        ensures
            final(self).wf(),
            final(self).width() == old(self).width(),
            final(self).height() == old(self).height(),
            final(self).method() == old(self).method(),
            final(self).decided() == old(self).decided().push(burnt),
            told(shares@) == landed(
                reach(old(self).method()),
                old(self).decided().len() as int % old(self).width() as int,
                old(self).decided().len() as int / old(self).width() as int,
                old(self).width() as int,
                old(self).height() as int,
            ),
    {
        proof {
            self.lemma_count();
        }
        let w = self.bits.width;
        let h = self.bits.height;
        let x = self.x;
        let y = self.y;
        let shares = shares_of(self.method, x, y, w, h);
        if burnt {
            self.bits.burn(x, y);
        }
        self.x = x + 1;
        if self.x == w {
            self.x = 0;
            self.y = y + 1;
        }
        proof {
            let was = *old(self);
            let count = was.count();
            assert((y + 1) * w == y * w + w) by (nonlinear_arith);
            assert(self.count() == count + 1);
            assert(self.bits.dot(x as int, y as int) == burnt) by {
                assert(was.bits.dot(x as int, y as int) == false);
            }
            assert forall|a: int, b: int|
                0 <= a < w && 0 <= b < h && b * w + a >= self.count() implies !#[trigger] self.bits.dot(
                a,
                b,
            ) by {
                assert((a, b) != (x as int, y as int));
                assert(!was.bits.dot(a, b));
            }
            self.lemma_count();
            assert forall|i: int| 0 <= i <= count implies self.decided()[i] == was.decided().push(
                burnt,
            )[i] by {
                let (a, b) = (i % w as int, i / w as int);
                div_mod::lemma_fundamental_div_mod(i, w as int);
                div_mod::lemma_div_is_ordered(i, count, w as int);
                if i < count {
                    assert(b * w == w * b) by (nonlinear_arith);
                    assert((a, b) != (x as int, y as int));
                    assert(0 <= b) by (nonlinear_arith)
                        requires
                            b == i / w as int,
                            i >= 0,
                            w > 0,
                    ;
                    assert(self.bits.dot(a, b) == was.bits.dot(a, b));
                }
            }
            assert(self.decided() =~= was.decided().push(burnt));
        }
        shares
    }

    /// The image, once every dot is decided.
    pub fn finish(self) -> (r: Bits)
        requires
            self.wf(),
            self.decided().len() == self.width() * self.height(),
        ensures
            r.wf(),
            r.width == self.width(),
            r.height == self.height(),
            r.edge_is_white(),
            forall|i: int|
                0 <= i < self.decided().len() ==> #[trigger] self.decided()[i] == r.dot(
                    i % r.width as int,
                    i / r.width as int,
                ),
    {
        self.bits
    }
}

} // verus!
