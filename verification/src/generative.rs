//! Generative pieces, composed at the exact width of the print head.

use crate::raster::{Mask, DOTS};
use crate::rng;
use crate::rng::Rng;
use crate::text;
use crate::text::{chars_of, repeat, same};
use vstd::arithmetic::div_mod;
use vstd::prelude::*;

verus! {

// --- the collection --------------------------------------------------------

/// The pieces that can be generated.
#[derive(Clone, Copy, PartialEq, Eq, Structural)]
pub enum Generator {
    Flow,
    Rule30,
    Maze,
    Truchet,
    Moire,
    Hilbert,
    Stipple,
    Waves,
}

/// Every piece, in the order they are listed.
pub open spec fn collection() -> Seq<Generator> {
    seq![
        Generator::Flow,
        Generator::Rule30,
        Generator::Maze,
        Generator::Truchet,
        Generator::Moire,
        Generator::Hilbert,
        Generator::Stipple,
        Generator::Waves,
    ]
}

/// The pieces for a banner: all but Hilbert, which wants a square, and a banner is
/// not one.
pub open spec fn banner_collection() -> Seq<Generator> {
    seq![
        Generator::Flow,
        Generator::Rule30,
        Generator::Maze,
        Generator::Truchet,
        Generator::Moire,
        Generator::Stipple,
        Generator::Waves,
    ]
}

/// Every piece, in the order they are listed.
pub fn generators() -> (r: Vec<Generator>)
    ensures
        r@ == collection(),
{
    let r = vec![
        Generator::Flow,
        Generator::Rule30,
        Generator::Maze,
        Generator::Truchet,
        Generator::Moire,
        Generator::Hilbert,
        Generator::Stipple,
        Generator::Waves,
    ];
    assert(r@ =~= collection());
    r
}

impl Generator {
    pub open spec fn named(self) -> Seq<char> {
        match self {
            Generator::Flow => "flow"@,
            Generator::Rule30 => "rule30"@,
            Generator::Maze => "maze"@,
            Generator::Truchet => "truchet"@,
            Generator::Moire => "moire"@,
            Generator::Hilbert => "hilbert"@,
            Generator::Stipple => "stipple"@,
            Generator::Waves => "waves"@,
        }
    }

    pub open spec fn described(self) -> Seq<char> {
        match self {
            Generator::Flow => "flow field of drifting strands"@,
            Generator::Rule30 => "one-dimensional cellular automaton, grown downward"@,
            Generator::Maze => "perfect maze, recursive backtracker"@,
            Generator::Truchet => "random Truchet arcs woven into a tiling"@,
            Generator::Moire => "interfering ring patterns"@,
            Generator::Hilbert => "space-filling Hilbert curve"@,
            Generator::Stipple => "Voronoi-ish stipple field"@,
            Generator::Waves => "stacked ridgeline horizon"@,
        }
    }

    /// The piece's name.
    pub fn name(self) -> (r: &'static str)
        ensures
            r@ == self.named(),
    {
        match self {
            Generator::Flow => "flow",
            Generator::Rule30 => "rule30",
            Generator::Maze => "maze",
            Generator::Truchet => "truchet",
            Generator::Moire => "moire",
            Generator::Hilbert => "hilbert",
            Generator::Stipple => "stipple",
            Generator::Waves => "waves",
        }
    }

    /// The piece in a few words.
    pub fn description(self) -> (r: &'static str)
        ensures
            r@ == self.described(),
    {
        match self {
            Generator::Flow => "flow field of drifting strands",
            Generator::Rule30 => "one-dimensional cellular automaton, grown downward",
            Generator::Maze => "perfect maze, recursive backtracker",
            Generator::Truchet => "random Truchet arcs woven into a tiling",
            Generator::Moire => "interfering ring patterns",
            Generator::Hilbert => "space-filling Hilbert curve",
            Generator::Stipple => "Voronoi-ish stipple field",
            Generator::Waves => "stacked ridgeline horizon",
        }
    }

    /// The piece as it is listed: its name in a column of ten, and its description.
    pub open spec fn listed(self) -> Seq<char> {
        self.named() + text::repeated(' ', (10 - self.named().len()) as nat) + " "@
            + self.described()
    }

    /// The piece as it is listed.
    pub fn listing(self) -> (r: String)
        ensures
            r@ == self.listed(),
    {
        proof {
            reveal_strlit("flow");
            reveal_strlit("rule30");
            reveal_strlit("maze");
            reveal_strlit("truchet");
            reveal_strlit("moire");
            reveal_strlit("hilbert");
            reveal_strlit("stipple");
            reveal_strlit("waves");
        }
        let mut out = self.name().to_string();
        let pad: usize = 10 - chars_of(self.name()).len();
        out.append(repeat(' ', pad).as_str());
        out.append(" ");
        out.append(self.description());
        out
    }

    /// The piece of that name, if there is one.
    pub fn parse(name: &str) -> (r: Option<Generator>)
        ensures
            match r {
                Some(g) => g.named() == name@,
                None => forall|g: Generator| #[trigger] g.named() != name@,
            },
    {
        if same(name, "flow") {
            Some(Generator::Flow)
        } else if same(name, "rule30") {
            Some(Generator::Rule30)
        } else if same(name, "maze") {
            Some(Generator::Maze)
        } else if same(name, "truchet") {
            Some(Generator::Truchet)
        } else if same(name, "moire") {
            Some(Generator::Moire)
        } else if same(name, "hilbert") {
            Some(Generator::Hilbert)
        } else if same(name, "stipple") {
            Some(Generator::Stipple)
        } else if same(name, "waves") {
            Some(Generator::Waves)
        } else {
            None
        }
    }

    /// A piece for a banner, drawn at random.
    pub fn for_banner(rng: &mut Rng) -> (r: Generator)
        ensures
            r == banner_collection()[rng::draw_below(rng::stepped(old(rng)@), 7) as int],
            r != Generator::Hilbert,
            final(rng)@ == rng::stepped(old(rng)@),
    {
        match rng.below(7) {
            0 => Generator::Flow,
            1 => Generator::Rule30,
            2 => Generator::Maze,
            3 => Generator::Truchet,
            4 => Generator::Moire,
            5 => Generator::Stipple,
            _ => Generator::Waves,
        }
    }
}

/// Pieces are listed in two columns: the name, and from the twelfth character on what the
/// piece is, with nothing but blanks between.
pub proof fn pieces_are_listed_in_columns(piece: Generator)
    ensures
        piece.named().len() <= 10,
        piece.listed().take(piece.named().len() as int) == piece.named(),
        forall|i: int|
            piece.named().len() <= i < 11 ==> #[trigger] piece.listed()[i] == ' ',
        piece.listed().skip(11) == piece.described(),
{
    reveal_strlit("flow");
    reveal_strlit("rule30");
    reveal_strlit("maze");
    reveal_strlit("truchet");
    reveal_strlit("moire");
    reveal_strlit("hilbert");
    reveal_strlit("stipple");
    reveal_strlit("waves");
    reveal_strlit(" ");
    assert(piece.listed().take(piece.named().len() as int) =~= piece.named());
    assert(piece.listed().skip(11) =~= piece.described());
}

/// No two pieces share a name, so a name says which piece is meant.
pub proof fn names_tell_pieces_apart(a: Generator, b: Generator)
    requires
        a.named() == b.named(),
    ensures
        a == b,
{
    reveal_strlit("flow");
    reveal_strlit("rule30");
    reveal_strlit("maze");
    reveal_strlit("truchet");
    reveal_strlit("moire");
    reveal_strlit("hilbert");
    reveal_strlit("stipple");
    reveal_strlit("waves");
    assert(a.named()[0] == b.named()[0] && a.named()[1] == b.named()[1]);
    assert("flow"@[0] == 'f' && "rule30"@[0] == 'r' && "truchet"@[0] == 't');
    assert("hilbert"@[0] == 'h' && "stipple"@[0] == 's' && "waves"@[0] == 'w');
    assert("maze"@[0] == 'm' && "maze"@[1] == 'a');
    assert("moire"@[0] == 'm' && "moire"@[1] == 'o');
}

// --- cellular automaton ----------------------------------------------------

/// Dots along the side of a cell.
pub const SCALE: usize = 3;

/// Cells across the paper.
pub const CELLS: usize = DOTS / SCALE;

/// The rules that a piece is grown by.
pub open spec fn rule_drawn(draw: u64) -> u8 {
    seq![30u8, 90u8, 110u8, 150u8, 105u8, 22u8][rng::draw_below(draw, 6) as int]
}

/// Whether a cell is live, from the three above it: the rule has a bit for each of
/// the eight ways they can be.
pub open spec fn born(rule: u8, left: bool, above: bool, right: bool) -> bool {
    let way = (if left {
        4u8
    } else {
        0
    } + if above {
        2u8
    } else {
        0
    } + if right {
        1u8
    } else {
        0
    }) as u8;
    (rule >> way) & 1 == 1
}

/// The row below a row of cells, its ends joined.
pub open spec fn next_row(rule: u8, above: Seq<bool>) -> Seq<bool> {
    Seq::new(
        CELLS as nat,
        |x: int|
            {
                born(
                    rule,
                    above[(x + CELLS - 1) % CELLS as int],
                    above[x],
                    above[(x + 1) % CELLS as int],
                )
            },
    )
}

/// A row of cells: a single live one in the middle, then each row from the one
/// above.
pub open spec fn grown(rule: u8, row: nat) -> Seq<bool>
    decreases row,
{
    if row == 0 {
        Seq::new(CELLS as nat, |x: int| x == CELLS / 2)
    } else {
        next_row(rule, grown(rule, (row - 1) as nat))
    }
}

/// Whether a dot of the piece is burnt: the cell it belongs to is live. What is
/// left below the last whole row of cells stays white.
pub open spec fn automaton_dot(rule: u8, height: nat, x: int, y: int) -> bool {
    let row = y / (SCALE as int);
    row < height as int / (SCALE as int) && grown(rule, row as nat)[x / (SCALE as int)]
}

/// A rule is the number that its births spell: a bit for each of the eight ways the
/// three cells above can be, the left one counting four, the middle two, the right one.
pub proof fn a_rule_is_spelt_by_its_births(rule: u8)
    ensures
        rule == worth(1, born(rule, false, false, false)) + worth(
            2,
            born(rule, false, false, true),
        ) + worth(4, born(rule, false, true, false)) + worth(8, born(rule, false, true, true))
            + worth(16, born(rule, true, false, false)) + worth(32, born(rule, true, false, true))
            + worth(64, born(rule, true, true, false)) + worth(128, born(rule, true, true, true)),
{
    assert(rule == (rule >> 0u8 & 1) + 2 * (rule >> 1u8 & 1) + 4 * (rule >> 2u8 & 1) + 8 * (rule
        >> 3u8 & 1) + 16 * (rule >> 4u8 & 1) + 32 * (rule >> 5u8 & 1) + 64 * (rule >> 6u8 & 1) + 128
        * (rule >> 7u8 & 1)) by (bit_vector);
    assert(forall|k: u8| k < 8 ==> #[trigger] (rule >> k) & 1 <= 1) by (bit_vector);
}

/// What a bit adds to a number.
pub open spec fn worth(value: int, set: bool) -> int {
    if set {
        value
    } else {
        0
    }
}

/// A row that begins so many cells further along, its ends joined.
pub open spec fn rotated(row: Seq<bool>, by: int) -> Seq<bool> {
    Seq::new(row.len(), |x: int| row[(x + by) % row.len() as int])
}

/// Growing does not care where a row begins: a row that is turned round grows into the
/// same row turned round, the cells at the two ends included.
pub proof fn growing_ignores_where_a_row_begins(rule: u8, row: Seq<bool>, by: int)
    requires
        row.len() == CELLS,
        0 <= by < CELLS,
    ensures
        next_row(rule, rotated(row, by)) == rotated(next_row(rule, row), by),
{
    let c = CELLS as int;
    let turned = rotated(row, by);
    assert forall|x: int| 0 <= x < c implies next_row(rule, turned)[x] == rotated(
        next_row(rule, row),
        by,
    )[x] by {
        let at = (x + by) % c;
        assert(turned[(x + c - 1) % c] == row[((x + c - 1) % c + by) % c]);
        assert(((x + c - 1) % c + by) % c == (at + c - 1) % c);
        assert(turned[(x + 1) % c] == row[((x + 1) % c + by) % c]);
        assert(((x + 1) % c + by) % c == (at + 1) % c);
    }
    assert(next_row(rule, turned) =~= rotated(next_row(rule, row), by));
}

/// A cell inside a row is born of the three cells above it and of no other.
pub proof fn a_cell_is_born_of_the_three_above(rule: u8, row: Seq<bool>, x: int)
    requires
        row.len() == CELLS,
        0 < x < CELLS - 1,
    ensures
        next_row(rule, row).len() == row.len(),
        next_row(rule, row)[x] == born(rule, row[x - 1], row[x], row[x + 1]),
{
}

/// The picture, dot by dot. Each cell is three dots square. The first row of cells is
/// one live cell in the middle of the paper; every cell below is born of the three above
/// it, the paper's edges joined; and what no whole row of cells fills stays white.
pub proof fn the_picture_grows_downward(rule: u8, height: nat, x: int, y: int)
    requires
        0 <= x < 576,
        0 <= y < height,
    ensures
        y >= height - height % 3 ==> !automaton_dot(rule, height, x, y),
        automaton_dot(rule, height, x, y) == automaton_dot(rule, height, x - x % 3, y - y % 3),
        y < 3 && 3 <= height ==> automaton_dot(rule, height, x, y) == (288 <= x < 291),
        3 <= y < height - height % 3 ==> automaton_dot(rule, height, x, y) == born(
            rule,
            automaton_dot(rule, height, (x + 573) % 576, y - 3),
            automaton_dot(rule, height, x, y - 3),
            automaton_dot(rule, height, (x + 3) % 576, y - 3),
        ),
{
    let c = x / 3;
    assert((x - x % 3) / 3 == c);
    assert((y - y % 3) / 3 == y / 3);
    if 3 <= y {
        assert((y - 3) / 3 == y / 3 - 1);
        assert(((x + 573) % 576) / 3 == (c + 191) % 192);
        assert(((x + 3) % 576) / 3 == (c + 1) % 192);
    }
}

/// The rules come up in turn as the draw counts up: six of them, none left out.
pub proof fn each_rule_comes_up_in_turn(draw: u64)
    ensures
        draw % 6 == 0 ==> rule_drawn(draw) == 30,
        draw % 6 == 1 ==> rule_drawn(draw) == 90,
        draw % 6 == 2 ==> rule_drawn(draw) == 110,
        draw % 6 == 3 ==> rule_drawn(draw) == 150,
        draw % 6 == 4 ==> rule_drawn(draw) == 105,
        draw % 6 == 5 ==> rule_drawn(draw) == 22,
{
}

fn grow(rule: u8, above: &Vec<bool>) -> (next: Vec<bool>)
    requires
        above@.len() == CELLS,
    ensures
        next@ == next_row(rule, above@),
{
    let mut next: Vec<bool> = Vec::new();
    for x in 0..CELLS
        invariant
            above@.len() == CELLS,
            next@ == next_row(rule, above@).take(x as int),
    {
        let l: u8 = if above[(x + CELLS - 1) % CELLS] {
            4
        } else {
            0
        };
        let c: u8 = if above[x] {
            2
        } else {
            0
        };
        let r: u8 = if above[(x + 1) % CELLS] {
            1
        } else {
            0
        };
        let way: u8 = l + c + r;
        next.push((rule >> way) & 1 == 1);
        assert(next@ =~= next_row(rule, above@).take(x + 1));
    }
    assert(next@ =~= next_row(rule, above@));
    next
}

/// Rule 30 and friends: a single live cell, grown one row at a time.
pub fn automaton(height: usize, rng: &mut Rng) -> (mask: Mask)
    requires
        DOTS * height <= usize::MAX,
    ensures
        mask.wf(),
        mask.width == DOTS,
        mask.height == height,
        forall|i: int|
            0 <= i < mask.ink@.len() ==> #[trigger] mask.ink@[i] == automaton_dot(
                rule_drawn(rng::stepped(old(rng)@)),
                height as nat,
                i % DOTS as int,
                i / DOTS as int,
            ),
        final(rng)@ == rng::stepped(old(rng)@),
{
    let pick: usize = rng.below(6);
    let rules: [u8; 6] = [30, 90, 110, 150, 105, 22];
    let rule: u8 = rules[pick];
    assert(rules@ =~= seq![30u8, 90u8, 110u8, 150u8, 105u8, 22u8]);
    let mut row: Vec<bool> = vec![false;CELLS];
    row.set(CELLS / 2, true);
    assert(row@ =~= grown(rule, 0));
    let mut ink: Vec<bool> = Vec::new();
    let rows: usize = height / SCALE;
    let mut y: usize = 0;
    while y < height
        invariant
            DOTS * height <= usize::MAX,
            rows == height / SCALE,
            y <= height,
            row@ == grown(rule, (y / SCALE) as nat),
            row@.len() == CELLS,
            ink@.len() == y * DOTS,
            forall|i: int|
                0 <= i < ink@.len() ==> #[trigger] ink@[i] == automaton_dot(
                    rule,
                    height as nat,
                    i % DOTS as int,
                    i / DOTS as int,
                ),
        decreases height - y,
    {
        for x in 0..DOTS
            invariant
                rows == height / SCALE,
                y < height,
                row@ == grown(rule, (y / SCALE) as nat),
                row@.len() == CELLS,
                ink@.len() == y * DOTS + x,
                forall|i: int|
                    0 <= i < ink@.len() ==> #[trigger] ink@[i] == automaton_dot(
                        rule,
                        height as nat,
                        i % DOTS as int,
                        i / DOTS as int,
                    ),
        {
            proof {
                div_mod::lemma_fundamental_div_mod_converse(
                    ink@.len() as int,
                    DOTS as int,
                    y as int,
                    x as int,
                );
            }
            ink.push(y / SCALE < rows && row[x / SCALE]);
        }
        if y % SCALE == SCALE - 1 {
            row = grow(rule, &row);
        }
        y += 1;
    }
    Mask { width: DOTS, height, ink }
}

// --- Truchet tiles ---------------------------------------------------------

/// One tile: its corner, in dots, and which way its two arcs turn.
#[derive(Clone, Copy, PartialEq, Eq, Structural)]
pub struct Tile {
    pub x: usize,
    pub y: usize,
    pub flip: bool,
}

/// The size that a tiling is drawn with.
pub open spec fn tile_drawn(draw: u64) -> usize {
    seq![24usize, 32usize, 48usize][rng::draw_below(draw, 3) as int]
}

/// The size of the tiles of a tiling, drawn at random; the paper is a whole number
/// of them wide.
pub fn truchet_size(rng: &mut Rng) -> (r: usize)
    ensures
        r == tile_drawn(rng::stepped(old(rng)@)),
        0 < r <= 48,
        DOTS as int % r as int == 0,
        final(rng)@ == rng::stepped(old(rng)@),
{
    match rng.below(3) {
        0 => 24,
        1 => 32,
        _ => 48,
    }
}

/// How many tiles it takes to cover so many dots.
pub open spec fn tiles_across(dots: int, tile: int) -> int {
    (dots + tile - 1) / tile
}

/// Every dot of the paper lies on a tile: the one whose place, row by row, is as
/// many whole tiles down and along.
pub proof fn every_dot_lies_on_a_tile(height: int, tile: int, x: int, y: int)
    requires
        0 < tile,
        0 <= x < DOTS,
        0 <= y < height,
    ensures
        ({
            let across = tiles_across(DOTS as int, tile);
            let k = (y / tile) * across + x / tile;
            &&& 0 <= k < across * tiles_across(height, tile)
            &&& (k % across) * tile <= x < (k % across) * tile + tile
            &&& (k / across) * tile <= y < (k / across) * tile + tile
        }),
{
    let across = tiles_across(DOTS as int, tile);
    let down = tiles_across(height, tile);
    let (col, row) = (x / tile, y / tile);
    div_mod::lemma_fundamental_div_mod(x, tile);
    div_mod::lemma_fundamental_div_mod(y, tile);
    div_mod::lemma_div_pos_is_pos(x, tile);
    div_mod::lemma_div_pos_is_pos(y, tile);
    assert(col * tile == tile * col && row * tile == tile * row) by (nonlinear_arith);
    lemma_within(DOTS as int, tile, col);
    lemma_within(height, tile, row);
    assert(0 <= row * across + col && row * across + col < across * down) by (nonlinear_arith)
        requires
            0 <= col < across,
            0 <= row < down,
    ;
    div_mod::lemma_fundamental_div_mod_converse(row * across + col, across, row, col);
}

/// The tiles that cover so many dots of paper, row by row, each turned by a coin of its
/// own.
pub open spec fn tiling(height: int, tile: int, draw: u64) -> Seq<Tile> {
    let across = tiles_across(DOTS as int, tile);
    Seq::new(
        (across * tiles_across(height, tile)) as nat,
        |k: int|
            Tile {
                x: ((k % across) * tile) as usize,
                y: ((k / across) * tile) as usize,
                flip: rng::draw_coin(rng::stepped_by(draw, (k + 1) as nat)),
            },
    )
}

/// Every dot of the paper lies on one tile and on no other.
pub proof fn tiles_cover_every_dot_once(height: int, tile: int, draw: u64, x: int, y: int) -> (k:
    int)
    requires
        0 < tile <= 576,
        0 <= x < 576,
        0 <= y < height,
        height + tile <= usize::MAX,
    ensures
        ({
            let tiles = tiling(height, tile, draw);
            &&& 0 <= k < tiles.len()
            &&& forall|j: int|
                0 <= j < tiles.len() ==> (((#[trigger] tiles[j]).x <= x < tiles[j].x + tile
                    && tiles[j].y <= y < tiles[j].y + tile) <==> j == k)
        }),
{
    let tiles = tiling(height, tile, draw);
    let across = tiles_across(576, tile);
    let down = tiles_across(height, tile);
    let k = (y / tile) * across + x / tile;
    every_dot_lies_on_a_tile(height, tile, x, y);
    lemma_across(576, tile);
    assert forall|j: int| 0 <= j < tiles.len() implies (((#[trigger] tiles[j]).x <= x < tiles[j].x
        + tile && tiles[j].y <= y < tiles[j].y + tile) <==> j == k) by {
        let (col, row) = (j % across, j / across);
        div_mod::lemma_fundamental_div_mod(j, across);
        assert(across * row == row * across) by (nonlinear_arith);
        assert(0 <= row < down) by (nonlinear_arith)
            requires
                j == row * across + col,
                0 <= col < across,
                0 <= j < across * down,
        ;
        lemma_corner_fits(576, tile, col);
        lemma_corner_fits(height, tile, row);
        if tiles[j].x <= x < tiles[j].x + tile && tiles[j].y <= y < tiles[j].y + tile {
            div_mod::lemma_fundamental_div_mod_converse(x, tile, col, x - col * tile);
            div_mod::lemma_fundamental_div_mod_converse(y, tile, row, y - row * tile);
        }
    }
    k
}

proof fn lemma_corner_fits(dots: int, tile: int, i: int)
    requires
        0 < tile,
        0 <= dots,
        0 <= i < tiles_across(dots, tile),
    ensures
        0 <= i * tile < dots,
{
    let a = tiles_across(dots, tile);
    div_mod::lemma_fundamental_div_mod(dots + tile - 1, tile);
    assert(0 <= i * tile && i * tile < dots) by (nonlinear_arith)
        requires
            dots + tile - 1 == tile * a + (dots + tile - 1) % tile,
            (dots + tile - 1) % tile >= 0,
            (dots + tile - 1) % tile < tile,
            0 <= i <= a - 1,
            0 < tile,
    ;
}

/// The tiles that cover the paper, row by row, each turned by a coin of its own.
pub fn truchet(height: usize, tile: usize, rng: &mut Rng) -> (out: Vec<Tile>)
    requires
        0 < tile <= DOTS,
        DOTS * height <= usize::MAX,
        height + tile <= usize::MAX,
    ensures
        ({
            let across = tiles_across(DOTS as int, tile as int);
            let down = tiles_across(height as int, tile as int);
            &&& out@.len() == across * down
            &&& forall|k: int|
                0 <= k < out@.len() ==> #[trigger] out@[k] == (Tile {
                    x: ((k % across) * tile) as usize,
                    y: ((k / across) * tile) as usize,
                    flip: rng::draw_coin(rng::stepped_by(old(rng)@, (k + 1) as nat)),
                })
            &&& final(rng)@ == rng::stepped_by(old(rng)@, out@.len())
        }),
        out@ == tiling(height as int, tile as int, old(rng)@),
{
    let mut out: Vec<Tile> = Vec::new();
    let ghost first = rng@;
    let ghost across = tiles_across(DOTS as int, tile as int);
    let ghost t = tile as int;
    let ghost mut row: int = 0;
    let mut y: usize = 0;
    proof {
        lemma_across(DOTS as int, t);
        lemma_across(height as int, t);
        assert(row * across == 0 && row * t == 0) by (nonlinear_arith)
            requires
                row == 0,
        ;
    }
    while y < height
        invariant
            0 < tile <= DOTS,
            height + tile <= usize::MAX,
            t == tile,
            across == tiles_across(DOTS as int, t),
            across > 0,
            row >= 0,
            y == row * t,
            row == 0 || (row - 1) * t < height,
            out@.len() == row * across,
            forall|k: int|
                0 <= k < out@.len() ==> #[trigger] out@[k] == (Tile {
                    x: ((k % across) * tile) as usize,
                    y: ((k / across) * tile) as usize,
                    flip: rng::draw_coin(rng::stepped_by(first, (k + 1) as nat)),
                }),
            rng@ == rng::stepped_by(first, out@.len()),
        decreases height + tile - y,
    {
        let mut x: usize = 0;
        let ghost mut col: int = 0;
        assert(col * t == 0) by (nonlinear_arith)
            requires
                col == 0,
        ;
        while x < DOTS
            invariant
                0 < tile <= DOTS,
                t == tile,
                across == tiles_across(DOTS as int, t),
                across > 0,
                row >= 0,
                y == row * t,
                col >= 0,
                x == col * t,
                col == 0 || (col - 1) * t < DOTS,
                out@.len() == row * across + col,
                forall|k: int|
                    0 <= k < out@.len() ==> #[trigger] out@[k] == (Tile {
                        x: ((k % across) * tile) as usize,
                        y: ((k / across) * tile) as usize,
                        flip: rng::draw_coin(rng::stepped_by(first, (k + 1) as nat)),
                    }),
                rng@ == rng::stepped_by(first, out@.len()),
            decreases DOTS + tile - x,
        {
            let flip = rng.coin();
            proof {
                lemma_within(DOTS as int, t, col);
                div_mod::lemma_fundamental_div_mod_converse(
                    out@.len() as int,
                    across,
                    row,
                    col,
                );
                assert((col + 1) * t == col * t + t) by (nonlinear_arith);
            }
            out.push(Tile { x, y, flip });
            x = x + tile;
            proof {
                col = col + 1;
            }
        }
        proof {
            lemma_reached(DOTS as int, t, col);
            assert((row + 1) * across == row * across + across) by (nonlinear_arith);
            assert((row + 1) * t == row * t + t) by (nonlinear_arith);
            row = row + 1;
        }
        y = y + tile;
    }
    proof {
        lemma_reached(height as int, t, row);
        assert(row * across == across * row) by (nonlinear_arith);
    }
    assert(out@ =~= tiling(height as int, tile as int, first));
    out
}

proof fn lemma_across(dots: int, tile: int)
    requires
        dots >= 0,
        tile > 0,
    ensures
        tiles_across(dots, tile) >= 0,
        dots > 0 ==> tiles_across(dots, tile) > 0,
{
    let a = tiles_across(dots, tile);
    div_mod::lemma_fundamental_div_mod(dots + tile - 1, tile);
    assert(a >= 0 && (dots > 0 ==> a > 0)) by (nonlinear_arith)
        requires
            dots + tile - 1 == tile * a + (dots + tile - 1) % tile,
            (dots + tile - 1) % tile < tile,
            dots >= 0,
            tile > 0,
    ;
}

proof fn lemma_within(dots: int, tile: int, i: int)
    requires
        tile > 0,
        i >= 0,
        i * tile < dots,
    ensures
        i < tiles_across(dots, tile),
{
    let a = tiles_across(dots, tile);
    div_mod::lemma_fundamental_div_mod(dots + tile - 1, tile);
    assert(i < a) by (nonlinear_arith)
        requires
            dots + tile - 1 == tile * a + (dots + tile - 1) % tile,
            (dots + tile - 1) % tile < tile,
            i * tile < dots,
            tile > 0,
    ;
}

proof fn lemma_reached(dots: int, tile: int, i: int)
    requires
        tile > 0,
        dots >= 0,
        i >= 0,
        i * tile >= dots,
        i == 0 || (i - 1) * tile < dots,
    ensures
        i == tiles_across(dots, tile),
{
    let a = tiles_across(dots, tile);
    lemma_across(dots, tile);
    div_mod::lemma_fundamental_div_mod(dots + tile - 1, tile);
    assert(a <= i) by (nonlinear_arith)
        requires
            dots + tile - 1 == tile * a + (dots + tile - 1) % tile,
            (dots + tile - 1) % tile >= 0,
            i * tile >= dots,
            tile > 0,
    ;
    if i > 0 {
        lemma_within(dots, tile, i - 1);
    }
}

} // verus!
