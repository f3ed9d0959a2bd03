//! Perfect mazes, dug by recursive backtracking.

use crate::raster::DOTS;
use crate::rng;
use crate::rng::Rng;
use vstd::arithmetic::div_mod;
use vstd::prelude::*;

verus! {

/// The four sides of a cell.
#[derive(Clone, Copy, PartialEq, Eq, Structural)]
pub enum Side {
    Top,
    Right,
    Bottom,
    Left,
}

impl Side {
    pub open spec fn opposite(self) -> Side {
        match self {
            Side::Top => Side::Bottom,
            Side::Right => Side::Left,
            Side::Bottom => Side::Top,
            Side::Left => Side::Right,
        }
    }
}

/// Which sides of a cell have a wall.
#[derive(Clone, Copy, PartialEq, Eq, Structural)]
pub struct Walls {
    pub top: bool,
    pub right: bool,
    pub bottom: bool,
    pub left: bool,
}

impl Walls {
    pub open spec fn all() -> Walls {
        Walls { top: true, right: true, bottom: true, left: true }
    }

    pub open spec fn has(self, side: Side) -> bool {
        match side {
            Side::Top => self.top,
            Side::Right => self.right,
            Side::Bottom => self.bottom,
            Side::Left => self.left,
        }
    }

    pub open spec fn without(self, side: Side) -> Walls {
        match side {
            Side::Top => Walls { top: false, ..self },
            Side::Right => Walls { right: false, ..self },
            Side::Bottom => Walls { bottom: false, ..self },
            Side::Left => Walls { left: false, ..self },
        }
    }

    fn open_side(self, side: Side) -> (r: Walls)
        ensures
            r == self.without(side),
    {
        match side {
            Side::Top => Walls { top: false, ..self },
            Side::Right => Walls { right: false, ..self },
            Side::Bottom => Walls { bottom: false, ..self },
            Side::Left => Walls { left: false, ..self },
        }
    }
}

/// The cell on that side, where the grid has one. Cells are numbered row by row.
pub open spec fn neighbour(cell: int, side: Side, cols: int, rows: int) -> Option<int> {
    match side {
        Side::Top => if cell >= cols {
            Some(cell - cols)
        } else {
            None
        },
        Side::Right => if cell % cols + 1 < cols {
            Some(cell + 1)
        } else {
            None
        },
        Side::Bottom => if cell + cols < cols * rows {
            Some(cell + cols)
        } else {
            None
        },
        Side::Left => if cell % cols > 0 {
            Some(cell - 1)
        } else {
            None
        },
    }
}

// --- digging ---------------------------------------------------------------

/// A maze being dug: the walls that still stand, the cells that were entered, the
/// way back from the cell that is being dug, and the generator. The last three
/// say how it came about: from where each cell was entered, when, and how many
/// were.
pub struct Dig {
    pub walls: Seq<Walls>,
    pub seen: Seq<bool>,
    pub stack: Seq<int>,
    pub draw: u64,
    pub parent: Seq<int>,
    pub born: Seq<int>,
    pub dug: int,
}

/// Every wall stands, and only the first cell was entered.
pub open spec fn untouched(cols: int, rows: int, draw: u64) -> Dig {
    let n = (cols * rows) as nat;
    Dig {
        walls: Seq::new(n, |i: int| Walls::all()),
        seen: Seq::new(n, |i: int| i == 0),
        stack: seq![0int],
        draw,
        parent: Seq::new(n, |i: int| 0int),
        born: Seq::new(n, |i: int| 0int),
        dug: 1,
    }
}

/// The way through that side, if it leads to a cell that was not entered yet.
pub open spec fn choice(seen: Seq<bool>, cell: int, side: Side, cols: int, rows: int) -> Seq<
    (int, Side),
> {
    match neighbour(cell, side, cols, rows) {
        Some(next) if !seen[next] => seq![(next, side)],
        _ => Seq::empty(),
    }
}

/// The ways on from a cell: up, right, down, left.
pub open spec fn choices(seen: Seq<bool>, cell: int, cols: int, rows: int) -> Seq<(int, Side)> {
    choice(seen, cell, Side::Top, cols, rows) + choice(seen, cell, Side::Right, cols, rows)
        + choice(seen, cell, Side::Bottom, cols, rows) + choice(seen, cell, Side::Left, cols, rows)
}

impl Dig {
    /// Opens the wall between two cells and enters the second.
    pub open spec fn through(self, cell: int, next: int, side: Side, draw: u64) -> Dig {
        Dig {
            walls: self.walls.update(cell, self.walls[cell].without(side)).update(
                next,
                self.walls[next].without(side.opposite()),
            ),
            seen: self.seen.update(next, true),
            stack: self.stack.push(next),
            draw,
            parent: self.parent.update(next, cell),
            born: self.born.update(next, self.dug),
            dug: self.dug + 1,
        }
    }

    /// One step: on through a wall drawn among the ways on, or back where there
    /// are none.
    pub open spec fn step(self, cols: int, rows: int) -> Dig {
        if self.stack.len() == 0 {
            self
        } else {
            let cell = self.stack.last();
            let ways = choices(self.seen, cell, cols, rows);
            if ways.len() == 0 {
                Dig { stack: self.stack.drop_last(), ..self }
            } else {
                let draw = rng::stepped(self.draw);
                let (next, side) = ways[rng::draw_below(draw, ways.len()) as int];
                self.through(cell, next, side, draw)
            }
        }
    }
}

/// The dig after that many steps.
pub open spec fn dig_after(cols: int, rows: int, draw: u64, steps: nat) -> Dig
    decreases steps,
{
    if steps == 0 {
        untouched(cols, rows, draw)
    } else {
        dig_after(cols, rows, draw, (steps - 1) as nat).step(cols, rows)
    }
}

/// The finished dig: each cell has been entered once and left once.
pub open spec fn finished(cols: int, rows: int, draw: u64) -> Dig {
    dig_after(cols, rows, draw, (2 * (cols * rows)) as nat)
}

// --- what every step keeps -------------------------------------------------

spec fn tally(seen: Seq<bool>) -> int
    decreases seen.len(),
{
    if seen.len() == 0 {
        0
    } else {
        tally(seen.drop_last()) + if seen.last() {
            1int
        } else {
            0
        }
    }
}

proof fn lemma_tally_bound(seen: Seq<bool>)
    ensures
        0 <= tally(seen) <= seen.len(),
    decreases seen.len(),
{
    if seen.len() > 0 {
        lemma_tally_bound(seen.drop_last());
    }
}

proof fn lemma_tally_update(seen: Seq<bool>, i: int)
    requires
        0 <= i < seen.len(),
        !seen[i],
    ensures
        tally(seen.update(i, true)) == tally(seen) + 1,
    decreases seen.len(),
{
    let after = seen.update(i, true);
    if i == seen.len() - 1 {
        assert(after.drop_last() =~= seen.drop_last());
    } else {
        assert(after.drop_last() =~= seen.drop_last().update(i, true));
        lemma_tally_update(seen.drop_last(), i);
    }
}

proof fn lemma_tally_first(n: nat)
    requires
        n > 0,
    ensures
        tally(Seq::new(n, |i: int| i == 0)) == 1,
    decreases n,
{
    let s = Seq::new(n, |i: int| i == 0);
    if n == 1 {
        assert(s.drop_last() =~= Seq::<bool>::empty());
        assert(tally(s.drop_last()) == 0);
    } else {
        assert(s.drop_last() =~= Seq::new((n - 1) as nat, |i: int| i == 0));
        lemma_tally_first((n - 1) as nat);
    }
}

/// One of the two cells was entered from the other.
spec fn linked(d: Dig, a: int, b: int) -> bool {
    (a != 0 && d.seen[a] && d.parent[a] == b) || (b != 0 && d.seen[b] && d.parent[b] == a)
}

spec fn leads_to(cell: int, side: Side, cols: int, rows: int, b: int) -> bool {
    neighbour(cell, side, cols, rows) == Some(b)
}

spec fn sound(d: Dig, cols: int, rows: int) -> bool {
    let n = cols * rows;
    &&& cols > 0
    &&& rows > 0
    &&& n > 0
    &&& d.walls.len() == n
    &&& d.seen.len() == n
    &&& d.parent.len() == n
    &&& d.born.len() == n
    &&& d.seen[0]
    &&& tally(d.seen) == d.dug
    &&& forall|i: int| 0 <= i < d.stack.len() ==> 0 <= #[trigger] d.stack[i] < n && d.seen[d.stack[i]]
    &&& forall|c: int| 0 <= c < n && #[trigger] d.seen[c] ==> 0 <= d.born[c] < d.dug
    &&& forall|c: int|
        0 < c < n && #[trigger] d.seen[c] ==> 0 <= d.parent[c] < n && d.seen[d.parent[c]]
            && d.born[d.parent[c]] < d.born[c]
    &&& forall|c: int, s: Side|
        0 <= c < n ==> (!(#[trigger] d.walls[c].has(s)) <==> exists|b: int| #[trigger]
            leads_to(c, s, cols, rows, b) && linked(d, c, b))
}

spec fn closed_behind(d: Dig, cols: int, rows: int) -> bool {
    forall|c: int, s: Side, b: int|
        0 <= c < cols * rows && d.seen[c] && !d.stack.contains(c) && #[trigger] leads_to(
            c,
            s,
            cols,
            rows,
            b,
        ) ==> d.seen[b]
}

/// A neighbour is another cell of the grid, which has the first one on its
/// opposite side and on no other.
pub proof fn neighbours_are_mutual(cell: int, side: Side, cols: int, rows: int)
    requires
        cols > 0,
        rows > 0,
        0 <= cell < cols * rows,
        neighbour(cell, side, cols, rows) is Some,
    ensures
        ({
            let next = neighbour(cell, side, cols, rows)->0;
            &&& 0 <= next < cols * rows
            &&& next != cell
            &&& neighbour(next, side.opposite(), cols, rows) == Some(cell)
            &&& forall|other: Side|
                neighbour(cell, other, cols, rows) == Some(next) ==> other == side
        }),
{
    let next = neighbour(cell, side, cols, rows)->0;
    let q = cell / cols;
    let r = cell % cols;
    div_mod::lemma_fundamental_div_mod(cell, cols);
    assert(cols * q == q * cols) by (nonlinear_arith);
    assert(0 <= r < cols);
    assert(q < rows) by (nonlinear_arith)
        requires
            q * cols + r < cols * rows,
            0 <= r,
            cols > 0,
    ;
    match side {
        Side::Right => {
            div_mod::lemma_fundamental_div_mod_converse(cell + 1, cols, q, r + 1);
            assert(q * cols + cols <= cols * rows) by (nonlinear_arith)
                requires
                    q < rows,
                    cols > 0,
            ;
        },
        Side::Left => {
            div_mod::lemma_fundamental_div_mod_converse(cell - 1, cols, q, r - 1);
            assert(q * cols >= 0) by (nonlinear_arith)
                requires
                    q * cols + r == cell,
                    cell >= 0,
                    0 <= r < cols,
            ;
        },
        _ => {},
    }
    if cols == 1 {
        assert(cell % cols == 0);
    }
}

proof fn lemma_choices(seen: Seq<bool>, cell: int, cols: int, rows: int)
    requires
        cols > 0,
        rows > 0,
        0 <= cell < cols * rows,
    ensures
        forall|i: int|
            0 <= i < choices(seen, cell, cols, rows).len() ==> {
                let (next, side) = #[trigger] choices(seen, cell, cols, rows)[i];
                leads_to(cell, side, cols, rows, next) && !seen[next]
            },
        choices(seen, cell, cols, rows).len() == 0 ==> forall|s: Side, b: int| #[trigger]
            leads_to(cell, s, cols, rows, b) ==> seen[b],
{
    let t = choice(seen, cell, Side::Top, cols, rows);
    let r = choice(seen, cell, Side::Right, cols, rows);
    let b = choice(seen, cell, Side::Bottom, cols, rows);
    let l = choice(seen, cell, Side::Left, cols, rows);
    let all = choices(seen, cell, cols, rows);
    if all.len() == 0 {
        assert(t.len() == 0 && r.len() == 0 && b.len() == 0 && l.len() == 0);
        assert forall|s: Side, x: int| #[trigger]
            leads_to(cell, s, cols, rows, x) implies seen[x] by {
            match s {
                Side::Top => {},
                Side::Right => {},
                Side::Bottom => {},
                Side::Left => {},
            }
        }
    }
}

/// The place of a side in the order that ways on are looked for: clockwise from the top.
pub open spec fn turn(side: Side) -> int {
    match side {
        Side::Top => 0,
        Side::Right => 1,
        Side::Bottom => 2,
        Side::Left => 3,
    }
}

/// The ways on from a cell are its neighbours that were not entered yet, each of them
/// once, clockwise from the top.
pub proof fn ways_on_go_round_clockwise(seen: Seq<bool>, cell: int, cols: int, rows: int)
    requires
        cols > 0,
        rows > 0,
        0 <= cell < cols * rows,
    ensures
        ({
            let ways = choices(seen, cell, cols, rows);
            &&& forall|next: int, side: Side|
                #![trigger ways.contains((next, side))]
                ways.contains((next, side)) <==> neighbour(cell, side, cols, rows) == Some(next)
                    && !seen[next]
            &&& forall|i: int, j: int|
                0 <= i < j < ways.len() ==> turn((#[trigger] ways[i]).1) < turn(
                    (#[trigger] ways[j]).1,
                )
        }),
{
    let t = choice(seen, cell, Side::Top, cols, rows);
    let r = choice(seen, cell, Side::Right, cols, rows);
    let b = choice(seen, cell, Side::Bottom, cols, rows);
    let l = choice(seen, cell, Side::Left, cols, rows);
    let ways = choices(seen, cell, cols, rows);
    assert forall|next: int, side: Side|
        #![trigger ways.contains((next, side))]
        ways.contains((next, side)) <==> neighbour(cell, side, cols, rows) == Some(next)
            && !seen[next] by {
        let way = (next, side);
        if neighbour(cell, side, cols, rows) == Some(next) && !seen[next] {
            match side {
                Side::Top => {
                    assert(ways[0] == way);
                },
                Side::Right => {
                    assert(ways[t.len() as int] == way);
                },
                Side::Bottom => {
                    assert(ways[(t.len() + r.len()) as int] == way);
                },
                Side::Left => {
                    assert(ways[(t.len() + r.len() + b.len()) as int] == way);
                },
            }
        }
    }
}

/// One step of a dig goes on, if it can, before it goes back. Where a neighbour of the
/// cell was not entered yet, one of the ways on is entered, the one that the next number
/// drawn comes to, and only the wall between the two cells opens; where there is none the
/// dig goes back a cell and leaves every wall as it is.
pub proof fn a_dig_goes_on_before_it_goes_back(d: Dig, cols: int, rows: int)
    requires
        cols > 0,
        rows > 0,
        d.walls.len() == cols * rows,
        d.stack.len() > 0,
        0 <= d.stack.last() < cols * rows,
    ensures
        ({
            let cell = d.stack.last();
            let ways = choices(d.seen, cell, cols, rows);
            let after = d.step(cols, rows);
            &&& ways.len() == 0 ==> after.stack == d.stack.drop_last() && after.walls == d.walls
                && after.seen == d.seen && after.draw == d.draw
            &&& ways.len() > 0 ==> {
                let (next, side) = ways[(rng::stepped(d.draw) as nat % ways.len()) as int];
                &&& after.draw == rng::stepped(d.draw)
                &&& after.stack == d.stack.push(next)
                &&& after.seen == d.seen.update(next, true)
                &&& forall|c: int, s: Side|
                    0 <= c < cols * rows ==> (#[trigger] after.walls[c].has(s)) == (
                    d.walls[c].has(s) && !(c == cell && s == side) && !(c == next && s
                        == side.opposite()))
            }
        }),
{
    let cell = d.stack.last();
    let ways = choices(d.seen, cell, cols, rows);
    if ways.len() > 0 {
        lemma_choices(d.seen, cell, cols, rows);
        let i = rng::draw_below(rng::stepped(d.draw), ways.len()) as int;
        assert(0 <= i < ways.len());
        let (next, side) = ways[i];
        assert(leads_to(cell, side, cols, rows, next));
        neighbours_are_mutual(cell, side, cols, rows);
    }
}

proof fn lemma_untouched(cols: int, rows: int, draw: u64)
    requires
        cols > 0,
        rows > 0,
    ensures
        sound(untouched(cols, rows, draw), cols, rows),
        closed_behind(untouched(cols, rows, draw), cols, rows),
{
    let d = untouched(cols, rows, draw);
    assert(cols * rows > 0) by (nonlinear_arith)
        requires
            cols > 0,
            rows > 0,
    ;
    lemma_tally_first((cols * rows) as nat);
    assert(d.stack[0] == 0);
    assert(d.stack.contains(0));
    assert forall|c: int, s: Side| 0 <= c < cols * rows implies (!(#[trigger] d.walls[c].has(s))
        <==> exists|b: int| #[trigger] leads_to(c, s, cols, rows, b) && linked(d, c, b)) by {
        assert forall|b: int| #[trigger] leads_to(c, s, cols, rows, b) implies !linked(d, c, b) by {
            neighbours_are_mutual(c, s, cols, rows);
        }
    }
}

proof fn lemma_through(d: Dig, cell: int, next: int, side: Side, draw: u64, cols: int, rows: int)
    requires
        sound(d, cols, rows),
        closed_behind(d, cols, rows),
        d.stack.len() > 0,
        d.stack.last() == cell,
        leads_to(cell, side, cols, rows, next),
        !d.seen[next],
    ensures
        sound(d.through(cell, next, side, draw), cols, rows),
        closed_behind(d.through(cell, next, side, draw), cols, rows),
{
    let n = cols * rows;
    let e = d.through(cell, next, side, draw);
    assert(d.stack[d.stack.len() - 1] == cell);
    neighbours_are_mutual(cell, side, cols, rows);
    lemma_tally_update(d.seen, next);
    assert(next != 0);
    assert forall|i: int| 0 <= i < e.stack.len() implies 0 <= #[trigger] e.stack[i] < n
        && e.seen[e.stack[i]] by {
        if i < d.stack.len() {
            assert(e.stack[i] == d.stack[i]);
        }
    }
    assert forall|c: int| 0 < c < n && #[trigger] e.seen[c] implies 0 <= e.parent[c] < n
        && e.seen[e.parent[c]] && e.born[e.parent[c]] < e.born[c] by {
        if c == next {
            assert(d.seen[cell]);
        } else {
            assert(d.seen[c]);
        }
    }
    assert forall|c: int| 0 <= c < n && #[trigger] e.seen[c] implies 0 <= e.born[c] < e.dug by {
        if c == next {
            lemma_tally_bound(d.seen);
        } else {
            assert(d.seen[c]);
        }
    }
    assert forall|a: int, b: int| 0 <= a < n && 0 <= b < n implies (#[trigger] linked(e, a, b) <==> (
    linked(d, a, b) || (a == cell && b == next) || (a == next && b == cell))) by {
        if a != 0 && a != next && d.seen[a] {
            assert(d.parent[a] != next);
        }
        if b != 0 && b != next && d.seen[b] {
            assert(d.parent[b] != next);
        }
    }
    assert forall|c: int, s: Side| 0 <= c < n implies (!(#[trigger] e.walls[c].has(s)) <==> exists|
        b: int,
    | #[trigger]
        leads_to(c, s, cols, rows, b) && linked(e, c, b)) by {
        let was_open = !d.walls[c].has(s);
        if neighbour(c, s, cols, rows) is Some {
            let b = neighbour(c, s, cols, rows)->0;
            neighbours_are_mutual(c, s, cols, rows);
            assert(leads_to(c, s, cols, rows, b));
            assert(was_open <==> linked(d, c, b));
            assert(linked(e, c, b) <==> (linked(d, c, b) || (c == cell && b == next) || (c == next
                && b == cell)));
            if c == cell {
                assert(b == next <==> s == side);
                assert(e.walls[c] == d.walls[c].without(side));
            } else if c == next {
                neighbours_are_mutual(next, side.opposite(), cols, rows);
                assert(b == cell <==> s == side.opposite());
                assert(e.walls[c] == d.walls[c].without(side.opposite()));
            } else {
                assert(e.walls[c] == d.walls[c]);
            }
            assert(!e.walls[c].has(s) <==> linked(e, c, b));
        } else {
            assert(!was_open);
            if c == cell {
                assert(s != side);
                assert(e.walls[c] == d.walls[c].without(side));
            } else if c == next {
                assert(s != side.opposite());
                assert(e.walls[c] == d.walls[c].without(side.opposite()));
            }
        }
    }
    assert forall|c: int, s: Side, b: int|
        0 <= c < n && e.seen[c] && !e.stack.contains(c) && #[trigger] leads_to(
            c,
            s,
            cols,
            rows,
            b,
        ) implies e.seen[b] by {
        neighbours_are_mutual(c, s, cols, rows);
        assert(e.stack[e.stack.len() - 1] == next);
        assert(c != next);
        if d.stack.contains(c) {
            let i = choose|i: int| 0 <= i < d.stack.len() && d.stack[i] == c;
            assert(e.stack[i] == c);
        }
    }
}

proof fn lemma_back(d: Dig, cols: int, rows: int)
    requires
        sound(d, cols, rows),
        closed_behind(d, cols, rows),
        d.stack.len() > 0,
        choices(d.seen, d.stack.last(), cols, rows).len() == 0,
    ensures
        sound(d.step(cols, rows), cols, rows),
        closed_behind(d.step(cols, rows), cols, rows),
{
    let e = d.step(cols, rows);
    let cell = d.stack[d.stack.len() - 1];
    lemma_choices(d.seen, cell, cols, rows);
    assert(forall|i: int| 0 <= i < e.stack.len() ==> #[trigger] e.stack[i] == d.stack[i]);
    assert forall|c: int, s: Side| 0 <= c < cols * rows implies (!(#[trigger] e.walls[c].has(s))
        <==> exists|b: int| #[trigger] leads_to(c, s, cols, rows, b) && linked(e, c, b)) by {
        assert(forall|b: int| linked(e, c, b) == linked(d, c, b));
        assert(d.walls[c].has(s) == e.walls[c].has(s));
    }
    assert forall|c: int, s: Side, b: int|
        0 <= c < cols * rows && e.seen[c] && !e.stack.contains(c) && #[trigger] leads_to(
            c,
            s,
            cols,
            rows,
            b,
        ) implies e.seen[b] by {
        if d.stack.contains(c) {
            let i = choose|i: int| 0 <= i < d.stack.len() && d.stack[i] == c;
            if i < d.stack.len() - 1 {
                assert(e.stack[i] == c);
            }
            assert(c == cell);
        }
    }
}

proof fn lemma_step(d: Dig, cols: int, rows: int)
    requires
        sound(d, cols, rows),
        closed_behind(d, cols, rows),
    ensures
        sound(d.step(cols, rows), cols, rows),
        closed_behind(d.step(cols, rows), cols, rows),
        d.stack.len() > 0 ==> 2 * d.step(cols, rows).dug - d.step(cols, rows).stack.len() == 2 * d.dug
            - d.stack.len() + 1,
{
    if d.stack.len() > 0 {
        let cell = d.stack[d.stack.len() - 1];
        let ways = choices(d.seen, cell, cols, rows);
        if ways.len() == 0 {
            lemma_back(d, cols, rows);
        } else {
            lemma_choices(d.seen, cell, cols, rows);
            let draw = rng::stepped(d.draw);
            let i = rng::draw_below(draw, ways.len()) as int;
            assert(0 <= i < ways.len());
            let (next, side) = ways[i];
            lemma_through(d, cell, next, side, draw, cols, rows);
        }
    }
}

proof fn lemma_after(cols: int, rows: int, draw: u64, steps: nat)
    requires
        cols > 0,
        rows > 0,
    ensures
        ({
            let d = dig_after(cols, rows, draw, steps);
            &&& sound(d, cols, rows)
            &&& closed_behind(d, cols, rows)
            &&& d.stack.len() == 0 || steps + 1 + d.stack.len() == 2 * d.dug
        }),
    decreases steps,
{
    if steps == 0 {
        lemma_untouched(cols, rows, draw);
    } else {
        lemma_after(cols, rows, draw, (steps - 1) as nat);
        lemma_step(dig_after(cols, rows, draw, (steps - 1) as nat), cols, rows);
    }
}

proof fn lemma_stays_done(cols: int, rows: int, draw: u64, steps: nat, more: nat)
    requires
        dig_after(cols, rows, draw, steps).stack.len() == 0,
        steps <= more,
    ensures
        dig_after(cols, rows, draw, more) == dig_after(cols, rows, draw, steps),
    decreases more,
{
    if steps < more {
        lemma_stays_done(cols, rows, draw, steps, (more - 1) as nat);
    }
}

proof fn lemma_all_seen(d: Dig, cols: int, rows: int, cell: int)
    requires
        sound(d, cols, rows),
        closed_behind(d, cols, rows),
        d.stack.len() == 0,
        0 <= cell < cols * rows,
    ensures
        d.seen[cell],
    decreases cell,
{
    if cell > 0 {
        let from = if cell % cols > 0 {
            cell - 1
        } else {
            cell - cols
        };
        if cell % cols > 0 {
            assert(neighbour(cell, Side::Left, cols, rows) == Some(from));
            neighbours_are_mutual(cell, Side::Left, cols, rows);
            assert(leads_to(from, Side::Right, cols, rows, cell));
        } else {
            assert(cell >= cols) by {
                if cell < cols {
                    div_mod::lemma_small_mod(cell as nat, cols as nat);
                }
            }
            assert(neighbour(cell, Side::Top, cols, rows) == Some(from));
            neighbours_are_mutual(cell, Side::Top, cols, rows);
            assert(leads_to(from, Side::Bottom, cols, rows, cell));
        }
        lemma_all_seen(d, cols, rows, from);
    }
}

proof fn lemma_finished(cols: int, rows: int, draw: u64)
    requires
        cols > 0,
        rows > 0,
    ensures
        ({
            let d = finished(cols, rows, draw);
            &&& sound(d, cols, rows)
            &&& forall|c: int| 0 <= c < cols * rows ==> #[trigger] d.seen[c]
        }),
{
    let d = finished(cols, rows, draw);
    assert(cols * rows > 0) by (nonlinear_arith)
        requires
            cols > 0,
            rows > 0,
    ;
    lemma_after(cols, rows, draw, (2 * (cols * rows)) as nat);
    lemma_tally_bound(d.seen);
    assert forall|c: int| 0 <= c < cols * rows implies #[trigger] d.seen[c] by {
        lemma_all_seen(d, cols, rows, c);
    }
}

// --- a perfect maze --------------------------------------------------------

/// Whether one can go from a cell to another: they are neighbours, and the first
/// has no wall on that side.
pub open spec fn passage(walls: Seq<Walls>, cols: int, rows: int, a: int, b: int) -> bool {
    exists|s: Side| neighbour(a, s, cols, rows) == Some(b) && !(#[trigger] walls[a].has(s))
}

/// A walk through the maze, cell by cell.
pub open spec fn is_walk(walls: Seq<Walls>, cols: int, rows: int, walk: Seq<int>) -> bool {
    &&& walk.len() > 0
    &&& forall|i: int| 0 <= i < walk.len() ==> 0 <= #[trigger] walk[i] < cols * rows
    &&& forall|i: int|
        0 <= i < walk.len() - 1 ==> passage(walls, cols, rows, #[trigger] walk[i], walk[i + 1])
}

/// A walk that comes round to where it began, through at least three cells and no
/// cell twice.
pub open spec fn is_round(walls: Seq<Walls>, cols: int, rows: int, walk: Seq<int>) -> bool {
    &&& is_walk(walls, cols, rows, walk)
    &&& walk.len() >= 3
    &&& passage(walls, cols, rows, walk.last(), walk[0])
    &&& forall|i: int, j: int| 0 <= i < j < walk.len() ==> walk[i] != walk[j]
}

/// Whether a walk leads from the cell to the first one.
pub open spec fn joined_up(walls: Seq<Walls>, cols: int, rows: int, cell: int) -> bool {
    exists|walk: Seq<int>| #[trigger]
        is_walk(walls, cols, rows, walk) && walk[0] == cell && walk.last() == 0
}

/// Every cell can be reached from the first, and there is no going round.
pub open spec fn is_perfect(walls: Seq<Walls>, cols: int, rows: int) -> bool {
    &&& forall|c: int| 0 <= c < cols * rows ==> #[trigger] joined_up(walls, cols, rows, c)
    &&& forall|walk: Seq<int>| !#[trigger] is_round(walls, cols, rows, walk)
}

proof fn lemma_passage(d: Dig, cols: int, rows: int, a: int, b: int)
    requires
        sound(d, cols, rows),
        0 <= a < cols * rows,
    ensures
        passage(d.walls, cols, rows, a, b) ==> linked(d, a, b) && 0 <= b < cols * rows && a != b,
{
    if passage(d.walls, cols, rows, a, b) {
        let s = choose|s: Side|
            neighbour(a, s, cols, rows) == Some(b) && !(#[trigger] d.walls[a].has(s));
        neighbours_are_mutual(a, s, cols, rows);
        assert(leads_to(a, s, cols, rows, b));
    }
}

/// Cells that were dug from each other are neighbours.
spec fn near(d: Dig, cols: int, rows: int) -> bool {
    forall|c: int|
        0 < c < cols * rows && #[trigger] d.seen[c] ==> passage(
            d.walls,
            cols,
            rows,
            c,
            d.parent[c],
        )
}

proof fn lemma_near(cols: int, rows: int, draw: u64, steps: nat)
    requires
        cols > 0,
        rows > 0,
    ensures
        near(dig_after(cols, rows, draw, steps), cols, rows),
    decreases steps,
{
    if steps > 0 {
        let d = dig_after(cols, rows, draw, (steps - 1) as nat);
        let e = dig_after(cols, rows, draw, steps);
        lemma_near(cols, rows, draw, (steps - 1) as nat);
        lemma_after(cols, rows, draw, (steps - 1) as nat);
        if d.stack.len() > 0 {
            let cell = d.stack[d.stack.len() - 1];
            let ways = choices(d.seen, cell, cols, rows);
            lemma_choices(d.seen, cell, cols, rows);
            if ways.len() > 0 {
                let i = rng::draw_below(rng::stepped(d.draw), ways.len()) as int;
                let (next, side) = ways[i];
                assert(leads_to(cell, side, cols, rows, next));
                neighbours_are_mutual(cell, side, cols, rows);
                assert forall|c: int| 0 < c < cols * rows && #[trigger] e.seen[c] implies passage(
                    e.walls,
                    cols,
                    rows,
                    c,
                    e.parent[c],
                ) by {
                    if c == next {
                        assert(!e.walls[next].has(side.opposite()));
                    } else {
                        assert(d.seen[c]);
                        let s = choose|s: Side|
                            neighbour(c, s, cols, rows) == Some(d.parent[c]) && !(
                            #[trigger] d.walls[c].has(s));
                        assert(!e.walls[c].has(s));
                    }
                }
            } else {
                assert forall|c: int| 0 < c < cols * rows && #[trigger] e.seen[c] implies passage(
                    e.walls,
                    cols,
                    rows,
                    c,
                    e.parent[c],
                ) by {
                    assert(d.seen[c]);
                }
            }
        }
    } else {
        let d = untouched(cols, rows, draw);
        assert(forall|c: int| 0 < c < cols * rows ==> !#[trigger] d.seen[c]);
    }
}

proof fn lemma_way_home(d: Dig, cols: int, rows: int, cell: int) -> (walk: Seq<int>)
    requires
        sound(d, cols, rows),
        near(d, cols, rows),
        0 <= cell < cols * rows,
        d.seen[cell],
    ensures
        is_walk(d.walls, cols, rows, walk),
        walk[0] == cell,
        walk.last() == 0,
    decreases d.born[cell],
{
    if cell == 0 {
        seq![0int]
    } else {
        let from = d.parent[cell];
        let rest = lemma_way_home(d, cols, rows, from);
        let walk = seq![cell] + rest;
        assert forall|i: int| 0 <= i < walk.len() - 1 implies passage(
            d.walls,
            cols,
            rows,
            #[trigger] walk[i],
            walk[i + 1],
        ) by {
            if i > 0 {
                assert(walk[i] == rest[i - 1]);
                assert(walk[i + 1] == rest[i]);
            }
        }
        assert forall|i: int| 0 <= i < walk.len() implies 0 <= #[trigger] walk[i] < cols * rows by {
            if i > 0 {
                assert(walk[i] == rest[i - 1]);
            }
        }
        walk
    }
}

proof fn lemma_latest(d: Dig, walk: Seq<int>) -> (i: int)
    requires
        walk.len() > 0,
    ensures
        0 <= i < walk.len(),
        forall|j: int| 0 <= j < walk.len() ==> d.born[#[trigger] walk[j]] <= d.born[walk[i]],
    decreases walk.len(),
{
    if walk.len() == 1 {
        0
    } else {
        let init = walk.drop_last();
        let k = lemma_latest(d, init);
        let last = walk.len() - 1;
        let i = if d.born[walk[last]] > d.born[walk[k]] {
            last
        } else {
            k
        };
        assert forall|j: int| 0 <= j < walk.len() implies d.born[#[trigger] walk[j]]
            <= d.born[walk[i]] by {
            if j < last {
                assert(walk[j] == init[j]);
            }
        }
        i
    }
}

proof fn lemma_no_round(d: Dig, cols: int, rows: int, walk: Seq<int>)
    requires
        sound(d, cols, rows),
    ensures
        !is_round(d.walls, cols, rows, walk),
{
    if is_round(d.walls, cols, rows, walk) {
        let m = lemma_latest(d, walk);
        let len = walk.len() as int;
        let before = if m == 0 {
            len - 1
        } else {
            m - 1
        };
        let after = if m == len - 1 {
            0
        } else {
            m + 1
        };
        let (a, b, c) = (walk[before], walk[m], walk[after]);
        assert(passage(d.walls, cols, rows, a, b));
        assert(passage(d.walls, cols, rows, b, c));
        lemma_passage(d, cols, rows, a, b);
        lemma_passage(d, cols, rows, b, c);
        assert(a != c);
        assert(d.born[a] <= d.born[b] && d.born[c] <= d.born[b]);
        // The last of them to be entered would have been entered from two cells.
        if a != 0 && d.seen[a] && d.parent[a] == b {
            assert(d.born[b] < d.born[a]);
        }
        if c != 0 && d.seen[c] && d.parent[c] == b {
            assert(d.born[b] < d.born[c]);
        }
    }
}

/// What is dug is a perfect maze, whatever is drawn.
pub proof fn dug_mazes_are_perfect(cols: int, rows: int, draw: u64)
    requires
        cols > 0,
        rows > 0,
    ensures
        finished(cols, rows, draw).walls.len() == cols * rows,
        is_perfect(finished(cols, rows, draw).walls, cols, rows),
{
    let d = finished(cols, rows, draw);
    lemma_finished(cols, rows, draw);
    lemma_near(cols, rows, draw, (2 * (cols * rows)) as nat);
    assert forall|c: int| 0 <= c < cols * rows implies #[trigger] joined_up(
        d.walls,
        cols,
        rows,
        c,
    ) by {
        assert(d.seen[c]);
        let walk = lemma_way_home(d, cols, rows, c);
        assert(is_walk(d.walls, cols, rows, walk) && walk[0] == c && walk.last() == 0);
    }
    assert forall|walk: Seq<int>| !#[trigger] is_round(d.walls, cols, rows, walk) by {
        lemma_no_round(d, cols, rows, walk);
    }
}

/// The walls of a dug maze agree from both sides, and its outer walls all stand.
pub proof fn dug_walls_agree(cols: int, rows: int, draw: u64, cell: int, side: Side)
    requires
        cols > 0,
        rows > 0,
        0 <= cell < cols * rows,
    ensures
        ({
            let walls = finished(cols, rows, draw).walls;
            match neighbour(cell, side, cols, rows) {
                Some(next) => walls[cell].has(side) == walls[next].has(side.opposite()),
                None => walls[cell].has(side),
            }
        }),
{
    let d = finished(cols, rows, draw);
    lemma_finished(cols, rows, draw);
    match neighbour(cell, side, cols, rows) {
        Some(next) => {
            neighbours_are_mutual(cell, side, cols, rows);
            assert(leads_to(cell, side, cols, rows, next));
            assert(leads_to(next, side.opposite(), cols, rows, cell));
            assert(d.walls[cell].has(side) == !linked(d, cell, next));
            assert(d.walls[next].has(side.opposite()) == !linked(d, next, cell));
        },
        None => {
            assert(forall|b: int| !leads_to(cell, side, cols, rows, b));
            assert(d.walls[cell].has(side) || !d.walls[cell].has(side));
        },
    }
}

// --- digging it ------------------------------------------------------------

fn offer(options: &mut Vec<(usize, Side)>, seen: &Vec<bool>, next: usize, side: Side)
    requires
        next < seen@.len(),
    ensures
        told(final(options)@) == told(old(options)@) + (if seen@[next as int] {
            Seq::empty()
        } else {
            seq![(next as int, side)]
        }),
{
    if !seen[next] {
        options.push((next, side));
    }
    assert(told(options@) =~= told(old(options)@) + (if seen@[next as int] {
        Seq::empty()
    } else {
        seq![(next as int, side)]
    }));
}

spec fn told(options: Seq<(usize, Side)>) -> Seq<(int, Side)> {
    options.map_values(|o: (usize, Side)| (o.0 as int, o.1))
}

spec fn cells(stack: Seq<usize>) -> Seq<int> {
    stack.map_values(|c: usize| c as int)
}

fn ways_on(seen: &Vec<bool>, cell: usize, cols: usize, rows: usize) -> (options: Vec<(usize, Side)>)
    requires
        cols > 0,
        rows > 0,
        cell < cols * rows,
        seen@.len() == cols * rows,
        cols * rows <= usize::MAX,
    ensures
        told(options@) == choices(seen@, cell as int, cols as int, rows as int),
{
    let total: usize = cols * rows;
    let mut options: Vec<(usize, Side)> = Vec::new();
    let ghost (c, w, h) = (cell as int, cols as int, rows as int);
    proof {
        if neighbour(c, Side::Right, w, h) is Some {
            neighbours_are_mutual(c, Side::Right, w, h);
        }
        if neighbour(c, Side::Left, w, h) is Some {
            neighbours_are_mutual(c, Side::Left, w, h);
        }
    }
    if cell >= cols {
        offer(&mut options, seen, cell - cols, Side::Top);
    }
    assert(told(options@) =~= choice(seen@, c, Side::Top, w, h));
    let x: usize = cell % cols;
    if cols - x > 1 {
        offer(&mut options, seen, cell + 1, Side::Right);
    }
    assert(told(options@) =~= choice(seen@, c, Side::Top, w, h) + choice(
        seen@,
        c,
        Side::Right,
        w,
        h,
    ));
    if total - cell > cols {
        offer(&mut options, seen, cell + cols, Side::Bottom);
    }
    assert(told(options@) =~= choice(seen@, c, Side::Top, w, h) + choice(
        seen@,
        c,
        Side::Right,
        w,
        h,
    ) + choice(seen@, c, Side::Bottom, w, h));
    if x > 0 {
        offer(&mut options, seen, cell - 1, Side::Left);
    }
    assert(told(options@) =~= choices(seen@, c, w, h));
    options
}

/// Digs a maze of that many columns and rows of cells.
pub fn dig(cols: usize, rows: usize, rng: &mut Rng) -> (walls: Vec<Walls>)
    requires
        cols > 0,
        rows > 0,
        cols * rows <= usize::MAX,
    ensures
        walls@ == finished(cols as int, rows as int, old(rng)@).walls,
        final(rng)@ == finished(cols as int, rows as int, old(rng)@).draw,
        is_perfect(walls@, cols as int, rows as int),
{
    let ghost (w, h) = (cols as int, rows as int);
    let ghost first = rng@;
    assert(w * h > 0) by (nonlinear_arith)
        requires
            w > 0,
            h > 0,
    ;
    let total: usize = cols * rows;
    let mut walls: Vec<Walls> = vec![
        Walls { top: true, right: true, bottom: true, left: true };total];
    let mut seen: Vec<bool> = vec![false;total];
    let mut stack: Vec<usize> = Vec::new();
    stack.push(0);
    seen.set(0, true);
    let ghost mut steps: nat = 0;
    proof {
        lemma_after(w, h, first, 0);
    }
    assert(walls@ =~= untouched(w, h, first).walls);
    assert(seen@ =~= untouched(w, h, first).seen);
    assert(cells(stack@) =~= untouched(w, h, first).stack);
    while stack.len() > 0
        invariant
            cols > 0,
            rows > 0,
            w == cols,
            h == rows,
            total == cols * rows,
            ({
                let d = dig_after(w, h, first, steps);
                &&& sound(d, w, h)
                &&& closed_behind(d, w, h)
                &&& steps + 1 + d.stack.len() == 2 * d.dug
                &&& walls@ == d.walls
                &&& seen@ == d.seen
                &&& cells(stack@) == d.stack
                &&& rng@ == d.draw
            }),
        decreases 2 * total - steps,
    {
        let ghost d = dig_after(w, h, first, steps);
        proof {
            lemma_tally_bound(d.seen);
            lemma_step(d, w, h);
            assert(d.stack[d.stack.len() - 1] == stack@[stack@.len() - 1]);
        }
        let current: usize = stack[stack.len() - 1];
        let options = ways_on(&seen, current, cols, rows);
        if options.len() == 0 {
            stack.pop();
            assert(cells(stack@) =~= d.stack.drop_last());
        } else {
            let i: usize = rng.below(options.len());
            let (next, side) = options[i];
            proof {
                lemma_choices(d.seen, current as int, w, h);
                assert(told(options@)[i as int] == (next as int, side));
                neighbours_are_mutual(current as int, side, w, h);
            }
            let here = walls[current];
            let there = walls[next];
            walls.set(current, here.open_side(side));
            let other = match side {
                Side::Top => Side::Bottom,
                Side::Right => Side::Left,
                Side::Bottom => Side::Top,
                Side::Left => Side::Right,
            };
            walls.set(next, there.open_side(other));
            seen.set(next, true);
            stack.push(next);
            assert(cells(stack@) =~= d.stack.push(next as int));
        }
        proof {
            steps = steps + 1;
            assert(dig_after(w, h, first, steps) == d.step(w, h));
            lemma_tally_bound(dig_after(w, h, first, steps).seen);
        }
    }
    proof {
        lemma_tally_bound(dig_after(w, h, first, steps).seen);
        lemma_stays_done(w, h, first, steps, (2 * (w * h)) as nat);
        dug_mazes_are_perfect(w, h, first);
    }
    walls
}

// --- drawing it ------------------------------------------------------------

/// Dots along the side of a cell.
pub const CELL: usize = 16;

/// A straight line between two corners, in dots.
#[derive(Clone, Copy, PartialEq, Eq, Structural)]
pub struct Segment {
    pub x0: usize,
    pub y0: usize,
    pub x1: usize,
    pub y1: usize,
}

/// The lines of one cell: its top and left walls, and its bottom and right ones
/// where it lies on that edge of the maze.
pub open spec fn cell_lines(walls: Walls, x: int, y: int, cols: int, rows: int) -> Seq<Segment> {
    let (l, t) = (x * CELL, y * CELL);
    let (r, b) = (l + CELL, t + CELL);
    (if walls.top {
        seq![Segment { x0: l as usize, y0: t as usize, x1: r as usize, y1: t as usize }]
    } else {
        Seq::empty()
    }) + (if walls.left {
        seq![Segment { x0: l as usize, y0: t as usize, x1: l as usize, y1: b as usize }]
    } else {
        Seq::empty()
    }) + (if y == rows - 1 && walls.bottom {
        seq![Segment { x0: l as usize, y0: b as usize, x1: r as usize, y1: b as usize }]
    } else {
        Seq::empty()
    }) + (if x == cols - 1 && walls.right {
        seq![Segment { x0: r as usize, y0: t as usize, x1: r as usize, y1: b as usize }]
    } else {
        Seq::empty()
    })
}

/// The lines of the first `count` cells, row by row.
pub open spec fn maze_lines(walls: Seq<Walls>, cols: int, rows: int, count: nat) -> Seq<Segment>
    decreases count,
{
    if count == 0 {
        Seq::empty()
    } else {
        let c = count - 1;
        maze_lines(walls, cols, rows, c as nat) + cell_lines(
            walls[c],
            c % cols,
            c / cols,
            cols,
            rows,
        )
    }
}

/// The line along one side of a cell, from corner to corner.
pub open spec fn side_line(cell: int, side: Side, cols: int) -> Segment {
    let (l, t) = ((cell % cols) * 16, (cell / cols) * 16);
    let (r, b) = (l + 16, t + 16);
    match side {
        Side::Top => Segment { x0: l as usize, y0: t as usize, x1: r as usize, y1: t as usize },
        Side::Right => Segment { x0: r as usize, y0: t as usize, x1: r as usize, y1: b as usize },
        Side::Bottom => Segment { x0: l as usize, y0: b as usize, x1: r as usize, y1: b as usize },
        Side::Left => Segment { x0: l as usize, y0: t as usize, x1: l as usize, y1: b as usize },
    }
}

/// The walls that one sees in a drawing: a cell has a wall on a side where a line runs
/// along it.
pub open spec fn walls_seen(lines: Seq<Segment>, cols: int, rows: int) -> Seq<Walls> {
    Seq::new(
        (cols * rows) as nat,
        |c: int|
            Walls {
                top: lines.contains(side_line(c, Side::Top, cols)),
                right: lines.contains(side_line(c, Side::Right, cols)),
                bottom: lines.contains(side_line(c, Side::Bottom, cols)),
                left: lines.contains(side_line(c, Side::Left, cols)),
            },
    )
}

/// Whether every two neighbours agree on the wall between them.
pub open spec fn walls_agree(walls: Seq<Walls>, cols: int, rows: int) -> bool {
    forall|c: int, s: Side|
        0 <= c < cols * rows && neighbour(c, s, cols, rows) is Some ==> (#[trigger] walls[c].has(s))
            == walls[neighbour(c, s, cols, rows)->0].has(s.opposite())
}

proof fn lemma_cell_place(cell: int, cols: int, rows: int)
    requires
        cols > 0,
        rows > 0,
        0 <= cell < cols * rows,
    ensures
        0 <= cell % cols < cols,
        0 <= cell / cols < rows,
        cell == (cell / cols) * cols + cell % cols,
        cell / cols == rows - 1 <==> cell + cols >= cols * rows,
        cell / cols == 0 <==> cell < cols,
{
    let (x, y) = (cell % cols, cell / cols);
    div_mod::lemma_fundamental_div_mod(cell, cols);
    assert(cols * y == y * cols) by (nonlinear_arith);
    assert(0 <= y < rows && (y == rows - 1 <==> cell + cols >= cols * rows) && (y == 0 <==> cell
        < cols)) by (nonlinear_arith)
        requires
            cell == y * cols + x,
            0 <= x < cols,
            0 <= cell < cols * rows,
            rows > 0,
    ;
}

/// A line runs along no more than two sides: those that two neighbours share.
proof fn lemma_lines_apart(a: int, s: Side, b: int, t: Side, cols: int, rows: int)
    requires
        cols > 0,
        rows > 0,
        cols * CELL <= usize::MAX,
        rows * CELL <= usize::MAX,
        0 <= a < cols * rows,
        0 <= b < cols * rows,
        side_line(a, s, cols) == side_line(b, t, cols),
    ensures
        (a == b && s == t) || (neighbour(a, s, cols, rows) == Some(b) && t == s.opposite()),
{
    lemma_cell_place(a, cols, rows);
    lemma_cell_place(b, cols, rows);
    let (ax, ay) = (a % cols, a / cols);
    let (bx, by_) = (b % cols, b / cols);
    assert((ay + 1) * cols == ay * cols + cols) by (nonlinear_arith);
    assert((ay - 1) * cols == ay * cols - cols) by (nonlinear_arith);
}

proof fn lemma_shared_line(a: int, s: Side, cols: int, rows: int)
    requires
        cols > 0,
        rows > 0,
        cols * CELL <= usize::MAX,
        rows * CELL <= usize::MAX,
        0 <= a < cols * rows,
        neighbour(a, s, cols, rows) is Some,
    ensures
        side_line(a, s, cols) == side_line(neighbour(a, s, cols, rows)->0, s.opposite(), cols),
{
    let b = neighbour(a, s, cols, rows)->0;
    neighbours_are_mutual(a, s, cols, rows);
    lemma_cell_place(a, cols, rows);
    let (x, y) = (a % cols, a / cols);
    assert((y + 1) * cols == y * cols + cols) by (nonlinear_arith);
    assert((y - 1) * cols == y * cols - cols) by (nonlinear_arith);
    match s {
        Side::Top => {
            div_mod::lemma_fundamental_div_mod_converse(b, cols, y - 1, x);
        },
        Side::Right => {
            div_mod::lemma_fundamental_div_mod_converse(b, cols, y, x + 1);
        },
        Side::Bottom => {
            div_mod::lemma_fundamental_div_mod_converse(b, cols, y + 1, x);
        },
        Side::Left => {
            div_mod::lemma_fundamental_div_mod_converse(b, cols, y, x - 1);
        },
    }
}

/// Whether a cell draws the line of that side: where it has the wall, and no later
/// cell lies on it.
spec fn draws(walls: Seq<Walls>, cols: int, rows: int, cell: int, side: Side) -> bool {
    &&& 0 <= cell < cols * rows
    &&& walls[cell].has(side)
    &&& side == Side::Top || side == Side::Left || neighbour(cell, side, cols, rows) is None
}

spec fn is_drawn(walls: Seq<Walls>, cols: int, rows: int, count: int, line: Segment) -> bool {
    exists|cell: int, side: Side|
        cell < count && #[trigger] draws(walls, cols, rows, cell, side) && line == side_line(
            cell,
            side,
            cols,
        )
}

proof fn lemma_cell_lines(walls: Seq<Walls>, cols: int, rows: int, cell: int)
    requires
        cols > 0,
        rows > 0,
        cols * CELL <= usize::MAX,
        rows * CELL <= usize::MAX,
        0 <= cell < cols * rows,
    ensures
        ({
            let lines = cell_lines(walls[cell], cell % cols, cell / cols, cols, rows);
            &&& lines.no_duplicates()
            &&& forall|side: Side|
                draws(walls, cols, rows, cell, side) ==> lines.contains(
                    #[trigger] side_line(cell, side, cols),
                )
            &&& forall|i: int|
                0 <= i < lines.len() ==> exists|side: Side| #[trigger]
                    draws(walls, cols, rows, cell, side) && #[trigger] lines[i] == side_line(
                        cell,
                        side,
                        cols,
                    )
        }),
{
    lemma_cell_place(cell, cols, rows);
    let w = walls[cell];
    let lines = cell_lines(w, cell % cols, cell / cols, cols, rows);
    let top = side_line(cell, Side::Top, cols);
    let left = side_line(cell, Side::Left, cols);
    let bottom = side_line(cell, Side::Bottom, cols);
    let right = side_line(cell, Side::Right, cols);
    let last_row = cell / cols == rows - 1;
    let last_col = cell % cols == cols - 1;
    let a = if w.top {
        seq![top]
    } else {
        Seq::empty()
    };
    let b = if w.left {
        seq![left]
    } else {
        Seq::empty()
    };
    let c = if last_row && w.bottom {
        seq![bottom]
    } else {
        Seq::empty()
    };
    let d = if last_col && w.right {
        seq![right]
    } else {
        Seq::empty()
    };
    assert(lines =~= a + b + c + d);
    assert(top != left && top != bottom && top != right && left != bottom && left != right && bottom
        != right);
    assert forall|side: Side| draws(walls, cols, rows, cell, side) implies lines.contains(
        #[trigger] side_line(cell, side, cols),
    ) by {
        match side {
            Side::Top => {
                assert(lines[0] == top);
            },
            Side::Left => {
                assert(lines[a.len() as int] == left);
            },
            Side::Bottom => {
                assert(lines[(a.len() + b.len()) as int] == bottom);
            },
            Side::Right => {
                assert(lines[(a.len() + b.len() + c.len()) as int] == right);
            },
        }
    }
    assert forall|i: int| 0 <= i < lines.len() implies exists|side: Side| #[trigger]
        draws(walls, cols, rows, cell, side) && #[trigger] lines[i] == side_line(
            cell,
            side,
            cols,
        ) by {
        if i < a.len() {
            assert(draws(walls, cols, rows, cell, Side::Top) && lines[i] == top);
        } else if i < a.len() + b.len() {
            assert(draws(walls, cols, rows, cell, Side::Left) && lines[i] == left);
        } else if i < a.len() + b.len() + c.len() {
            assert(draws(walls, cols, rows, cell, Side::Bottom) && lines[i] == bottom);
        } else {
            assert(draws(walls, cols, rows, cell, Side::Right) && lines[i] == right);
        }
    }
}

proof fn lemma_drawn(walls: Seq<Walls>, cols: int, rows: int, count: nat)
    requires
        cols > 0,
        rows > 0,
        cols * CELL <= usize::MAX,
        rows * CELL <= usize::MAX,
        count <= cols * rows,
    ensures
        maze_lines(walls, cols, rows, count).no_duplicates(),
        forall|cell: int, side: Side|
            cell < count && #[trigger] draws(walls, cols, rows, cell, side) ==> maze_lines(
                walls,
                cols,
                rows,
                count,
            ).contains(side_line(cell, side, cols)),
        forall|i: int|
            0 <= i < maze_lines(walls, cols, rows, count).len() ==> is_drawn(
                walls,
                cols,
                rows,
                count as int,
                #[trigger] maze_lines(walls, cols, rows, count)[i],
            ),
    decreases count,
{
    let all = maze_lines(walls, cols, rows, count);
    if count > 0 {
        let c = count - 1;
        let before = maze_lines(walls, cols, rows, c as nat);
        let own = cell_lines(walls[c], c % cols, c / cols, cols, rows);
        lemma_drawn(walls, cols, rows, c as nat);
        lemma_cell_lines(walls, cols, rows, c);
        assert forall|i: int, j: int| 0 <= i < before.len() && 0 <= j < own.len() implies before[i]
            != own[j] by {
            assert(is_drawn(walls, cols, rows, c, before[i]));
            let (e, s) = choose|e: int, s: Side|
                e < c && #[trigger] draws(walls, cols, rows, e, s) && before[i] == side_line(
                    e,
                    s,
                    cols,
                );
            let t = choose|t: Side|
                draws(walls, cols, rows, c, t) && own[j] == side_line(c, t, cols);
            if before[i] == own[j] {
                lemma_lines_apart(c, t, e, s, cols, rows);
                neighbours_are_mutual(c, t, cols, rows);
            }
        }
        vstd::seq_lib::lemma_no_dup_in_concat(before, own);
        assert forall|cell: int, side: Side|
            cell < count && #[trigger] draws(walls, cols, rows, cell, side) implies all.contains(
            side_line(cell, side, cols),
        ) by {
            let line = side_line(cell, side, cols);
            if cell < c {
                assert(before.contains(line));
                let k = before.index_of(line);
                assert(all[k] == line);
            } else {
                assert(own.contains(line));
                let k = own.index_of(line);
                assert(all[before.len() + k] == line);
            }
        }
        assert forall|i: int| 0 <= i < all.len() implies is_drawn(
            walls,
            cols,
            rows,
            count as int,
            #[trigger] all[i],
        ) by {
            if i < before.len() {
                assert(all[i] == before[i]);
                assert(is_drawn(walls, cols, rows, c, before[i]));
            } else {
                let j = i - before.len();
                assert(all[i] == own[j]);
            }
        }
    }
}

/// The drawing shows the maze: along each side of each cell a line runs exactly where
/// there is a wall, so the walls can be read back off the lines. No line is drawn
/// twice, and none but along a wall.
pub proof fn the_drawing_shows_the_walls(walls: Seq<Walls>, cols: int, rows: int)
    requires
        cols > 0,
        rows > 0,
        cols * CELL <= usize::MAX,
        rows * CELL <= usize::MAX,
        walls.len() == cols * rows,
        walls_agree(walls, cols, rows),
    ensures
        ({
            let lines = maze_lines(walls, cols, rows, (cols * rows) as nat);
            &&& walls_seen(lines, cols, rows) == walls
            &&& lines.no_duplicates()
            &&& forall|i: int|
                0 <= i < lines.len() ==> exists|cell: int, side: Side|
                    0 <= cell < cols * rows && #[trigger] walls[cell].has(side)
                        && #[trigger] lines[i] == side_line(cell, side, cols)
        }),
{
    let n = cols * rows;
    assert(n > 0) by (nonlinear_arith)
        requires
            cols > 0,
            rows > 0,
            n == cols * rows,
    ;
    let lines = maze_lines(walls, cols, rows, n as nat);
    lemma_drawn(walls, cols, rows, n as nat);
    assert forall|i: int| 0 <= i < lines.len() implies exists|cell: int, side: Side|
        0 <= cell < n && #[trigger] walls[cell].has(side) && #[trigger] lines[i] == side_line(
            cell,
            side,
            cols,
        ) by {
        assert(is_drawn(walls, cols, rows, n, lines[i]));
        let (e, s) = choose|e: int, s: Side|
            e < n && #[trigger] draws(walls, cols, rows, e, s) && lines[i] == side_line(
                e,
                s,
                cols,
            );
        assert(walls[e].has(s) && lines[i] == side_line(e, s, cols));
    }
    assert forall|c: int, s: Side| 0 <= c < n implies lines.contains(
        #[trigger] side_line(c, s, cols),
    ) == walls[c].has(s) by {
        let line = side_line(c, s, cols);
        if walls[c].has(s) {
            if neighbour(c, s, cols, rows) is Some && (s == Side::Bottom || s == Side::Right) {
                let b = neighbour(c, s, cols, rows)->0;
                neighbours_are_mutual(c, s, cols, rows);
                lemma_shared_line(c, s, cols, rows);
                assert(draws(walls, cols, rows, b, s.opposite()));
            } else {
                assert(draws(walls, cols, rows, c, s));
            }
        }
        if lines.contains(line) {
            let i = lines.index_of(line);
            assert(is_drawn(walls, cols, rows, n, lines[i]));
            let (e, t) = choose|e: int, t: Side|
                e < n && #[trigger] draws(walls, cols, rows, e, t) && lines[i] == side_line(
                    e,
                    t,
                    cols,
                );
            lemma_lines_apart(c, s, e, t, cols, rows);
            if c != e {
                assert(walls[c].has(s) == walls[e].has(s.opposite()));
            }
        }
    }
    let seen = walls_seen(lines, cols, rows);
    assert forall|c: int| 0 <= c < n implies seen[c] == walls[c] by {
        assert(lines.contains(side_line(c, Side::Top, cols)) == walls[c].has(Side::Top));
        assert(lines.contains(side_line(c, Side::Right, cols)) == walls[c].has(Side::Right));
        assert(lines.contains(side_line(c, Side::Bottom, cols)) == walls[c].has(Side::Bottom));
        assert(lines.contains(side_line(c, Side::Left, cols)) == walls[c].has(Side::Left));
    }
    assert(seen =~= walls);
}

/// What is drawn of a dug maze is a perfect maze: by its lines alone every cell can be
/// reached from the first and there is no going round, its border is closed, and every
/// line lies within the cells.
pub proof fn the_drawing_is_a_perfect_maze(cols: int, rows: int, draw: u64)
    requires
        cols > 0,
        rows > 0,
        cols * CELL <= usize::MAX,
        rows * CELL <= usize::MAX,
    ensures
        ({
            let lines = maze_lines(
                finished(cols, rows, draw).walls,
                cols,
                rows,
                (cols * rows) as nat,
            );
            &&& is_perfect(walls_seen(lines, cols, rows), cols, rows)
            &&& walls_seen(lines, cols, rows) == finished(cols, rows, draw).walls
            &&& forall|cell: int, side: Side|
                0 <= cell < cols * rows && #[trigger] neighbour(cell, side, cols, rows) is None
                    ==> lines.contains(side_line(cell, side, cols))
            &&& forall|i: int|
                0 <= i < lines.len() ==> (#[trigger] lines[i]).x0 <= lines[i].x1 <= 16 * cols
                    && lines[i].y0 <= lines[i].y1 <= 16 * rows
        }),
{
    let walls = finished(cols, rows, draw).walls;
    let lines = maze_lines(walls, cols, rows, (cols * rows) as nat);
    dug_mazes_are_perfect(cols, rows, draw);
    assert forall|c: int, s: Side|
        0 <= c < cols * rows && neighbour(c, s, cols, rows) is Some implies (
    #[trigger] walls[c].has(s)) == walls[neighbour(c, s, cols, rows)->0].has(s.opposite()) by {
        dug_walls_agree(cols, rows, draw, c, s);
    }
    the_drawing_shows_the_walls(walls, cols, rows);
    assert forall|cell: int, side: Side|
        0 <= cell < cols * rows && #[trigger] neighbour(cell, side, cols, rows) is None implies
        lines.contains(side_line(cell, side, cols)) by {
        dug_walls_agree(cols, rows, draw, cell, side);
        assert(walls_seen(lines, cols, rows)[cell].has(side));
    }
    assert forall|i: int| 0 <= i < lines.len() implies (#[trigger] lines[i]).x0 <= lines[i].x1 <= 16
        * cols && lines[i].y0 <= lines[i].y1 <= 16 * rows by {
        let (e, s) = choose|e: int, s: Side|
            0 <= e < cols * rows && walls[e].has(s) && lines[i] == side_line(e, s, cols);
        lemma_cell_place(e, cols, rows);
    }
}

fn draw_cell(out: &mut Vec<Segment>, walls: Walls, x: usize, y: usize, cols: usize, rows: usize)
    requires
        x < cols,
        y < rows,
        cols * CELL <= usize::MAX,
        rows * CELL <= usize::MAX,
    ensures
        final(out)@ == old(out)@ + cell_lines(walls, x as int, y as int, cols as int, rows as int),
{
    let l: usize = x * CELL;
    let t: usize = y * CELL;
    let r: usize = l + CELL;
    let b: usize = t + CELL;
    if walls.top {
        out.push(Segment { x0: l, y0: t, x1: r, y1: t });
    }
    if walls.left {
        out.push(Segment { x0: l, y0: t, x1: l, y1: b });
    }
    if y == rows - 1 && walls.bottom {
        out.push(Segment { x0: l, y0: b, x1: r, y1: b });
    }
    if x == cols - 1 && walls.right {
        out.push(Segment { x0: r, y0: t, x1: r, y1: b });
    }
    assert(out@ =~= old(out)@ + cell_lines(walls, x as int, y as int, cols as int, rows as int));
}

/// The walls of a maze as lines to draw.
pub fn draw(walls: &Vec<Walls>, cols: usize, rows: usize) -> (out: Vec<Segment>)
    requires
        cols > 0,
        rows > 0,
        walls@.len() == cols * rows,
        cols * CELL <= usize::MAX,
        rows * CELL <= usize::MAX,
    ensures
        out@ == maze_lines(walls@, cols as int, rows as int, (cols * rows) as nat),
{
    let mut out: Vec<Segment> = Vec::new();
    let mut x: usize = 0;
    let mut y: usize = 0;
    let ghost mut count: nat = 0;
    assert(y * cols == 0) by (nonlinear_arith)
        requires
            y == 0,
    ;
    assert(out@ =~= maze_lines(walls@, cols as int, rows as int, 0));
    while y < rows
        invariant
            cols > 0,
            walls@.len() == cols * rows,
            cols * CELL <= usize::MAX,
            rows * CELL <= usize::MAX,
            x < cols,
            y <= rows,
            y == rows ==> x == 0,
            count == y * cols + x,
            out@ == maze_lines(walls@, cols as int, rows as int, count),
        decreases rows - y, cols - x,
    {
        let len: usize = walls.len();
        assert(0 <= y * cols && y * cols + x < cols * rows) by (nonlinear_arith)
            requires
                x < cols,
                y < rows,
        ;
        proof {
            div_mod::lemma_fundamental_div_mod_converse(count as int, cols as int, y as int, x as int);
        }
        let cell = walls[y * cols + x];
        draw_cell(&mut out, cell, x, y, cols, rows);
        proof {
            count = count + 1;
        }
        x += 1;
        if x == cols {
            assert((y + 1) * cols == y * cols + cols) by (nonlinear_arith);
            x = 0;
            y += 1;
        }
    }
    assert(rows * cols == cols * rows) by (nonlinear_arith);
    out
}

/// The lines of the maze that is drawn on so many dots of paper.
pub open spec fn drawing(height: int, draw: u64) -> Seq<Segment> {
    let (cols, rows) = (DOTS as int / CELL as int, height / CELL as int);
    maze_lines(finished(cols, rows, draw).walls, cols, rows, (cols * rows) as nat)
}

/// A maze on paper is a perfect one of 36 cells across, each 16 dots square, and as
/// many down as the height holds whole. It is closed all round, from edge to edge of
/// the paper, and no line leaves it.
pub proof fn a_maze_fills_the_paper(height: int, draw: u64)
    requires
        16 <= height,
        height <= usize::MAX,
    ensures
        ({
            let lines = drawing(height, draw);
            let rows = height / 16;
            let bottom = 16 * rows;
            &&& height - 16 < bottom <= height
            &&& is_perfect(walls_seen(lines, 36, rows), 36, rows)
            &&& lines.no_duplicates()
            &&& forall|i: int|
                0 <= i < lines.len() ==> (#[trigger] lines[i]).x1 <= 576 && lines[i].y1 <= bottom
            &&& forall|k: usize|
                k < 36 ==> #[trigger] lines.contains(
                    Segment { x0: (16 * k) as usize, y0: 0, x1: (16 * k + 16) as usize, y1: 0 },
                )
            &&& forall|k: usize|
                k < 36 ==> #[trigger] lines.contains(
                    Segment {
                        x0: (16 * k) as usize,
                        y0: bottom as usize,
                        x1: (16 * k + 16) as usize,
                        y1: bottom as usize,
                    },
                )
            &&& forall|k: usize|
                k < rows ==> #[trigger] lines.contains(
                    Segment { x0: 0, y0: (16 * k) as usize, x1: 0, y1: (16 * k + 16) as usize },
                )
            &&& forall|k: usize|
                k < rows ==> #[trigger] lines.contains(
                    Segment { x0: 576, y0: (16 * k) as usize, x1: 576, y1: (16 * k + 16) as usize },
                )
        }),
{
    let lines = drawing(height, draw);
    let rows = height / 16;
    let walls = finished(36, rows, draw).walls;
    the_drawing_is_a_perfect_maze(36, rows, draw);
    dug_mazes_are_perfect(36, rows, draw);
    assert(walls_agree(walls, 36, rows)) by {
        assert forall|c: int, s: Side|
            0 <= c < 36 * rows && neighbour(c, s, 36, rows) is Some implies (
        #[trigger] walls[c].has(s)) == walls[neighbour(c, s, 36, rows)->0].has(s.opposite()) by {
            dug_walls_agree(36, rows, draw, c, s);
        }
    }
    the_drawing_shows_the_walls(walls, 36, rows);
    assert forall|k: usize| k < 36 implies #[trigger] lines.contains(
        Segment { x0: (16 * k) as usize, y0: 0, x1: (16 * k + 16) as usize, y1: 0 },
    ) by {
        assert(neighbour(k as int, Side::Top, 36, rows) is None);
        div_mod::lemma_fundamental_div_mod_converse(k as int, 36, 0, k as int);
    }
    assert forall|k: usize| k < 36 implies #[trigger] lines.contains(
        Segment {
            x0: (16 * k) as usize,
            y0: (16 * rows) as usize,
            x1: (16 * k + 16) as usize,
            y1: (16 * rows) as usize,
        },
    ) by {
        let c = 36 * (rows - 1) + k;
        assert(neighbour(c, Side::Bottom, 36, rows) is None);
        div_mod::lemma_fundamental_div_mod_converse(c, 36, rows - 1, k as int);
    }
    assert forall|k: usize| k < rows implies #[trigger] lines.contains(
        Segment { x0: 0, y0: (16 * k) as usize, x1: 0, y1: (16 * k + 16) as usize },
    ) by {
        let c = 36 * k;
        div_mod::lemma_fundamental_div_mod_converse(c, 36, k as int, 0);
        assert(neighbour(c, Side::Left, 36, rows) is None);
    }
    assert forall|k: usize| k < rows implies #[trigger] lines.contains(
        Segment { x0: 576, y0: (16 * k) as usize, x1: 576, y1: (16 * k + 16) as usize },
    ) by {
        let c = 36 * k + 35;
        div_mod::lemma_fundamental_div_mod_converse(c, 36, k as int, 35);
        assert(neighbour(c, Side::Right, 36, rows) is None);
    }
}

/// A maze as wide as the paper and at most `height` dots tall, as lines to draw.
pub fn maze(height: usize, rng: &mut Rng) -> (out: Vec<Segment>)
    requires
        height >= CELL,
        DOTS * height <= usize::MAX,
    ensures
        ({
            let (cols, rows) = (DOTS as int / CELL as int, height as int / CELL as int);
            let d = finished(cols, rows, old(rng)@);
            &&& out@ == maze_lines(d.walls, cols, rows, (cols * rows) as nat)
            &&& final(rng)@ == d.draw
            &&& is_perfect(d.walls, cols, rows)
            &&& is_perfect(walls_seen(out@, cols, rows), cols, rows)
        }),
        out@ == drawing(height as int, old(rng)@),
{
    let cols: usize = DOTS / CELL;
    let rows: usize = height / CELL;
    assert(cols * rows <= usize::MAX && rows * CELL <= usize::MAX) by (nonlinear_arith)
        requires
            cols == 36,
            rows <= height,
            576 * height <= usize::MAX,
            CELL == 16,
    ;
    let walls = dig(cols, rows, rng);
    proof {
        dug_mazes_are_perfect(cols as int, rows as int, old(rng)@);
        the_drawing_is_a_perfect_maze(cols as int, rows as int, old(rng)@);
    }
    draw(&walls, cols, rows)
}

} // verus!
