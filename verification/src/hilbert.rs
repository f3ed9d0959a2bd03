//! The Hilbert curve: one continuous line folded to fill a square.

use vstd::arithmetic::div_mod;
use vstd::prelude::*;

verus! {

/// The side of the square that a curve of that order fills.
pub open spec fn side(order: nat) -> nat
    decreases order,
{
    if order == 0 {
        1
    } else {
        2 * side((order - 1) as nat)
    }
}

/// How many points the curve has.
pub open spec fn area(order: nat) -> nat
    decreases order,
{
    if order == 0 {
        1
    } else {
        4 * area((order - 1) as nat)
    }
}

/// One quadrant of the curve put in place. The first is mirrored in the diagonal,
/// the last in the other diagonal, and the two between stand as they are.
pub open spec fn in_quadrant(quadrant: nat, half: int, p: (int, int)) -> (int, int) {
    if quadrant == 0 {
        (p.1, p.0)
    } else if quadrant == 1 {
        (p.0, p.1 + half)
    } else if quadrant == 2 {
        (p.0 + half, p.1 + half)
    } else {
        (2 * half - 1 - p.1, half - 1 - p.0)
    }
}

/// The point of the curve at that place along it: a curve is four curves of the
/// order below, one after the other.
pub open spec fn curve(order: nat, index: nat) -> (int, int)
    decreases order,
{
    if order == 0 {
        (0, 0)
    } else {
        let below = (order - 1) as nat;
        in_quadrant(index / area(below), side(below) as int, curve(below, index % area(below)))
    }
}

/// The place along the curve of that point.
pub open spec fn place(order: nat, p: (int, int)) -> nat
    decreases order,
{
    if order == 0 {
        0
    } else {
        let below = (order - 1) as nat;
        let half = side(below) as int;
        if p.0 < half && p.1 < half {
            place(below, (p.1, p.0))
        } else if p.0 < half {
            area(below) + place(below, (p.0, p.1 - half))
        } else if p.1 >= half {
            2 * area(below) + place(below, (p.0 - half, p.1 - half))
        } else {
            3 * area(below) + place(below, (half - 1 - p.1, 2 * half - 1 - p.0))
        }
    }
}

pub open spec fn in_square(order: nat, p: (int, int)) -> bool {
    0 <= p.0 < side(order) && 0 <= p.1 < side(order)
}

proof fn lemma_positive(order: nat)
    ensures
        side(order) > 0,
        area(order) > 0,
    decreases order,
{
    if order > 0 {
        lemma_positive((order - 1) as nat);
    }
}

proof fn lemma_quarter(part: nat, index: nat)
    requires
        part > 0,
        index < 4 * part,
    ensures
        index / part < 4,
        index % part < part,
        index == (index / part) * part + index % part,
{
    div_mod::lemma_fundamental_div_mod(index as int, part as int);
    let q = index / part;
    assert(part * q == q * part) by (nonlinear_arith);
    assert(q < 4) by (nonlinear_arith)
        requires
            q * part <= index,
            index < 4 * part,
            part > 0,
    ;
}

proof fn lemma_compose(part: nat, q: nat, rest: nat)
    requires
        part > 0,
        rest < part,
        q < 4,
    ensures
        (q * part + rest) / part == q,
        (q * part + rest) % part == rest,
        q * part + rest < 4 * part,
{
    div_mod::lemma_fundamental_div_mod_converse(
        (q * part + rest) as int,
        part as int,
        q as int,
        rest as int,
    );
    assert(q * part + rest < 4 * part) by (nonlinear_arith)
        requires
            q < 4,
            rest < part,
    ;
}

/// The curve stays on its square.
pub proof fn curve_stays_in_its_square(order: nat, index: nat)
    requires
        index < area(order),
    ensures
        in_square(order, curve(order, index)),
    decreases order,
{
    if order > 0 {
        let below = (order - 1) as nat;
        lemma_positive(below);
        lemma_quarter(area(below), index);
        curve_stays_in_its_square(below, index % area(below));
    }
}

/// The curve begins in one corner and ends in the next.
pub proof fn curve_ends_in_the_corners(order: nat)
    ensures
        area(order) > 0,
        curve(order, 0) == (0int, 0int),
        curve(order, (area(order) - 1) as nat) == (side(order) - 1, 0int),
    decreases order,
{
    if order > 0 {
        let below = (order - 1) as nat;
        curve_ends_in_the_corners(below);
        let part = area(below);
        lemma_compose(part, 0, 0);
        lemma_compose(part, 3, (part - 1) as nat);
    }
}

/// The curve is one continuous line: each point is the next one's neighbour.
pub proof fn curve_is_continuous(order: nat, index: nat)
    requires
        index + 1 < area(order),
    ensures
        ({
            let (a, b) = (curve(order, index), curve(order, index + 1));
            ||| a.0 == b.0 && (a.1 == b.1 + 1 || b.1 == a.1 + 1)
            ||| a.1 == b.1 && (a.0 == b.0 + 1 || b.0 == a.0 + 1)
        }),
    decreases order,
{
    if order > 0 {
        let below = (order - 1) as nat;
        let part = area(below);
        lemma_positive(below);
        lemma_quarter(part, index);
        let q = index / part;
        let rest = index % part;
        if rest + 1 < part {
            lemma_compose(part, q, rest + 1);
            curve_is_continuous(below, rest);
        } else {
            curve_ends_in_the_corners(below);
            assert(q < 3) by (nonlinear_arith)
                requires
                    index == q * part + rest,
                    rest == part - 1,
                    index + 1 < 4 * part,
                    part > 0,
                    q < 4,
            ;
            assert((q + 1) * part == index + 1) by (nonlinear_arith)
                requires
                    index == q * part + rest,
                    rest == part - 1,
            ;
            lemma_compose(part, q + 1, 0);
        }
    }
}

/// A curve is four of the order below, joined: the first lies on its side in one corner,
/// two stand above it and beside that, and the last hangs on its other side in the corner
/// where the whole ends.
pub proof fn a_curve_is_four_smaller_ones(order: nat, index: nat)
    requires
        index < area(order),
    ensures
        ({
            let (x, y) = curve(order, index);
            let (s, a) = (side(order) as int, area(order));
            &&& curve(order + 1, index) == (y, x)
            &&& curve(order + 1, a + index) == (x, y + s)
            &&& curve(order + 1, 2 * a + index) == (x + s, y + s)
            &&& curve(order + 1, 3 * a + index) == (2 * s - 1 - y, s - 1 - x)
        }),
{
    let a = area(order);
    lemma_compose(a, 0, index);
    lemma_compose(a, 1, index);
    lemma_compose(a, 2, index);
    lemma_compose(a, 3, index);
}

/// The curve fills its square: it passes through every point, and through none of
/// them twice.
pub proof fn curve_fills_its_square(order: nat)
    ensures
        forall|p: (int, int)| #[trigger]
            in_square(order, p) ==> place(order, p) < area(order) && curve(order, place(order, p))
                == p,
        forall|index: nat| index < area(order) ==> place(order, #[trigger] curve(order, index)) == index,
    decreases order,
{
    lemma_positive(order);
    if order > 0 {
        let below = (order - 1) as nat;
        let part = area(below);
        let half = side(below) as int;
        lemma_positive(below);
        curve_fills_its_square(below);
        assert forall|p: (int, int)| #[trigger] in_square(order, p) implies place(order, p) < area(
            order,
        ) && curve(order, place(order, p)) == p by {
            let (q, inner) = if p.0 < half && p.1 < half {
                (0nat, (p.1, p.0))
            } else if p.0 < half {
                (1nat, (p.0, p.1 - half))
            } else if p.1 >= half {
                (2nat, (p.0 - half, p.1 - half))
            } else {
                (3nat, (half - 1 - p.1, 2 * half - 1 - p.0))
            };
            assert(in_square(below, inner));
            lemma_compose(part, q, place(below, inner));
            assert(place(order, p) == q * part + place(below, inner));
        }
        assert forall|index: nat| index < area(order) implies place(
            order,
            #[trigger] curve(order, index),
        ) == index by {
            lemma_quarter(part, index);
            curve_stays_in_its_square(below, index % part);
            assert(place(below, curve(below, index % part)) == index % part);
        }
    } else {
        assert forall|p: (int, int)| #[trigger] in_square(order, p) implies place(order, p) < area(
            order,
        ) && curve(order, place(order, p)) == p by {
            assert(p == (0int, 0int));
        }
    }
}

proof fn lemma_side_at_most(order: nat, most: nat)
    requires
        order <= most,
    ensures
        side(order) <= side(most),
    decreases most,
{
    if order < most {
        lemma_side_at_most(order, (most - 1) as nat);
    }
}

proof fn lemma_side_times_256(order: nat)
    ensures
        side(order + 8) == 256 * side(order),
{
    assert(side(order + 1) == 2 * side(order));
    assert(side(order + 2) == 2 * side(order + 1));
    assert(side(order + 3) == 2 * side(order + 2));
    assert(side(order + 4) == 2 * side(order + 3));
    assert(side(order + 5) == 2 * side(order + 4));
    assert(side(order + 6) == 2 * side(order + 5));
    assert(side(order + 7) == 2 * side(order + 6));
    assert(side(order + 8) == 2 * side(order + 7));
}

proof fn lemma_side_fits(order: nat)
    requires
        order < usize::BITS,
    ensures
        side(order) <= usize::MAX,
{
    lemma_side_at_most(order, (usize::BITS - 1) as nat);
    assert(side(7) == 128) by {
        reveal_with_fuel(side, 8);
    }
    lemma_side_times_256(7);
    lemma_side_times_256(15);
    lemma_side_times_256(23);
    lemma_side_times_256(31);
    lemma_side_times_256(39);
    lemma_side_times_256(47);
    lemma_side_times_256(55);
    assert(side(31) == 0x8000_0000);
    assert(side(63) == 0x8000_0000_0000_0000);
    assert(usize::BITS == 32 || usize::BITS == 64);
}

/// The point of the curve of that order at that place along it. Past its end the
/// curve begins again.
pub fn hilbert_point(index: usize, order: u32) -> (r: (usize, usize))
    requires
        order < usize::BITS,
    ensures
        (r.0 as int, r.1 as int) == curve(order as nat, index as nat % area(order as nat)),
        in_square(order as nat, (r.0 as int, r.1 as int)),
{
    let mut t: usize = index;
    let mut x: usize = 0;
    let mut y: usize = 0;
    let mut s: usize = 1;
    let mut k: u32 = 0;
    proof {
        lemma_side_fits(order as nat);
        assert(area(0) == 1);
        div_mod::lemma_div_basics(index as int);
    }
    while k < order
        invariant
            k <= order,
            side(order as nat) <= usize::MAX,
            s == side(k as nat),
            t == index as nat / area(k as nat),
            area(k as nat) > 0,
            (x as int, y as int) == curve(k as nat, index as nat % area(k as nat)),
            x < s,
            y < s,
        decreases order - k,
    {
        let quadrant: usize = t % 4;
        let rx: usize = quadrant / 2;
        let ry: usize = (quadrant + rx) % 2;
        let ghost part = area(k as nat);
        let ghost inner = curve(k as nat, index as nat % part);
        proof {
            lemma_side_at_most(k as nat + 1, order as nat);
            div_mod::lemma_mod_breakdown(index as int, part as int, 4);
            assert(part * 4 == area(k as nat + 1));
            assert(part * ((index as int / part as int) % 4) == quadrant * part) by (nonlinear_arith)
                requires
                    quadrant == (index as int / part as int) % 4,
            ;
            lemma_compose(part, quadrant as nat, index as nat % part);
            div_mod::lemma_div_denominator(index as int, part as int, 4);
        }
        assert(curve(k as nat + 1, index as nat % area(k as nat + 1)) == in_quadrant(
            quadrant as nat,
            s as int,
            inner,
        ));
        // rotate the quadrant into place
        if ry == 0 {
            if rx == 1 {
                x = s - 1 - x;
                y = s - 1 - y;
            }
            let swapped = x;
            x = y;
            y = swapped;
        }
        if rx == 1 {
            x = x + s;
        }
        if ry == 1 {
            y = y + s;
        }
        t = t / 4;
        s = s * 2;
        k = k + 1;
    }
    (x, y)
}

} // verus!
