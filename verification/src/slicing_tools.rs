//! Geometry on the integer lattice: crossings of a vertex set with an
//! axis-parallel line, the vertical-slice containment test, and the clipper
//! that cuts a convex polygon in two along such a line.
//!
//! A coordinate is a pair of `i32` lattice units. Every intermediate product
//! is taken in a wider type, so no operation here can overflow. The
//! containment test compares exactly; the crossings that the clipper hands
//! to the hull are lattice points, taken on both sides of a crossing that
//! is none.

use vstd::prelude::*;
use vstd::arithmetic::div_mod::*;
use vstd::string::*;
use geo::ConvexHull;

verus! {

/// A lattice point `(x, y)`.
pub type Point = (i32, i32);

/// The coordinate of `p` along `axis`: `x` for axis 0, `y` otherwise.
pub open spec fn coord(p: Point, axis: usize) -> int {
    if axis == 0 {
        p.0 as int
    } else {
        p.1 as int
    }
}

/// The value reached after the fraction `num / den` of the way from `from`
/// to `to`, rounded down to the lattice.
pub open spec fn interpolate_spec(from: int, to: int, num: int, den: int) -> int {
    from + (num * (to - from)) / den
}

/// The point reached after the fraction `num / den` of the way from `b` to
/// `a`, each coordinate rounded down to the lattice.
pub open spec fn lerp_spec(a: Point, b: Point, num: int, den: int) -> Point {
    (
        interpolate_spec(b.0 as int, a.0 as int, num, den) as i32,
        interpolate_spec(b.1 as int, a.1 as int, num, den) as i32,
    )
}

/// The value reached after the fraction `num / den` of the way from `from`
/// to `to`, rounded up to the lattice.
pub open spec fn interpolate_up_spec(from: int, to: int, num: int, den: int) -> int {
    from - (num * (from - to)) / den
}

/// The point reached after the fraction `num / den` of the way from `b` to
/// `a`, each coordinate rounded up to the lattice.
pub open spec fn lerp_up_spec(a: Point, b: Point, num: int, den: int) -> Point {
    (
        interpolate_up_spec(b.0 as int, a.0 as int, num, den) as i32,
        interpolate_up_spec(b.1 as int, a.1 as int, num, den) as i32,
    )
}

/// What the ordered pair (`a` at or above the line, `b` at or below it)
/// contributes to the crossings of the line `coord = value`.
///
/// Nothing, when `a` is not at or above the line, `b` is not at or below it,
/// or the two are the same point. The point `b` itself when both lie on the
/// line. Otherwise the point where the segment from `b` to `a` meets the
/// line: that point itself where it is a lattice point, and otherwise the
/// two lattice points of the line next to it, the one rounded down and the
/// one rounded up, so that the true crossing lies between the two.
pub open spec fn crossing(a: Point, b: Point, axis: usize, value: int) -> Seq<Point> {
    if coord(a, axis) >= value && coord(b, axis) <= value && a != b {
        if coord(a, axis) == coord(b, axis) {
            seq![b]
        } else {
            let down = lerp_spec(a, b, value - coord(b, axis), coord(a, axis) - coord(b, axis));
            let up = lerp_up_spec(a, b, value - coord(b, axis), coord(a, axis) - coord(b, axis));
            if down == up {
                seq![down]
            } else {
                seq![down, up]
            }
        }
    } else {
        Seq::empty()
    }
}

/// The crossings that `a` yields with the first `n` vertices, in vertex order.
pub open spec fn row_intersects(vs: Seq<Point>, a: Point, axis: usize, value: int, n: nat) -> Seq<
    Point,
>
    decreases n,
{
    if n == 0 {
        Seq::empty()
    } else {
        row_intersects(vs, a, axis, value, (n - 1) as nat) + crossing(a, vs[n - 1], axis, value)
    }
}

/// The crossings that the first `m` vertices yield, each paired with every
/// vertex.
pub open spec fn intersects_upto(vs: Seq<Point>, axis: usize, value: int, m: nat) -> Seq<Point>
    decreases m,
{
    if m == 0 {
        Seq::empty()
    } else {
        intersects_upto(vs, axis, value, (m - 1) as nat) + row_intersects(
            vs,
            vs[m - 1],
            axis,
            value,
            vs.len(),
        )
    }
}

/// All crossings of the vertex set with the line `coord = value`: what each
/// ordered pair of vertices contributes, the first vertex varying slowest.
pub open spec fn intersects(vs: Seq<Point>, axis: usize, value: int) -> Seq<Point> {
    intersects_upto(vs, axis, value, vs.len())
}

/// Whether `lo` and `hi` are the least and the greatest coordinate along
/// `axis` among `vs`.
pub open spec fn is_extent(vs: Seq<Point>, axis: usize, lo: int, hi: int) -> bool {
    &&& forall|i: int| 0 <= i < vs.len() ==> lo <= coord(#[trigger] vs[i], axis) <= hi
    &&& exists|i: int| 0 <= i < vs.len() && coord(#[trigger] vs[i], axis) == lo
    &&& exists|i: int| 0 <= i < vs.len() && coord(#[trigger] vs[i], axis) == hi
}

/// Whether the ordered pair (`a`, `b`) reaches across the vertical line at
/// `x`: `a` lies at or right of it, `b` at or left of it, and the two are
/// not the same point.
pub open spec fn reaches_across(a: Point, b: Point, x: int) -> bool {
    a.0 >= x && b.0 <= x && a != b
}

/// Whether the pair (`a`, `b`) crosses the vertical line through `p` at or
/// below `p` (where `below`), or at or above `p` (otherwise).
///
/// Where both points lie on the line, the pair crosses at `b`. Otherwise it
/// crosses at the height `b.y + (p.x - b.x) (a.y - b.y) / (a.x - b.x)`,
/// which is no lattice height in general: it is compared with `p.y` exactly,
/// both sides multiplied by `a.x - b.x`, which is positive.
pub open spec fn passes(a: Point, b: Point, p: Point, below: bool) -> bool {
    reaches_across(a, b, p.0 as int) && if a.0 == b.0 {
        if below {
            b.1 <= p.1
        } else {
            b.1 >= p.1
        }
    } else {
        if below {
            (p.0 - b.0) * (a.1 - b.1) <= (p.1 - b.1) * (a.0 - b.0)
        } else {
            (p.0 - b.0) * (a.1 - b.1) >= (p.1 - b.1) * (a.0 - b.0)
        }
    }
}

/// Whether some ordered pair of vertices crosses the vertical line through
/// `p` at or below `p` (where `below`), or at or above it (otherwise).
pub open spec fn has_crossing(polygon: Seq<Point>, p: Point, below: bool) -> bool {
    exists|i: int, j: int|
        #![trigger polygon[i], polygon[j]]
        0 <= i < polygon.len() && 0 <= j < polygon.len() && passes(
            polygon[i],
            polygon[j],
            p,
            below,
        )
}

/// The vertical-slice containment test, exact on the lattice: `point`
/// counts as inside when the vertical line through it is crossed by a pair
/// of vertices at or below the point and by a pair at or above it. For the
/// vertices of a convex polygon these are the points of the closed polygon.
pub open spec fn contained(point: Point, polygon: Seq<Point>) -> bool {
    has_crossing(polygon, point, true) && has_crossing(polygon, point, false)
}

/// Whether a pair before the pair (`i`, `j`), in the order of a walk through
/// all ordered pairs, crosses the vertical line through `p` on the side
/// asked for.
pub open spec fn seen_crossing(vs: Seq<Point>, p: Point, below: bool, i: int, j: int) -> bool {
    exists|i2: int, j2: int|
        #![trigger vs[i2], vs[j2]]
        0 <= i2 < vs.len() && 0 <= j2 < vs.len() && (i2 < i || (i2 == i && j2 < j)) && passes(
            vs[i2],
            vs[j2],
            p,
            below,
        )
}

/// How what was seen grows with each step of the walk through the pairs.
pub proof fn lemma_seen_crossing(vs: Seq<Point>, p: Point, below: bool, i: int, j: int)
    requires
        0 <= i < vs.len(),
        0 <= j < vs.len(),
    ensures
        !seen_crossing(vs, p, below, 0, 0),
        seen_crossing(vs, p, below, i, j + 1) == (seen_crossing(vs, p, below, i, j) || passes(
            vs[i],
            vs[j],
            p,
            below,
        )),
        seen_crossing(vs, p, below, i, vs.len() as int) == seen_crossing(vs, p, below, i + 1, 0),
        seen_crossing(vs, p, below, vs.len() as int, 0) == has_crossing(vs, p, below),
{
    let n = vs.len() as int;
    if seen_crossing(vs, p, below, i, j + 1) {
        let (i2, j2) = choose|i2: int, j2: int|
            #![trigger vs[i2], vs[j2]]
            0 <= i2 < n && 0 <= j2 < n && (i2 < i || (i2 == i && j2 < j + 1)) && passes(
                vs[i2],
                vs[j2],
                p,
                below,
            );
        if !(i2 == i && j2 == j) {
            assert(0 <= i2 < n && 0 <= j2 < n && (i2 < i || (i2 == i && j2 < j)) && passes(
                vs[i2],
                vs[j2],
                p,
                below,
            ));
        }
    }
    if seen_crossing(vs, p, below, i, j) {
        let (i2, j2) = choose|i2: int, j2: int|
            #![trigger vs[i2], vs[j2]]
            0 <= i2 < n && 0 <= j2 < n && (i2 < i || (i2 == i && j2 < j)) && passes(
                vs[i2],
                vs[j2],
                p,
                below,
            );
        assert(0 <= i2 < n && 0 <= j2 < n && (i2 < i || (i2 == i && j2 < j + 1)) && passes(
            vs[i2],
            vs[j2],
            p,
            below,
        ));
    }
    if passes(vs[i], vs[j], p, below) {
        assert(0 <= i < n && 0 <= j < n && (i < i || (i == i && j < j + 1)) && passes(
            vs[i],
            vs[j],
            p,
            below,
        ));
    }
    if seen_crossing(vs, p, below, i, n) {
        let (i2, j2) = choose|i2: int, j2: int|
            #![trigger vs[i2], vs[j2]]
            0 <= i2 < n && 0 <= j2 < n && (i2 < i || (i2 == i && j2 < n)) && passes(
                vs[i2],
                vs[j2],
                p,
                below,
            );
        assert(0 <= i2 < n && 0 <= j2 < n && (i2 < i + 1 || (i2 == i + 1 && j2 < 0)) && passes(
            vs[i2],
            vs[j2],
            p,
            below,
        ));
    }
    if seen_crossing(vs, p, below, i + 1, 0) {
        let (i2, j2) = choose|i2: int, j2: int|
            #![trigger vs[i2], vs[j2]]
            0 <= i2 < n && 0 <= j2 < n && (i2 < i + 1 || (i2 == i + 1 && j2 < 0)) && passes(
                vs[i2],
                vs[j2],
                p,
                below,
            );
        assert(0 <= i2 < n && 0 <= j2 < n && (i2 < i || (i2 == i && j2 < n)) && passes(
            vs[i2],
            vs[j2],
            p,
            below,
        ));
    }
    if seen_crossing(vs, p, below, n, 0) {
        let (i2, j2) = choose|i2: int, j2: int|
            #![trigger vs[i2], vs[j2]]
            0 <= i2 < n && 0 <= j2 < n && (i2 < n || (i2 == n && j2 < 0)) && passes(
                vs[i2],
                vs[j2],
                p,
                below,
            );
        assert(0 <= i2 < n && 0 <= j2 < n && passes(vs[i2], vs[j2], p, below));
    }
    if has_crossing(vs, p, below) {
        let (i2, j2) = choose|i2: int, j2: int|
            #![trigger vs[i2], vs[j2]]
            0 <= i2 < n && 0 <= j2 < n && passes(vs[i2], vs[j2], p, below);
        assert(0 <= i2 < n && 0 <= j2 < n && (i2 < n || (i2 == n && j2 < 0)) && passes(
            vs[i2],
            vs[j2],
            p,
            below,
        ));
    }
}

/// A pair that crosses at or below a point has an end that lies no higher
/// than the point; a pair that crosses at or above it has an end that lies
/// no lower. Both ends of the pair lie on either side of the point or at it.
pub proof fn lemma_passes_bounds(a: Point, b: Point, p: Point, below: bool)
    requires
        passes(a, b, p, below),
    ensures
        b.0 <= p.0 <= a.0,
        below ==> a.1 <= p.1 || b.1 <= p.1,
        !below ==> a.1 >= p.1 || b.1 >= p.1,
{
    if a.0 != b.0 {
        let num = p.0 - b.0;
        let run = a.0 - b.0;
        let rise = a.1 - b.1;
        let up = p.1 - b.1;
        if below && a.1 > p.1 && b.1 > p.1 {
            assert(num * rise > up * run) by (nonlinear_arith)
                requires
                    0 <= num <= run,
                    0 < run,
                    up < 0,
                    rise > up,
            ;
        }
        if !below && a.1 < p.1 && b.1 < p.1 {
            assert(num * rise < up * run) by (nonlinear_arith)
                requires
                    0 <= num <= run,
                    0 < run,
                    up > 0,
                    rise < up,
            ;
        }
    }
}

/// An interpolated value lies between its two ends.
pub proof fn lemma_interpolate_between(from: int, to: int, num: int, den: int)
    requires
        0 <= num <= den,
        0 < den,
    ensures
        from <= to ==> from <= interpolate_spec(from, to, num, den) <= to,
        to <= from ==> to <= interpolate_spec(from, to, num, den) <= from,
        num == den ==> interpolate_spec(from, to, num, den) == to,
        num == 0 ==> interpolate_spec(from, to, num, den) == from,
{
    let d = to - from;
    let q = (num * d) / den;
    lemma_fundamental_div_mod(num * d, den);
    lemma_mod_bound(num * d, den);
    let r = (num * d) % den;
    assert(num * d == den * q + r);
    if d >= 0 {
        assert(0 <= num * d <= den * d) by (nonlinear_arith)
            requires
                0 <= num <= den,
                d >= 0,
        ;
        assert(0 <= q <= d) by (nonlinear_arith)
            requires
                0 <= num * d <= den * d,
                num * d == den * q + r,
                0 <= r < den,
        ;
    } else {
        assert(den * d <= num * d <= 0) by (nonlinear_arith)
            requires
                0 <= num <= den,
                d < 0,
        ;
        assert(d <= q <= 0) by (nonlinear_arith)
            requires
                den * d <= num * d <= 0,
                num * d == den * q + r,
                0 <= r < den,
        ;
    }
    if num == den {
        assert(q == d) by (nonlinear_arith)
            requires
                num == den,
                num * d == den * q + r,
                0 <= r < den,
        ;
    }
    if num == 0 {
        assert(q == 0) by (nonlinear_arith)
            requires
                num == 0,
                num * d == den * q + r,
                0 <= r < den,
        ;
    }
}

/// A point is in the concatenation of two lists exactly when it is in one
/// of them.
pub proof fn lemma_points_concat(x: Seq<Point>, y: Seq<Point>, q: Point)
    ensures
        (x + y).contains(q) <==> x.contains(q) || y.contains(q),
{
    if x.contains(q) {
        let i = choose|i: int| 0 <= i < x.len() && x[i] == q;
        assert((x + y)[i] == q);
    }
    if y.contains(q) {
        let i = choose|i: int| 0 <= i < y.len() && y[i] == q;
        assert((x + y)[x.len() + i] == q);
    }
    if (x + y).contains(q) {
        let i = choose|i: int| 0 <= i < (x + y).len() && (x + y)[i] == q;
        if i < x.len() {
            assert(x[i] == q);
        } else {
            assert(y[i - x.len()] == q);
        }
    }
}

/// The crossings that `a` yields with the first `n` vertices are the
/// contributions of the pairs of `a` with each of them.
pub proof fn lemma_row_crossings(vs: Seq<Point>, a: Point, axis: usize, value: int, n: nat, q: Point)
    requires
        n <= vs.len(),
    ensures
        row_intersects(vs, a, axis, value, n).contains(q) <==> exists|j: int|
            0 <= j < n && (#[trigger] crossing(a, vs[j], axis, value)).contains(q),
    decreases n,
{
    if n > 0 {
        lemma_row_crossings(vs, a, axis, value, (n - 1) as nat, q);
        let before = row_intersects(vs, a, axis, value, (n - 1) as nat);
        let last = crossing(a, vs[n - 1], axis, value);
        lemma_points_concat(before, last, q);
        if row_intersects(vs, a, axis, value, n).contains(q) {
            if before.contains(q) {
                let j = choose|j: int|
                    0 <= j < n - 1 && (#[trigger] crossing(a, vs[j], axis, value)).contains(q);
                assert(0 <= j < n && crossing(a, vs[j], axis, value).contains(q));
            } else {
                assert(crossing(a, vs[n - 1], axis, value).contains(q));
            }
        }
        if exists|j: int| 0 <= j < n && (#[trigger] crossing(a, vs[j], axis, value)).contains(q) {
            let j = choose|j: int|
                0 <= j < n && (#[trigger] crossing(a, vs[j], axis, value)).contains(q);
            if j < n - 1 {
                assert(before.contains(q));
            }
        }
    }
}

/// The crossings of a vertex set with a line are the contributions of its
/// ordered pairs of vertices: a point is among them exactly when some pair
/// yields it.
pub proof fn lemma_crossings(vs: Seq<Point>, axis: usize, value: int, m: nat, q: Point)
    requires
        m <= vs.len(),
    ensures
        intersects_upto(vs, axis, value, m).contains(q) <==> exists|i: int, j: int|
            0 <= i < m && 0 <= j < vs.len() && (#[trigger] crossing(
                vs[i],
                vs[j],
                axis,
                value,
            )).contains(q),
    decreases m,
{
    if m > 0 {
        lemma_crossings(vs, axis, value, (m - 1) as nat, q);
        let before = intersects_upto(vs, axis, value, (m - 1) as nat);
        let row = row_intersects(vs, vs[m - 1], axis, value, vs.len());
        lemma_points_concat(before, row, q);
        lemma_row_crossings(vs, vs[m - 1], axis, value, vs.len(), q);
        if intersects_upto(vs, axis, value, m).contains(q) {
            if before.contains(q) {
                let (i, j) = choose|i: int, j: int|
                    0 <= i < m - 1 && 0 <= j < vs.len() && (#[trigger] crossing(
                        vs[i],
                        vs[j],
                        axis,
                        value,
                    )).contains(q);
                assert(0 <= i < m && crossing(vs[i], vs[j], axis, value).contains(q));
            } else {
                let j = choose|j: int|
                    0 <= j < vs.len() && (#[trigger] crossing(
                        vs[m - 1],
                        vs[j],
                        axis,
                        value,
                    )).contains(q);
                assert(crossing(vs[m - 1], vs[j], axis, value).contains(q));
            }
        }
        if exists|i: int, j: int|
            0 <= i < m && 0 <= j < vs.len() && (#[trigger] crossing(
                vs[i],
                vs[j],
                axis,
                value,
            )).contains(q) {
            let (i, j) = choose|i: int, j: int|
                0 <= i < m && 0 <= j < vs.len() && (#[trigger] crossing(
                    vs[i],
                    vs[j],
                    axis,
                    value,
                )).contains(q);
            if i < m - 1 {
                assert(before.contains(q));
            } else {
                assert(crossing(vs[m - 1], vs[j], axis, value).contains(q));
                assert(row.contains(q));
            }
        }
    }
}

/// A value interpolated and rounded up lies between its two ends, and is no
/// less than the value rounded down.
pub proof fn lemma_interpolate_up_between(from: int, to: int, num: int, den: int)
    requires
        0 <= num <= den,
        0 < den,
    ensures
        interpolate_up_spec(from, to, num, den) == -interpolate_spec(-from, -to, num, den),
        from <= to ==> from <= interpolate_up_spec(from, to, num, den) <= to,
        to <= from ==> to <= interpolate_up_spec(from, to, num, den) <= from,
        num == den ==> interpolate_up_spec(from, to, num, den) == to,
        num == 0 ==> interpolate_up_spec(from, to, num, den) == from,
        interpolate_spec(from, to, num, den) <= interpolate_up_spec(from, to, num, den)
            <= interpolate_spec(from, to, num, den) + 1,
{
    assert((-to) - (-from) == from - to);
    lemma_interpolate_between(-from, -to, num, den);
    let x = num * (to - from);
    assert(num * (from - to) == -x) by (nonlinear_arith)
        requires
            x == num * (to - from),
    ;
    lemma_fundamental_div_mod(x, den);
    lemma_mod_bound(x, den);
    lemma_fundamental_div_mod(-x, den);
    lemma_mod_bound(-x, den);
    let q = x / den;
    let r = x % den;
    let q2 = (-x) / den;
    let r2 = (-x) % den;
    assert(-1 <= q + q2 <= 0) by (nonlinear_arith)
        requires
            x == den * q + r,
            -x == den * q2 + r2,
            0 <= r < den,
            0 <= r2 < den,
    ;
}

/// The coordinate of `p` along `axis`.
pub fn axis_value(p: Point, axis: usize) -> (c: i32)
    ensures
        c == coord(p, axis),
{
    if axis == 0 {
        p.0
    } else {
        p.1
    }
}

/// Interpolates between two values, rounding down.
fn interpolate_wide(from: i64, to: i64, num: i64, den: i64) -> (r: i64)
    requires
        -0x8000_0000 <= from <= 0x8000_0000,
        -0x8000_0000 <= to <= 0x8000_0000,
        0 <= num <= den,
        0 < den,
    ensures
        r == interpolate_spec(from as int, to as int, num as int, den as int),
{
    let d: i64 = to - from;
    proof {
        lemma_interpolate_between(from as int, to as int, num as int, den as int);
        lemma_fundamental_div_mod(num * d, den as int);
        lemma_mod_bound(num * d, den as int);
    }
    if d >= 0 {
        assert(0 <= num * d <= 0x7fff_ffff_ffff_ffff * 0x1_0000_0000) by (nonlinear_arith)
            requires
                0 <= num <= 0x7fff_ffff_ffff_ffff,
                0 <= d <= 0x1_0000_0000,
        ;
        let prod: i128 = (num as i128) * (d as i128);
        let q: i128 = prod / (den as i128);
        (from as i128 + q) as i64
    } else {
        let e: i64 = -d;
        assert(0 <= num * e <= 0x7fff_ffff_ffff_ffff * 0x1_0000_0000) by (nonlinear_arith)
            requires
                0 <= num <= 0x7fff_ffff_ffff_ffff,
                0 <= e <= 0x1_0000_0000,
        ;
        let prod: i128 = (num as i128) * (e as i128);
        let up: i128 = (prod + (den as i128 - 1)) / (den as i128);
        proof {
            // rounding the magnitude up is rounding the negative value down
            let m = prod as int;
            let n = den as int;
            lemma_fundamental_div_mod(m + n - 1, n);
            lemma_mod_bound(m + n - 1, n);
            let rest = (m + n - 1) % n;
            assert(num * d == -m) by (nonlinear_arith)
                requires
                    m == num * e,
                    e == -d,
            ;
            assert(-m == (-up) * n + (n - 1 - rest)) by (nonlinear_arith)
                requires
                    m + n - 1 == n * up + rest,
            ;
            lemma_fundamental_div_mod_converse(-m, n, -up as int, n - 1 - rest);
        }
        (from as i128 - up) as i64
    }
}

/// Interpolates between two lattice values, rounding down.
fn interpolate(from: i32, to: i32, num: i64, den: i64) -> (r: i32)
    requires
        0 <= num <= den,
        0 < den,
    ensures
        r == interpolate_spec(from as int, to as int, num as int, den as int),
{
    proof {
        lemma_interpolate_between(from as int, to as int, num as int, den as int);
    }
    interpolate_wide(from as i64, to as i64, num, den) as i32
}

/// Interpolates between two lattice values, rounding up.
fn interpolate_up(from: i32, to: i32, num: i64, den: i64) -> (r: i32)
    requires
        0 <= num <= den,
        0 < den,
    ensures
        r == interpolate_up_spec(from as int, to as int, num as int, den as int),
{
    proof {
        lemma_interpolate_up_between(from as int, to as int, num as int, den as int);
    }
    (-interpolate_wide(-(from as i64), -(to as i64), num, den)) as i32
}

/// The point reached after the fraction `num / den` of the way from `b` to
/// `a`, each coordinate rounded down to the lattice.
pub fn lerp(a: Point, b: Point, num: i64, den: i64) -> (p: Point)
    requires
        0 <= num <= den,
        0 < den,
    ensures
        p == lerp_spec(a, b, num as int, den as int),
{
    (interpolate(b.0, a.0, num, den), interpolate(b.1, a.1, num, den))
}

/// The point reached after the fraction `num / den` of the way from `b` to
/// `a`, each coordinate rounded up to the lattice.
pub fn lerp_up(a: Point, b: Point, num: i64, den: i64) -> (p: Point)
    requires
        0 <= num <= den,
        0 < den,
    ensures
        p == lerp_up_spec(a, b, num as int, den as int),
{
    (interpolate_up(b.0, a.0, num, den), interpolate_up(b.1, a.1, num, den))
}

/// Appends what the pair (`a`, `b`) contributes to the crossings of
/// `coord = value`.
fn push_crossing(out: &mut Vec<Point>, a: Point, b: Point, slice_axis_idx: usize, value: i32)
    ensures
        final(out)@ == old(out)@ + crossing(a, b, slice_axis_idx, value as int),
{
    let ca = axis_value(a, slice_axis_idx);
    let cb = axis_value(b, slice_axis_idx);
    if ca < value || cb > value || (a.0 == b.0 && a.1 == b.1) {
        assert(out@ =~= old(out)@ + Seq::<Point>::empty());
        return ;
    }
    if ca == cb {
        out.push(b);
        assert(out@ =~= old(out)@ + seq![b]);
        return ;
    }
    let num: i64 = value as i64 - cb as i64;
    let den: i64 = ca as i64 - cb as i64;
    let down = lerp(a, b, num, den);
    let up = lerp_up(a, b, num, den);
    out.push(down);
    if down.0 != up.0 || down.1 != up.1 {
        out.push(up);
        assert(out@ =~= old(out)@ + seq![down, up]);
    } else {
        assert(out@ =~= old(out)@ + seq![down]);
    }
}

/// Every crossing of the vertex set with the line `coord = value`, by brute
/// force over all ordered pairs of vertices.
///
/// For each vertex at or above the line and each vertex at or below it: the
/// pair is skipped when the two coincide, yields the lower vertex when both
/// lie on the line, and otherwise yields the interpolated crossing: once
/// where it is a lattice point, and else rounded down and rounded up.
pub fn find_intersects(polytope_points: &[Point], slice_axis_idx: usize, value: i32) -> (intersects:
    Vec<Point>)
    ensures
        intersects@ == self::intersects(polytope_points@, slice_axis_idx, value as int),
{
    let n = polytope_points.len();
    let mut out: Vec<Point> = Vec::new();
    let mut i: usize = 0;
    while i < n
        invariant
            n == polytope_points@.len(),
            i <= n,
            out@ == intersects_upto(polytope_points@, slice_axis_idx, value as int, i as nat),
        decreases n - i,
    {
        let a = polytope_points[i];
        let ghost done = out@;
        let mut j: usize = 0;
        while j < n
            invariant
                n == polytope_points@.len(),
                i < n,
                j <= n,
                a == polytope_points@[i as int],
                out@ == done + row_intersects(
                    polytope_points@,
                    a,
                    slice_axis_idx,
                    value as int,
                    j as nat,
                ),
            decreases n - j,
        {
            let b = polytope_points[j];
            let ghost row = row_intersects(
                polytope_points@,
                a,
                slice_axis_idx,
                value as int,
                j as nat,
            );
            let ghost before = out@;
            push_crossing(&mut out, a, b, slice_axis_idx, value);
            assert(out@ =~= done + (row + crossing(a, b, slice_axis_idx, value as int)));
            j += 1;
        }
        i += 1;
    }
    out
}

/// The least and the greatest coordinate of the vertices along an axis, or
/// `None` for an empty vertex set.
pub fn polygon_extents(polytope_points: &Vec<Point>, slice_axis_idx: usize) -> (extents: Option<
    (i32, i32),
>)
    ensures
        extents is None <==> polytope_points@.len() == 0,
        extents matches Some(e) ==> is_extent(
            polytope_points@,
            slice_axis_idx,
            e.0 as int,
            e.1 as int,
        ),
{
    if polytope_points.len() == 0 {
        return None;
    }
    let first = axis_value(polytope_points[0], slice_axis_idx);
    let mut lo = first;
    let mut hi = first;
    let mut i: usize = 1;
    proof {
        assert(polytope_points@.take(1)[0] == polytope_points@[0]);
    }
    while i < polytope_points.len()
        invariant
            1 <= i <= polytope_points@.len(),
            is_extent(polytope_points@.take(i as int), slice_axis_idx, lo as int, hi as int),
        decreases polytope_points.len() - i,
    {
        let c = axis_value(polytope_points[i], slice_axis_idx);
        let ghost before = polytope_points@.take(i as int);
        let ghost now = polytope_points@.take(i as int + 1);
        proof {
            let wlo = choose|k: int| 0 <= k < before.len() && coord(#[trigger] before[k], slice_axis_idx) == lo;
            let whi = choose|k: int| 0 <= k < before.len() && coord(#[trigger] before[k], slice_axis_idx) == hi;
            assert(now[wlo] == before[wlo] && now[whi] == before[whi]);
            assert(now[i as int] == polytope_points@[i as int]);
            assert forall|k: int| 0 <= k < now.len() implies (if c < lo { c } else { lo }) <= coord(
                #[trigger] now[k],
                slice_axis_idx,
            ) <= (if c > hi { c } else { hi }) by {
                if k < i {
                    assert(now[k] == before[k]);
                }
            }
        }
        if c < lo {
            lo = c;
        }
        if c > hi {
            hi = c;
        }
        i += 1;
    }
    proof {
        assert(polytope_points@.take(polytope_points@.len() as int) == polytope_points@);
    }
    Some((lo, hi))
}

/// Whether the pair (`a`, `b`) crosses the vertical line through `p` at or
/// below `p`, and whether it crosses it at or above `p`.
fn pair_passes(a: Point, b: Point, p: Point) -> (sides: (bool, bool))
    ensures
        sides.0 == passes(a, b, p, true),
        sides.1 == passes(a, b, p, false),
{
    if a.0 < p.0 || b.0 > p.0 || (a.0 == b.0 && a.1 == b.1) {
        return (false, false);
    }
    if a.0 == b.0 {
        return (b.1 <= p.1, b.1 >= p.1);
    }
    let num: i128 = p.0 as i128 - b.0 as i128;
    let rise: i128 = a.1 as i128 - b.1 as i128;
    let up: i128 = p.1 as i128 - b.1 as i128;
    let run: i128 = a.0 as i128 - b.0 as i128;
    assert(-0x1_0000_0000 * 0x1_0000_0000 <= num * rise <= 0x1_0000_0000 * 0x1_0000_0000)
        by (nonlinear_arith)
        requires
            0 <= num <= 0x1_0000_0000,
            -0x1_0000_0000 <= rise <= 0x1_0000_0000,
    ;
    assert(-0x1_0000_0000 * 0x1_0000_0000 <= up * run <= 0x1_0000_0000 * 0x1_0000_0000)
        by (nonlinear_arith)
        requires
            0 <= run <= 0x1_0000_0000,
            -0x1_0000_0000 <= up <= 0x1_0000_0000,
    ;
    let left = num * rise;
    let right = up * run;
    (left <= right, left >= right)
}

/// Whether `point` lies inside the convex polygon with the given vertices,
/// borders included, by the vertical-slice test: the vertical line through
/// the point must be crossed at or below it and at or above it. The test is
/// exact: no crossing is rounded.
pub fn is_contained_in(point: Point, polygon_points: &[Point]) -> (inside: bool)
    ensures
        inside == contained(point, polygon_points@),
{
    let n = polygon_points.len();
    let ghost vs = polygon_points@;
    let mut below = false;
    let mut above = false;
    let mut i: usize = 0;
    proof {
        if n > 0 {
            lemma_seen_crossing(vs, point, true, 0, 0);
            lemma_seen_crossing(vs, point, false, 0, 0);
        }
    }
    while i < n
        invariant
            n == vs.len(),
            vs == polygon_points@,
            i <= n,
            below == seen_crossing(vs, point, true, i as int, 0),
            above == seen_crossing(vs, point, false, i as int, 0),
        decreases n - i,
    {
        let a = polygon_points[i];
        let mut j: usize = 0;
        while j < n
            invariant
                n == vs.len(),
                vs == polygon_points@,
                i < n,
                j <= n,
                a == vs[i as int],
                below == seen_crossing(vs, point, true, i as int, j as int),
                above == seen_crossing(vs, point, false, i as int, j as int),
            decreases n - j,
        {
            let b = polygon_points[j];
            let (low, high) = pair_passes(a, b, point);
            proof {
                lemma_seen_crossing(vs, point, true, i as int, j as int);
                lemma_seen_crossing(vs, point, false, i as int, j as int);
            }
            below = below || low;
            above = above || high;
            j += 1;
        }
        proof {
            lemma_seen_crossing(vs, point, true, i as int, 0);
            lemma_seen_crossing(vs, point, false, i as int, 0);
        }
        i += 1;
    }
    proof {
        if n > 0 {
            lemma_seen_crossing(vs, point, true, 0, 0);
            lemma_seen_crossing(vs, point, false, 0, 0);
        } else {
            assert(!has_crossing(vs, point, true));
        }
    }
    below && above
}

/// Why a convex hull could not be turned into a polygon.
#[derive(Debug)]
pub enum QhullError {
    /// The hull is flat: fewer than three vertices remain.
    FlatError,
    /// The hull computation gave something that is not a hull.
    OtherError(String),
}

/// The text carried by the error for a hull ring that is empty or not closed.
pub open spec fn open_ring_message() -> Seq<char> {
    "hull ring is not closed"@
}

impl QhullError {
    /// The text of this error.
    pub open spec fn message_spec(self) -> Seq<char> {
        match self {
            QhullError::FlatError => "QHull error: flat or invalid geometry"@,
            QhullError::OtherError(msg) => "QHull error: "@ + msg@,
        }
    }

    /// A human-readable description of the failure.
    pub fn message(&self) -> (text: String)
        ensures
            text@ == self.message_spec(),
    {
        match self {
            QhullError::FlatError => String::from_str("QHull error: flat or invalid geometry"),
            QhullError::OtherError(msg) => String::from_str("QHull error: ").concat(msg.as_str()),
        }
    }
}

/// The vertex list as a closed ring: the first vertex is repeated at the end
/// unless the list is empty or already ends with it.
pub open spec fn close_ring_spec(coords: Seq<Point>) -> Seq<Point> {
    if coords.len() > 0 && coords.first() != coords.last() {
        coords.push(coords.first())
    } else {
        coords
    }
}

/// The exterior ring of the convex hull that the `geo` crate computes for the
/// polygon with the given exterior ring.
pub uninterp spec fn convex_hull_ring(ring: Seq<Point>) -> Seq<Point>;

/// Every vertex of `out` is a vertex of `source`.
pub open spec fn drawn_from(out: Seq<Point>, source: Seq<Point>) -> bool {
    forall|i: int| 0 <= i < out.len() ==> source.contains(#[trigger] out[i])
}

/// Whether `ring` repeats its first vertex at its end.
pub open spec fn is_closed_ring(ring: Seq<Point>) -> bool {
    ring.len() > 0 && ring.first() == ring.last()
}

/// The hull ring of a vertex list.
pub open spec fn hull_ring_of(points: Seq<Point>) -> Seq<Point> {
    convex_hull_ring(close_ring_spec(points))
}

/// The hull of `points` is flat: its ring is closed but holds fewer than
/// three vertices besides the closing one.
pub open spec fn hull_is_flat(points: Seq<Point>) -> bool {
    is_closed_ring(hull_ring_of(points)) && hull_ring_of(points).len() < 4
}

/// The hull polygon of `points`, its closing vertex dropped, or `None` where
/// there is no input or the hull is flat.
pub open spec fn hull_polygon(points: Seq<Point>) -> Option<Seq<Point>> {
    if points.len() == 0 || hull_ring_of(points).len() < 4 {
        None
    } else {
        Some(hull_ring_of(points).drop_last())
    }
}

/// The view of an optional vertex list.
pub open spec fn opt_view(polygon: Option<Vec<Point>>) -> Option<Seq<Point>> {
    match polygon {
        Some(v) => Some(v@),
        None => None,
    }
}

/// Closes a vertex list into a ring.
pub fn close_ring(coords: &Vec<Point>) -> (closed: Vec<Point>)
    ensures
        closed@ == close_ring_spec(coords@),
{
    let mut closed = copy_points(coords);
    let n = coords.len();
    if n > 0 {
        let first = coords[0];
        let last = coords[n - 1];
        if first.0 != last.0 || first.1 != last.1 {
            closed.push(first);
        }
    }
    closed
}

/// A copy of a vertex list.
pub fn copy_points(points: &Vec<Point>) -> (copy: Vec<Point>)
    ensures
        copy@ == points@,
{
    let mut copy: Vec<Point> = Vec::with_capacity(points.len());
    let mut i: usize = 0;
    while i < points.len()
        invariant
            i <= points@.len(),
            copy@ == points@.take(i as int),
        decreases points.len() - i,
    {
        copy.push(points[i]);
        assert(points@.take(i as int + 1) == points@.take(i as int).push(points@[i as int]));
        i += 1;
    }
    assert(points@.take(points@.len() as int) == points@);
    copy
}

/// Calls `geo`'s `ConvexHull::convex_hull` (QuickHull, on `i128` so that no
/// product of coordinate differences can overflow) on the polygon whose
/// exterior is `ring`, and hands back the hull's exterior ring.
///
/// Trusted: the result is a function of the ring alone, named
/// `convex_hull_ring`; every vertex of it is a vertex of the ring, for the
/// hull is put together from the ring's own coordinates; and the hull of a
/// ring that is not empty is a closed ring, for `geo` closes the exterior
/// of every polygon it makes. Nothing else is claimed of it here.
#[verifier::external_body]
fn hull_ring(ring: &Vec<Point>) -> (hull: Vec<Point>)
    ensures
        hull@ == convex_hull_ring(ring@),
        drawn_from(hull@, ring@),
        ring@.len() > 0 ==> is_closed_ring(hull@),
{
    let coords: Vec<geo::Coord<i128>> =
        ring.iter().map(|p| geo::Coord { x: p.0 as i128, y: p.1 as i128 }).collect();
    let hull = geo::Polygon::new(geo::LineString::new(coords), Vec::new()).convex_hull();
    hull.exterior().0.iter().map(|c| (c.x as i32, c.y as i32)).collect()
}

/// What becomes of a hull ring: the polygon without the closing vertex,
/// `FlatError` when fewer than three vertices remain, `OtherError` when the
/// ring is empty or not closed.
pub fn polygon_of_ring(ring: Vec<Point>) -> (res: Result<Vec<Point>, QhullError>)
    ensures
        !is_closed_ring(ring@) ==> (res matches Err(QhullError::OtherError(msg)) && msg@
            == open_ring_message()),
        is_closed_ring(ring@) && ring@.len() < 4 ==> res matches Err(QhullError::FlatError),
        is_closed_ring(ring@) && ring@.len() >= 4 ==> (res matches Ok(p) && p@
            == ring@.drop_last()),
{
    let n = ring.len();
    if n == 0 {
        return Err(QhullError::OtherError(String::from_str("hull ring is not closed")));
    }
    let first = ring[0];
    let last = ring[n - 1];
    if first.0 != last.0 || first.1 != last.1 {
        return Err(QhullError::OtherError(String::from_str("hull ring is not closed")));
    }
    if n < 4 {
        return Err(QhullError::FlatError);
    }
    let mut polygon = ring;
    polygon.pop();
    Ok(polygon)
}

/// The convex hull of a vertex list, in boundary order and without the
/// closing vertex.
pub fn find_qhull_points2(points: &Vec<Point>) -> (res: Result<Vec<Point>, QhullError>)
    ensures
        !is_closed_ring(hull_ring_of(points@)) ==> (res matches Err(QhullError::OtherError(msg))
            && msg@ == open_ring_message()),
        hull_is_flat(points@) ==> res matches Err(QhullError::FlatError),
        is_closed_ring(hull_ring_of(points@)) && !hull_is_flat(points@) ==> (res matches Ok(p)
            && p@ == hull_ring_of(points@).drop_last()),
        res matches Ok(p) ==> drawn_from(p@, points@),
        points@.len() > 0 ==> is_closed_ring(hull_ring_of(points@)),
{
    let closed = close_ring(points);
    let ring = hull_ring(&closed);
    proof {
        assert forall|i: int| 0 <= i < ring@.len() implies points@.contains(
            #[trigger] ring@[i],
        ) by {
            assert(closed@.contains(ring@[i]));
            let at = choose|at: int| 0 <= at < closed@.len() && closed@[at] == ring@[i];
            if at < points@.len() {
                assert(points@[at] == ring@[i]);
            } else {
                assert(points@[0] == ring@[i]);
            }
        }
    }
    polygon_of_ring(ring)
}

/// The convex hull of a vertex list as an optional polygon: a flat hull, or
/// an empty input, is no polygon and no error. The hull of a vertex list is
/// always a closed ring, so no error arises here.
pub fn find_qhull_points3(points: &Vec<Point>) -> (res: Result<Option<Vec<Point>>, QhullError>)
    ensures
        res is Ok,
        res matches Ok(polygon) ==> opt_view(polygon) == hull_polygon(points@),
        res matches Ok(Some(polygon)) ==> drawn_from(polygon@, points@),
{
    if points.len() == 0 {
        return Ok(None);
    }
    match find_qhull_points2(points) {
        Ok(hull_points) => Ok(Some(hull_points)),
        Err(QhullError::FlatError) => Ok(None),
        Err(e) => Err(e),
    }
}

/// The test that keeps the vertices at or below `value` along `axis`.
pub open spec fn at_or_below(axis: usize, value: int) -> spec_fn(Point) -> bool {
    |p: Point| coord(p, axis) <= value
}

/// The test that keeps the vertices at or above `value` along `axis`.
pub open spec fn at_or_above(axis: usize, value: int) -> spec_fn(Point) -> bool {
    |p: Point| coord(p, axis) >= value
}

/// Every vertex lies at or below `value` along `axis`.
pub open spec fn all_at_or_below(vs: Seq<Point>, axis: usize, value: int) -> bool {
    forall|i: int| 0 <= i < vs.len() ==> coord(#[trigger] vs[i], axis) <= value
}

/// Every vertex lies strictly above `value` along `axis`.
pub open spec fn all_above(vs: Seq<Point>, axis: usize, value: int) -> bool {
    forall|i: int| 0 <= i < vs.len() ==> value < coord(#[trigger] vs[i], axis)
}

/// The line `coord = value` cuts through the vertex set: some vertex lies
/// strictly above it and some vertex does not.
pub open spec fn straddles(vs: Seq<Point>, axis: usize, value: int) -> bool {
    vs.len() > 0 && !all_at_or_below(vs, axis, value) && !all_above(vs, axis, value)
}

/// The candidate vertices of the lower side: the vertices at or below the
/// line, then every crossing.
pub open spec fn left_points(vs: Seq<Point>, axis: usize, value: int) -> Seq<Point> {
    vs.filter(at_or_below(axis, value)) + intersects(vs, axis, value)
}

/// The candidate vertices of the upper side: the vertices at or above the
/// line, then every crossing.
pub open spec fn right_points(vs: Seq<Point>, axis: usize, value: int) -> Seq<Point> {
    vs.filter(at_or_above(axis, value)) + intersects(vs, axis, value)
}

/// The polygon of one side: the hull of its candidates, if there are at
/// least three of them.
pub open spec fn side_polygon(side: Seq<Point>) -> Option<Seq<Point>> {
    if side.len() >= 3 {
        hull_polygon(side)
    } else {
        None
    }
}

/// The part of the polygon at or below the line.
pub open spec fn slice_left(vs: Option<Seq<Point>>, value: int, axis: usize) -> Option<Seq<Point>> {
    match vs {
        None => None,
        Some(v) => if v.len() == 0 {
            None
        } else if all_at_or_below(v, axis, value) {
            Some(v)
        } else if all_above(v, axis, value) {
            None
        } else {
            side_polygon(left_points(v, axis, value))
        },
    }
}

/// The part of the polygon at or above the line.
pub open spec fn slice_right(vs: Option<Seq<Point>>, value: int, axis: usize) -> Option<
    Seq<Point>,
> {
    match vs {
        None => None,
        Some(v) => if v.len() == 0 {
            None
        } else if all_at_or_below(v, axis, value) {
            None
        } else if all_above(v, axis, value) {
            Some(v)
        } else {
            side_polygon(right_points(v, axis, value))
        },
    }
}

/// Every vertex lies at or above `value` along `axis`.
pub open spec fn all_at_or_above(vs: Seq<Point>, axis: usize, value: int) -> bool {
    forall|i: int| 0 <= i < vs.len() ==> coord(#[trigger] vs[i], axis) >= value
}

/// The lower part of a cut is drawn from the candidates of the lower side,
/// and none of its vertices lies above the line.
pub open spec fn lower_part_ok(
    part: Option<Vec<Point>>,
    polygon: Option<&Vec<Point>>,
    value: int,
    axis: usize,
) -> bool {
    part matches Some(p) ==> polygon matches Some(v) && drawn_from(
        p@,
        left_points(v@, axis, value),
    ) && all_at_or_below(p@, axis, value)
}

/// The upper part of a cut is drawn from the candidates of the upper side,
/// and none of its vertices lies below the line.
pub open spec fn upper_part_ok(
    part: Option<Vec<Point>>,
    polygon: Option<&Vec<Point>>,
    value: int,
    axis: usize,
) -> bool {
    part matches Some(p) ==> polygon matches Some(v) && drawn_from(
        p@,
        right_points(v@, axis, value),
    ) && all_at_or_above(p@, axis, value)
}

/// Every crossing of a vertex set with a line lies on the line.
pub proof fn lemma_crossings_on_line(vs: Seq<Point>, axis: usize, value: int, q: Point)
    requires
        intersects(vs, axis, value).contains(q),
    ensures
        coord(q, axis) == value,
{
    lemma_crossings(vs, axis, value, vs.len(), q);
    let (i, j) = choose|i: int, j: int|
        0 <= i < vs.len() && 0 <= j < vs.len() && (#[trigger] crossing(
            vs[i],
            vs[j],
            axis,
            value,
        )).contains(q);
    let a = vs[i];
    let b = vs[j];
    let found = crossing(a, b, axis, value);
    let at = choose|at: int| 0 <= at < found.len() && found[at] == q;
    if coord(a, axis) != coord(b, axis) {
        let num = value - coord(b, axis);
        let den = coord(a, axis) - coord(b, axis);
        lemma_div_multiples_vanish(num, den);
        lemma_div_multiples_vanish(-num, den);
        assert(num * den == den * num) by (nonlinear_arith);
        assert(num * (-den) == den * (-num)) by (nonlinear_arith);
        assert(interpolate_spec(coord(b, axis), coord(a, axis), num, den) == value);
        assert(interpolate_up_spec(coord(b, axis), coord(a, axis), num, den) == value);
    }
}

/// The candidates of the lower side lie at or below the line, those of the
/// upper side at or above it.
pub proof fn lemma_sides_of_line(vs: Seq<Point>, axis: usize, value: int)
    ensures
        all_at_or_below(left_points(vs, axis, value), axis, value),
        all_at_or_above(right_points(vs, axis, value), axis, value),
{
    let xs = intersects(vs, axis, value);
    let low = vs.filter(at_or_below(axis, value));
    let high = vs.filter(at_or_above(axis, value));
    assert forall|i: int| 0 <= i < (low + xs).len() implies coord(
        #[trigger] (low + xs)[i],
        axis,
    ) <= value by {
        if i < low.len() {
            vs.lemma_filter_pred(at_or_below(axis, value), i);
        } else {
            assert(xs.contains(xs[i - low.len()]));
            lemma_crossings_on_line(vs, axis, value, xs[i - low.len()]);
        }
    }
    assert forall|i: int| 0 <= i < (high + xs).len() implies coord(
        #[trigger] (high + xs)[i],
        axis,
    ) >= value by {
        if i < high.len() {
            vs.lemma_filter_pred(at_or_above(axis, value), i);
        } else {
            assert(xs.contains(xs[i - high.len()]));
            lemma_crossings_on_line(vs, axis, value, xs[i - high.len()]);
        }
    }
}

/// What is drawn from vertices on one side of a line lies on that side.
pub proof fn lemma_drawn_on_side(out: Seq<Point>, source: Seq<Point>, axis: usize, value: int)
    requires
        drawn_from(out, source),
    ensures
        all_at_or_below(source, axis, value) ==> all_at_or_below(out, axis, value),
        all_at_or_above(source, axis, value) ==> all_at_or_above(out, axis, value),
{
    assert forall|i: int| 0 <= i < out.len() implies (all_at_or_below(source, axis, value)
        ==> coord(#[trigger] out[i], axis) <= value) && (all_at_or_above(source, axis, value)
        ==> coord(out[i], axis) >= value) by {
        assert(source.contains(out[i]));
        let at = choose|at: int| 0 <= at < source.len() && source[at] == out[i];
        assert(source[at] == out[i]);
    }
}

/// The vertices of `points` that pass the test for one side of the line,
/// followed by `crossings`.
fn side_candidates(points: &Vec<Point>, crossings: &Vec<Point>, axis: usize, value: i32, lower: bool) -> (side:
    Vec<Point>)
    ensures
        side@ == points@.filter(
            if lower {
                at_or_below(axis, value as int)
            } else {
                at_or_above(axis, value as int)
            },
        ) + crossings@,
{
    let ghost keep = if lower {
        at_or_below(axis, value as int)
    } else {
        at_or_above(axis, value as int)
    };
    let mut side: Vec<Point> = Vec::new();
    let mut i: usize = 0;
    while i < points.len()
        invariant
            i <= points@.len(),
            side@ == points@.take(i as int).filter(keep),
            keep == if lower {
                at_or_below(axis, value as int)
            } else {
                at_or_above(axis, value as int)
            },
        decreases points.len() - i,
    {
        let p = points[i];
        let c = axis_value(p, axis);
        proof {
            reveal(Seq::filter);
            assert(points@.take(i as int + 1).drop_last() == points@.take(i as int));
            assert(points@.take(i as int + 1).last() == p);
        }
        if (lower && c <= value) || (!lower && c >= value) {
            side.push(p);
        }
        i += 1;
    }
    assert(points@.take(points@.len() as int) == points@);
    let ghost kept = side@;
    let mut j: usize = 0;
    while j < crossings.len()
        invariant
            j <= crossings@.len(),
            side@ == kept + crossings@.take(j as int),
        decreases crossings.len() - j,
    {
        side.push(crossings[j]);
        assert(crossings@.take(j as int + 1) == crossings@.take(j as int).push(crossings@[j as int]));
        j += 1;
    }
    assert(crossings@.take(crossings@.len() as int) == crossings@);
    side
}

/// The polygon of one side of a cut: absent below three candidates.
fn side_hull(side: &Vec<Point>) -> (res: Result<Option<Vec<Point>>, QhullError>)
    ensures
        res is Ok,
        res matches Ok(polygon) ==> opt_view(polygon) == side_polygon(side@),
        res matches Ok(Some(polygon)) ==> drawn_from(polygon@, side@),
{
    if side.len() >= 3 {
        find_qhull_points3(side)
    } else {
        Ok(None)
    }
}

/// Cuts a convex polygon in two along the line `coord = value`.
///
/// No polygon, or an empty one, gives nothing on either side. A polygon that
/// lies wholly at or below the line is the lower part, one wholly above it
/// the upper part, unchanged. Otherwise each part is the convex hull of the
/// vertices on its side together with every crossing of the line; a side
/// with fewer than three candidates, or with a flat hull, is absent. A
/// crossing that falls between two lattice points of the line is taken at
/// both, so a part can reach beyond the polygon by less than one unit along
/// the line; where every crossing is a lattice point nothing is rounded. No
/// error arises.
pub fn slice_in_two(polytope_points: Option<&Vec<Point>>, value: i32, slice_axis_idx: usize) -> (res:
    Result<(Option<Vec<Point>>, Option<Vec<Point>>), QhullError>)
    ensures
        res is Ok,
        res matches Ok(parts) ==> {
            let vs = match polytope_points {
                Some(v) => Some(v@),
                None => None,
            };
            &&& opt_view(parts.0) == slice_left(vs, value as int, slice_axis_idx)
            &&& opt_view(parts.1) == slice_right(vs, value as int, slice_axis_idx)
            &&& lower_part_ok(parts.0, polytope_points, value as int, slice_axis_idx)
            &&& upper_part_ok(parts.1, polytope_points, value as int, slice_axis_idx)
        },
{
    let points = match polytope_points {
        Some(p) => p,
        None => {
            return Ok((None, None));
        },
    };
    let (lower, upper) = match polygon_extents(points, slice_axis_idx) {
        Some(e) => e,
        None => {
            return Ok((None, None));
        },
    };
    let ghost axis = slice_axis_idx;
    let ghost low_side = left_points(points@, axis, value as int);
    let ghost high_side = right_points(points@, axis, value as int);
    proof {
        let lo = choose|k: int| 0 <= k < points@.len() && coord(#[trigger] points@[k], axis) == lower;
        let hi = choose|k: int| 0 <= k < points@.len() && coord(#[trigger] points@[k], axis) == upper;
        assert(all_at_or_below(points@, axis, value as int) <==> upper <= value) by {
            if all_at_or_below(points@, axis, value as int) {
                assert(coord(points@[hi], axis) <= value);
            }
        }
        assert(all_above(points@, axis, value as int) <==> value < lower) by {
            if all_above(points@, axis, value as int) {
                assert(value < coord(points@[lo], axis));
            }
        }
        lemma_sides_of_line(points@, axis, value as int);
    }
    if upper <= value {
        proof {
            assert forall|i: int| 0 <= i < points@.len() implies low_side.contains(
                #[trigger] points@[i],
            ) by {
                points@.lemma_filter_contains(at_or_below(axis, value as int), i);
                lemma_points_concat(
                    points@.filter(at_or_below(axis, value as int)),
                    intersects(points@, axis, value as int),
                    points@[i],
                );
            }
        }
        return Ok((Some(copy_points(points)), None));
    } else if value < lower {
        proof {
            assert forall|i: int| 0 <= i < points@.len() implies high_side.contains(
                #[trigger] points@[i],
            ) by {
                assert(coord(points@[i], axis) > value);
                points@.lemma_filter_contains(at_or_above(axis, value as int), i);
                lemma_points_concat(
                    points@.filter(at_or_above(axis, value as int)),
                    intersects(points@, axis, value as int),
                    points@[i],
                );
            }
            assert(all_at_or_above(points@, axis, value as int));
        }
        return Ok((None, Some(copy_points(points))));
    }
    let crossings = find_intersects(points.as_slice(), slice_axis_idx, value);
    let left_points = side_candidates(points, &crossings, slice_axis_idx, value, true);
    let right_points = side_candidates(points, &crossings, slice_axis_idx, value, false);
    let left_polygon = match side_hull(&left_points) {
        Ok(polygon) => polygon,
        Err(e) => {
            return Err(e);
        },
    };
    let right_polygon = match side_hull(&right_points) {
        Ok(polygon) => polygon,
        Err(e) => {
            return Err(e);
        },
    };
    proof {
        if left_polygon is Some {
            lemma_drawn_on_side(left_polygon->0@, low_side, axis, value as int);
        }
        if right_polygon is Some {
            lemma_drawn_on_side(right_polygon->0@, high_side, axis, value as int);
        }
    }
    Ok((left_polygon, right_polygon))
}

} // verus!
