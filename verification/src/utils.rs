//! Geometry primitives: 2-D coordinates, segment intersection and
//! polygon-against-polygon intersection, plus interpolation.

use vstd::prelude::*;
use crate::fixed::{SCALE, FX_LIM, FX_MUL_LIM, div_tz, fxlerp, mag, fx_mul, lemma_div_tz_mag};

verus! {

/// A 2-D point; both components are fixed-point scalars.
#[derive(Debug, Clone, Copy, PartialEq, Eq, Structural)]
pub struct Coord {
    pub x: i64,
    pub y: i64,
}

/// An intersection point together with the interpolation parameter that
/// locates it along the first segment (`0` at the start, [`SCALE`] at the end).
#[derive(Debug, Clone, Copy, PartialEq, Eq, Structural)]
pub struct CoordWithOffset {
    pub x: i64,
    pub y: i64,
    pub offset: i64,
}

/// A coordinate the geometry accepts.
pub open spec fn coord_ok(p: Coord) -> bool {
    &&& -FX_LIM <= p.x <= FX_LIM
    &&& -FX_LIM <= p.y <= FX_LIM
}

/// Numerator of the parameter along `a -> b` in the standard cross-product
/// formulation of segment intersection.
pub open spec fn t_top_of(a: Coord, b: Coord, c: Coord, d: Coord) -> int {
    (d.x - c.x) * (a.y - c.y) - (d.y - c.y) * (a.x - c.x)
}

/// Numerator of the parameter along `c -> d`.
pub open spec fn u_top_of(a: Coord, b: Coord, c: Coord, d: Coord) -> int {
    (c.y - a.y) * (a.x - b.x) - (c.x - a.x) * (a.y - b.y)
}

/// The shared denominator; zero exactly for parallel or degenerate segments.
pub open spec fn bottom_of(a: Coord, b: Coord, c: Coord, d: Coord) -> int {
    (d.y - c.y) * (b.x - a.x) - (d.x - c.x) * (b.y - a.y)
}

/// The exact rational `n / d` lies in the closed unit interval.
/// False when `d == 0`.
pub open spec fn frac_in_unit(n: int, d: int) -> bool {
    if d > 0 {
        0 <= n <= d
    } else if d < 0 {
        d <= n <= 0
    } else {
        false
    }
}

/// Segments `a -> b` and `c -> d` cross within their bounds: both exact
/// parameters lie in the unit interval. Parallel segments never do.
pub open spec fn segments_intersect(a: Coord, b: Coord, c: Coord, d: Coord) -> bool {
    &&& frac_in_unit(t_top_of(a, b, c, d), bottom_of(a, b, c, d))
    &&& frac_in_unit(u_top_of(a, b, c, d), bottom_of(a, b, c, d))
}

/// The fixed-point value of the crossing parameter along `a -> b`,
/// rounded toward zero. Meaningful when the segments intersect, in which
/// case numerator and denominator carry the same sign.
pub open spec fn intersection_offset(a: Coord, b: Coord, c: Coord, d: Coord) -> int {
    mag(t_top_of(a, b, c, d)) * (SCALE as int) / mag(bottom_of(a, b, c, d))
}

/// Interpolate from `a` toward `b` by the fixed-point parameter `t`.
pub fn lerp(a: i64, b: i64, t: i64) -> (r: i64)
    requires
        -FX_LIM <= a <= FX_LIM,
        -FX_LIM <= b <= FX_LIM,
        -SCALE <= t <= SCALE,
    ensures
        r == fxlerp(a as int, b as int, t as int),
        0 <= t ==> (a <= b ==> a <= r <= b) && (b <= a ==> b <= r <= a),
{
    let d: i64 = b - a;
    let m: i64 = fx_mul(d, t);
    proof {
        assert(mag((d as int) * (t as int)) <= mag(d as int) * (SCALE as int)) by (nonlinear_arith)
            requires
                -SCALE <= t <= SCALE,
        ;
        lemma_div_tz_mag((d as int) * (t as int), SCALE as int);
        assert((SCALE as int) * mag(m as int) <= mag(d as int) * (SCALE as int));
        assert(mag(m as int) <= mag(d as int));
        if 0 <= t {
            assert(d >= 0 ==> 0 <= (d as int) * (t as int)) by (nonlinear_arith)
                requires
                    0 <= t,
            ;
            assert(d < 0 ==> (d as int) * (t as int) <= 0) by (nonlinear_arith)
                requires
                    0 <= t,
            ;
        }
    }
    a + m
}

/// Intersection of segment `a -> b` with segment `c -> d`: the crossing
/// point and its offset along `a -> b`, or `None` when the segments are
/// parallel, degenerate, or cross outside their bounds.
pub fn get_intersection(a: Coord, b: Coord, c: Coord, d: Coord) -> (r: Option<CoordWithOffset>)
    requires
        coord_ok(a),
        coord_ok(b),
        coord_ok(c),
        coord_ok(d),
    ensures
        (r is Some) == segments_intersect(a, b, c, d),
        r matches Some(p) ==> {
            let t = intersection_offset(a, b, c, d);
            &&& 0 <= t <= SCALE
            &&& p.offset == t
            &&& p.x == fxlerp(a.x as int, b.x as int, t)
            &&& p.y == fxlerp(a.y as int, b.y as int, t)
            &&& -FX_MUL_LIM <= p.x <= FX_MUL_LIM
            &&& -FX_MUL_LIM <= p.y <= FX_MUL_LIM
        },
{
    let ax = a.x as i128;
    let ay = a.y as i128;
    let bx = b.x as i128;
    let by = b.y as i128;
    let cx = c.x as i128;
    let cy = c.y as i128;
    let dx = d.x as i128;
    let dy = d.y as i128;
    proof {
        lemma_diff_prod_bounds(dx - cx, ay - cy, dy - cy, ax - cx);
        lemma_diff_prod_bounds(cy - ay, ax - bx, cx - ax, ay - by);
        lemma_diff_prod_bounds(dy - cy, bx - ax, dx - cx, by - ay);
    }
    let t_top: i128 = (dx - cx) * (ay - cy) - (dy - cy) * (ax - cx);
    let u_top: i128 = (cy - ay) * (ax - bx) - (cx - ax) * (ay - by);
    let bottom: i128 = (dy - cy) * (bx - ax) - (dx - cx) * (by - ay);
    let ok_t: bool = if bottom > 0 {
        0 <= t_top && t_top <= bottom
    } else if bottom < 0 {
        bottom <= t_top && t_top <= 0
    } else {
        false
    };
    let ok_u: bool = if bottom > 0 {
        0 <= u_top && u_top <= bottom
    } else if bottom < 0 {
        bottom <= u_top && u_top <= 0
    } else {
        false
    };
    if ok_t && ok_u {
        let tt: u128 = if t_top < 0 {
            (-t_top) as u128
        } else {
            t_top as u128
        };
        let bb: u128 = if bottom < 0 {
            (-bottom) as u128
        } else {
            bottom as u128
        };
        proof {
            assert(tt == mag(t_top as int) && bb == mag(bottom as int));
            assert(bb <= 8 * (FX_LIM as int) * (FX_LIM as int));
            assert(tt <= bb);
            assert((tt as int) * (SCALE as int) <= (bb as int) * (SCALE as int) <= 8_000_000_000_000_000_000_000_000_000_000int)
                by (nonlinear_arith)
                requires
                    0 <= tt <= bb <= 8_000_000_000_000_000_000_000_000int,
                    SCALE == 1_000_000i64,
            ;
        }
        let off_wide: u128 = tt * (SCALE as u128) / bb;
        proof {
            assert(tt * (SCALE as u128) <= bb * (SCALE as u128));
            vstd::arithmetic::div_mod::lemma_div_is_ordered(
                (tt * (SCALE as u128)) as int,
                (bb * (SCALE as u128)) as int,
                bb as int,
            );
            vstd::arithmetic::div_mod::lemma_div_multiples_vanish(SCALE as int, bb as int);
            assert((bb as int) * (SCALE as int) / (bb as int) == SCALE as int);
            assert(off_wide <= SCALE as u128);
        }
        let offset: i64 = off_wide as i64;
        proof {
            assert(offset == intersection_offset(a, b, c, d));
            assert(mag(((b.x - a.x) as int) * (offset as int)) <= mag((b.x - a.x) as int) * (
            SCALE as int)) by (nonlinear_arith)
                requires
                    0 <= offset <= SCALE,
            ;
            assert(mag(((b.y - a.y) as int) * (offset as int)) <= mag((b.y - a.y) as int) * (
            SCALE as int)) by (nonlinear_arith)
                requires
                    0 <= offset <= SCALE,
            ;
            lemma_div_tz_mag(((b.x - a.x) as int) * (offset as int), SCALE as int);
            lemma_div_tz_mag(((b.y - a.y) as int) * (offset as int), SCALE as int);
        }
        let x: i64 = a.x + fx_mul(b.x - a.x, offset);
        let y: i64 = a.y + fx_mul(b.y - a.y, offset);
        Some(CoordWithOffset { x, y, offset })
    } else {
        None
    }
}

/// Bounds for the three cross products above: with all eight coordinates in
/// range, each product of differences stays far inside `i128`.
proof fn lemma_diff_prod_bounds(p: int, q: int, r: int, s: int)
    requires
        mag(p) <= 2 * (FX_LIM as int),
        mag(q) <= 2 * (FX_LIM as int),
        mag(r) <= 2 * (FX_LIM as int),
        mag(s) <= 2 * (FX_LIM as int),
    ensures
        mag(p * q) <= 4 * (FX_LIM as int) * (FX_LIM as int),
        mag(r * s) <= 4 * (FX_LIM as int) * (FX_LIM as int),
{
    assert(mag(p * q) <= 4 * (FX_LIM as int) * (FX_LIM as int) && mag(r * s) <= 4 * (
    FX_LIM as int) * (FX_LIM as int)) by (nonlinear_arith)
        requires
            mag(p) <= 2 * (FX_LIM as int),
            mag(q) <= 2 * (FX_LIM as int),
            mag(r) <= 2 * (FX_LIM as int),
            mag(s) <= 2 * (FX_LIM as int),
    ;
}

/// The CSS `rgba(...)` text for a signed colour value: red/green for
/// non-negative values, blue for non-positive ones, with the magnitude as
/// the alpha channel.
pub open spec fn rgba_chars(value: int) -> Seq<char> {
    let r: nat = if value < 0 {
        0
    } else {
        255
    };
    let b: nat = if value > 0 {
        0
    } else {
        255
    };
    "rgba("@ + crate::digits::dec_chars(r) + ","@ + crate::digits::dec_chars(r) + ","@
        + crate::digits::dec_chars(b) + ","@ + crate::digits::dec_chars(mag(value) as nat) + ")"@
}

/// The CSS `hsl(...)` text for a hue.
pub open spec fn hsl_chars(hue: nat) -> Seq<char> {
    "hsl("@ + crate::digits::dec_chars(hue) + ", 100%, 60%)"@
}

/// The `rgba(r,g,b,a)` colour text for a signed value: a debug palette
/// with green for positive, blue for negative, the magnitude as alpha.
pub fn get_rgba(value: i32) -> (s: String)
    requires
        value > i32::MIN,
    ensures
        s@ == rgba_chars(value as int),
{
    let alpha: u64 = if value < 0 {
        (-value) as u64
    } else {
        value as u64
    };
    let rg: u64 = if value < 0 {
        0
    } else {
        255
    };
    let b: u64 = if value > 0 {
        0
    } else {
        255
    };
    let mut s = String::from_str("rgba(");
    crate::digits::push_dec_chars(&mut s, rg);
    s.append(",");
    crate::digits::push_dec_chars(&mut s, rg);
    s.append(",");
    crate::digits::push_dec_chars(&mut s, b);
    s.append(",");
    crate::digits::push_dec_chars(&mut s, alpha);
    s.append(")");
    proof {
        assert(s@ =~= rgba_chars(value as int));
    }
    s
}

/// A random vivid colour: an `hsl(...)` text whose hue is drawn uniformly
/// from 290 to 549.
pub fn get_random_color() -> (s: String)
    ensures
        exists|hue: nat| 290 <= hue <= 549 && s@ == hsl_chars(hue),
{
    let hue: u64 = 290 + (crate::rng::rand_in_range(0, 259) as u64);
    let mut s = String::from_str("hsl(");
    crate::digits::push_dec_chars(&mut s, hue);
    s.append(", 100%, 60%)");
    proof {
        assert(s@ =~= hsl_chars(hue as nat));
    }
    s
}

/// A heading (or a relative turn) stored as its sine and cosine, both
/// fixed-point. The squared norm never exceeds one.
#[derive(Debug, Clone, Copy, PartialEq, Eq, Structural)]
pub struct Rot {
    pub s: i64,
    pub c: i64,
}

/// The defining bound of a heading: its squared norm is at most one.
/// Truncating rotation never grows the norm, so this is preserved forever.
pub open spec fn rot_wf(r: Rot) -> bool {
    (r.s as int) * (r.s as int) + (r.c as int) * (r.c as int) <= (SCALE as int) * (SCALE as int)
}

/// The sine of the sum of the two angles, rescaled with truncation.
pub open spec fn rot_sin(a: Rot, b: Rot) -> int {
    div_tz((a.s as int) * (b.c as int) + (a.c as int) * (b.s as int), SCALE as int)
}

/// The cosine of the sum of the two angles, rescaled with truncation.
pub open spec fn rot_cos(a: Rot, b: Rot) -> int {
    div_tz((a.c as int) * (b.c as int) - (a.s as int) * (b.s as int), SCALE as int)
}

/// The composed rotation (angle addition).
pub open spec fn rot_compose_spec(a: Rot, b: Rot) -> Rot {
    Rot { s: rot_sin(a, b) as i64, c: rot_cos(a, b) as i64 }
}

/// Each component of a well-formed heading lies in the unit interval.
pub proof fn lemma_rot_bounds(r: Rot)
    requires
        rot_wf(r),
    ensures
        -SCALE <= r.s <= SCALE,
        -SCALE <= r.c <= SCALE,
{
    assert(-SCALE <= r.s <= SCALE && -SCALE <= r.c <= SCALE) by (nonlinear_arith)
        requires
            (r.s as int) * (r.s as int) + (r.c as int) * (r.c as int) <= (SCALE as int) * (
            SCALE as int),
            SCALE == 1_000_000i64,
    ;
}

/// Composing two well-formed rotations gives exact component values (no
/// wrap-around in the casts) and keeps the squared norm at most one.
#[verifier::rlimit(100)]
pub proof fn lemma_rot_compose_wf(a: Rot, b: Rot)
    requires
        rot_wf(a),
        rot_wf(b),
    ensures
        rot_compose_spec(a, b).s == rot_sin(a, b),
        rot_compose_spec(a, b).c == rot_cos(a, b),
        rot_wf(rot_compose_spec(a, b)),
{
    lemma_rot_bounds(a);
    lemma_rot_bounds(b);
    let sa = a.s as int;
    let ca = a.c as int;
    let sb = b.s as int;
    let cb = b.c as int;
    let na = sa * sa + ca * ca;
    let nb = sb * sb + cb * cb;
    let x = sa * cb + ca * sb;
    let y = ca * cb - sa * sb;
    let s2 = div_tz(x, SCALE as int);
    let c2 = div_tz(y, SCALE as int);
    let p1 = sa * cb;
    let p2 = ca * sb;
    let q1 = ca * cb;
    let q2 = sa * sb;
    let ua = sa * sa;
    let va = ca * ca;
    let ub = sb * sb;
    let vb = cb * cb;
    assert((p1 + p2) * (p1 + p2) + (q1 - q2) * (q1 - q2) == p1 * p1 + 2 * (p1 * p2) + p2 * p2 + q1
        * q1 - 2 * (q1 * q2) + q2 * q2) by (nonlinear_arith);
    assert(p1 * p2 == q1 * q2) by (nonlinear_arith)
        requires
            p1 == sa * cb,
            p2 == ca * sb,
            q1 == ca * cb,
            q2 == sa * sb,
    ;
    assert(p1 * p1 == ua * vb) by (nonlinear_arith)
        requires
            p1 == sa * cb,
            ua == sa * sa,
            vb == cb * cb,
    ;
    assert(p2 * p2 == va * ub) by (nonlinear_arith)
        requires
            p2 == ca * sb,
            va == ca * ca,
            ub == sb * sb,
    ;
    assert(q1 * q1 == va * vb) by (nonlinear_arith)
        requires
            q1 == ca * cb,
            va == ca * ca,
            vb == cb * cb,
    ;
    assert(q2 * q2 == ua * ub) by (nonlinear_arith)
        requires
            q2 == sa * sb,
            ua == sa * sa,
            ub == sb * sb,
    ;
    assert((ua + va) * (ub + vb) == ua * ub + ua * vb + va * ub + va * vb) by (nonlinear_arith);
    assert(x * x + y * y == na * nb);
    assert(0 <= na && 0 <= nb) by (nonlinear_arith)
        requires
            na == sa * sa + ca * ca,
            nb == sb * sb + cb * cb,
    ;
    assert(na * nb <= (SCALE as int) * (SCALE as int) * (SCALE as int) * (SCALE as int))
        by (nonlinear_arith)
        requires
            0 <= na <= (SCALE as int) * (SCALE as int),
            0 <= nb <= (SCALE as int) * (SCALE as int),
    ;
    lemma_div_tz_mag(x, SCALE as int);
    lemma_div_tz_mag(y, SCALE as int);
    assert(s2 * s2 * ((SCALE as int) * (SCALE as int)) <= x * x) by (nonlinear_arith)
        requires
            (SCALE as int) * mag(s2) <= mag(x),
            0 <= mag(s2),
            SCALE == 1_000_000i64,
            s2 == div_tz(x, SCALE as int),
            mag(s2) == if s2 >= 0 { s2 } else { -s2 },
            mag(x) == if x >= 0 { x } else { -x },
    ;
    assert(c2 * c2 * ((SCALE as int) * (SCALE as int)) <= y * y) by (nonlinear_arith)
        requires
            (SCALE as int) * mag(c2) <= mag(y),
            0 <= mag(c2),
            SCALE == 1_000_000i64,
            c2 == div_tz(y, SCALE as int),
            mag(c2) == if c2 >= 0 { c2 } else { -c2 },
            mag(y) == if y >= 0 { y } else { -y },
    ;
    assert(s2 * s2 + c2 * c2 <= (SCALE as int) * (SCALE as int)) by (nonlinear_arith)
        requires
            s2 * s2 * ((SCALE as int) * (SCALE as int)) <= x * x,
            c2 * c2 * ((SCALE as int) * (SCALE as int)) <= y * y,
            x * x + y * y <= (SCALE as int) * (SCALE as int) * (SCALE as int) * (SCALE as int),
            SCALE == 1_000_000i64,
    ;
    assert(-SCALE <= s2 <= SCALE && -SCALE <= c2 <= SCALE) by (nonlinear_arith)
        requires
            s2 * s2 + c2 * c2 <= (SCALE as int) * (SCALE as int),
            SCALE == 1_000_000i64,
    ;
}

/// Compose two rotations: the heading turned by the relative rotation.
pub fn rot_compose(a: Rot, b: Rot) -> (r: Rot)
    requires
        rot_wf(a),
        rot_wf(b),
    ensures
        r == rot_compose_spec(a, b),
        r.s == rot_sin(a, b),
        r.c == rot_cos(a, b),
        rot_wf(r),
{
    proof {
        lemma_rot_bounds(a);
        lemma_rot_bounds(b);
        lemma_rot_compose_wf(a, b);
        assert(mag((a.s as int) * (b.c as int)) <= (SCALE as int) * (SCALE as int) && mag((
        a.c as int) * (b.s as int)) <= (SCALE as int) * (SCALE as int) && mag((a.c as int) * (
        b.c as int)) <= (SCALE as int) * (SCALE as int) && mag((a.s as int) * (b.s as int)) <= (
        SCALE as int) * (SCALE as int)) by (nonlinear_arith)
            requires
                -SCALE <= a.s <= SCALE,
                -SCALE <= a.c <= SCALE,
                -SCALE <= b.s <= SCALE,
                -SCALE <= b.c <= SCALE,
                SCALE == 1_000_000i64,
        ;
    }
    let x: i128 = (a.s as i128) * (b.c as i128) + (a.c as i128) * (b.s as i128);
    let y: i128 = (a.c as i128) * (b.c as i128) - (a.s as i128) * (b.s as i128);
    let s = crate::fixed::div_wide_by_scale(x);
    let c = crate::fixed::div_wide_by_scale(y);
    Rot { s: s as i64, c: c as i64 }
}

/// One edge of polygon `p` crosses one edge of polygon `q` (edges wrap).
pub open spec fn poly_edge_hits(p: Seq<Coord>, q: Seq<Coord>, i: int, j: int) -> bool {
    segments_intersect(
        p[i],
        p[(i + 1) % (p.len() as int)],
        q[j],
        q[(j + 1) % (q.len() as int)],
    )
}

/// Some edge of `p` crosses some edge of `q`.
pub open spec fn polys_intersect_spec(p: Seq<Coord>, q: Seq<Coord>) -> bool {
    exists|i: int, j: int|
        0 <= i < p.len() && 0 <= j < q.len() && poly_edge_hits(p, q, i, j)
}

/// The views of a list of coordinate vectors.
pub open spec fn views_of(s: Seq<Vec<Coord>>) -> Seq<Seq<Coord>> {
    Seq::new(s.len(), |i: int| s[i]@)
}

/// Every vertex of the polygon is in range for the geometry.
pub open spec fn poly_ok(p: Seq<Coord>) -> bool {
    forall|i: int| 0 <= i < p.len() ==> coord_ok(#[trigger] p[i])
}

/// Whether two polygons touch: true iff any edge of one crosses any edge of
/// the other.
pub fn polys_intersect(poly1: &Vec<Coord>, poly2: &Vec<Coord>) -> (r: bool)
    requires
        poly_ok(poly1@),
        poly_ok(poly2@),
    ensures
        r == polys_intersect_spec(poly1@, poly2@),
{
    let n1 = poly1.len();
    let n2 = poly2.len();
    let mut i: usize = 0;
    while i < n1
        invariant
            n1 == poly1@.len(),
            n2 == poly2@.len(),
            poly_ok(poly1@),
            poly_ok(poly2@),
            0 <= i <= n1,
            forall|ii: int, jj: int|
                0 <= ii < i && 0 <= jj < n2 ==> !poly_edge_hits(poly1@, poly2@, ii, jj),
        decreases n1 - i,
    {
        let mut j: usize = 0;
        while j < n2
            invariant
                n1 == poly1@.len(),
                n2 == poly2@.len(),
                poly_ok(poly1@),
                poly_ok(poly2@),
                0 <= i < n1,
                0 <= j <= n2,
                forall|ii: int, jj: int|
                    0 <= ii < i && 0 <= jj < n2 ==> !poly_edge_hits(poly1@, poly2@, ii, jj),
                forall|jj: int| 0 <= jj < j ==> !poly_edge_hits(poly1@, poly2@, i as int, jj),
            decreases n2 - j,
        {
            let touch = get_intersection(
                poly1[i],
                poly1[(i + 1) % n1],
                poly2[j],
                poly2[(j + 1) % n2],
            );
            if touch.is_some() {
                proof {
                    assert(poly_edge_hits(poly1@, poly2@, i as int, j as int));
                }
                return true;
            }
            j += 1;
        }
        i += 1;
    }
    false
}

/// Parallel or degenerate segment pairs (zero denominator) never intersect.
pub proof fn lemma_parallel_never_intersect(a: Coord, b: Coord, c: Coord, d: Coord)
    requires
        bottom_of(a, b, c, d) == 0,
    ensures
        !segments_intersect(a, b, c, d),
{
}

/// Segment intersection is a symmetric relation on unordered segment pairs.
pub proof fn lemma_segments_intersect_symm(a: Coord, b: Coord, c: Coord, d: Coord)
    ensures
        segments_intersect(a, b, c, d) == segments_intersect(c, d, a, b),
{
    assert(t_top_of(c, d, a, b) == -u_top_of(a, b, c, d)) by {
        assert((b.x - a.x) * (c.y - a.y) - (b.y - a.y) * (c.x - a.x) == -((c.y - a.y) * (a.x
            - b.x) - (c.x - a.x) * (a.y - b.y))) by (nonlinear_arith);
    };
    assert(u_top_of(c, d, a, b) == -t_top_of(a, b, c, d)) by {
        assert((a.y - c.y) * (c.x - d.x) - (a.x - c.x) * (c.y - d.y) == -((d.x - c.x) * (a.y
            - c.y) - (d.y - c.y) * (a.x - c.x))) by (nonlinear_arith);
    };
    assert(bottom_of(c, d, a, b) == -bottom_of(a, b, c, d)) by {
        assert((b.y - a.y) * (d.x - c.x) - (b.x - a.x) * (d.y - c.y) == -((d.y - c.y) * (b.x
            - a.x) - (d.x - c.x) * (b.y - a.y))) by (nonlinear_arith);
    };
}

/// Polygon intersection is symmetric: `polys_intersect(p, q)` and
/// `polys_intersect(q, p)` always agree.
pub proof fn lemma_polys_intersect_symm(p: Seq<Coord>, q: Seq<Coord>)
    ensures
        polys_intersect_spec(p, q) == polys_intersect_spec(q, p),
{
    lemma_polys_intersect_symm_one(p, q);
    lemma_polys_intersect_symm_one(q, p);
}

proof fn lemma_polys_intersect_symm_one(p: Seq<Coord>, q: Seq<Coord>)
    ensures
        polys_intersect_spec(p, q) ==> polys_intersect_spec(q, p),
{
    if polys_intersect_spec(p, q) {
        let (i, j): (int, int) = choose|i: int, j: int|
            0 <= i < p.len() && 0 <= j < q.len() && poly_edge_hits(p, q, i, j);
        lemma_segments_intersect_symm(
            p[i],
            p[(i + 1) % (p.len() as int)],
            q[j],
            q[(j + 1) % (q.len() as int)],
        );
        assert(poly_edge_hits(q, p, j, i));
        assert(polys_intersect_spec(q, p));
    }
}

} // verus!
