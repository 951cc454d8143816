use crate::vector::Vector;
use std::cmp::Ordering;
use vstd::arithmetic::power::lemma_pow0;
use vstd::arithmetic::power2::{lemma_pow2_adds, lemma_pow2_pos, lemma_pow2_unfold, pow2};
use vstd::prelude::*;

verus! {

/// The largest magnitude of a difference of two `i64` values.
pub const DIFF_BOUND: u128 = 0xFFFF_FFFF_FFFF_FFFFu128;

/// The ordering of `x` against zero.
pub open spec fn ordering_of(x: int) -> Ordering {
    if x < 0 {
        Ordering::Less
    } else if x == 0 {
        Ordering::Equal
    } else {
        Ordering::Greater
    }
}

/// Twice the signed area of the triangle `p1, p2, p3`: the cross product
/// `(p2 - p1) x (p3 - p1)`, positive for a counter-clockwise turn.
pub open spec fn cross(p1: [i64; 2], p2: [i64; 2], p3: [i64; 2]) -> int {
    (p2[0] - p1[0]) * (p3[1] - p1[1]) - (p2[1] - p1[1]) * (p3[0] - p1[0])
}

/// The cross product `v x (q - p)`: where `q` lies relative to the line
/// through `p` with direction `v`.
pub open spec fn along(p: [i64; 2], v: [i64; 2], q: [i64; 2]) -> int {
    v[0] * (q[1] - p[1]) - v[1] * (q[0] - p[0])
}

/// The cross product of `v` turned a quarter counter-clockwise, `(-v1, v0)`,
/// with `q - p`. It is negative when `q` lies ahead of `p` along `v`, and
/// positive when it lies behind.
pub open spec fn along_perp(p: [i64; 2], v: [i64; 2], q: [i64; 2]) -> int {
    -(v[0] * (q[0] - p[0]) + v[1] * (q[1] - p[1]))
}

pub open spec fn sgn(x: int) -> int {
    if x < 0 {
        -1
    } else if x == 0 {
        0
    } else {
        1
    }
}

pub open spec fn abs(x: int) -> int {
    if x < 0 {
        -x
    } else {
        x
    }
}

proof fn lemma_product_by_parts(a: int, b: int)
    ensures
        sgn(a) * sgn(b) == 1 ==> a * b == abs(a) * abs(b) && a * b > 0,
        sgn(a) * sgn(b) == -1 ==> a * b == -(abs(a) * abs(b)) && a * b < 0,
        sgn(a) * sgn(b) == 0 ==> a * b == 0,
{
    if a < 0 && b < 0 {
        assert(a * b == (-a) * (-b) && a * b > 0) by (nonlinear_arith)
            requires
                a < 0,
                b < 0,
        ;
    } else if a < 0 && b > 0 {
        assert(a * b == -((-a) * b) && a * b < 0) by (nonlinear_arith)
            requires
                a < 0,
                b > 0,
        ;
    } else if a > 0 && b < 0 {
        assert(a * b == -(a * (-b)) && a * b < 0) by (nonlinear_arith)
            requires
                a > 0,
                b < 0,
        ;
    } else if a > 0 && b > 0 {
        assert(a * b > 0) by (nonlinear_arith)
            requires
                a > 0,
                b > 0,
        ;
    } else {
        assert(a * b == 0) by (nonlinear_arith)
            requires
                a == 0 || b == 0,
        ;
    }
}

fn sign_of(a: i128) -> (r: i8)
    ensures
        r as int == sgn(a as int),
{
    if a < 0 {
        -1
    } else if a == 0 {
        0
    } else {
        1
    }
}

fn magnitude(a: i128) -> (r: u128)
    requires
        -(DIFF_BOUND as int) <= a <= DIFF_BOUND as int,
    ensures
        r as int == abs(a as int),
        r <= DIFF_BOUND,
{
    if a < 0 {
        (-a) as u128
    } else {
        a as u128
    }
}

/// Compares `a * b` with `c * d` exactly. Each factor is at most a difference
/// of two `i64` values in magnitude, so each product of magnitudes stays below
/// `2^128` and is formed in `u128`; the signs are settled first, so no
/// subtraction of products is ever formed.
fn cmp_products(a: i128, b: i128, c: i128, d: i128) -> (r: Ordering)
    requires
        -(DIFF_BOUND as int) <= a <= DIFF_BOUND as int,
        -(DIFF_BOUND as int) <= b <= DIFF_BOUND as int,
        -(DIFF_BOUND as int) <= c <= DIFF_BOUND as int,
        -(DIFF_BOUND as int) <= d <= DIFF_BOUND as int,
    ensures
        r == ordering_of(a * b - c * d),
{
    let (sa, sb, sc, sd) = (sign_of(a), sign_of(b), sign_of(c), sign_of(d));
    proof {
        assert(-1 <= sa * sb <= 1) by (nonlinear_arith)
            requires
                -1 <= sa <= 1,
                -1 <= sb <= 1,
        ;
        assert(-1 <= sc * sd <= 1) by (nonlinear_arith)
            requires
                -1 <= sc <= 1,
                -1 <= sd <= 1,
        ;
    }
    let s1: i8 = sa * sb;
    let s2: i8 = sc * sd;
    proof {
        lemma_product_by_parts(a as int, b as int);
        lemma_product_by_parts(c as int, d as int);
    }
    if s1 < s2 {
        Ordering::Less
    } else if s1 > s2 {
        Ordering::Greater
    } else if s1 == 0 {
        Ordering::Equal
    } else {
        let ma = magnitude(a);
        let mb = magnitude(b);
        let mc = magnitude(c);
        let md = magnitude(d);
        proof {
            assert(ma * mb <= DIFF_BOUND * DIFF_BOUND) by (nonlinear_arith)
                requires
                    ma <= DIFF_BOUND,
                    mb <= DIFF_BOUND,
            ;
            assert(mc * md <= DIFF_BOUND * DIFF_BOUND) by (nonlinear_arith)
                requires
                    mc <= DIFF_BOUND,
                    md <= DIFF_BOUND,
            ;
        }
        let m1: u128 = ma * mb;
        let m2: u128 = mc * md;
        if m1 == m2 {
            Ordering::Equal
        } else if (m1 < m2) == (s1 > 0) {
            Ordering::Less
        } else {
            Ordering::Greater
        }
    }
}


/// Compares the slope of `p1 -> p2` with the slope of `p1 -> p3`: the sign of
/// the cross product `(p2 - p1) x (p3 - p1)`, exact and without overflow for
/// every `i64` input.
pub fn cmp_slope(p1: &[i64; 2], p2: &[i64; 2], p3: &[i64; 2]) -> (r: Ordering)
    ensures
        r == ordering_of(cross(*p1, *p2, *p3)),
{
    let dx2: i128 = p2[0] as i128 - p1[0] as i128;
    let dy2: i128 = p2[1] as i128 - p1[1] as i128;
    let dx3: i128 = p3[0] as i128 - p1[0] as i128;
    let dy3: i128 = p3[1] as i128 - p1[1] as i128;
    cmp_products(dx2, dy3, dy2, dx3)
}

/// The sign of `vector x (p2 - p1)`, exact and without overflow, without
/// forming the point `p1 + vector`.
pub fn cmp_vector_slope(vector: &[i64; 2], p1: &[i64; 2], p2: &[i64; 2]) -> (r: Ordering)
    ensures
        r == ordering_of(along(*p1, *vector, *p2)),
{
    let dx: i128 = p2[0] as i128 - p1[0] as i128;
    let dy: i128 = p2[1] as i128 - p1[1] as i128;
    cmp_products(vector[0] as i128, dy, vector[1] as i128, dx)
}

/// As [`cmp_vector_slope`], with `vector` turned a quarter counter-clockwise.
pub fn cmp_perp_vector_slope(vector: &[i64; 2], p1: &[i64; 2], p2: &[i64; 2]) -> (r: Ordering)
    ensures
        r == ordering_of(along_perp(*p1, *vector, *p2)),
{
    let dx: i128 = p2[0] as i128 - p1[0] as i128;
    let dy: i128 = p2[1] as i128 - p1[1] as i128;
    let r = cmp_products(-(vector[0] as i128), dx, vector[1] as i128, dy);
    proof {
        let (v0, v1) = (vector[0] as int, vector[1] as int);
        assert((-v0) * dx - v1 * dy == -(v0 * dx + v1 * dy)) by (nonlinear_arith);
    }
    r
}

/// The turn of an ordered triple of points.
#[derive(PartialEq, Eq, Structural, PartialOrd, Ord, Debug, Copy, Clone)]
pub enum Orientation {
    CounterClockWise,
    ClockWise,
    CoLinear,
}

/// A strict turn, used to break exact colinearity consistently.
#[derive(PartialEq, Eq, Structural, PartialOrd, Ord, Debug, Copy, Clone)]
pub enum SoS {
    CounterClockWise,
    ClockWise,
}

/// The orientation whose sign is that of `x`.
pub open spec fn orientation_of(x: int) -> Orientation {
    if x > 0 {
        Orientation::CounterClockWise
    } else if x < 0 {
        Orientation::ClockWise
    } else {
        Orientation::CoLinear
    }
}

pub open spec fn reversed(o: Orientation) -> Orientation {
    match o {
        Orientation::CounterClockWise => Orientation::ClockWise,
        Orientation::ClockWise => Orientation::CounterClockWise,
        Orientation::CoLinear => Orientation::CoLinear,
    }
}

pub open spec fn sos_reversed(s: SoS) -> SoS {
    match s {
        SoS::CounterClockWise => SoS::ClockWise,
        SoS::ClockWise => SoS::CounterClockWise,
    }
}

pub open spec fn sos_as_orientation(s: SoS) -> Orientation {
    match s {
        SoS::CounterClockWise => Orientation::CounterClockWise,
        SoS::ClockWise => Orientation::ClockWise,
    }
}

/// Whether three distinct identifiers, taken as the points `(i, 2^i)` of the
/// moment curve, turn counter-clockwise: exactly when they are a rotation of
/// an increasing sequence.
pub open spec fn sos_ccw(a: u32, b: u32, c: u32) -> bool {
    (a < b && b < c) || (b < c && c < a) || (c < a && a < b)
}

pub open spec fn sos_of(a: u32, b: u32, c: u32) -> SoS {
    if sos_ccw(a, b, c) {
        SoS::CounterClockWise
    } else {
        SoS::ClockWise
    }
}


/// Which part of the plane around `p` the point `q` falls in, sweeping
/// counter-clockwise from the direction `v`: 0 on the ray ahead of `p`
/// (and `p` itself), 1 in the open half-plane to the left, 2 on the ray
/// behind `p`, 3 in the open half-plane to the right.
pub open spec fn sector(p: [i64; 2], v: [i64; 2], q: [i64; 2]) -> int {
    if along(p, v, q) > 0 {
        1
    } else if along(p, v, q) < 0 {
        3
    } else if along_perp(p, v, q) > 0 {
        2
    } else {
        0
    }
}

/// The counter-clockwise angular order of `q` and `r` around `p`, starting
/// from the direction `v`. Points at the same angle compare equal; within an
/// open half-plane the angle grows from `q` to `r` when `p, q, r` turns
/// counter-clockwise.
pub open spec fn cmp_around(v: [i64; 2], p: [i64; 2], q: [i64; 2], r: [i64; 2]) -> Ordering {
    let sq = sector(p, v, q);
    let sr = sector(p, v, r);
    if sq < sr {
        Ordering::Less
    } else if sq > sr {
        Ordering::Greater
    } else if sq == 1 || sq == 3 {
        ordering_of(-cross(p, q, r))
    } else {
        Ordering::Equal
    }
}

/// Twice the signed area of the points `(a, 2^a)`, `(b, 2^b)`, `(c, 2^c)` of
/// the moment curve.
pub open spec fn moment_cross(a: nat, b: nat, c: nat) -> int {
    (b - a) * (pow2(c) - pow2(a)) - (pow2(b) - pow2(a)) * (c - a)
}

proof fn lemma_pow2_exceeds(d: nat)
    ensures
        pow2(d) >= d + 1,
    decreases d,
{
    if d == 0 {
        lemma_pow0(2);
    } else {
        lemma_pow2_unfold(d);
        lemma_pow2_exceeds((d - 1) as nat);
        lemma_pow2_pos((d - 1) as nat);
    }
}

proof fn lemma_moment_increasing(a: nat, b: nat, c: nat)
    requires
        a < b < c,
    ensures
        moment_cross(a, b, c) > 0,
{
    let d1 = (b - a) as nat;
    let d2 = (c - b) as nat;
    lemma_pow2_adds(a, d1);
    lemma_pow2_adds(b, d2);
    lemma_pow2_exceeds(d1);
    lemma_pow2_exceeds(d2);
    lemma_pow2_pos(a);
    lemma_pow2_pos(d1);
    lemma_pow2_pos(b);
    let (pa, pb, pc) = (pow2(a) as int, pow2(b) as int, pow2(c) as int);
    let (e1, e2) = (pow2(d1) as int, pow2(d2) as int);
    assert(a + d1 == b && b + d2 == c);
    assert(pb == pa * e1 && pc == pb * e2);
    // 2^c - 2^b is at least d2 * 2^b; 2^b - 2^a is below d1 * 2^b.
    assert(pc - pb >= d2 * pb) by (nonlinear_arith)
        requires
            pc == pb * e2,
            e2 >= d2 + 1,
            pb > 0,
    ;
    assert(pb - pa < d1 * pb) by (nonlinear_arith)
        requires
            pb == pa * e1,
            e1 >= d1 + 1,
            d1 >= 1,
            pa > 0,
    ;
    assert(moment_cross(a, b, c) == d1 * (pc - pb) - d2 * (pb - pa)) by (nonlinear_arith)
        requires
            moment_cross(a, b, c) == (b - a) * (pc - pa) - (pb - pa) * (c - a),
            d1 == b - a,
            d2 == c - b,
    ;
    assert(d1 * (pc - pb) - d2 * (pb - pa) > 0) by (nonlinear_arith)
        requires
            pc - pb >= d2 * pb,
            pb - pa < d1 * pb,
            d1 >= 1,
            d2 >= 1,
    ;
}

proof fn lemma_moment_rotations(a: nat, b: nat, c: nat)
    ensures
        moment_cross(a, b, c) == moment_cross(b, c, a),
        moment_cross(a, b, c) == -moment_cross(b, a, c),
{
    let (pa, pb, pc) = (pow2(a) as int, pow2(b) as int, pow2(c) as int);
    let (x, y, z) = (a as int, b as int, c as int);
    assert((y - x) * (pc - pa) - (pb - pa) * (z - x) == (z - y) * (pa - pb) - (pc - pb) * (x - y))
        by (nonlinear_arith);
    assert((y - x) * (pc - pa) - (pb - pa) * (z - x) == -((x - y) * (pc - pb) - (pa - pb) * (z
        - y))) by (nonlinear_arith);
}

/// The symbolic turn of three distinct identifiers is the true turn of the
/// points `(i, 2^i)` of the moment curve that they stand for.
pub proof fn lemma_sos_is_moment_curve_turn(a: u32, b: u32, c: u32)
    requires
        a != b,
        b != c,
        c != a,
    ensures
        sos_as_orientation(sos_of(a, b, c)) == orientation_of(
            moment_cross(a as nat, b as nat, c as nat),
        ),
{
    let (x, y, z) = (a as nat, b as nat, c as nat);
    lemma_moment_rotations(x, y, z);
    lemma_moment_rotations(y, z, x);
    lemma_moment_rotations(z, x, y);
    lemma_moment_rotations(y, x, z);
    lemma_moment_rotations(x, z, y);
    lemma_moment_rotations(z, y, x);
    if x < y && y < z {
        lemma_moment_increasing(x, y, z);
    } else if y < z && z < x {
        lemma_moment_increasing(y, z, x);
    } else if z < x && x < y {
        lemma_moment_increasing(z, x, y);
    } else if y < x && x < z {
        lemma_moment_increasing(y, x, z);
    } else if x < z && z < y {
        lemma_moment_increasing(x, z, y);
    } else {
        lemma_moment_increasing(z, y, x);
    }
}

proof fn lemma_weighted_cross_sum(ux: int, uy: int, wx: int, wy: int, zx: int, zy: int)
    ensures
        (ux * wy - uy * wx) * zy + (wx * zy - wy * zx) * uy + (zx * uy - zy * ux) * wy == 0,
{
    assert((ux * wy - uy * wx) * zy == ux * wy * zy - uy * wx * zy) by (nonlinear_arith);
    assert((wx * zy - wy * zx) * uy == uy * wx * zy - uy * wy * zx) by (nonlinear_arith);
    assert((zx * uy - zy * ux) * wy == uy * wy * zx - ux * wy * zy) by (nonlinear_arith);
}

/// For three directions on one open side of a line, the cross products of
/// their pairs follow one another.
proof fn lemma_same_side_transitive(xab: int, xbc: int, xca: int, sa: int, sb: int, sc: int)
    requires
        xab * sc + xbc * sa + xca * sb == 0,
        (sa > 0 && sb > 0 && sc > 0) || (sa < 0 && sb < 0 && sc < 0),
    ensures
        xab >= 0 && xbc >= 0 ==> xca <= 0,
        xab > 0 && xbc >= 0 ==> xca < 0,
        xab >= 0 && xbc > 0 ==> xca < 0,
{
    if sa > 0 {
        assert(xab >= 0 && xbc >= 0 ==> xab * sc + xbc * sa >= 0) by (nonlinear_arith)
            requires
                sa > 0 && sc > 0,
        ;
        assert(xab > 0 && xbc >= 0 ==> xab * sc + xbc * sa > 0) by (nonlinear_arith)
            requires
                sa > 0 && sc > 0,
        ;
        assert(xab >= 0 && xbc > 0 ==> xab * sc + xbc * sa > 0) by (nonlinear_arith)
            requires
                sa > 0 && sc > 0,
        ;
        assert(xca * sb <= 0 ==> xca <= 0) by (nonlinear_arith)
            requires
                sb > 0,
        ;
        assert(xca * sb < 0 ==> xca < 0) by (nonlinear_arith)
            requires
                sb > 0,
        ;
    } else {
        assert(xab >= 0 && xbc >= 0 ==> xab * sc + xbc * sa <= 0) by (nonlinear_arith)
            requires
                sa < 0 && sc < 0,
        ;
        assert(xab > 0 && xbc >= 0 ==> xab * sc + xbc * sa < 0) by (nonlinear_arith)
            requires
                sa < 0 && sc < 0,
        ;
        assert(xab >= 0 && xbc > 0 ==> xab * sc + xbc * sa < 0) by (nonlinear_arith)
            requires
                sa < 0 && sc < 0,
        ;
        assert(xca * sb >= 0 ==> xca <= 0) by (nonlinear_arith)
            requires
                sb < 0,
        ;
        assert(xca * sb > 0 ==> xca < 0) by (nonlinear_arith)
            requires
                sb < 0,
        ;
    }
}

/// Around any point, the counter-clockwise order from the positive x-axis
/// is a total preorder: its answers on `a, b` and on `b, a` mirror each
/// other, and it is transitive, strictly so where one of the steps is strict.
pub proof fn lemma_cmp_around_total_preorder(p: [i64; 2], a: [i64; 2], b: [i64; 2], c: [i64; 2])
    ensures
        cmp_around([1, 0], p, a, b) == Ordering::Less <==> cmp_around([1, 0], p, b, a)
            == Ordering::Greater,
        cmp_around([1, 0], p, a, b) == Ordering::Equal <==> cmp_around([1, 0], p, b, a)
            == Ordering::Equal,
        cmp_around([1, 0], p, a, b) != Ordering::Greater && cmp_around([1, 0], p, b, c)
            != Ordering::Greater ==> cmp_around([1, 0], p, a, c) != Ordering::Greater,
        cmp_around([1, 0], p, a, b) == Ordering::Less && cmp_around([1, 0], p, b, c)
            != Ordering::Greater ==> cmp_around([1, 0], p, a, c) == Ordering::Less,
        cmp_around([1, 0], p, a, b) != Ordering::Greater && cmp_around([1, 0], p, b, c)
            == Ordering::Less ==> cmp_around([1, 0], p, a, c) == Ordering::Less,
{
    let (ux, uy) = (a[0] - p[0], a[1] - p[1]);
    let (wx, wy) = (b[0] - p[0], b[1] - p[1]);
    let (zx, zy) = (c[0] - p[0], c[1] - p[1]);
    let v: [i64; 2] = [1, 0];
    assert(v[0] == 1 && v[1] == 0);
    assert(along(p, v, a) == 1 * uy - 0 * ux);
    assert(along(p, v, b) == 1 * wy - 0 * wx);
    assert(along(p, v, c) == 1 * zy - 0 * zx);
    assert(along(p, v, a) == uy && along(p, v, b) == wy && along(p, v, c) == zy);
    assert(cross(p, b, a) == -cross(p, a, b)) by (nonlinear_arith)
        requires
            cross(p, a, b) == ux * wy - uy * wx,
            cross(p, b, a) == wx * uy - wy * ux,
    ;
    assert(cross(p, c, b) == -cross(p, b, c)) by (nonlinear_arith)
        requires
            cross(p, b, c) == wx * zy - wy * zx,
            cross(p, c, b) == zx * wy - zy * wx,
    ;
    assert(cross(p, a, c) == -cross(p, c, a)) by (nonlinear_arith)
        requires
            cross(p, a, c) == ux * zy - uy * zx,
            cross(p, c, a) == zx * uy - zy * ux,
    ;
    let (sa, sb, sc) = (sector(p, v, a), sector(p, v, b), sector(p, v, c));
    if sa == sb && sb == sc && (sa == 1 || sa == 3) {
        lemma_weighted_cross_sum(ux, uy, wx, wy, zx, zy);
        lemma_same_side_transitive(cross(p, a, b), cross(p, b, c), cross(p, c, a), uy, wy, zy);
    }
}

/// A turn that starts with a repeated point, or comes back to its start or
/// ends on its middle point, is colinear.
pub proof fn lemma_duplicate_points_colinear(p: [i64; 2], q: [i64; 2])
    ensures
        orientation_of(cross(p, p, q)) == Orientation::CoLinear,
        orientation_of(cross(p, q, p)) == Orientation::CoLinear,
        orientation_of(cross(q, p, p)) == Orientation::CoLinear,
{
    let (dx, dy) = (q[0] - p[0], q[1] - p[1]);
    assert(dx * dy - dy * dx == 0) by (nonlinear_arith);
    assert(cross(p, q, p) == dx * 0 - dy * 0) by (nonlinear_arith);
    assert(cross(p, q, p) == 0) by (nonlinear_arith)
        requires
            cross(p, q, p) == dx * 0 - dy * 0,
    ;
    assert(cross(q, p, p) == (-dx) * (-dy) - (-dy) * (-dx));
    assert((-dx) * (-dy) - (-dy) * (-dx) == 0) by (nonlinear_arith);
    assert(cross(p, p, q) == 0 * dy - 0 * dx);
}

/// Turning from `p` along `v` towards `q` is the turn `p, p + v, q`, wherever
/// `p + v` can be represented.
pub proof fn lemma_along_is_turn(p: [i64; 2], v: [i64; 2], q: [i64; 2], pv: [i64; 2])
    requires
        pv[0] == p[0] + v[0],
        pv[1] == p[1] + v[1],
    ensures
        along(p, v, q) == cross(p, pv, q),
{
}

/// Rotating the three identifiers keeps the symbolic turn.
pub proof fn lemma_sos_cyclic(a: u32, b: u32, c: u32)
    requires
        a != b,
        b != c,
        c != a,
    ensures
        sos_of(a, b, c) == sos_of(b, c, a),
{
}

/// Swapping two of the three identifiers reverses the symbolic turn.
pub proof fn lemma_sos_odd_permutations(a: u32, b: u32, c: u32)
    requires
        a != b,
        b != c,
        c != a,
    ensures
        sos_of(a, b, c) == sos_reversed(sos_of(c, b, a)),
        sos_of(a, b, c) == sos_reversed(sos_of(a, c, b)),
        sos_of(a, b, c) == sos_reversed(sos_of(b, a, c)),
{
}

impl Orientation {
    /// The direction you have to turn if you walk from `p1` to `p2` to `p3`.
    /// Exact for every `i64` input, with no arithmetic overflow.
    pub fn new(p1: &[i64; 2], p2: &[i64; 2], p3: &[i64; 2]) -> (r: Orientation)
        ensures
            r == orientation_of(cross(*p1, *p2, *p3)),
    {
        match cmp_slope(p1, p2, p3) {
            Ordering::Less => Orientation::ClockWise,
            Ordering::Equal => Orientation::CoLinear,
            Ordering::Greater => Orientation::CounterClockWise,
        }
    }

    /// Where `p2` lies relative to the line through `p1` with direction
    /// `vector`: the orientation of `p1, p1 + vector, p2`, computed without
    /// forming `p1 + vector`.
    pub fn along_vector(p1: &[i64; 2], vector: &Vector, p2: &[i64; 2]) -> (r: Orientation)
        ensures
            r == orientation_of(along(*p1, vector.0, *p2)),
    {
        match cmp_vector_slope(&vector.0, p1, p2) {
            Ordering::Less => Orientation::ClockWise,
            Ordering::Equal => Orientation::CoLinear,
            Ordering::Greater => Orientation::CounterClockWise,
        }
    }

    /// As [`Orientation::along_vector`], with `vector` turned a quarter
    /// counter-clockwise: `ClockWise` when `p2` lies ahead of `p1` along
    /// `vector`, `CounterClockWise` when it lies behind.
    pub fn along_perp_vector(p1: &[i64; 2], vector: &Vector, p2: &[i64; 2]) -> (r: Orientation)
        ensures
            r == orientation_of(along_perp(*p1, vector.0, *p2)),
    {
        match cmp_perp_vector_slope(&vector.0, p1, p2) {
            Ordering::Less => Orientation::ClockWise,
            Ordering::Equal => Orientation::CoLinear,
            Ordering::Greater => Orientation::CounterClockWise,
        }
    }

    pub fn is_colinear(self) -> (r: bool)
        ensures
            r == (self == Orientation::CoLinear),
    {
        matches!(self, Orientation::CoLinear)
    }

    pub fn is_ccw(self) -> (r: bool)
        ensures
            r == (self == Orientation::CounterClockWise),
    {
        matches!(self, Orientation::CounterClockWise)
    }

    pub fn is_cw(self) -> (r: bool)
        ensures
            r == (self == Orientation::ClockWise),
    {
        matches!(self, Orientation::ClockWise)
    }

    /// `self`, or `other` where `self` is colinear.
    #[must_use]
    pub fn then(self, other: Orientation) -> (r: Orientation)
        ensures
            r == (if self == Orientation::CoLinear {
                other
            } else {
                self
            }),
    {
        match self {
            Orientation::CoLinear => other,
            _ => self,
        }
    }

    /// `self` as a strict turn, or the symbolic turn of the identifiers
    /// `a, b, c` where `self` is colinear.
    pub fn break_ties(self, a: u32, b: u32, c: u32) -> (r: SoS)
        requires
            self == Orientation::CoLinear ==> (a != b && b != c && c != a),
        ensures
            self != Orientation::CoLinear ==> sos_as_orientation(r) == self,
            self == Orientation::CoLinear ==> r == sos_of(a, b, c),
    {
        match self {
            Orientation::CounterClockWise => SoS::CounterClockWise,
            Orientation::ClockWise => SoS::ClockWise,
            Orientation::CoLinear => SoS::new(a, b, c),
        }
    }

    /// `self` as a strict turn, or `other` where `self` is colinear.
    pub fn sos(self, other: SoS) -> (r: SoS)
        ensures
            self != Orientation::CoLinear ==> sos_as_orientation(r) == self,
            self == Orientation::CoLinear ==> r == other,
    {
        match self {
            Orientation::CounterClockWise => SoS::CounterClockWise,
            Orientation::ClockWise => SoS::ClockWise,
            Orientation::CoLinear => other,
        }
    }

    #[must_use]
    pub fn reverse(self) -> (r: Orientation)
        ensures
            r == reversed(self),
    {
        match self {
            Orientation::CounterClockWise => Orientation::ClockWise,
            Orientation::ClockWise => Orientation::CounterClockWise,
            Orientation::CoLinear => Orientation::CoLinear,
        }
    }

    /// Whether `d` lies at angle zero around `p1` from `vector`: on the ray
    /// ahead, or at `p1` itself, once it is known to lie on the line.
    fn on_zero(p1: &[i64; 2], vector: &Vector, d: &[i64; 2]) -> (r: bool)
        ensures
            r == (along_perp(*p1, vector.0, *d) <= 0),
    {
        match Orientation::along_perp_vector(p1, vector, d) {
            Orientation::CounterClockWise => false,
            Orientation::ClockWise => true,
            Orientation::CoLinear => true,
        }
    }

    /// Orders `p2` and `p3` by the angle a ray from `p1` sweeps,
    /// counter-clockwise from `vector`, before it meets them. Points on one
    /// ray from `p1` compare equal.
    pub fn ccw_cmp_around_with(vector: &Vector, p1: &[i64; 2], p2: &[i64; 2], p3: &[i64; 2]) -> (r:
        Ordering)
        ensures
            r == cmp_around(vector.0, *p1, *p2, *p3),
    {
        let aq = Orientation::along_vector(p1, vector, p2);
        let ar = Orientation::along_vector(p1, vector, p3);
        match (aq, ar) {
            // On either side of the line through p1 along the vector.
            (Orientation::CounterClockWise, Orientation::ClockWise) => Ordering::Less,
            (Orientation::ClockWise, Orientation::CounterClockWise) => Ordering::Greater,
            // A point on the line lies at 0 or 180 degrees; one to the right
            // lies beyond 180 degrees.
            (Orientation::CoLinear, Orientation::ClockWise) => Ordering::Less,
            (Orientation::ClockWise, Orientation::CoLinear) => Ordering::Greater,
            // On one side, the more clockwise point has the smaller angle.
            (Orientation::CounterClockWise, Orientation::CounterClockWise)
            | (Orientation::ClockWise, Orientation::ClockWise) => match Orientation::new(
                p1,
                p2,
                p3,
            ) {
                Orientation::CounterClockWise => Ordering::Less,
                Orientation::ClockWise => Ordering::Greater,
                Orientation::CoLinear => Ordering::Equal,
            },
            // A point on the line is at 0 degrees when on_zero holds, else
            // at 180 degrees.
            (Orientation::CounterClockWise, Orientation::CoLinear) => {
                if Orientation::on_zero(p1, vector, p3) {
                    Ordering::Greater
                } else {
                    Ordering::Less
                }
            },
            (Orientation::CoLinear, Orientation::CounterClockWise) => {
                if Orientation::on_zero(p1, vector, p2) {
                    Ordering::Less
                } else {
                    Ordering::Greater
                }
            },
            (Orientation::CoLinear, Orientation::CoLinear) => {
                let zq = Orientation::on_zero(p1, vector, p2);
                let zr = Orientation::on_zero(p1, vector, p3);
                if zq == zr {
                    Ordering::Equal
                } else if zq {
                    Ordering::Less
                } else {
                    Ordering::Greater
                }
            },
        }
    }
}

// Simulation of Simplicity (Edelsbrunner and Muecke): ties are broken as if
// the identifier `i` stood for the point `(i, 2^i)` of the moment curve.
impl SoS {
    /// The symbolic turn of three distinct identifiers.
    pub fn new(a: u32, b: u32, c: u32) -> (r: SoS)
        requires
            a != b,
            b != c,
            c != a,
        ensures
            r == sos_of(a, b, c),
    {
        // An odd number of the three comparisons holds exactly for the
        // orders `a c b`, `b a c` and `c b a`, the clockwise ones.
        let ab = a < b;
        let ac = a < c;
        let cb = c < b;
        if ab ^ ac ^ cb {
            SoS::ClockWise
        } else {
            SoS::CounterClockWise
        }
    }

    pub fn orient(self) -> (r: Orientation)
        ensures
            r == sos_as_orientation(self),
    {
        match self {
            SoS::CounterClockWise => Orientation::CounterClockWise,
            SoS::ClockWise => Orientation::ClockWise,
        }
    }

    #[must_use]
    pub fn reverse(self) -> (r: SoS)
        ensures
            r == sos_reversed(self),
    {
        match self {
            SoS::CounterClockWise => SoS::ClockWise,
            SoS::ClockWise => SoS::CounterClockWise,
        }
    }
}

} // verus!
