use crate::orientation::{
    cmp_around, cross, lemma_cmp_around_total_preorder, ordering_of, Orientation,
};
use crate::sort::{answers_not_greater, sort_unstable_by};
use crate::vector::{dist2, Point};
use crate::Error;
use std::cmp::Ordering;
use vstd::prelude::*;

verus! {

broadcast use {vstd::seq_lib::group_to_multiset_ensures, vstd::multiset::group_multiset_axioms};

/// `p` comes no later than `q` when points are ordered by y, then by x.
pub open spec fn lowest_le(p: [i64; 2], q: [i64; 2]) -> bool {
    p[1] < q[1] || (p[1] == q[1] && p[0] <= q[0])
}

/// Every turn of three consecutive points among the first `k` of `s` is
/// counter-clockwise.
pub open spec fn turns_ccw(s: Seq<Point>, k: int) -> bool {
    forall|i: int|
        0 <= i && i + 2 < k ==> #[trigger] cross(s[i].array, s[i + 1].array, s[i + 2].array) > 0
}

/// Where `s` has three or more points, the two turns that come back to its
/// start are counter-clockwise too.
pub open spec fn wraps_ccw(s: Seq<Point>) -> bool {
    s.len() >= 3 ==> {
        &&& cross(s[s.len() - 2].array, s[s.len() - 1].array, s[0].array) > 0
        &&& cross(s[s.len() - 1].array, s[0].array, s[1].array) > 0
    }
}

/// The vertices of a convex hull, starting at its lowest point and turning
/// counter-clockwise at each vertex, cyclically.
#[derive(Debug)]
pub struct ConvexPolygon {
    points: Vec<Point>,
}

impl View for ConvexPolygon {
    type V = Seq<Point>;

    closed spec fn view(&self) -> Seq<Point> {
        self.points@
    }
}

impl ConvexPolygon {
    pub open spec fn wf(&self) -> bool {
        &&& self@.len() >= 1
        &&& turns_ccw(self@, self@.len() as int)
        &&& wraps_ccw(self@)
    }

    pub fn points(&self) -> (r: &Vec<Point>)
        ensures
            r@ == self@,
    {
        &self.points
    }

    pub fn len(&self) -> (r: usize)
        ensures
            r == self@.len(),
    {
        self.points.len()
    }
}

fn swap_points(v: &mut Vec<Point>, i: usize, j: usize)
    requires
        i < old(v)@.len(),
        j < old(v)@.len(),
    ensures
        final(v)@ == old(v)@.update(i as int, old(v)@[j as int]).update(j as int, old(v)@[i as int]),
        final(v)@.to_multiset() == old(v)@.to_multiset(),
{
    let a = v[i];
    let b = v[j];
    v.set(i, b);
    v.set(j, a);
    proof {
        let s = old(v)@;
        let s1 = s.update(i as int, s[j as int]);
        assert(s1.to_multiset() == s.to_multiset().insert(s[j as int]).remove(s[i as int]));
        assert(s1.update(j as int, s[i as int]).to_multiset() == s1.to_multiset().insert(
            s[i as int],
        ).remove(s1[j as int]));
        if i == j {
            assert(s.update(i as int, s[j as int]) =~= s);
        }
        assert(final(v)@.to_multiset() =~= s.to_multiset());
    }
}

/// The index of the lowest point, the one with the smallest y and, among
/// those, the smallest x.
fn smallest_point(pts: &Vec<Point>) -> (r: Result<usize, Error>)
    ensures
        pts@.len() == 0 <==> r is Err,
        r is Err ==> r == Err::<usize, Error>(Error::InsufficientInput),
        r matches Ok(k) ==> k < pts@.len() && forall|j: int|
            0 <= j < pts@.len() ==> lowest_le(pts@[k as int].array, #[trigger] pts@[j].array),
{
    if pts.len() == 0 {
        return Err(Error::InsufficientInput);
    }
    let mut best: usize = 0;
    let mut i: usize = 1;
    while i < pts.len()
        invariant
            1 <= i <= pts@.len(),
            best < i,
            forall|j: int| 0 <= j < i ==> lowest_le(pts@[best as int].array, #[trigger] pts@[j].array),
        decreases pts@.len() - i,
    {
        let (b, p) = (pts[best].array, pts[i].array);
        if p[1] < b[1] || (p[1] == b[1] && p[0] < b[0]) {
            best = i;
        }
        i += 1;
    }
    Ok(best)
}

/// The order in which the scan visits the points: counter-clockwise around
/// `p` from the positive x-axis, nearer points first along one ray.
pub open spec fn hull_cmp(p: [i64; 2], a: [i64; 2], b: [i64; 2]) -> Ordering {
    if cmp_around([1, 0], p, a, b) == Ordering::Equal {
        ordering_of(dist2(p, a) - dist2(p, b))
    } else {
        cmp_around([1, 0], p, a, b)
    }
}

fn hull_order(pivot: &Point, a: &Point, b: &Point) -> (r: Ordering)
    ensures
        r == hull_cmp(pivot.array, a.array, b.array),
{
    let x_axis = crate::vector::Vector([1, 0]);
    match Orientation::ccw_cmp_around_with(&x_axis, &pivot.array, &a.array, &b.array) {
        Ordering::Equal => pivot.cmp_distance_to(a, b),
        other => other,
    }
}

/// The scan order is a total preorder.
proof fn lemma_hull_cmp_total_preorder(p: [i64; 2], a: [i64; 2], b: [i64; 2], c: [i64; 2])
    ensures
        hull_cmp(p, a, b) == Ordering::Less <==> hull_cmp(p, b, a) == Ordering::Greater,
        hull_cmp(p, a, b) == Ordering::Equal <==> hull_cmp(p, b, a) == Ordering::Equal,
        hull_cmp(p, a, b) != Ordering::Greater && hull_cmp(p, b, c) != Ordering::Greater
            ==> hull_cmp(p, a, c) != Ordering::Greater,
{
    lemma_cmp_around_total_preorder(p, a, b, c);
    lemma_cmp_around_total_preorder(p, c, b, a);
    lemma_cmp_around_total_preorder(p, b, a, c);
    lemma_cmp_around_total_preorder(p, a, c, b);
}

/// A point no lower than `p` that the scan order puts no later than `p`
/// is at `p`.
proof fn lemma_first_in_order_is_pivot(p: [i64; 2], a: [i64; 2])
    requires
        lowest_le(p, a),
        hull_cmp(p, a, p) != Ordering::Greater,
    ensures
        a[0] == p[0] && a[1] == p[1],
{
    let (dx, dy) = (a[0] - p[0], a[1] - p[1]);
    assert(dist2(p, p) == 0) by (nonlinear_arith)
        requires
            dist2(p, p) == (p[0] - p[0]) * (p[0] - p[0]) + (p[1] - p[1]) * (p[1] - p[1]),
    ;
    assert(dx * dx >= 0 && dy * dy >= 0) by (nonlinear_arith);
    assert(dx * dx == 0 ==> dx == 0) by (nonlinear_arith);
    assert(dy * dy == 0 ==> dy == 0) by (nonlinear_arith);
    let v: [i64; 2] = [1, 0];
    assert(v[0] == 1 && v[1] == 0);
    assert(crate::orientation::along(p, v, p) == 1 * (p[1] - p[1]) - 0 * (p[0] - p[0]));
    assert(crate::orientation::along(p, v, a) == 1 * dy - 0 * dx);
    assert(crate::orientation::along_perp(p, v, a) == -(1 * dx + 0 * dy));
    assert(crate::orientation::along_perp(p, v, p) == -(1 * (p[0] - p[0]) + 0 * (p[1] - p[1])));
}

/// Pushing `c` onto a hull chain whose last two points are `q` and `r`,
/// with `r` coming no later than `c` in the scan order and the chain
/// fanning counter-clockwise around `p`, keeps the fan.
proof fn lemma_push_keeps_fan(p: [i64; 2], q: [i64; 2], r: [i64; 2], c: [i64; 2])
    requires
        lowest_le(p, q),
        lowest_le(p, r),
        lowest_le(p, c),
        cross(p, q, r) > 0,
        cross(q, r, c) > 0,
        hull_cmp(p, r, c) != Ordering::Greater,
    ensures
        cross(p, r, c) > 0,
        c[1] > p[1],
{
    let (vx, vy) = (q[0] - p[0], q[1] - p[1]);
    let (ux, uy) = (r[0] - p[0], r[1] - p[1]);
    let (wx, wy) = (c[0] - p[0], c[1] - p[1]);
    assert(vy >= 0 && uy >= 0 && wy >= 0);
    assert(uy == 0 ==> ux >= 0);
    assert(wy == 0 ==> wx >= 0);
    assert(cross(p, q, r) == vx * uy - vy * ux);
    assert(uy > 0) by (nonlinear_arith)
        requires
            vx * uy - vy * ux > 0,
            vy >= 0,
            uy >= 0,
            uy == 0 ==> ux >= 0,
    ;
    let v: [i64; 2] = [1, 0];
    assert(v[0] == 1 && v[1] == 0);
    assert(crate::orientation::along(p, v, r) == 1 * uy - 0 * ux);
    assert(crate::orientation::along(p, v, c) == 1 * wy - 0 * wx);
    assert(crate::orientation::along_perp(p, v, c) == -(1 * wx + 0 * wy));
    assert(wy > 0);
    let x = ux * wy - uy * wx;
    assert(cross(p, r, c) == x);
    assert(cross(q, r, c) == x + (vx * uy - vy * ux) - (vx * wy - vy * wx)) by (nonlinear_arith)
        requires
            cross(q, r, c) == (r[0] - q[0]) * (c[1] - q[1]) - (r[1] - q[1]) * (c[0] - q[0]),
            vx == q[0] - p[0],
            vy == q[1] - p[1],
            ux == r[0] - p[0],
            uy == r[1] - p[1],
            wx == c[0] - p[0],
            wy == c[1] - p[1],
            x == ux * wy - uy * wx,
    ;
    if x == 0 {
        assert(dist2(p, r) <= dist2(p, c));
        assert(dist2(p, r) == ux * ux + uy * uy && dist2(p, c) == wx * wx + wy * wy);
        // c lies on the ray through r, no nearer: its cross with q is no smaller.
        assert((vx * wy - vy * wx) * uy == (vx * uy - vy * ux) * wy) by (nonlinear_arith)
            requires
                ux * wy == uy * wx,
        ;
        assert((wx * wx + wy * wy) * (uy * uy) == (ux * ux + uy * uy) * (wy * wy))
            by (nonlinear_arith)
            requires
                ux * wy == uy * wx,
        ;
        assert(wy * wy >= uy * uy) by (nonlinear_arith)
            requires
                (wx * wx + wy * wy) * (uy * uy) == (ux * ux + uy * uy) * (wy * wy),
                ux * ux + uy * uy <= wx * wx + wy * wy,
                uy > 0,
        ;
        assert(wy >= uy) by (nonlinear_arith)
            requires
                wy * wy >= uy * uy,
                wy > 0,
                uy > 0,
        ;
        assert(vx * wy - vy * wx >= vx * uy - vy * ux) by (nonlinear_arith)
            requires
                (vx * wy - vy * wx) * uy == (vx * uy - vy * ux) * wy,
                wy >= uy,
                uy > 0,
                vx * uy - vy * ux > 0,
        ;
    }
}

/// Points fanning counter-clockwise around `p` from `a`: a later point that
/// turns left from an intermediate one turns left from `a` too.
proof fn lemma_fan_transitive(p: [i64; 2], a: [i64; 2], b: [i64; 2], c: [i64; 2])
    requires
        lowest_le(p, a),
        b[1] > p[1],
        c[1] > p[1],
        cross(p, a, b) > 0,
        cross(p, b, c) > 0,
    ensures
        cross(p, a, c) > 0,
{
    let (ax, ay) = (a[0] - p[0], a[1] - p[1]);
    let (bx, by) = (b[0] - p[0], b[1] - p[1]);
    let (cx, cy) = (c[0] - p[0], c[1] - p[1]);
    assert(cross(p, a, b) == ax * by - ay * bx);
    assert(cross(p, b, c) == bx * cy - by * cx);
    assert(cross(p, a, c) == ax * cy - ay * cx);
    if ay == 0 {
        assert(ax > 0) by (nonlinear_arith)
            requires
                ax * by - ay * bx > 0,
                ay == 0,
                by > 0,
        ;
        assert(ax * cy - ay * cx > 0) by (nonlinear_arith)
            requires
                ax > 0,
                ay == 0,
                cy > 0,
        ;
    } else {
        assert((ax * by - ay * bx) * cy + (bx * cy - by * cx) * ay + (cx * ay - cy * ax) * by == 0)
            by (nonlinear_arith);
        assert((cx * ay - cy * ax) * by < 0) by (nonlinear_arith)
            requires
                (ax * by - ay * bx) * cy + (bx * cy - by * cx) * ay + (cx * ay - cy * ax) * by
                    == 0,
                ax * by - ay * bx > 0,
                bx * cy - by * cx > 0,
                ay > 0,
                cy > 0,
        ;
        assert(cx * ay - cy * ax < 0) by (nonlinear_arith)
            requires
                (cx * ay - cy * ax) * by < 0,
                by > 0,
        ;
    }
}

proof fn lemma_left_of_ray_is_above(p: [i64; 2], a: [i64; 2], c: [i64; 2])
    requires
        lowest_le(p, a),
        lowest_le(p, c),
        cross(p, a, c) > 0,
    ensures
        c[1] > p[1],
{
    let (ax, ay) = (a[0] - p[0], a[1] - p[1]);
    let (cx, cy) = (c[0] - p[0], c[1] - p[1]);
    assert(cross(p, a, c) == ax * cy - ay * cx);
    assert(cy > 0) by (nonlinear_arith)
        requires
            ax * cy - ay * cx > 0,
            ay >= 0,
            cy >= 0,
            cy == 0 ==> cx >= 0,
    ;
}

proof fn lemma_cross_rotate(a: [i64; 2], b: [i64; 2], c: [i64; 2])
    ensures
        cross(a, b, c) == cross(b, c, a),
{
    assert((b[0] - a[0]) * (c[1] - a[1]) - (b[1] - a[1]) * (c[0] - a[0]) == (c[0] - b[0]) * (a[1]
        - b[1]) - (c[1] - b[1]) * (a[0] - b[0])) by (nonlinear_arith);
}

proof fn lemma_prefix_submultiset(s: Seq<Point>, k: int)
    requires
        0 <= k <= s.len(),
    ensures
        s.subrange(0, k).to_multiset().subset_of(s.to_multiset()),
    decreases s.len() - k,
{
    if k < s.len() {
        lemma_prefix_submultiset(s, k + 1);
        assert(s.subrange(0, k + 1) =~= s.subrange(0, k).push(s[k]));
        let m0 = s.subrange(0, k).to_multiset();
        let m1 = s.subrange(0, k + 1).to_multiset();
        assert(m1 == m0.insert(s[k]));
        assert forall|x: Point| m0.count(x) <= s.to_multiset().count(x) by {
            assert(m0.count(x) <= m1.count(x));
        }
    } else {
        assert(s.subrange(0, k) =~= s);
    }
}

/// The convex hull of `pts`, by a Graham scan that reorders `pts` in place.
///
/// The hull starts at the lowest point and holds input points only, none
/// more often than the input does. With three or more vertices it turns
/// counter-clockwise at every vertex, the two turns back to the start
/// included; one or two points come back as they are.
#[verifier::rlimit(100)]
pub fn convex_hull(pts: Vec<Point>) -> (r: Result<ConvexPolygon, Error>)
    ensures
        pts@.len() == 0 <==> r is Err,
        r is Err ==> r == Err::<ConvexPolygon, Error>(Error::InsufficientInput),
        r matches Ok(h) ==> {
            &&& h.wf()
            &&& h@.len() <= pts@.len()
            &&& forall|i: int| 0 <= i < h@.len() ==> pts@.contains(#[trigger] h@[i])
            &&& forall|j: int|
                0 <= j < pts@.len() ==> lowest_le(h@[0].array, #[trigger] pts@[j].array)
            &&& h@.to_multiset().subset_of(pts@.to_multiset())
            &&& pts@.len() <= 2 ==> h@.to_multiset() == pts@.to_multiset()
        },
{
    let ghost input = pts@;
    let mut pts = pts;
    let first = match smallest_point(&pts) {
        Ok(k) => k,
        Err(e) => return Err(e),
    };
    let pivot = pts[first];
    let ghost s = pts@;
    let compare = |a: &Point, b: &Point| -> (r: Ordering)
        ensures
            r == hull_cmp(pivot.array, a.array, b.array),
        { hull_order(&pivot, a, b) };
    proof {
        assert forall|i: int, j: int, o1: Ordering, o2: Ordering|
            0 <= i < s.len() && 0 <= j < s.len() && #[trigger] compare.ensures((&s[i], &s[j]), o1)
                && #[trigger] compare.ensures((&s[j], &s[i]), o2) implies (o1 == Ordering::Less
            <==> o2 == Ordering::Greater) && (o1 == Ordering::Equal <==> o2
            == Ordering::Equal) by {
            lemma_hull_cmp_total_preorder(pivot.array, s[i].array, s[j].array, s[j].array);
        }
        assert forall|i: int, j: int, k: int, o1: Ordering, o2: Ordering, o3: Ordering|
            0 <= i < s.len() && 0 <= j < s.len() && 0 <= k < s.len() && #[trigger] compare.ensures(
                (&s[i], &s[j]),
                o1,
            ) && #[trigger] compare.ensures((&s[j], &s[k]), o2) && #[trigger] compare.ensures(
                (&s[i], &s[k]),
                o3,
            ) && o1 != Ordering::Greater && o2 != Ordering::Greater implies o3
            != Ordering::Greater by {
            lemma_hull_cmp_total_preorder(pivot.array, s[i].array, s[j].array, s[k].array);
        }
    }
    sort_unstable_by(&mut pts, compare);
    proof {
        // The pivot sorts first: whatever stands first is at the pivot.
        assert(s.to_multiset().count(s[first as int]) > 0);
        assert(pts@.contains(pivot));
        let k = choose|k: int| 0 <= k < pts@.len() && pts@[k] == pivot;
        assert(pts@.to_multiset().count(pts@[0]) > 0);
        assert(s.contains(pts@[0]));
        let k0 = choose|k0: int| 0 <= k0 < s.len() && s[k0] == pts@[0];
        assert(lowest_le(pivot.array, s[k0].array));
        if k > 0 {
            assert(answers_not_greater(compare, pts@[0], pts@[k]));
            let o = choose|o: Ordering|
                #[trigger] compare.ensures((&pts@[0], &pts@[k]), o) && o != Ordering::Greater;
            lemma_first_in_order_is_pivot(pivot.array, pts@[0].array);
        }
        assert(pts@[0].array[0] == pivot.array[0] && pts@[0].array[1] == pivot.array[1]);
    }
    let n = pts.len();
    proof {
        assert forall|j: int| 0 <= j < n implies lowest_le(pts@[0].array, #[trigger] input[j].array) by {
            assert(input.to_multiset().count(input[j]) > 0);
            assert(pts@.contains(input[j]));
            let k = choose|k: int| 0 <= k < n && pts@[k] == input[j];
            assert(lowest_le(pts@[0].array, pts@[k].array));
        }
    }
    let ghost pa = pivot.array;
    proof {
        assert forall|i: int| 0 <= i < n implies lowest_le(pa, #[trigger] pts@[i].array) by {
            assert(pts@.to_multiset().count(pts@[i]) > 0);
            assert(s.contains(pts@[i]));
        }
        assert forall|i: int, j: int| 0 <= i < j < n implies hull_cmp(
            pa,
            #[trigger] pts@[i].array,
            #[trigger] pts@[j].array,
        ) != Ordering::Greater by {
            assert(answers_not_greater(compare, pts@[i], pts@[j]));
            let o = choose|o: Ordering|
                #[trigger] compare.ensures((&pts@[i], &pts@[j]), o) && o != Ordering::Greater;
        }
    }
    let mut known_good: usize = if n < 2 {
        n
    } else {
        2
    };
    let mut at: usize = 2;
    while at < n
        invariant
            n == pts@.len(),
            n >= 2 ==> 1 <= known_good <= at <= n,
            n <= 2 ==> known_good == n,
            2 <= at,
            pts@.to_multiset() == input.to_multiset(),
            forall|j: int| 0 <= j < n ==> lowest_le(pts@[0].array, #[trigger] input[j].array),
            turns_ccw(pts@, known_good as int),
            forall|i: int| 0 <= i < n ==> lowest_le(pa, #[trigger] pts@[i].array),
            pts@[0].array[0] == pa[0] && pts@[0].array[1] == pa[1],
            forall|i: int, j: int|
                at <= i < j < n ==> hull_cmp(pa, #[trigger] pts@[i].array, #[trigger] pts@[j].array)
                    != Ordering::Greater,
            forall|i: int, j: int|
                0 <= i < known_good && at <= j < n ==> hull_cmp(
                    pa,
                    #[trigger] pts@[i].array,
                    #[trigger] pts@[j].array,
                ) != Ordering::Greater,
            forall|i: int|
                1 <= i && i + 1 < known_good ==> #[trigger] cross(pa, pts@[i].array, pts@[i + 1].array) > 0,
            forall|j: int| 2 <= j < known_good ==> #[trigger] cross(pa, pts@[1].array, pts@[j].array) > 0,
            forall|j: int| 2 <= j < known_good ==> #[trigger] pts@[j].array[1] > pa[1],
        decreases n - at,
    {
        let c = pts[at];
        loop
            invariant
                n == pts@.len(),
                1 <= known_good <= at < n,
                turns_ccw(pts@, known_good as int),
                c == pts@[at as int],
                forall|i: int| 0 <= i < n ==> lowest_le(pa, #[trigger] pts@[i].array),
                pts@[0].array[0] == pa[0] && pts@[0].array[1] == pa[1],
                forall|i: int, j: int|
                    at <= i < j < n ==> hull_cmp(pa, #[trigger] pts@[i].array, #[trigger] pts@[j].array)
                        != Ordering::Greater,
                forall|i: int, j: int|
                    0 <= i < known_good && at <= j < n ==> hull_cmp(
                        pa,
                        #[trigger] pts@[i].array,
                        #[trigger] pts@[j].array,
                    ) != Ordering::Greater,
                forall|i: int|
                    1 <= i && i + 1 < known_good ==> #[trigger] cross(pa, pts@[i].array, pts@[i + 1].array) > 0,
                forall|j: int| 2 <= j < known_good ==> #[trigger] cross(pa, pts@[1].array, pts@[j].array) > 0,
                forall|j: int| 2 <= j < known_good ==> #[trigger] pts@[j].array[1] > pa[1],
            ensures
                1 <= known_good <= at < n,
                turns_ccw(pts@, known_good as int),
                forall|i: int| 0 <= i < n ==> lowest_le(pa, #[trigger] pts@[i].array),
                pts@[0].array[0] == pa[0] && pts@[0].array[1] == pa[1],
                forall|i: int, j: int|
                    at <= i < j < n ==> hull_cmp(pa, #[trigger] pts@[i].array, #[trigger] pts@[j].array)
                        != Ordering::Greater,
                forall|i: int, j: int|
                    0 <= i < known_good && at <= j < n ==> hull_cmp(
                        pa,
                        #[trigger] pts@[i].array,
                        #[trigger] pts@[j].array,
                    ) != Ordering::Greater,
                forall|i: int|
                    1 <= i && i + 1 < known_good ==> #[trigger] cross(pa, pts@[i].array, pts@[i + 1].array) > 0,
                forall|j: int| 2 <= j < known_good ==> #[trigger] cross(pa, pts@[1].array, pts@[j].array) > 0,
                forall|j: int| 2 <= j < known_good ==> #[trigger] pts@[j].array[1] > pa[1],

                known_good >= 2 ==> cross(
                    pts@[known_good - 2].array,
                    pts@[known_good - 1].array,
                    c.array,
                ) > 0,
            decreases known_good,
        {
            if known_good < 2 {
                break;
            }
            let o = Orientation::new(
                &pts[known_good - 2].array,
                &pts[known_good - 1].array,
                &c.array,
            );
            if o.is_ccw() {
                break;
            }
            // The last accepted point is inside, or on an edge of, the hull.
            known_good -= 1;
        }
        let ghost before = pts@;
        swap_points(&mut pts, known_good, at);
        proof {
            assert(pts@[known_good as int] == c);
            assert forall|i: int|
                0 <= i && i + 2 < known_good + 1 implies #[trigger] cross(
                pts@[i].array,
                pts@[i + 1].array,
                pts@[i + 2].array,
            ) > 0 by {
                assert(pts@[i] == before[i]);
                assert(pts@[i + 1] == before[i + 1]);
                if i + 2 < known_good {
                    assert(pts@[i + 2] == before[i + 2]);
                }
            }
            assert(pts@[0] == before[0]);
            let k = known_good as int;
            if k >= 2 {
                if k >= 3 {
                    assert(cross(pa, before[k - 2].array, before[k - 2 + 1].array) > 0);
                    lemma_push_keeps_fan(pa, before[k - 2].array, before[k - 1].array, c.array);
                    if k - 1 >= 2 {
                        lemma_fan_transitive(pa, before[1].array, before[k - 1].array, c.array);
                    }
                } else {
                    lemma_left_of_ray_is_above(pa, before[1].array, c.array);
                }
            }
            assert forall|i: int| 0 <= i < n implies lowest_le(pa, #[trigger] pts@[i].array) by {
                if i != k && i != at {
                    assert(pts@[i] == before[i]);
                }
            }
            assert forall|i: int, j: int|
                0 <= i < k + 1 && at + 1 <= j < n implies hull_cmp(
                pa,
                #[trigger] pts@[i].array,
                #[trigger] pts@[j].array,
            ) != Ordering::Greater by {
                assert(pts@[j] == before[j]);
                if i < k {
                    assert(pts@[i] == before[i]);
                }
            }
            assert forall|i: int, j: int|
                at + 1 <= i < j < n implies hull_cmp(
                pa,
                #[trigger] pts@[i].array,
                #[trigger] pts@[j].array,
            ) != Ordering::Greater by {
                assert(pts@[j] == before[j]);
                assert(pts@[i] == before[i]);
            }
            assert forall|i: int|
                1 <= i && i + 1 < k + 1 implies #[trigger] cross(pa, pts@[i].array, pts@[i + 1].array)
                > 0 by {
                assert(pts@[i] == before[i]);
                if i + 1 < k {
                    assert(pts@[i + 1] == before[i + 1]);
                }
            }
            assert forall|j: int| 2 <= j < k + 1 implies #[trigger] cross(
                pa,
                pts@[1].array,
                pts@[j].array,
            ) > 0 by {
                assert(pts@[1] == before[1]);
                if j < k {
                    assert(pts@[j] == before[j]);
                }
            }
            assert forall|j: int| 2 <= j < k + 1 implies #[trigger] pts@[j].array[1] > pa[1] by {
                if j < k {
                    assert(pts@[j] == before[j]);
                }
            }
        }
        known_good += 1;
        at += 1;
    }
    let ghost scanned = pts@;
    pts.truncate(known_good);
    proof {
        lemma_prefix_submultiset(scanned, known_good as int);
        let m = known_good as int;
        if m >= 3 {
            let h = pts@;
            assert(h[m - 2] == scanned[m - 2] && h[m - 1] == scanned[m - 1]);
            assert(h[0] == scanned[0] && h[1] == scanned[1]);
            lemma_cross_rotate(h[m - 2].array, h[m - 1].array, h[0].array);
            lemma_cross_rotate(h[m - 1].array, h[0].array, h[m - 2].array);
            lemma_cross_rotate(h[m - 1].array, h[0].array, h[1].array);
            lemma_cross_rotate(h[0].array, h[1].array, h[m - 1].array);
            assert(cross(pa, scanned[m - 2].array, scanned[m - 2 + 1].array) > 0);
            assert(cross(pa, scanned[1].array, scanned[m - 1].array) > 0);
        }
        if n <= 2 {
            assert(pts@ =~= scanned);
        }
    }
    proof {
        assert forall|i: int| 0 <= i < pts@.len() implies input.contains(#[trigger] pts@[i]) by {
            assert(pts@.to_multiset().count(pts@[i]) > 0);
        }
    }
    Ok(ConvexPolygon { points: pts })
}

} // verus!
