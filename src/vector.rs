use crate::orientation::{
    cmp_around, lemma_cmp_around_total_preorder, ordering_of, Orientation, DIFF_BOUND,
};
use crate::sort::{answers_not_greater, sort_unstable_by};
use std::cmp::Ordering;
use vstd::prelude::*;

verus! {

/// A location in the plane.
#[derive(Debug, Clone, Copy, PartialEq, Eq)]
pub struct Point {
    pub array: [i64; 2],
}

/// A displacement or direction in the plane.
#[derive(Debug, Clone, Copy, PartialEq, Eq)]
pub struct Vector(pub [i64; 2]);

/// The squared distance between `p` and `q`.
pub open spec fn dist2(p: [i64; 2], q: [i64; 2]) -> int {
    (q[0] - p[0]) * (q[0] - p[0]) + (q[1] - p[1]) * (q[1] - p[1])
}

/// The square of `b - a`, which fits in `u128` for any two `i64` values.
fn square_of_difference(a: i64, b: i64) -> (r: u128)
    ensures
        r as int == (b - a) * (b - a),
        r <= DIFF_BOUND * DIFF_BOUND,
{
    let d: i128 = b as i128 - a as i128;
    let m: u128 = if d < 0 {
        (-d) as u128
    } else {
        d as u128
    };
    proof {
        assert(m * m <= DIFF_BOUND * DIFF_BOUND) by (nonlinear_arith)
            requires
                m <= DIFF_BOUND,
        ;
        assert(m * m == d * d) by (nonlinear_arith)
            requires
                m == d || m == -d,
        ;
    }
    m * m
}

impl Point {
    pub fn new(array: [i64; 2]) -> (r: Point)
        ensures
            r.array == array,
    {
        Point { array }
    }

    pub fn x_coord(&self) -> (r: i64)
        ensures
            r == self.array[0],
    {
        self.array[0]
    }

    pub fn y_coord(&self) -> (r: i64)
        ensures
            r == self.array[1],
    {
        self.array[1]
    }

    /// Compares the distances from `self` to `p` and to `q`, exactly and
    /// without overflow. The two sums of squares may exceed `u128`, so the
    /// differences of their terms are compared instead.
    pub fn cmp_distance_to(&self, p: &Point, q: &Point) -> (r: Ordering)
        ensures
            r == ordering_of(dist2(self.array, p.array) - dist2(self.array, q.array)),
    {
        let xp = square_of_difference(self.array[0], p.array[0]);
        let yp = square_of_difference(self.array[1], p.array[1]);
        let xq = square_of_difference(self.array[0], q.array[0]);
        let yq = square_of_difference(self.array[1], q.array[1]);
        // xp + yp against xq + yq is xp - xq against yq - yp.
        if xp >= xq {
            if yq >= yp {
                let l = xp - xq;
                let r = yq - yp;
                if l < r {
                    Ordering::Less
                } else if l == r {
                    Ordering::Equal
                } else {
                    Ordering::Greater
                }
            } else {
                Ordering::Greater
            }
        } else {
            if yq >= yp {
                Ordering::Less
            } else {
                let l = xq - xp;
                let r = yp - yq;
                if l < r {
                    Ordering::Greater
                } else if l == r {
                    Ordering::Equal
                } else {
                    Ordering::Less
                }
            }
        }
    }
}

impl Vector {
    pub fn to_point(&self) -> (r: Point)
        ensures
            r.array == self.0,
    {
        Point { array: self.0 }
    }

    /// Orders `p` and `q` counter-clockwise around `self`, starting from the
    /// positive x-axis.
    pub fn ccw_cmp_around(&self, p: &Vector, q: &Vector) -> (r: Ordering)
        ensures
            r == cmp_around([1, 0], self.0, p.0, q.0),
    {
        self.ccw_cmp_around_with(&Vector([1, 0]), p, q)
    }

    /// Orders `p` and `q` counter-clockwise around `self`, starting from the
    /// direction `z`. Nothing is translated, so no coordinate can overflow.
    pub fn ccw_cmp_around_with(&self, z: &Vector, p: &Vector, q: &Vector) -> (r: Ordering)
        ensures
            r == cmp_around(z.0, self.0, p.0, q.0),
    {
        Orientation::ccw_cmp_around_with(z, &self.0, &p.0, &q.0)
    }

    /// Sorts `pts` counter-clockwise around the origin, starting from the
    /// positive x-axis.
    pub fn sort_around(pts: &mut Vec<Vector>)
        ensures
            final(pts)@.to_multiset() == old(pts)@.to_multiset(),
            forall|i: int, j: int|
                0 <= i < j < final(pts)@.len() ==> cmp_around(
                    [1, 0],
                    [0, 0],
                    #[trigger] final(pts)@[i].0,
                    #[trigger] final(pts)@[j].0,
                ) != Ordering::Greater,
    {
        let origin = Vector([0, 0]);
        let compare = |a: &Vector, b: &Vector| -> (r: Ordering)
            ensures
                r == cmp_around([1, 0], [0, 0], a.0, b.0),
            { origin.ccw_cmp_around(a, b) };
        let ghost s = pts@;
        proof {
            assert forall|i: int, j: int, o1: Ordering, o2: Ordering|
                0 <= i < s.len() && 0 <= j < s.len() && #[trigger] compare.ensures(
                    (&s[i], &s[j]),
                    o1,
                ) && #[trigger] compare.ensures((&s[j], &s[i]), o2) implies (o1 == Ordering::Less
                <==> o2 == Ordering::Greater) && (o1 == Ordering::Equal <==> o2
                == Ordering::Equal) by {
                lemma_cmp_around_total_preorder([0, 0], s[i].0, s[j].0, s[j].0);
            }
            assert forall|i: int, j: int, k: int, o1: Ordering, o2: Ordering, o3: Ordering|
                0 <= i < s.len() && 0 <= j < s.len() && 0 <= k < s.len()
                    && #[trigger] compare.ensures((&s[i], &s[j]), o1) && #[trigger] compare.ensures(
                    (&s[j], &s[k]),
                    o2,
                ) && #[trigger] compare.ensures((&s[i], &s[k]), o3) && o1 != Ordering::Greater
                    && o2 != Ordering::Greater implies o3 != Ordering::Greater by {
                lemma_cmp_around_total_preorder([0, 0], s[i].0, s[j].0, s[k].0);
            }
        }
        sort_unstable_by(pts, compare);
        proof {
            assert forall|i: int, j: int|
                0 <= i < j < pts@.len() implies cmp_around(
                [1, 0],
                [0, 0],
                #[trigger] pts@[i].0,
                #[trigger] pts@[j].0,
            ) != Ordering::Greater by {
                assert(answers_not_greater(compare, pts@[i], pts@[j]));
                let o = choose|o: Ordering|
                    #[trigger] compare.ensures((&pts@[i], &pts@[j]), o) && o != Ordering::Greater;
            }
        }
    }
}

} // verus!
