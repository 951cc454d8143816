use rgeometry::{cmp_perp_vector_slope, cmp_slope, cmp_vector_slope, Orientation, SoS, Vector};
use std::cmp::Ordering;

#[test]
fn orientation_limit_1() {
    cmp_slope(
        &[i8::MAX as i64, i8::MAX as i64],
        &[i8::MIN as i64, i8::MIN as i64],
        &[i8::MIN as i64, i8::MIN as i64],
    );
}

#[test]
fn cmp_slope_1() {
    assert_eq!(cmp_slope(&[0, 0], &[1, 1], &[2, 2]), Ordering::Equal);
}

#[test]
fn cmp_slope_2() {
    assert_eq!(
        Orientation::new(&[0, 0], &[0, 1], &[2, 2]),
        Orientation::ClockWise
    );
}

#[test]
fn orientation_limit_2() {
    let options: [i64; 5] = [i8::MIN as i64, i8::MAX as i64, 0, -10, 10];
    for a in options {
        for b in options {
            for c in options {
                for d in options {
                    for e in options {
                        for f in options {
                            cmp_slope(&[a, b], &[c, d], &[e, f]);
                        }
                    }
                }
            }
        }
    }
}

#[test]
fn cmp_around_1() {
    let pt1 = [0, 0];
    let pt2 = [-1, 1];
    let vector = Vector([1, 0]);
    assert_eq!(
        Orientation::ccw_cmp_around_with(&vector, &pt1, &pt2, &pt1),
        Ordering::Greater
    );
}

#[test]
fn sos_unit1() {
    assert_eq!(SoS::new(0, 1, 2), SoS::CounterClockWise)
}

#[test]
fn sos_unit3() {
    assert_eq!(SoS::new(99, 0, 1), SoS::CounterClockWise);
}

/// A product as its sign and magnitude, formed without overflow.
fn product(a: i128, b: i128) -> (i8, u128) {
    let sign = (a.signum() * b.signum()) as i8;
    (sign, a.unsigned_abs() * b.unsigned_abs())
}

fn exact_sign(p1: [i64; 2], p2: [i64; 2], p3: [i64; 2]) -> Ordering {
    let w = |v: i64| v as i128;
    let l = product(w(p2[0]) - w(p1[0]), w(p3[1]) - w(p1[1]));
    let r = product(w(p2[1]) - w(p1[1]), w(p3[0]) - w(p1[0]));
    match l.0.cmp(&r.0) {
        Ordering::Equal if l.0 > 0 => l.1.cmp(&r.1),
        Ordering::Equal if l.0 < 0 => r.1.cmp(&l.1),
        other => other,
    }
}

#[test]
fn orientation_at_extremes_matches_exact_sign() {
    let options: [i64; 5] = [i64::MIN, i64::MAX, 0, -1, 1];
    for a in options {
        for b in options {
            for c in options {
                for d in options {
                    for e in options {
                        for f in options {
                            let got = cmp_slope(&[a, b], &[c, d], &[e, f]);
                            assert_eq!(got, exact_sign([a, b], [c, d], [e, f]));
                        }
                    }
                }
            }
        }
    }
}

#[test]
fn orientation_at_extremes_concrete() {
    // (MAX - MIN) * (MAX - MIN) against 0 * ...: a left turn.
    assert_eq!(
        Orientation::new(&[i64::MIN, i64::MIN], &[i64::MAX, i64::MIN], &[i64::MAX, i64::MAX]),
        Orientation::CounterClockWise
    );
    assert_eq!(
        Orientation::new(&[i64::MIN, i64::MIN], &[i64::MAX, i64::MAX], &[i64::MAX, i64::MIN]),
        Orientation::ClockWise
    );
    assert_eq!(
        Orientation::new(&[i64::MIN, i64::MIN], &[0, 0], &[i64::MAX, i64::MAX]),
        Orientation::CoLinear
    );
    // Nearly parallel at the widest range: slopes differ by one part in 2^64.
    assert_eq!(
        Orientation::new(&[i64::MIN, i64::MIN], &[i64::MAX, i64::MAX - 1], &[i64::MAX, i64::MAX]),
        Orientation::CounterClockWise
    );
}

#[test]
fn orient_scenario() {
    let p1 = [0, 0];
    let p2 = [0, 1];
    assert!(Orientation::new(&p1, &p2, &[0, 2]).is_colinear());
    assert!(Orientation::new(&p1, &p2, &[-1, 2]).is_ccw());
    assert!(Orientation::new(&p1, &p2, &[1, 2]).is_cw());
}

#[test]
fn duplicate_points_are_colinear() {
    let p = [3, -7];
    let q = [i64::MAX, 5];
    assert_eq!(Orientation::new(&p, &p, &q), Orientation::CoLinear);
    assert_eq!(Orientation::new(&p, &q, &p), Orientation::CoLinear);
    assert_eq!(Orientation::new(&q, &p, &p), Orientation::CoLinear);
    assert_eq!(Orientation::new(&q, &q, &q), Orientation::CoLinear);
}

#[test]
fn along_vector_examples() {
    let v = Vector([1, 1]);
    let p1 = [5, 5];
    assert!(Orientation::along_vector(&p1, &v, &[6, 6]).is_colinear());
    assert!(Orientation::along_vector(&p1, &v, &[7, 8]).is_ccw());
    assert!(Orientation::along_vector(&p1, &v, &[8, 7]).is_cw());
    assert_eq!(cmp_vector_slope(&v.0, &p1, &[7, 8]), Ordering::Greater);
}

#[test]
fn along_vector_does_not_form_the_sum() {
    let v = Vector([i64::MAX, 0]);
    let p1 = [i64::MAX, 0];
    assert!(Orientation::along_vector(&p1, &v, &[0, 1]).is_ccw());
    assert!(Orientation::along_vector(&p1, &v, &[0, -1]).is_cw());
}

#[test]
fn along_perp_vector_ahead_and_behind() {
    let v = Vector([1, 0]);
    let p1 = [0, 0];
    assert!(Orientation::along_perp_vector(&p1, &v, &[5, 0]).is_cw());
    assert!(Orientation::along_perp_vector(&p1, &v, &[-5, 0]).is_ccw());
    assert!(Orientation::along_perp_vector(&p1, &v, &[0, 3]).is_colinear());
    assert_eq!(cmp_perp_vector_slope(&[i64::MIN, 0], &[0, 0], &[i64::MIN, 0]), Ordering::Less);
}

#[test]
fn cmp_around_sectors() {
    let x = Vector([1, 0]);
    let o = [0, 0];
    // Ahead on the axis, upper half, behind, lower half.
    let ahead = [4, 0];
    let up = [0, 1];
    let behind = [-2, 0];
    let down = [1, -1];
    let order = [ahead, up, behind, down];
    for i in 0..4 {
        for j in 0..4 {
            assert_eq!(
                Orientation::ccw_cmp_around_with(&x, &o, &order[i], &order[j]),
                i.cmp(&j)
            );
        }
    }
    assert_eq!(Orientation::ccw_cmp_around_with(&x, &o, &[1, 1], &[1, 2]), Ordering::Less);
    assert_eq!(Orientation::ccw_cmp_around_with(&x, &o, &[1, 1], &[3, 3]), Ordering::Equal);
    assert_eq!(Orientation::ccw_cmp_around_with(&x, &o, &[1, -2], &[1, -1]), Ordering::Less);
    assert_eq!(Orientation::ccw_cmp_around_with(&x, &o, &o, &ahead), Ordering::Equal);
    assert_eq!(Orientation::ccw_cmp_around_with(&x, &o, &behind, &[-9, 0]), Ordering::Equal);
}

#[test]
fn vector_cmp_around() {
    let c = Vector([10, 10]);
    assert_eq!(c.ccw_cmp_around(&Vector([11, 10]), &Vector([10, 11])), Ordering::Less);
    assert_eq!(c.ccw_cmp_around(&Vector([9, 9]), &Vector([10, 11])), Ordering::Greater);
    let z = Vector([0, 1]);
    assert_eq!(c.ccw_cmp_around_with(&z, &Vector([9, 10]), &Vector([11, 10])), Ordering::Less);
}

#[test]
fn sort_around_origin() {
    let mut pts = vec![Vector([0, -1]), Vector([-1, 0]), Vector([0, 1]), Vector([1, 0])];
    Vector::sort_around(&mut pts);
    assert_eq!(pts, vec![Vector([1, 0]), Vector([0, 1]), Vector([-1, 0]), Vector([0, -1])]);
    assert_eq!(Vector([3, 4]).to_point().array, [3, 4]);
}

#[test]
fn sos_laws_on_values() {
    let triples: [(u32, u32, u32); 4] = [(0, 1, 2), (99, 0, 1), (5, 3, 8), (u32::MAX, 0, 7)];
    for (a, b, c) in triples {
        assert_eq!(SoS::new(a, b, c), SoS::new(b, c, a));
        assert_eq!(SoS::new(a, b, c), SoS::new(c, b, a).reverse());
        assert_eq!(SoS::new(a, b, c), SoS::new(a, c, b).reverse());
        assert_eq!(SoS::new(a, b, c), SoS::new(b, a, c).reverse());
    }
    assert_eq!(SoS::new(0, 2, 1), SoS::ClockWise);
}

#[test]
fn sos_matches_moment_curve() {
    for a in 0u32..8 {
        for b in 0u32..8 {
            for c in 0u32..8 {
                if a == b || b == c || c == a {
                    continue;
                }
                let p = |i: u32| [i as i64, 1i64 << i];
                let o = Orientation::new(&p(a), &p(b), &p(c));
                assert_eq!(SoS::new(a, b, c).orient(), o);
            }
        }
    }
}

#[test]
fn orientation_combinators() {
    assert_eq!(Orientation::CoLinear.then(Orientation::ClockWise), Orientation::ClockWise);
    assert_eq!(Orientation::CounterClockWise.then(Orientation::ClockWise), Orientation::CounterClockWise);
    assert_eq!(Orientation::CounterClockWise.reverse(), Orientation::ClockWise);
    assert_eq!(Orientation::CoLinear.reverse(), Orientation::CoLinear);
    assert_eq!(Orientation::ClockWise.break_ties(0, 1, 2), SoS::ClockWise);
    assert_eq!(Orientation::CoLinear.break_ties(0, 1, 2), SoS::CounterClockWise);
    assert_eq!(Orientation::CoLinear.break_ties(0, 2, 1), SoS::ClockWise);
    assert_eq!(Orientation::CoLinear.sos(SoS::ClockWise), SoS::ClockWise);
    assert_eq!(Orientation::CounterClockWise.sos(SoS::ClockWise), SoS::CounterClockWise);
    assert!(!Orientation::ClockWise.is_ccw() && Orientation::ClockWise.is_cw() && !Orientation::ClockWise.is_colinear());
    assert_eq!(SoS::ClockWise.reverse(), SoS::CounterClockWise);
    assert_eq!(SoS::ClockWise.orient(), Orientation::ClockWise);
}
