use pob_optimizer::double::Double;
use pob_optimizer::graph::{Graph, T_NORMAL};

fn d(x: f64) -> Double {
    Double::from_bits(x.to_bits())
}

fn same(got: Double, due: f64) -> bool {
    if due.is_nan() {
        got.is_nan()
    } else {
        got.to_bits() == due.to_bits()
    }
}

fn samples() -> Vec<f64> {
    let mut all = vec![
        0.0,
        -0.0,
        1.0,
        -1.0,
        1.5,
        0.1,
        0.01,
        1e-6,
        100.0,
        1000.0,
        3.0,
        1e16,
        9007199254740991.0,
        9007199254740993.0,
        f64::MAX,
        f64::MIN,
        f64::MIN_POSITIVE,
        f64::from_bits(1),
        -f64::from_bits(3),
        f64::from_bits(0x000F_FFFF_FFFF_FFFF),
        f64::EPSILON,
        f64::INFINITY,
        f64::NEG_INFINITY,
        f64::NAN,
    ];
    let mut x: u64 = 12345;
    for _ in 0..150 {
        x = x.wrapping_mul(6364136223846793005).wrapping_add(1442695040888963407);
        all.push(f64::from_bits(x ^ (x >> 17)));
        all.push(((x >> 40) as f64) / 977.0);
    }
    all
}

#[test]
fn arithmetic_rounds_as_the_machine_does() {
    let all = samples();
    for &a in &all {
        assert!(same(d(a).negate(), -a));
        assert_eq!(d(a).is_nan(), a.is_nan());
        assert_eq!(d(a).is_finite(), a.is_finite());
        for &b in &all {
            assert!(same(d(a).plus(d(b)), a + b), "{a} + {b}");
            assert!(same(d(a).minus(d(b)), a - b), "{a} - {b}");
            assert!(same(d(a).times(d(b)), a * b), "{a} * {b}");
            assert!(same(d(a).over(d(b)), a / b), "{a} / {b}");
            assert_eq!(d(a).lt(d(b)), a < b, "{a} < {b}");
            assert_eq!(d(a).le(d(b)), a <= b, "{a} <= {b}");
        }
    }
}

#[test]
fn whole_numbers_convert_as_the_machine_does() {
    for n in [0i64, 1, -1, 7, 1000, i64::MAX, i64::MIN, 9007199254740993, -9007199254740995] {
        assert!(same(Double::from_int(n), n as f64));
    }
}

#[test]
fn ranks_put_what_is_no_number_last() {
    assert_eq!(d(f64::NAN).seat(), d(f64::NEG_INFINITY).seat());
    assert!(d(-1e300).seat() > d(f64::NAN).seat());
    assert_eq!(d(0.0).seat(), d(-0.0).seat());
    assert!(d(1.0).seat() < d(1.5).seat());
}

#[test]
fn an_export_with_a_trailer_is_read() {
    let flat = vec![5, 3, 2, 5, 2, 2, 7, 9, 7, 1, 1, 5, 1500, 250, 2000, 500, 5000];
    assert!(Graph::is_export(&flat));
    let g = Graph::parse(&flat);
    assert_eq!(g.start, 5);
    assert_eq!(g.budget, 3);
    assert_eq!(g.links[&5], vec![7, 9]);
    assert_eq!(g.links[&7], vec![5]);
    assert_eq!(g.ty[&5], 2);
    assert_eq!(g.ty[&7], T_NORMAL);
    assert!(same(g.ref_dps, 1.5));
    assert!(same(g.ref_ehp, 1.0));
    assert!(same(g.w_dps, 2.0));
    assert!(same(g.w_ehp, 0.5));
    assert!(same(g.penalty_k, 5.0));
    assert!(g.has_trailer());
    assert!(g.has_start());
    assert!(g.is_target(5) && g.is_target(7) && !g.is_target(9));
    assert!(g.is_notable(5) && !g.is_notable(7));
    assert!(!g.is_keystone(5));
    let growth = 100.0 * (2.0 * 30.0 / 1.5 + 0.5 * 10.0 / 1.0);
    assert!(same(g.growth_score(d(30.0), d(10.0)), growth));
    let (dd, de) = (1.0 / 1.5 - 1.0, 10.0 / 1.0 - 1.0);
    let penalized = 100.0 * (-5.0 * dd * dd + 0.5 * de);
    assert!(same(g.penalized_score(d(0.0), d(1.0), d(10.0)), penalized));
}

#[test]
fn an_export_without_a_trailer_has_no_penalty() {
    let flat = vec![5, -3, 1, 5, 2, 0, 1, 2, 3, 4];
    let g = Graph::parse(&flat);
    assert_eq!(g.budget, 0);
    assert!(same(g.ref_dps, 1.0) && same(g.w_ehp, 1.0) && same(g.penalty_k, 0.0));
    assert!(!g.has_trailer());
    assert!(same(g.growth_score(d(2.0), d(3.0)), 500.0));
    assert!(same(g.penalized_score(d(42.0), d(2.0), d(3.0)), 42.0));
}

#[test]
fn a_broken_export_is_told_apart() {
    assert!(!Graph::is_export(&[]));
    assert!(!Graph::is_export(&[1, 2]));
    assert!(!Graph::is_export(&[1, 2, -1]));
    assert!(!Graph::is_export(&[1, 2, 1]));
    assert!(!Graph::is_export(&[1, 2, 1, 1, 1, 2, 9]));
    assert!(!Graph::is_export(&[1, 2, 1, 1, 1, -2]));
    assert!(Graph::is_export(&[1, 2, 1, 1, 1, 1, 9]));
    assert!(Graph::is_export(&[1, 2, 0]));
}
