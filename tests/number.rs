use rox::number::{number_equal, number_less, number_negate};

fn b(x: f64) -> u64 {
    x.to_bits()
}

#[test]
fn equality_follows_ieee() {
    assert!(number_equal(b(1.5), b(1.5)));
    assert!(!number_equal(b(1.5), b(2.5)));
    assert!(number_equal(b(0.0), b(-0.0)));
    assert!(!number_equal(b(f64::NAN), b(f64::NAN)));
    assert!(number_equal(b(f64::INFINITY), b(f64::INFINITY)));
}

#[test]
fn ordering_follows_ieee() {
    let xs = [f64::NEG_INFINITY, -3.5, -1.0, -0.0, 0.0, 1e-300, 2.0, 7.25, f64::INFINITY, f64::NAN];
    for &x in &xs {
        for &y in &xs {
            assert_eq!(number_less(b(x), b(y)), x < y, "{} < {}", x, y);
            assert_eq!(number_equal(b(x), b(y)), x == y, "{} == {}", x, y);
        }
    }
}

#[test]
fn negation_flips_sign() {
    assert_eq!(f64::from_bits(number_negate(b(2.5))), -2.5);
    assert_eq!(f64::from_bits(number_negate(b(-1.0))), 1.0);
    assert_eq!(number_negate(b(0.0)), b(-0.0));
}
