use parameter_optimizer::order::{is_nan, key, less, within};

#[test]
fn key_orders_like_doubles() {
    let xs = [f64::NEG_INFINITY, -3.5, -1.0, -0.0, 0.0, 1e-300, 1.0, 2.5, 1e300, f64::INFINITY];
    for w in xs.windows(2) {
        assert!(key(w[0].to_bits()) < key(w[1].to_bits()), "{} {}", w[0], w[1]);
        assert!(less(w[0].to_bits(), w[1].to_bits()));
        assert!(!less(w[1].to_bits(), w[0].to_bits()));
    }
}

#[test]
fn key_exact_values() {
    assert_eq!(key(0.0f64.to_bits()), 0x8000_0000_0000_0000);
    assert_eq!(key((-0.0f64).to_bits()), 0x7FFF_FFFF_FFFF_FFFF);
    assert_eq!(key(1.0f64.to_bits()), 0xBFF0_0000_0000_0000);
}

#[test]
fn nan_is_detected() {
    assert!(is_nan(f64::NAN.to_bits()));
    assert!(is_nan((-f64::NAN).to_bits()));
    assert!(!is_nan(f64::INFINITY.to_bits()));
    assert!(!is_nan(3.0f64.to_bits()));
}

#[test]
fn within_is_half_open() {
    let lo = 0.0f64.to_bits();
    let hi = 10.0f64.to_bits();
    assert!(within(0.0f64.to_bits(), lo, hi));
    assert!(within(9.999f64.to_bits(), lo, hi));
    assert!(!within(10.0f64.to_bits(), lo, hi));
    assert!(!within((-0.5f64).to_bits(), lo, hi));
    assert!(!within(f64::NAN.to_bits(), lo, hi));
}
