use radarsim::chi_squared::{chi_squared, CORRELATION_PROBS};

#[test]
fn chi_squared_table_values() {
    assert_eq!(chi_squared(995), 100);
    assert_eq!(chi_squared(975), 506);
    assert_eq!(chi_squared(200), 32190);
    assert_eq!(chi_squared(100), 46050);
    assert_eq!(chi_squared(50), 59910);
    assert_eq!(chi_squared(25), 73780);
    assert_eq!(chi_squared(20), 78240);
    assert_eq!(chi_squared(10), 92100);
    assert_eq!(chi_squared(5), 105970);
    assert_eq!(chi_squared(2), 124290);
    assert_eq!(chi_squared(1), 138160);
}

#[test]
fn gate_widens_as_probability_falls() {
    for w in CORRELATION_PROBS.windows(2) {
        assert!(w[0] > w[1]);
        assert!(chi_squared(w[0]) < chi_squared(w[1]));
    }
}

#[test]
fn correlation_probs_in_thousandths() {
    let as_f64: Vec<f64> = CORRELATION_PROBS.iter().map(|p| *p as f64 / 1000.0).collect();
    assert_eq!(
        as_f64,
        vec![0.995, 0.975, 0.2, 0.1, 0.05, 0.025, 0.02, 0.01, 0.005, 0.002, 0.001]
    );
    assert!((chi_squared(5) as f64 / 10000.0 - 10.597).abs() < 1e-9);
}
