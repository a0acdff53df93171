use scryer_core::percent::percent_of;

#[test]
fn percentages_are_those_of_double_precision() {
    let known = |a: u32, t: u32| ((a as f64 / t as f64) * 100.0).round() as u32;
    for t in 1..=400u32 {
        for a in 0..=t {
            assert_eq!(percent_of(a, t), known(a, t), "{a} of {t}");
        }
    }
    for t in [u32::MAX, u32::MAX - 1, 1 << 31, 4_000_000_000] {
        for a in [0, 1, 2, t / 200, t / 3, t / 2, t - 1, t] {
            assert_eq!(percent_of(a, t), known(a, t), "{a} of {t}");
        }
    }
}

#[test]
fn a_half_goes_as_double_precision_has_it() {
    assert_eq!(percent_of(57, 200), 28);
    assert_eq!(percent_of(1, 200), 1);
    assert_eq!(percent_of(1, 8), 13);
    assert_eq!(percent_of(2, 3), 67);
    assert_eq!(percent_of(0, 7), 0);
    assert_eq!(percent_of(7, 7), 100);
}
