use mimir_core::number::first_second;

#[test]
fn a_fraction_is_rounded_up() {
    assert_eq!(first_second("1700000000.5"), Some(1_700_000_001));
    assert_eq!(first_second("1700000000.0"), Some(1_700_000_000));
    assert_eq!(first_second("0.001"), Some(1));
    assert_eq!(first_second("0.0"), Some(0));
    assert_eq!(first_second("-0.5"), Some(0));
    assert_eq!(first_second("-7.25"), Some(-7));
    assert_eq!(first_second("-7"), Some(-7));
}

#[test]
fn an_exponent_moves_the_point() {
    assert_eq!(first_second("1.5e+3"), Some(1500));
    assert_eq!(first_second("1.2345e2"), Some(124));
    assert_eq!(first_second("1e-7"), Some(1));
    assert_eq!(first_second("-1e-7"), Some(0));
    assert_eq!(first_second("9e17"), Some(900_000_000_000_000_000));
    assert_eq!(first_second("0e9999999999999"), Some(0));
}

#[test]
fn times_beyond_every_second() {
    assert_eq!(first_second("9223372036854775807"), Some(i64::MAX));
    assert_eq!(first_second("9223372036854775808"), None);
    assert_eq!(first_second("1.7976931348623157e+308"), None);
    assert_eq!(first_second("-9223372036854775808"), Some(i64::MIN));
    assert_eq!(first_second("-1e+30"), Some(i64::MIN));
}

#[test]
fn booleans_count_and_other_values_do_not() {
    assert_eq!(first_second("true"), Some(1));
    assert_eq!(first_second("false"), Some(0));
    for other in ["null", "\"5\"", "[5]", "{}", "", "-", ".5", "1e", "1.2.3", "1e2e3", "x"] {
        assert_eq!(first_second(other), None, "{other}");
    }
}
