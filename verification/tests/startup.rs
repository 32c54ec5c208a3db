use telecodex::startup::{parse_decimal_u64, restart_delay_ms};

#[test]
fn restart_delay_is_a_positive_number_of_milliseconds() {
    assert_eq!(restart_delay_ms(None), None);
    assert_eq!(restart_delay_ms(Some("1500")), Some(1500));
    assert_eq!(restart_delay_ms(Some("+20")), Some(20));
    assert_eq!(restart_delay_ms(Some("0")), None);
    assert_eq!(restart_delay_ms(Some("")), None);
    assert_eq!(restart_delay_ms(Some("-5")), None);
    assert_eq!(restart_delay_ms(Some(" 5")), None);
    assert_eq!(restart_delay_ms(Some("5ms")), None);
}

#[test]
fn decimal_parsing_matches_std() {
    for s in ["0", "007", "+", "+0", "18446744073709551615", "18446744073709551616", "99999999999999999999x", "12a", "١٢"] {
        assert_eq!(parse_decimal_u64(s), s.parse::<u64>().ok(), "{s}");
    }
}
