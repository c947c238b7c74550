use beecrab::core_metrics;
use beecrab::metrics;

#[test]
fn suite() {
    assert_eq!(core_metrics::parse_temperature(b"0.0"), 0);

    assert_eq!(core_metrics::parse_temperature(b"-9.0"), -90);
    assert_eq!(core_metrics::parse_temperature(b"-9.5"), -95);
    assert_eq!(core_metrics::parse_temperature(b"-9.9"), -99);

    assert_eq!(core_metrics::parse_temperature(b"9.5"), 95);
    assert_eq!(core_metrics::parse_temperature(b"9.9"), 99);
    assert_eq!(core_metrics::parse_temperature(b"9.0"), 90);

    assert_eq!(core_metrics::parse_temperature(b"-99.0"), -990);
    assert_eq!(core_metrics::parse_temperature(b"-99.5"), -995);
    assert_eq!(core_metrics::parse_temperature(b"-99.9"), -999);

    assert_eq!(core_metrics::parse_temperature(b"99.0"), 990);
    assert_eq!(core_metrics::parse_temperature(b"99.5"), 995);
    assert_eq!(core_metrics::parse_temperature(b"99.9"), 999);
}

#[test]
fn should_parse_temperature() {
    assert_eq!(beecrab::parse_temperature(b"0.0"), 0);

    assert_eq!(beecrab::parse_temperature(b"-9.0"), -90);
    assert_eq!(beecrab::parse_temperature(b"-9.5"), -95);
    assert_eq!(beecrab::parse_temperature(b"-9.9"), -99);

    assert_eq!(beecrab::parse_temperature(b"9.5"), 95);
    assert_eq!(beecrab::parse_temperature(b"9.9"), 99);
    assert_eq!(beecrab::parse_temperature(b"9.0"), 90);

    assert_eq!(beecrab::parse_temperature(b"-99.0"), -990);
    assert_eq!(beecrab::parse_temperature(b"-99.5"), -995);
    assert_eq!(beecrab::parse_temperature(b"-99.9"), -999);

    assert_eq!(beecrab::parse_temperature(b"99.0"), 990);
    assert_eq!(beecrab::parse_temperature(b"99.5"), 995);
    assert_eq!(beecrab::parse_temperature(b"99.9"), 999);
}

#[test]
fn parse_temperature_range() {
    assert_eq!(metrics::parse_temperature(b"0.0"), 0);

    assert_eq!(metrics::parse_temperature(b"-9.0"), -90);
    assert_eq!(metrics::parse_temperature(b"-9.5"), -95);
    assert_eq!(metrics::parse_temperature(b"-9.9"), -99);

    assert_eq!(metrics::parse_temperature(b"9.5"), 95);
    assert_eq!(metrics::parse_temperature(b"9.9"), 99);
    assert_eq!(metrics::parse_temperature(b"9.0"), 90);

    assert_eq!(metrics::parse_temperature(b"-99.0"), -990);
    assert_eq!(metrics::parse_temperature(b"-99.5"), -995);
    assert_eq!(metrics::parse_temperature(b"-99.9"), -999);

    assert_eq!(metrics::parse_temperature(b"99.0"), 990);
    assert_eq!(metrics::parse_temperature(b"99.5"), 995);
    assert_eq!(metrics::parse_temperature(b"99.9"), 999);
}

#[test]
fn branch_free_parser_reads_tens_from_the_fourth_byte_from_the_end() {
    // The dot is not looked at, and longer texts read their last four bytes.
    assert_eq!(metrics::parse_temperature(b"12x3"), 123);
    assert_eq!(metrics::parse_temperature(b"7123.4"), 234);
    assert_eq!(metrics::parse_temperature(b"-1.5"), -15);
}

#[test]
fn fixed_parser_ignores_the_dot_byte() {
    assert_eq!(core_metrics::parse_temperature(b"4x2"), 42);
    assert_eq!(core_metrics::parse_temperature(b"-12_3"), -123);
}

#[test]
fn digit_values() {
    assert_eq!(core_metrics::utf8_char_to_temperature(b'0'), 0);
    assert_eq!(core_metrics::utf8_char_to_temperature(b'7'), 7);
}
