use hgs_cvrp::text::{is_float_text_exec, parse_i64_text, parse_unsigned_text};

const SAMPLES: [&str; 40] = [
    "0", "7", "+7", "-7", "42", "007", "", "+", "-", "1.5", ".5", "5.", ".", "-.5e-3", "1e5",
    "1E+05", "e5", "1e", "1e+", "inf", "-inf", "Infinity", "INF", "nan", "NaN", "+nan", "infinit",
    "1.2.3", "12a", " 1", "1 ", "18446744073709551615", "18446744073709551616",
    "9223372036854775807", "9223372036854775808", "-9223372036854775808",
    "-9223372036854775809", "0x10", "1_000", "\u{661}",
];

#[test]
fn unsigned_integers_read_as_std_reads_them() {
    for text in SAMPLES {
        assert_eq!(parse_unsigned_text(text.as_bytes(), u64::MAX), text.parse::<u64>().ok(), "{}", text);
    }
    assert_eq!(parse_unsigned_text(b"300", 255), None);
    assert_eq!(parse_unsigned_text(b"255", 255), Some(255));
}

#[test]
fn signed_integers_read_as_std_reads_them() {
    for text in SAMPLES {
        assert_eq!(parse_i64_text(text.as_bytes()), text.parse::<i64>().ok(), "{}", text);
    }
}

#[test]
fn float_syntax_as_std_accepts_it() {
    for text in SAMPLES {
        assert_eq!(is_float_text_exec(text.as_bytes()), text.parse::<f64>().is_ok(), "{}", text);
    }
}
