use txt_analize::options::{atoi16, is_debug_key, word_count, DEFAULT_WORD_COUNT};
use txt_analize::timing::{time_unit, unit_nanos, TimeUnit};

#[test]
fn atoi16_reads_decimal_numbers() {
    assert_eq!(atoi16("0"), 0);
    assert_eq!(atoi16("7"), 7);
    assert_eq!(atoi16("123"), 123);
    assert_eq!(atoi16("+5"), 5);
    assert_eq!(atoi16("-5"), -5);
    assert_eq!(atoi16("0005"), 5);
    assert_eq!(atoi16("-0"), 0);
    assert_eq!(atoi16("32767"), 32767);
    assert_eq!(atoi16("-32768"), -32768);
    assert_eq!(atoi16("000000000000000000000000032767"), 32767);
}

#[test]
fn atoi16_gives_zero_for_anything_else() {
    assert_eq!(atoi16(""), 0);
    assert_eq!(atoi16("-"), 0);
    assert_eq!(atoi16("+"), 0);
    assert_eq!(atoi16("abc"), 0);
    assert_eq!(atoi16("12a"), 0);
    assert_eq!(atoi16(" 12"), 0);
    assert_eq!(atoi16("12 "), 0);
    assert_eq!(atoi16("1.5"), 0);
    assert_eq!(atoi16("--5"), 0);
    assert_eq!(atoi16("+-5"), 0);
    assert_eq!(atoi16("32768"), 0);
    assert_eq!(atoi16("-32769"), 0);
    assert_eq!(atoi16("99999999999999999999"), 0);
    assert_eq!(atoi16("99999999999999999999x"), 0);
    assert_eq!(atoi16("١٢"), 0);
    assert_eq!(atoi16("--d"), 0);
}

#[test]
fn atoi16_agrees_with_the_standard_library() {
    let mut samples: Vec<String> = Vec::new();
    for n in -33000i32..=33000 {
        if n % 37 == 0 || n.abs() > 32760 {
            samples.push(format!("{}", n));
            samples.push(format!("+{}", n));
            samples.push(format!("0{}", n));
        }
    }
    for s in ["", "+", "-", "1_000", "0x10", "１２", "12\n", "+0", "-00", "65536", "4294967297"] {
        samples.push(s.to_string());
    }
    for s in &samples {
        let expected = s.parse::<i16>().unwrap_or(0);
        assert_eq!(atoi16(s), expected);
    }
}

#[test]
fn word_count_defaults_and_limits() {
    assert_eq!(word_count(None), Some(100));
    assert_eq!(DEFAULT_WORD_COUNT, 100);
    assert_eq!(word_count(Some("2")), Some(2));
    assert_eq!(word_count(Some("250")), Some(250));
    assert_eq!(word_count(Some("32767")), Some(32767));
    assert_eq!(word_count(Some("1")), None);
    assert_eq!(word_count(Some("0")), None);
    assert_eq!(word_count(Some("-7")), None);
    assert_eq!(word_count(Some("many")), None);
    assert_eq!(word_count(Some("")), None);
    assert_eq!(word_count(Some("40000")), None);
    assert_eq!(word_count(Some("--debug")), None);
}

#[test]
fn debug_key_in_any_case() {
    assert!(is_debug_key("--d"));
    assert!(is_debug_key("--D"));
    assert!(is_debug_key("--debug"));
    assert!(is_debug_key("--DEBUG"));
    assert!(is_debug_key("--DeBuG"));
    assert!(!is_debug_key("-d"));
    assert!(!is_debug_key("--de"));
    assert!(!is_debug_key("--debugging"));
    assert!(!is_debug_key("debug"));
    assert!(!is_debug_key(""));
}

#[test]
fn time_unit_is_the_largest_one_exceeded() {
    assert_eq!(time_unit(0), TimeUnit::Nanoseconds);
    assert_eq!(time_unit(1_000), TimeUnit::Nanoseconds);
    assert_eq!(time_unit(1_001), TimeUnit::Microseconds);
    assert_eq!(time_unit(1_000_000), TimeUnit::Microseconds);
    assert_eq!(time_unit(1_000_001), TimeUnit::Milliseconds);
    assert_eq!(time_unit(1_000_000_000), TimeUnit::Milliseconds);
    assert_eq!(time_unit(1_000_000_001), TimeUnit::Seconds);
    assert_eq!(time_unit(u128::MAX), TimeUnit::Seconds);
}

#[test]
fn units_in_nanoseconds() {
    assert_eq!(unit_nanos(TimeUnit::Nanoseconds), 1);
    assert_eq!(unit_nanos(TimeUnit::Microseconds), 1_000);
    assert_eq!(unit_nanos(TimeUnit::Milliseconds), 1_000_000);
    assert_eq!(unit_nanos(TimeUnit::Seconds), 1_000_000_000);
}
