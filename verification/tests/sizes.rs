use untracked_tree::{size_str, truncate_decimal};

#[test]
fn representation_of_bytes() {
    assert_eq!("100b", size_str(100))
}

#[test]
fn representation_of_bytes_on_margin() {
    let numeral = 999.9_f64.to_string();
    assert_eq!("999.9b", format!("{}b", truncate_decimal(&numeral)))
}

#[test]
fn representation_of_kb() {
    assert_eq!("1kb", size_str(1000))
}

#[test]
fn representation_of_kb_on_margin() {
    assert_eq!("999.9kb", size_str(999_999))
}

#[test]
fn representation_of_mb() {
    assert_eq!("1mb", size_str(1_000_000))
}

#[test]
fn representation_of_mb_on_margin() {
    assert_eq!("999.9mb", size_str(999_999_999))
}

#[test]
fn representation_of_gb() {
    assert_eq!("1gb", size_str(1_000_000_000));
    assert_eq!("999.9gb", size_str(999_999_999_999));
    assert_eq!("1000gb", size_str(1_000_000_000_000));
}

#[test]
fn zero_bytes() {
    assert_eq!("0b", size_str(0))
}

#[test]
fn last_byte_count_without_unit_change() {
    assert_eq!("999b", size_str(999))
}

#[test]
fn digits_are_cut_off_not_rounded() {
    assert_eq!("1.9kb", size_str(1999));
    assert_eq!("1.9mb", size_str(1_999_999));
    assert_eq!("1.9gb", size_str(1_999_999_999));
}

#[test]
fn a_zero_decimal_place_is_shown_where_there_is_a_remainder() {
    assert_eq!("1.0kb", size_str(1050));
    assert_eq!("1.0kb", size_str(1001));
    assert_eq!("2.0mb", size_str(2_000_001));
    assert_eq!("3.0gb", size_str(3_099_999_999));
}

#[test]
fn whole_numbers_of_a_unit_have_no_decimal_place() {
    assert_eq!("2kb", size_str(2000));
    assert_eq!("15mb", size_str(15_000_000));
    assert_eq!("7gb", size_str(7_000_000_000));
}

#[test]
fn one_decimal_place() {
    assert_eq!("1.5kb", size_str(1500));
    assert_eq!("12.3mb", size_str(12_345_678));
}

#[test]
fn largest_count() {
    assert_eq!("18446744073.7gb", size_str(u64::MAX))
}

#[test]
fn every_text_ends_in_one_unit_after_a_short_numeral() {
    let samples: Vec<u64> = vec![
        0, 1, 9, 10, 99, 100, 999, 1000, 1001, 1099, 1100, 9999, 10_000, 999_999, 1_000_000,
        1_000_001, 123_456_789, 999_999_999, 1_000_000_000, 1_234_567_890_123, u64::MAX,
    ];
    for bytes in samples {
        let text = size_str(bytes);
        let numeral: String = text.chars().take_while(|c| !c.is_ascii_alphabetic()).collect();
        let unit: String = text.chars().skip_while(|c| !c.is_ascii_alphabetic()).collect();
        assert!(matches!(unit.as_str(), "b" | "kb" | "mb" | "gb"), "{}", text);
        let mut parts = numeral.split('.');
        let whole = parts.next().unwrap();
        assert!(!whole.is_empty() && whole.chars().all(|c| c.is_ascii_digit()), "{}", text);
        if let Some(places) = parts.next() {
            assert!(places.len() == 1 && places.chars().all(|c| c.is_ascii_digit()), "{}", text);
        }
        assert!(parts.next().is_none(), "{}", text);
    }
}

#[test]
fn truncate_keeps_one_place_behind_the_first_point() {
    assert_eq!("1.9", truncate_decimal(&String::from("1.999")));
    assert_eq!("999.9", truncate_decimal(&String::from("999.9")));
    assert_eq!("0.0", truncate_decimal(&String::from("0.05")));
    assert_eq!("1.2", truncate_decimal(&String::from("1.2.3.4")));
}

#[test]
fn truncate_leaves_a_text_without_point() {
    assert_eq!("1000", truncate_decimal(&String::from("1000")));
    assert_eq!("", truncate_decimal(&String::from("")));
}

#[test]
fn truncate_leaves_a_text_with_nothing_behind_the_point() {
    assert_eq!("5.", truncate_decimal(&String::from("5.")));
    assert_eq!(".", truncate_decimal(&String::from(".")));
}

#[test]
fn truncate_counts_characters() {
    assert_eq!("\u{e4}\u{f6}.\u{fc}", truncate_decimal(&String::from("\u{e4}\u{f6}.\u{fc}\u{df}")));
}
