use satsval::format::{format_with_commas, truncate_decimal_part, Fixed};

#[test]
fn grouping_with_truncated_decimals() {
    // 1234567.891 shown with 2 decimals: truncation, not rounding.
    let v = Fixed { negative: false, units: 123_456_789_100_000 };
    assert_eq!(format_with_commas(&v, 2), "1,234,567.89");
}

#[test]
fn whole_number_drops_decimal_point() {
    // 5.0 shown with 2 decimals keeps no trailing ".00".
    let v = Fixed { negative: false, units: 500_000_000 };
    assert_eq!(format_with_commas(&v, 2), "5");
}

#[test]
fn sign_is_not_separated() {
    // -1234.5 with 1 decimal: the sign stays glued to the first group.
    let v = Fixed { negative: true, units: 123_450_000_000 };
    assert_eq!(format_with_commas(&v, 1), "-1,234.5");
}

#[test]
fn sign_with_six_digit_integer_part() {
    let v = Fixed { negative: true, units: 12_345_600_000_000 };
    assert_eq!(format_with_commas(&v, 2), "-123,456");
}

#[test]
fn truncates_never_rounds() {
    // 1.99 with 1 decimal is 1.9, not 2.0.
    let v = Fixed { negative: false, units: 199_000_000 };
    assert_eq!(format_with_commas(&v, 1), "1.9");
}

#[test]
fn zero_decimals_drop_the_point() {
    let v = Fixed { negative: false, units: 150_000_000 };
    assert_eq!(format_with_commas(&v, 0), "1");
}

#[test]
fn zero_value_formats_as_zero() {
    let v = Fixed { negative: false, units: 0 };
    assert_eq!(format_with_commas(&v, 8), "0");
}

#[test]
fn trailing_zeros_inside_fraction_are_kept() {
    // 5.105 with 2 decimals keeps the zero the truncation exposes.
    let v = Fixed { negative: false, units: 510_500_000 };
    assert_eq!(format_with_commas(&v, 2), "5.10");
}

#[test]
fn large_grouped_integer() {
    let v = Fixed { negative: false, units: 105_000_000_000_000_000_000 };
    assert_eq!(format_with_commas(&v, 2), "1,050,000,000,000");
}

#[test]
fn truncate_decimal_part_cuts_to_eight() {
    assert_eq!(truncate_decimal_part("1.123456789"), "1.12345678");
}

#[test]
fn truncate_decimal_part_keeps_short_fraction() {
    assert_eq!(truncate_decimal_part("0.25"), "0.25");
}

#[test]
fn truncate_decimal_part_without_dot_is_unchanged() {
    assert_eq!(truncate_decimal_part("123"), "123");
}

#[test]
fn truncate_decimal_part_with_two_dots_is_unchanged() {
    assert_eq!(truncate_decimal_part("1.2.3"), "1.2.3");
}

#[test]
fn truncate_decimal_part_empty_fraction() {
    assert_eq!(truncate_decimal_part("1."), "1.");
}

#[test]
fn truncate_decimal_part_counts_characters_not_bytes() {
    assert_eq!(truncate_decimal_part("1.ééééééééé"), "1.éééééééé");
}
