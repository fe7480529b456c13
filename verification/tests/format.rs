use storecheck::format::format_number;

#[test]
fn small_numbers_need_no_separator() {
    assert_eq!(format_number(0), "0");
    assert_eq!(format_number(7), "7");
    assert_eq!(format_number(42), "42");
    assert_eq!(format_number(999), "999");
}

#[test]
fn groups_of_three_are_separated_by_commas() {
    assert_eq!(format_number(1000), "1,000");
    assert_eq!(format_number(1234), "1,234");
    assert_eq!(format_number(999999), "999,999");
    assert_eq!(format_number(1000000), "1,000,000");
    assert_eq!(format_number(1234567890), "1,234,567,890");
}
