use musickbeets::labels::format_with_commas;

#[test]
fn commas_group_thousands_from_the_right() {
    assert_eq!(format_with_commas(0), "0");
    assert_eq!(format_with_commas(7), "7");
    assert_eq!(format_with_commas(999), "999");
    assert_eq!(format_with_commas(1000), "1,000");
    assert_eq!(format_with_commas(20000), "20,000");
    assert_eq!(format_with_commas(1234567), "1,234,567");
    assert_eq!(format_with_commas(-1000), "-1,000");
    assert_eq!(format_with_commas(-12), "-12");
    assert_eq!(format_with_commas(i64::MAX), "9,223,372,036,854,775,807");
    assert_eq!(format_with_commas(i64::MIN + 1), "-9,223,372,036,854,775,807");
}
