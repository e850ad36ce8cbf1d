use octofact::hyperbolic::tiling::format_address;

#[test]
fn test_format_address() {
    assert_eq!(format_address(&[]), "O");
    assert_eq!(format_address(&[0]), "0");
    assert_eq!(format_address(&[0, 0, 0, 0, 2]), "00002");
    assert_eq!(format_address(&[7, 3, 1]), "731");
    assert_eq!(format_address(&[1, 2, 3, 4, 5, 6, 7, 0]), "..45670");
}

#[test]
fn format_address_long_and_wide_digits() {
    assert_eq!(format_address(&[1, 2, 3, 4, 5]), "12345");
    assert_eq!(format_address(&[1, 2, 3, 4, 5, 6]), "..23456");
    assert_eq!(format_address(&[12, 3]), "123");
    assert_eq!(format_address(&[255]), "255");
}
