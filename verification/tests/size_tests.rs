use divsufsort::size::parse_size;

#[test]
fn plain_and_suffixed_sizes() {
    assert_eq!(parse_size("512"), Some(512));
    assert_eq!(parse_size("0"), Some(0));
    assert_eq!(parse_size("+7"), Some(7));
    assert_eq!(parse_size("64k"), Some(64 * 1024));
    assert_eq!(parse_size("64K"), Some(64 * 1024));
    assert_eq!(parse_size("2m"), Some(2 * 1024 * 1024));
    assert_eq!(parse_size("2M"), Some(2 * 1024 * 1024));
    assert_eq!(parse_size("3kK"), Some(3 * 1024));
    assert_eq!(parse_size("3\u{212A}"), Some(3 * 1024));
    assert_eq!(parse_size("007"), Some(7));
}

#[test]
fn malformed_sizes() {
    assert_eq!(parse_size(""), None);
    assert_eq!(parse_size("k"), None);
    assert_eq!(parse_size("+"), None);
    assert_eq!(parse_size("-5"), None);
    assert_eq!(parse_size("5km"), None);
    assert_eq!(parse_size("5mk"), None);
    assert_eq!(parse_size("1.5k"), None);
    assert_eq!(parse_size(" 5"), None);
    assert_eq!(parse_size("5g"), None);
}

#[test]
fn sizes_that_do_not_fit() {
    let max = usize::MAX.to_string();
    assert_eq!(parse_size(&max), Some(usize::MAX));
    let over = format!("{}0", max);
    assert_eq!(parse_size(&over), None);
    assert_eq!(parse_size(&format!("{}k", usize::MAX / 1024 + 1)), None);
    assert_eq!(parse_size(&format!("{}k", usize::MAX / 1024)), Some(usize::MAX / 1024 * 1024));
}
