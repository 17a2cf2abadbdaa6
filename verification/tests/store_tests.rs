use redwood_wiki::store::{
    check_layout_version, escape_like_pattern, filter_chars, parse_u32, u32_to_dec,
    DatabaseInitError, ItemId, WikiSemVer,
};

fn bytes(s: &str) -> Vec<u8> {
    s.as_bytes().to_vec()
}

#[test]
fn test_parse_u32_accepts_plain_digits() {
    assert_eq!(parse_u32(&bytes("0")), Some(0));
    assert_eq!(parse_u32(&bytes("10")), Some(10));
    assert_eq!(parse_u32(&bytes("007")), Some(7));
    assert_eq!(parse_u32(&bytes("4294967295")), Some(u32::MAX));
}

#[test]
fn test_parse_u32_rejects_signs_junk_and_overflow() {
    assert_eq!(parse_u32(&bytes("")), None);
    assert_eq!(parse_u32(&bytes("+10")), None);
    assert_eq!(parse_u32(&bytes("-1")), None);
    assert_eq!(parse_u32(&bytes("1a")), None);
    assert_eq!(parse_u32(&bytes(" 1")), None);
    assert_eq!(parse_u32(&bytes("4294967296")), None);
    assert_eq!(parse_u32(&bytes("99999999999999999999")), None);
}

#[test]
fn test_u32_to_dec() {
    assert_eq!(u32_to_dec(0), bytes("0"));
    assert_eq!(u32_to_dec(7), bytes("7"));
    assert_eq!(u32_to_dec(42), bytes("42"));
    assert_eq!(u32_to_dec(1000), bytes("1000"));
    assert_eq!(u32_to_dec(u32::MAX), bytes("4294967295"));
}

#[test]
fn test_item_id_from_str() {
    assert_eq!(ItemId::from_str(&bytes("5")), Some(ItemId::from(5u32)));
    assert_eq!(ItemId::from_str(&bytes("+5")), None);
    assert_eq!(ItemId::from_str(&bytes("five")), None);
    assert_eq!(ItemId::from(9u32).to_dec(), bytes("9"));
}

#[test]
fn test_item_id_try_from_i64() {
    assert_eq!(ItemId::try_from_i64(7), Some(ItemId::from(7u32)));
    assert_eq!(ItemId::try_from_i64(0), Some(ItemId::from(0u32)));
    assert_eq!(ItemId::try_from_i64(-1), None);
    assert_eq!(ItemId::try_from_i64(4294967296), None);
    assert_eq!(
        ItemId::try_from_i64(4294967295),
        Some(ItemId::from(u32::MAX))
    );
}

#[test]
fn test_semver_parse() {
    assert_eq!(
        WikiSemVer::parse(&bytes("0.1.0")),
        Some(WikiSemVer::new(0, 1, 0))
    );
    assert_eq!(
        WikiSemVer::parse(&bytes("1.12.9")),
        Some(WikiSemVer::new(1, 12, 9))
    );
    // A fourth dot-separated field is ignored.
    assert_eq!(
        WikiSemVer::parse(&bytes("1.2.3.4")),
        Some(WikiSemVer::new(1, 2, 3))
    );
    assert_eq!(WikiSemVer::parse(&bytes("1.2")), None);
    assert_eq!(WikiSemVer::parse(&bytes("1")), None);
    assert_eq!(WikiSemVer::parse(&bytes("")), None);
    // Signed fields would let two different strings denote one version.
    assert_eq!(WikiSemVer::parse(&bytes("+1.2.3")), None);
    assert_eq!(WikiSemVer::parse(&bytes("1.+2.3")), None);
    assert_eq!(WikiSemVer::parse(&bytes("a.b.c")), None);
    assert_eq!(WikiSemVer::parse(&bytes("1.2.3-alpha")), None);
}

#[test]
fn test_semver_format_and_round_trip() {
    assert_eq!(WikiSemVer::new(0, 1, 0).format(), bytes("0.1.0"));
    assert_eq!(WikiSemVer::new(10, 0, 300).format(), bytes("10.0.300"));
    let v = WikiSemVer::new(4, 25, 19);
    assert_eq!(WikiSemVer::parse(&v.format()), Some(v));
}

#[test]
fn test_check_layout_version() {
    assert_eq!(check_layout_version(Some(WikiSemVer::new(0, 1, 0))), Ok(()));
    assert_eq!(
        check_layout_version(Some(WikiSemVer::new(0, 2, 0))),
        Err(DatabaseInitError::UnsupportedLayout)
    );
    assert_eq!(
        check_layout_version(None),
        Err(DatabaseInitError::CouldNotReadLayout)
    );
}

#[test]
fn test_filter_chars_strips_control_bytes() {
    assert_eq!(filter_chars(&bytes("plain text")), bytes("plain text"));
    // Tab and line feed stay; the other control bytes go.
    assert_eq!(
        filter_chars(&b"a\x00b\x01c\td\ne\rf\x1fg".to_vec()),
        bytes("abc\td\nefg")
    );
    assert_eq!(filter_chars(&bytes("")), bytes(""));
}

#[test]
fn test_escape_like_pattern() {
    assert_eq!(escape_like_pattern(&bytes("word")), bytes("%word%"));
    assert_eq!(escape_like_pattern(&bytes("a%b_c^")), bytes("%a^%b^_c^^%"));
    assert_eq!(escape_like_pattern(&bytes("")), bytes("%%"));
}
