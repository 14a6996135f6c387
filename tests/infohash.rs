use trscrape::infohash::{InfoHash, InfoHashError};
use trscrape::tracker::scrape_query;
use url::Url;

#[test]
fn test_hex_info_hash() {
    let info_hash = InfoHash::from_hex("28C55196F57753C40ACEB6FB58617E6995A7EDDB").unwrap();
    assert_eq!(
        info_hash.as_bytes(),
        b"\x28\xC5\x51\x96\xF5\x77\x53\xC4\x0A\xCE\xB6\xFB\x58\x61\x7E\x69\x95\xA7\xED\xDB"
    );
    assert_eq!(
        info_hash.to_string(),
        "28c55196f57753c40aceb6fb58617e6995a7eddb"
    );
}

#[test]
fn test_add_query_param() {
    let info_hash = InfoHash::from_hex("28C55196F57753C40ACEB6FB58617E6995A7EDDB").unwrap();
    let mut url = Url::parse("http://tracker.example.com:8080/announce?here=there").unwrap();
    let query = info_hash.add_query_param(url.query());
    url.set_query(Some(&query));
    assert_eq!(
        url.as_str(),
        "http://tracker.example.com:8080/announce?here=there&info_hash=%28%C5Q%96%F5wS%C4%0A%CE%B6%FBXa%7Ei%95%A7%ED%DB"
    );
}

#[test]
fn add_query_param_without_query() {
    let info_hash = InfoHash::from_array(&[0x20; 20]);
    let mut url = Url::parse("http://tracker.example.com/announce").unwrap();
    let query = info_hash.add_query_param(url.query());
    url.set_query(Some(&query));
    assert_eq!(
        url.as_str(),
        "http://tracker.example.com/announce?info_hash=++++++++++++++++++++"
    );
}

#[test]
fn hex_round_trip() {
    let bytes: [u8; 20] = [
        0, 1, 2, 0x7f, 0x80, 0xff, 0x10, 0xab, 0xcd, 0xef, 9, 10, 11, 12, 13, 14, 15, 16, 0xfe, 0x42,
    ];
    let h = InfoHash::from_array(&bytes);
    let text = h.to_string();
    assert_eq!(text, "0001027f80ff10abcdef090a0b0c0d0e0f10fe42");
    assert_eq!(InfoHash::from_hex(&text), Ok(h));
    assert_eq!(InfoHash::from_hex(&text.to_ascii_uppercase()), Ok(h));
    assert_eq!(InfoHash::try_from_slice(h.as_bytes()), Ok(h));
}

#[test]
fn hex_mixed_case() {
    let lower = InfoHash::from_hex("da39a3ee5e6b4b0d3255bfef95601890afd80709").unwrap();
    let mixed = InfoHash::from_hex("DA39a3EE5e6b4b0d3255BFef95601890afd80709").unwrap();
    assert_eq!(lower, mixed);
    assert_eq!(lower.as_bytes()[0], 0xda);
}

#[test]
fn hex_invalid() {
    assert!(matches!(
        InfoHash::from_hex("zz39a3ee5e6b4b0d3255bfef95601890afd80709"),
        Err(InfoHashError::InvalidHex(_))
    ));
    assert!(matches!(
        InfoHash::from_hex("a39a3ee5e6b4b0d3255bfef95601890afd80709"),
        Err(InfoHashError::InvalidHex(_))
    ));
}

#[test]
fn hex_wrong_length() {
    assert_eq!(InfoHash::from_hex("abcd"), Err(InfoHashError::InvalidLength(2)));
    assert_eq!(InfoHash::from_hex(""), Err(InfoHashError::InvalidLength(0)));
}

#[test]
fn binary_wrong_length() {
    assert_eq!(
        InfoHash::try_from_slice(&[1u8; 19]),
        Err(InfoHashError::InvalidLength(19))
    );
    assert_eq!(
        InfoHash::try_from_slice(&[1u8; 21]),
        Err(InfoHashError::InvalidLength(21))
    );
}

#[test]
fn scrape_query_appends_in_order() {
    let a = InfoHash::from_array(&[b'a'; 20]);
    let b = InfoHash::from_array(&[b' '; 20]);
    assert_eq!(
        scrape_query(Some("k=v"), &[a, b]).unwrap(),
        "k=v&info_hash=aaaaaaaaaaaaaaaaaaaa&info_hash=++++++++++++++++++++"
    );
    assert_eq!(
        scrape_query(Some(""), &[a]).unwrap(),
        "info_hash=aaaaaaaaaaaaaaaaaaaa"
    );
    assert_eq!(scrape_query(None, &[]), None);
}
