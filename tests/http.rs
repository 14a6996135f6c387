use trscrape::bencode::{BencodeError, Field};
use trscrape::http::{decode_scrape_response, scrape_result_from_body, HttpScrapeResponse};
use trscrape::error::{HttpTrackerError, TrackerError};
use trscrape::infohash::InfoHash;
use trscrape::scrape::Scrape;
use trscrape::tracker::{Tracker, TrackerUrlError};

#[test]
fn parse_scrape_response() {
    let mut buf = Vec::new();
    buf.extend_from_slice(b"d5:filesd".as_slice());
    buf.extend_from_slice(
        b"20:\x28\xc5\x51\x96\xf5\x77\x53\xc4\x0a\xce\xb6\xfb\x58\x61\x7e\x69\x95\xa7\xed\xdb"
            .as_slice(),
    );
    buf.extend_from_slice(b"d8:completei10e10:downloadedi32e10:incompletei0ee".as_slice());
    buf.extend_from_slice(
        b"20:\xda\x39\xa3\xee\x5e\x6b\x4b\x0d\x32\x55\xbf\xef\x95\x60\x18\x90\xaf\xd8\x07\x09"
            .as_slice(),
    );
    buf.extend_from_slice(b"d8:completei105e10:downloadedi1337e10:incompletei42ee".as_slice());
    buf.extend_from_slice(b"ee".as_slice());
    let res = decode_scrape_response(&buf).unwrap().result().unwrap();
    assert_eq!(res.len(), 2);
    assert_eq!(
        res.get(&InfoHash::from_hex("28c55196f57753c40aceb6fb58617e6995a7eddb").unwrap()),
        Some(Scrape {
            complete: 10,
            incomplete: 0,
            downloaded: 32
        })
    );
    assert_eq!(
        res.get(&InfoHash::from_hex("da39a3ee5e6b4b0d3255bfef95601890afd80709").unwrap()),
        Some(Scrape {
            complete: 105,
            incomplete: 42,
            downloaded: 1337
        })
    );
}

#[test]
fn parse_scrape_failure_response() {
    let buf = b"d14:failure reason11:Out of bitse".to_vec();
    let res = decode_scrape_response(&buf).unwrap();
    match res {
        HttpScrapeResponse::Failure(msg) => assert_eq!(msg, String::from("Out of bits")),
        HttpScrapeResponse::Success(_) => panic!("expected a failure response"),
    }
}

fn one_entry_response() -> Vec<u8> {
    let mut buf = Vec::new();
    buf.extend_from_slice(b"d5:filesd20:");
    buf.extend_from_slice(&[7u8; 20]);
    buf.extend_from_slice(b"d8:completei10e10:downloadedi32e10:incompletei0eeee");
    buf
}

#[test]
fn one_entry_success() {
    let res = decode_scrape_response(&one_entry_response()).unwrap().result().unwrap();
    assert_eq!(res.len(), 1);
    assert_eq!(
        res.get(&InfoHash::from_array(&[7u8; 20])),
        Some(Scrape { complete: 10, incomplete: 0, downloaded: 32 })
    );
    assert_eq!(res.get(&InfoHash::from_array(&[8u8; 20])), None);
}

#[test]
fn failure_result_is_tracker_failure() {
    let res = decode_scrape_response(b"d14:failure reason11:Out of bitse").unwrap().result();
    match res {
        Err(TrackerError::Failure(msg)) => assert_eq!(msg, "Out of bits"),
        _ => panic!("expected a tracker failure"),
    }
}

#[test]
fn failure_reason_lossy() {
    let res = decode_scrape_response(b"d14:failure reason3:a\xffbe").unwrap();
    match res {
        HttpScrapeResponse::Failure(msg) => assert_eq!(msg, "a\u{FFFD}b"),
        HttpScrapeResponse::Success(_) => panic!("expected a failure response"),
    }
}

#[test]
fn failure_reason_wins_over_files() {
    let res = decode_scrape_response(b"d14:failure reason2:no5:filesdee").unwrap();
    assert!(matches!(res, HttpScrapeResponse::Failure(m) if m == "no"));
}

#[test]
fn trailing_data() {
    let mut buf = one_entry_response();
    buf.extend_from_slice(b"2:hi");
    assert!(matches!(decode_scrape_response(&buf), Err(BencodeError::TrailingData)));
    let mut buf = one_entry_response();
    buf.extend_from_slice(b"qqq");
    assert!(matches!(decode_scrape_response(&buf), Err(BencodeError::TrailingData)));
}

#[test]
fn no_data() {
    assert!(matches!(decode_scrape_response(b""), Err(BencodeError::NoData)));
}

#[test]
fn missing_files() {
    assert!(matches!(
        decode_scrape_response(b"d8:intervali5ee"),
        Err(BencodeError::MissingField(Field::Files))
    ));
}

#[test]
fn missing_counter() {
    let mut buf = Vec::new();
    buf.extend_from_slice(b"d5:filesd20:");
    buf.extend_from_slice(&[7u8; 20]);
    buf.extend_from_slice(b"d8:completei10e10:incompletei0eeee");
    assert!(matches!(
        decode_scrape_response(&buf),
        Err(BencodeError::MissingField(Field::Downloaded))
    ));
}

#[test]
fn unknown_keys_are_skipped() {
    let mut buf = Vec::new();
    buf.extend_from_slice(b"d5:filesd20:");
    buf.extend_from_slice(&[7u8; 20]);
    buf.extend_from_slice(
        b"d8:completei1e10:downloadedi2e10:incompletei3e4:namel1:xi-4ed1:ai1eeeee5:flagsd1:zi0eee",
    );
    let res = decode_scrape_response(&buf).unwrap().result().unwrap();
    assert_eq!(
        res.get(&InfoHash::from_array(&[7u8; 20])),
        Some(Scrape { complete: 1, incomplete: 3, downloaded: 2 })
    );
}

#[test]
fn malformed_hash_key() {
    let buf = b"d5:filesd3:abcd8:completei1e10:downloadedi2e10:incompletei3eeee";
    assert!(matches!(decode_scrape_response(buf), Err(BencodeError::MalformedContent)));
}

#[test]
fn malformed_counter() {
    let mut buf = Vec::new();
    buf.extend_from_slice(b"d5:filesd20:");
    buf.extend_from_slice(&[7u8; 20]);
    buf.extend_from_slice(b"d8:completei-1e10:downloadedi2e10:incompletei3eeee");
    assert!(matches!(decode_scrape_response(&buf), Err(BencodeError::MalformedContent)));
    let mut buf = Vec::new();
    buf.extend_from_slice(b"d5:filesd20:");
    buf.extend_from_slice(&[7u8; 20]);
    buf.extend_from_slice(b"d8:completei4294967296e10:downloadedi2e10:incompletei3eeee");
    assert!(matches!(decode_scrape_response(&buf), Err(BencodeError::MalformedContent)));
}

#[test]
fn largest_counter() {
    let mut buf = Vec::new();
    buf.extend_from_slice(b"d5:filesd20:");
    buf.extend_from_slice(&[7u8; 20]);
    buf.extend_from_slice(b"d8:completei4294967295e10:downloadedi0e10:incompletei3eeee");
    let res = decode_scrape_response(&buf).unwrap().result().unwrap();
    assert_eq!(
        res.get(&InfoHash::from_array(&[7u8; 20])),
        Some(Scrape { complete: 4294967295, incomplete: 3, downloaded: 0 })
    );
}

#[test]
fn unexpected_type() {
    assert!(matches!(decode_scrape_response(b"li1ee"), Err(BencodeError::UnexpectedType)));
    assert!(matches!(
        decode_scrape_response(b"d5:filesi3ee"),
        Err(BencodeError::UnexpectedType)
    ));
}

#[test]
fn syntax_errors() {
    assert!(matches!(decode_scrape_response(b"d5:files"), Err(BencodeError::Syntax)));
    assert!(matches!(decode_scrape_response(b"di1ei2ee"), Err(BencodeError::Syntax)));
    assert!(matches!(decode_scrape_response(b"d1:ai01ee"), Err(BencodeError::Syntax)));
    assert!(matches!(decode_scrape_response(b"d1:ai-0ee"), Err(BencodeError::Syntax)));
    assert!(matches!(decode_scrape_response(b"d1:a9:abce"), Err(BencodeError::Syntax)));
    assert!(matches!(decode_scrape_response(b"x"), Err(BencodeError::Syntax)));
}

#[test]
fn nesting_too_deep() {
    let mut buf = Vec::new();
    buf.extend_from_slice(b"d1:a");
    for _ in 0..2048 {
        buf.push(b'l');
    }
    for _ in 0..2048 {
        buf.push(b'e');
    }
    buf.push(b'e');
    assert!(matches!(decode_scrape_response(&buf), Err(BencodeError::NestingTooDeep)));
}

#[test]
fn http_tracker_scrape_url() {
    let tracker = Tracker::from_str("http://tracker.example.com:8080/x/announce.php?k=v#frag").unwrap();
    match tracker {
        Tracker::Http(t) => {
            let target = t.scrape_url(&[InfoHash::from_array(&[b'a'; 20])]);
            let mut url = t.announce_url().url().clone();
            url.set_path(target.path());
            url.set_fragment(None);
            url.set_query(target.query());
            assert_eq!(
                url.as_str(),
                "http://tracker.example.com:8080/x/scrape.php?k=v&info_hash=aaaaaaaaaaaaaaaaaaaa"
            );
        }
        Tracker::Udp(_) => panic!("expected an HTTP tracker"),
    }
}

#[test]
fn http_tracker_without_announce() {
    assert_eq!(
        Tracker::from_str("http://tracker.example.com/scrape"),
        Err(TrackerUrlError::NoAnnounce)
    );
}

#[test]
fn unsupported_scheme() {
    assert_eq!(
        Tracker::from_str("ftp://tracker.example.com/announce"),
        Err(TrackerUrlError::UnsupportedScheme(String::from("ftp")))
    );
    assert!(matches!(Tracker::from_str("not a url"), Err(TrackerUrlError::Url(_))));
}

#[test]
fn tracker_to_string() {
    let t = Tracker::from_str("https://tracker.example.com/announce").unwrap();
    assert_eq!(t.to_string(), "https://tracker.example.com/announce");
}

#[test]
fn body_to_result() {
    let ok = scrape_result_from_body(&one_entry_response()).unwrap();
    assert_eq!(ok.len(), 1);
    match scrape_result_from_body(b"d14:failure reason11:Out of bitse") {
        Err(TrackerError::Failure(m)) => assert_eq!(m, "Out of bits"),
        other => panic!("unexpected {other:?}"),
    }
    assert_eq!(
        scrape_result_from_body(b"").unwrap_err(),
        TrackerError::Http(HttpTrackerError::ParseResponse(BencodeError::NoData))
    );
}

#[test]
fn tracker_without_host() {
    assert_eq!(Tracker::from_str("udp:/announce"), Err(TrackerUrlError::NoHost));
}
