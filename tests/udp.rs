use trscrape::error::{TrackerError, UdpTrackerError};
use trscrape::infohash::InfoHash;
use trscrape::scrape::Scrape;
use trscrape::session::{Action, Phase, UdpTrackerSession};
use trscrape::tracker::{ParsedUrl, Tracker, TrackerUrlError, UdpUrl};
use trscrape::udp::{
    Response, UdpConnectionRequest, UdpConnectionResponse, UdpScrapeRequest, UdpScrapeResponse,
};
use trscrape::wire::PacketError;

#[test]
fn test_make_connection_request() {
    let req = UdpConnectionRequest {
        transaction_id: 0x5C310D73,
    };
    let buf = req.to_bytes();
    assert_eq!(
        buf,
        b"\x00\x00\x04\x17'\x10\x19\x80\x00\x00\x00\x00\\1\rs".as_slice()
    );
}

#[test]
fn test_parse_connection_response() {
    let buf = b"\x00\x00\x00\x00\\1\rs\\\xcb\xdf\xdb\x15|%\xba".as_slice();
    let res = UdpConnectionResponse::try_from(buf).unwrap();
    assert_eq!(res.transaction_id, 0x5C310D73);
    assert_eq!(res.connection_id, 0x5CCBDFDB157C25BA);
}

#[test]
fn test_udp_url_from_url() {
    let url = ParsedUrl::parse("udp://tracker.opentrackr.org:1337/announce").unwrap();
    let uu = UdpUrl::try_from(url).unwrap();
    assert_eq!(
        uu,
        UdpUrl {
            host: "tracker.opentrackr.org".into(),
            port: 1337,
            urldata: "/announce".into(),
        }
    );
    assert_eq!(uu.to_string(), "udp://tracker.opentrackr.org:1337/announce");
}

#[test]
fn test_udp_url_from_url_no_urldata() {
    let url = ParsedUrl::parse("udp://tracker.opentrackr.org:1337").unwrap();
    let uu = UdpUrl::try_from(url).unwrap();
    assert_eq!(
        uu,
        UdpUrl {
            host: "tracker.opentrackr.org".into(),
            port: 1337,
            urldata: String::new(),
        }
    );
    assert_eq!(uu.to_string(), "udp://tracker.opentrackr.org:1337");
}

#[test]
fn udp_url_with_query_and_ipv6() {
    let url = ParsedUrl::parse("udp://[::1]:6969/announce?x=1").unwrap();
    let uu = UdpUrl::try_from(url).unwrap();
    assert_eq!(uu.port, 6969);
    assert_eq!(uu.urldata, "/announce?x=1");
}

#[test]
fn udp_url_without_port() {
    assert_eq!(
        Tracker::from_str("udp://tracker.opentrackr.org/announce"),
        Err(TrackerUrlError::NoUdpPort)
    );
}

#[test]
fn connection_response_errors() {
    assert_eq!(
        UdpConnectionResponse::try_from(&[0, 0, 0]),
        Err(UdpTrackerError::PacketLen(PacketError::Short))
    );
    assert_eq!(
        UdpConnectionResponse::try_from(&[0, 0, 0, 1, 0, 0, 0, 0, 0, 0, 0, 0, 0, 0, 0, 0]),
        Err(UdpTrackerError::BadAction { expected: 0, got: 1 })
    );
    assert_eq!(
        UdpConnectionResponse::try_from(&[0, 0, 0, 0, 0, 0, 0, 0, 0, 0, 0]),
        Err(UdpTrackerError::PacketLen(PacketError::Short))
    );
}

#[test]
fn scrape_request_bytes() {
    let req = UdpScrapeRequest {
        connection_id: 0x0102030405060708,
        transaction_id: 0x0a0b0c0d,
        info_hashes: vec![InfoHash::from_array(&[0xaa; 20]), InfoHash::from_array(&[0xbb; 20])],
    };
    let bytes = req.to_bytes();
    let mut expected = vec![1, 2, 3, 4, 5, 6, 7, 8, 0, 0, 0, 2, 0x0a, 0x0b, 0x0c, 0x0d];
    expected.extend_from_slice(&[0xaa; 20]);
    expected.extend_from_slice(&[0xbb; 20]);
    assert_eq!(bytes, expected);
}

#[test]
fn scrape_response_parse() {
    let data = [0, 0, 0, 2, 0, 0, 0, 9, 0, 0, 0, 5, 0, 0, 0, 7, 0, 0, 0, 1];
    let resp = UdpScrapeResponse::try_from(&data).unwrap();
    assert_eq!(resp.transaction_id, 9);
    assert_eq!(resp.scrapes, vec![Scrape { complete: 5, incomplete: 1, downloaded: 7 }]);
    assert_eq!(
        UdpScrapeResponse::try_from(&data[..19]),
        Err(UdpTrackerError::PacketLen(PacketError::Short))
    );
    assert_eq!(
        UdpScrapeResponse::try_from(&[0, 0, 0, 0, 0, 0, 0, 9]),
        Err(UdpTrackerError::BadAction { expected: 2, got: 0 })
    );
}

#[test]
fn error_reply() {
    let data = b"\x00\x00\x00\x03\x00\x00\x00\x01bad torrent";
    match Response::<UdpScrapeResponse>::from_scrape_bytes(data) {
        Ok(Response::Failure(m)) => assert_eq!(m, "bad torrent"),
        other => panic!("unexpected {other:?}"),
    }
    assert_eq!(
        Response::<UdpConnectionResponse>::from_connect_bytes(&[0, 0, 0, 3, 0]),
        Err(UdpTrackerError::PacketLen(PacketError::Short))
    );
    match Response::<UdpConnectionResponse>::from_connect_bytes(data).unwrap().ok() {
        Err(TrackerError::Failure(m)) => assert_eq!(m, "bad torrent"),
        other => panic!("unexpected {other:?}"),
    }
}

fn hashes() -> Vec<InfoHash> {
    vec![InfoHash::from_array(&[1; 20]), InfoHash::from_array(&[2; 20])]
}

fn connect_reply(tid: u32, cid: u64) -> Vec<u8> {
    let mut v = vec![0, 0, 0, 0];
    v.extend_from_slice(&tid.to_be_bytes());
    v.extend_from_slice(&cid.to_be_bytes());
    v
}

fn scrape_reply(tid: u32, records: &[(u32, u32, u32)]) -> Vec<u8> {
    let mut v = vec![0, 0, 0, 2];
    v.extend_from_slice(&tid.to_be_bytes());
    for (c, d, i) in records {
        v.extend_from_slice(&c.to_be_bytes());
        v.extend_from_slice(&d.to_be_bytes());
        v.extend_from_slice(&i.to_be_bytes());
    }
    v
}

fn sent(action: &Action) -> (Vec<u8>, u64, Option<u64>) {
    match action {
        Action::Send { message, wait_secs, deadline } => (message.clone(), *wait_secs, *deadline),
        Action::Finish(r) => panic!("unexpected finish {r:?}"),
    }
}

#[test]
fn session_full_exchange() {
    let mut s = UdpTrackerSession::new(hashes());
    let a = s.start_with(1_000, 0x11111111);
    let (msg, wait, deadline) = sent(&a);
    assert_eq!(msg, UdpConnectionRequest { transaction_id: 0x11111111 }.to_bytes());
    assert_eq!((wait, deadline), (15, None));
    let a = s.on_reply_with(&connect_reply(0x11111111, 0xabcdef), 2_000, 0x22222222);
    let (msg, wait, deadline) = sent(&a);
    assert_eq!(&msg[..8], &0xabcdefu64.to_be_bytes());
    assert_eq!(&msg[8..16], &[0, 0, 0, 2, 0x22, 0x22, 0x22, 0x22]);
    assert_eq!(msg.len(), 16 + 40);
    assert_eq!((wait, deadline), (15, Some(62_000)));
    let a = s.on_reply_with(&scrape_reply(0x22222222, &[(5, 7, 1), (0, 0, 0)]), 3_000, 0);
    match a {
        Action::Finish(Ok(m)) => {
            assert_eq!(m.len(), 2);
            assert_eq!(
                m.get(&InfoHash::from_array(&[1; 20])),
                Some(Scrape { complete: 5, incomplete: 1, downloaded: 7 })
            );
            assert_eq!(
                m.get(&InfoHash::from_array(&[2; 20])),
                Some(Scrape { complete: 0, incomplete: 0, downloaded: 0 })
            );
        }
        other => panic!("unexpected {other:?}"),
    }
    assert!(!s.is_waiting());
}

#[test]
fn session_random_transaction_ids() {
    let mut s = UdpTrackerSession::new(hashes());
    let a = s.start(0);
    let (msg, _, _) = sent(&a);
    let tid = u32::from_be_bytes([msg[12], msg[13], msg[14], msg[15]]);
    let a = s.on_reply(&connect_reply(tid, 5), 10);
    let (msg, _, _) = sent(&a);
    let tid = u32::from_be_bytes([msg[12], msg[13], msg[14], msg[15]]);
    let a = s.on_reply(&scrape_reply(tid, &[(1, 2, 3), (4, 5, 6)]), 20);
    assert!(matches!(a, Action::Finish(Ok(_))));
}

#[test]
fn session_connect_mismatch() {
    let mut s = UdpTrackerSession::new(hashes());
    s.start_with(0, 7);
    let a = s.on_reply_with(&connect_reply(8, 5), 10, 9);
    assert!(matches!(
        a,
        Action::Finish(Err(TrackerError::Udp(UdpTrackerError::XactionMismatch { expected: 7, got: 8 })))
    ));
}

#[test]
fn session_scrape_mismatch() {
    let mut s = UdpTrackerSession::new(hashes());
    s.start_with(0, 7);
    s.on_reply_with(&connect_reply(7, 5), 10, 9);
    let a = s.on_reply_with(&scrape_reply(10, &[(1, 2, 3), (4, 5, 6)]), 20, 0);
    assert!(matches!(
        a,
        Action::Finish(Err(TrackerError::Udp(UdpTrackerError::XactionMismatch { expected: 9, got: 10 })))
    ));
}

#[test]
fn session_record_count_mismatch() {
    let mut s = UdpTrackerSession::new(hashes());
    s.start_with(0, 7);
    s.on_reply_with(&connect_reply(7, 5), 10, 9);
    let a = s.on_reply_with(&scrape_reply(9, &[(1, 2, 3)]), 20, 0);
    assert!(matches!(
        a,
        Action::Finish(Err(TrackerError::Udp(UdpTrackerError::PacketLen(PacketError::Short))))
    ));
}

#[test]
fn session_bad_action() {
    let mut s = UdpTrackerSession::new(hashes());
    s.start_with(0, 7);
    let a = s.on_reply_with(&scrape_reply(7, &[]), 10, 9);
    assert!(matches!(
        a,
        Action::Finish(Err(TrackerError::Udp(UdpTrackerError::BadAction { expected: 0, got: 2 })))
    ));
}

#[test]
fn session_backoff() {
    let mut s = UdpTrackerSession::new(hashes());
    let first = sent(&s.start_with(0, 7)).0;
    let mut waits = Vec::new();
    for _ in 0..12 {
        let (msg, wait, deadline) = sent(&s.on_timeout_with(0, 99));
        assert_eq!(msg, first);
        assert_eq!(deadline, None);
        waits.push(wait);
    }
    assert_eq!(
        waits,
        vec![30, 60, 120, 240, 480, 960, 1920, 3840, 3840, 3840, 3840, 3840]
    );
    assert_eq!(s.phase_of(), Phase::Connecting { transaction_id: 7 });
}

#[test]
fn session_reconnects_when_connection_expires() {
    let mut s = UdpTrackerSession::new(hashes());
    s.start_with(0, 7);
    s.on_reply_with(&connect_reply(7, 5), 1_000, 9);
    let (_, wait, deadline) = sent(&s.on_timeout_with(30_000, 11));
    assert_eq!((wait, deadline), (30, Some(61_000)));
    let (msg, wait, deadline) = sent(&s.on_timeout_with(61_000, 12));
    assert_eq!(msg, UdpConnectionRequest { transaction_id: 12 }.to_bytes());
    assert_eq!((wait, deadline), (15, None));
}

#[test]
fn session_reuses_live_connection() {
    let mut s = UdpTrackerSession::new(hashes());
    s.start_with(0, 7);
    s.on_reply_with(&connect_reply(7, 5), 1_000, 9);
    s.on_reply_with(&scrape_reply(9, &[(1, 2, 3), (4, 5, 6)]), 2_000, 0);
    let (msg, _, deadline) = sent(&s.start_with(3_000, 13));
    assert_eq!(&msg[..8], &5u64.to_be_bytes());
    assert_eq!(deadline, Some(61_000));
    let mut s2 = UdpTrackerSession::new(hashes());
    s2.start_with(0, 7);
    s2.on_reply_with(&connect_reply(7, 5), 1_000, 9);
    s2.on_reply_with(&scrape_reply(9, &[(1, 2, 3), (4, 5, 6)]), 2_000, 0);
    let (msg, _, _) = sent(&s2.start_with(61_000, 14));
    assert_eq!(msg, UdpConnectionRequest { transaction_id: 14 }.to_bytes());
}

#[test]
fn session_error_reply() {
    let mut s = UdpTrackerSession::new(hashes());
    s.start_with(0, 7);
    let a = s.on_reply_with(b"\x00\x00\x00\x03\x00\x00\x00\x07Out of bits", 10, 9);
    match a {
        Action::Finish(Err(TrackerError::Failure(m))) => assert_eq!(m, "Out of bits"),
        other => panic!("unexpected {other:?}"),
    }
}

#[test]
fn session_no_hashes() {
    let mut s = UdpTrackerSession::new(Vec::new());
    match s.start_with(0, 7) {
        Action::Finish(Ok(m)) => assert!(m.is_empty()),
        other => panic!("unexpected {other:?}"),
    }
}

#[test]
fn session_repeated_hash_keeps_last() {
    let h = InfoHash::from_array(&[3; 20]);
    let mut s = UdpTrackerSession::new(vec![h, h]);
    s.start_with(0, 7);
    s.on_reply_with(&connect_reply(7, 5), 10, 9);
    match s.on_reply_with(&scrape_reply(9, &[(1, 2, 3), (4, 5, 6)]), 20, 0) {
        Action::Finish(Ok(m)) => {
            assert_eq!(m.len(), 1);
            assert_eq!(m.get(&h), Some(Scrape { complete: 4, incomplete: 6, downloaded: 5 }));
        }
        other => panic!("unexpected {other:?}"),
    }
}
