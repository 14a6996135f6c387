use trscrape::infohash::InfoHash;
use trscrape::scrape::Scrape;
use trscrape::wire::{put_u32, put_u64, PacketError, TryBytes};

#[test]
fn test_try_get_u32() {
    let mut buf = TryBytes::from_slice(b"0123abc".as_slice());
    assert_eq!(buf.try_get::<u32>(), Ok(0x30313233));
    assert_eq!(buf.try_get::<u32>(), Err(PacketError::Short));
}

#[test]
fn test_try_get_u64() {
    let mut buf = TryBytes::from_slice(b"01234567abcde".as_slice());
    assert_eq!(buf.try_get::<u64>(), Ok(0x3031323334353637));
    assert_eq!(buf.try_get::<u64>(), Err(PacketError::Short));
}

#[test]
fn short_read_leaves_cursor() {
    let mut buf = TryBytes::from_slice(&[1, 2, 3]);
    assert_eq!(buf.try_get::<u32>(), Err(PacketError::Short));
    assert_eq!(buf.remaining(), 3);
    assert_eq!(buf.try_get::<InfoHash>(), Err(PacketError::Short));
}

#[test]
fn put_then_get() {
    let mut v = Vec::new();
    put_u64(&mut v, 0x0102030405060708);
    put_u32(&mut v, 0xdeadbeef);
    assert_eq!(v, vec![1, 2, 3, 4, 5, 6, 7, 8, 0xde, 0xad, 0xbe, 0xef]);
    let mut buf = TryBytes::new(v);
    assert_eq!(buf.try_get::<u64>(), Ok(0x0102030405060708));
    assert_eq!(buf.try_get::<u32>(), Ok(0xdeadbeef));
    assert!(!buf.has_remaining());
}

#[test]
fn get_all_whole_records() {
    let data: Vec<u8> = vec![0, 0, 0, 5, 0, 0, 0, 7, 0, 0, 0, 1, 0, 0, 1, 0, 0, 0, 0, 0, 0, 0, 0, 2];
    let buf = TryBytes::new(data);
    let scrapes = buf.try_get_all::<Scrape>().unwrap();
    assert_eq!(
        scrapes,
        vec![
            Scrape { complete: 5, incomplete: 1, downloaded: 7 },
            Scrape { complete: 256, incomplete: 2, downloaded: 0 },
        ]
    );
}

#[test]
fn get_all_partial_record() {
    let data: Vec<u8> = vec![0; 12 + 11];
    let buf = TryBytes::new(data);
    assert_eq!(buf.try_get_all::<Scrape>(), Err(PacketError::Short));
    let buf = TryBytes::new(vec![0; 5]);
    assert_eq!(buf.try_get_all::<u32>(), Err(PacketError::Short));
    let buf = TryBytes::new(Vec::new());
    assert_eq!(buf.try_get_all::<u64>(), Ok(Vec::new()));
}

#[test]
fn lossy_rest() {
    let mut buf = TryBytes::from_slice(b"\x00\x00\x00\x03ab\xffc");
    assert_eq!(buf.try_get::<u32>(), Ok(3));
    assert_eq!(buf.into_string_lossy(), "ab\u{FFFD}c");
}
