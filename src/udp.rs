//! The UDP tracker protocol (BEP 15): its messages, and a session that
//! connects, scrapes, retries with backoff and reconnects when its
//! pseudo-connection expires.  The session decides; its caller does the I/O.
use crate::error::{TrackerError, UdpTrackerError};
use crate::infohash::{group_info_hash, InfoHash};
use crate::scrape::Scrape;
use crate::wire::{
    be_u32_of, be_u64_of, put_u32, put_u64, records_of, u32_be, u64_be, utf8_lossy, PacketError,
    TryBytes,
};
use vstd::prelude::*;

verus! {

broadcast use group_info_hash;

/// The magic number that opens a connect request.
pub const PROTOCOL_ID: u64 = 0x41727101980;

pub const CONNECT_ACTION: u32 = 0;

pub const SCRAPE_ACTION: u32 = 2;

pub const ERROR_ACTION: u32 = 3;

/// The bytes of a connect request.
pub open spec fn connect_request(transaction_id: u32) -> Seq<u8> {
    u64_be(PROTOCOL_ID) + u32_be(CONNECT_ACTION) + u32_be(transaction_id)
}

/// The info-hashes, twenty bytes each, back to back.
pub open spec fn hashes_bytes(hashes: Seq<InfoHash>) -> Seq<u8>
    decreases hashes.len(),
{
    if hashes.len() == 0 {
        Seq::empty()
    } else {
        hashes_bytes(hashes.drop_last()) + hashes.last()@
    }
}

/// The bytes of a scrape request.
pub open spec fn scrape_request(connection_id: u64, transaction_id: u32, hashes: Seq<InfoHash>) -> Seq<u8> {
    u64_be(connection_id) + u32_be(SCRAPE_ACTION) + u32_be(transaction_id) + hashes_bytes(hashes)
}

#[derive(Clone, Copy, Debug, PartialEq, Eq, Structural)]
pub struct UdpConnectionRequest {
    pub transaction_id: u32,
}

impl UdpConnectionRequest {
    pub fn to_bytes(&self) -> (r: Vec<u8>)
        ensures
            r@ == connect_request(self.transaction_id),
    {
        let mut buf: Vec<u8> = Vec::new();
        put_u64(&mut buf, PROTOCOL_ID);
        put_u32(&mut buf, CONNECT_ACTION);
        put_u32(&mut buf, self.transaction_id);
        assert(buf@ =~= connect_request(self.transaction_id));
        buf
    }
}

#[derive(Clone, Copy, Debug, PartialEq, Eq, Structural)]
pub struct UdpConnectionResponse {
    pub transaction_id: u32,
    pub connection_id: u64,
}

/// What a connect response says: action 0, the transaction ID and the
/// connection ID.  Bytes after those sixteen are ignored.
pub open spec fn connect_response(b: Seq<u8>) -> Result<UdpConnectionResponse, UdpTrackerError> {
    if b.len() < 4 {
        Err(UdpTrackerError::PacketLen(PacketError::Short))
    } else if be_u32_of(b) != CONNECT_ACTION {
        Err(UdpTrackerError::BadAction { expected: CONNECT_ACTION, got: be_u32_of(b) as u32 })
    } else if b.len() < 16 {
        Err(UdpTrackerError::PacketLen(PacketError::Short))
    } else {
        Ok(
            UdpConnectionResponse {
                transaction_id: be_u32_of(b.subrange(4, 8)) as u32,
                connection_id: be_u64_of(b.subrange(8, 16)) as u64,
            },
        )
    }
}

impl UdpConnectionResponse {
    pub fn try_from(buf: &[u8]) -> (r: Result<UdpConnectionResponse, UdpTrackerError>)
        ensures
            r == connect_response(buf@),
    {
        let mut cur = TryBytes::from_slice(buf);
        let action = match cur.try_get_u32() {
            Ok(a) => a,
            Err(e) => {
                return Err(UdpTrackerError::PacketLen(e));
            },
        };
        if action != CONNECT_ACTION {
            return Err(UdpTrackerError::BadAction { expected: CONNECT_ACTION, got: action });
        }
        let transaction_id = match cur.try_get_u32() {
            Ok(t) => t,
            Err(e) => {
                return Err(UdpTrackerError::PacketLen(e));
            },
        };
        let connection_id = match cur.try_get_u64() {
            Ok(c) => c,
            Err(e) => {
                return Err(UdpTrackerError::PacketLen(e));
            },
        };
        proof {
            let b = buf@;
            assert(b.subrange(4, b.len() as int).subrange(4, b.len() - 4) =~= b.subrange(8, b.len() as int));
            assert(be_u32_of(b.subrange(4, b.len() as int)) == be_u32_of(b.subrange(4, 8)));
            let t = b.subrange(8, b.len() as int);
            assert(t.subrange(4, 8) =~= b.subrange(8, 16).subrange(4, 8));
            assert(be_u64_of(t) == be_u64_of(b.subrange(8, 16)));
        }
        Ok(UdpConnectionResponse { transaction_id, connection_id })
    }
}

#[derive(Clone, Debug)]
pub struct UdpScrapeRequest {
    pub connection_id: u64,
    pub transaction_id: u32,
    pub info_hashes: Vec<InfoHash>,
}

impl UdpScrapeRequest {
    pub fn to_bytes(&self) -> (r: Vec<u8>)
        ensures
            r@ == scrape_request(self.connection_id, self.transaction_id, self.info_hashes@),
    {
        let mut buf: Vec<u8> = Vec::new();
        put_u64(&mut buf, self.connection_id);
        put_u32(&mut buf, SCRAPE_ACTION);
        put_u32(&mut buf, self.transaction_id);
        let ghost head = buf@;
        let mut i: usize = 0;
        while i < self.info_hashes.len()
            invariant
                i <= self.info_hashes@.len(),
                buf@ == head + hashes_bytes(self.info_hashes@.subrange(0, i as int)),
            decreases self.info_hashes@.len() - i,
        {
            let bytes = self.info_hashes[i].as_bytes();
            let mut j: usize = 0;
            let ghost before = buf@;
            while j < bytes.len()
                invariant
                    j <= bytes@.len(),
                    buf@ == before + bytes@.subrange(0, j as int),
                decreases bytes@.len() - j,
            {
                buf.push(bytes[j]);
                j = j + 1;
                assert(buf@ =~= before + bytes@.subrange(0, j as int));
            }
            proof {
                let hs = self.info_hashes@.subrange(0, i + 1);
                assert(hs.drop_last() =~= self.info_hashes@.subrange(0, i as int));
                assert(bytes@.subrange(0, j as int) =~= bytes@);
                assert(buf@ =~= head + hashes_bytes(hs));
            }
            i = i + 1;
        }
        assert(self.info_hashes@.subrange(0, i as int) =~= self.info_hashes@);
        assert(buf@ =~= scrape_request(self.connection_id, self.transaction_id, self.info_hashes@));
        buf
    }
}

#[derive(Clone, Debug, PartialEq, Eq)]
pub struct UdpScrapeResponse {
    pub transaction_id: u32,
    pub scrapes: Vec<Scrape>,
}

/// What a scrape response says: action 2, the transaction ID, and twelve
/// bytes per torrent up to the end of the packet.
pub open spec fn scrape_response(b: Seq<u8>) -> Result<(u32, Seq<Scrape>), UdpTrackerError> {
    if b.len() < 4 {
        Err(UdpTrackerError::PacketLen(PacketError::Short))
    } else if be_u32_of(b) != SCRAPE_ACTION {
        Err(UdpTrackerError::BadAction { expected: SCRAPE_ACTION, got: be_u32_of(b) as u32 })
    } else if b.len() < 8 {
        Err(UdpTrackerError::PacketLen(PacketError::Short))
    } else {
        match records_of::<Scrape>(b.subrange(8, b.len() as int)) {
            Some(rs) => Ok((be_u32_of(b.subrange(4, 8)) as u32, rs)),
            None => Err(UdpTrackerError::PacketLen(PacketError::Short)),
        }
    }
}

impl UdpScrapeResponse {
    pub fn try_from(buf: &[u8]) -> (r: Result<UdpScrapeResponse, UdpTrackerError>)
        ensures
            match scrape_response(buf@) {
                Ok((t, rs)) => r matches Ok(resp) && resp.transaction_id == t && resp.scrapes@ == rs,
                Err(e) => r == Err::<UdpScrapeResponse, UdpTrackerError>(e),
            },
    {
        let mut cur = TryBytes::from_slice(buf);
        let action = match cur.try_get_u32() {
            Ok(a) => a,
            Err(e) => {
                return Err(UdpTrackerError::PacketLen(e));
            },
        };
        if action != SCRAPE_ACTION {
            return Err(UdpTrackerError::BadAction { expected: SCRAPE_ACTION, got: action });
        }
        let transaction_id = match cur.try_get_u32() {
            Ok(t) => t,
            Err(e) => {
                return Err(UdpTrackerError::PacketLen(e));
            },
        };
        proof {
            let b = buf@;
            assert(b.subrange(4, b.len() as int).subrange(4, b.len() - 4) =~= b.subrange(8, b.len() as int));
            assert(be_u32_of(b.subrange(4, b.len() as int)) == be_u32_of(b.subrange(4, 8)));
        }
        match cur.try_get_all::<Scrape>() {
            Ok(scrapes) => Ok(UdpScrapeResponse { transaction_id, scrapes }),
            Err(e) => Err(UdpTrackerError::PacketLen(e)),
        }
    }
}

/// A reply that carries either what was asked for or the tracker's error message.
#[derive(Clone, Debug, PartialEq, Eq)]
pub enum Response<T> {
    Success(T),
    Failure(String),
}

impl<T> Response<T> {
    /// The payload, or the tracker's message as an error.
    pub fn ok(self) -> (r: Result<T, TrackerError>)
        ensures
            match self {
                Response::Success(x) => r == Ok::<T, TrackerError>(x),
                Response::Failure(msg) => r matches Err(TrackerError::Failure(m)) && m@ == msg@,
            },
    {
        match self {
            Response::Success(x) => Ok(x),
            Response::Failure(msg) => Err(TrackerError::Failure(msg)),
        }
    }
}

/// The packet starts with the error action.
pub open spec fn is_error_reply(b: Seq<u8>) -> bool {
    b.len() >= 4 && be_u32_of(b) == ERROR_ACTION
}

/// Reads an error reply: the action, a transaction ID that is not checked,
/// and the message up to the end of the packet.
fn error_reply_message(buf: &[u8]) -> (r: Result<String, UdpTrackerError>)
    requires
        is_error_reply(buf@),
    ensures
        buf@.len() < 8 ==> r == Err::<String, UdpTrackerError>(
            UdpTrackerError::PacketLen(PacketError::Short),
        ),
        buf@.len() >= 8 ==> (r matches Ok(m) && m@ == utf8_lossy(
            buf@.subrange(8, buf@.len() as int),
        )),
{
    let mut cur = TryBytes::from_slice(buf);
    let _action = cur.try_get_u32();
    match cur.try_get_u32() {
        Ok(_) => {},
        Err(e) => {
            return Err(UdpTrackerError::PacketLen(e));
        },
    }
    proof {
        let b = buf@;
        assert(b.subrange(4, b.len() as int).subrange(4, b.len() - 4) =~= b.subrange(8, b.len() as int));
    }
    Ok(cur.into_string_lossy())
}

impl Response<UdpConnectionResponse> {
    pub fn from_connect_bytes(buf: &[u8]) -> (r: Result<Response<UdpConnectionResponse>, UdpTrackerError>)
        ensures
            is_error_reply(buf@) && buf@.len() < 8 ==> r == Err::<Response<UdpConnectionResponse>, UdpTrackerError>(
                UdpTrackerError::PacketLen(PacketError::Short),
            ),
            is_error_reply(buf@) && buf@.len() >= 8 ==> (r matches Ok(Response::Failure(m))
                && m@ == utf8_lossy(buf@.subrange(8, buf@.len() as int))),
            !is_error_reply(buf@) ==> match connect_response(buf@) {
                Ok(c) => r == Ok::<Response<UdpConnectionResponse>, UdpTrackerError>(Response::Success(c)),
                Err(e) => r == Err::<Response<UdpConnectionResponse>, UdpTrackerError>(e),
            },
    {
        if buf.len() >= 4 && read_action(buf) == ERROR_ACTION {
            match error_reply_message(buf) {
                Ok(m) => Ok(Response::Failure(m)),
                Err(e) => Err(e),
            }
        } else {
            match UdpConnectionResponse::try_from(buf) {
                Ok(c) => Ok(Response::Success(c)),
                Err(e) => Err(e),
            }
        }
    }
}

impl Response<UdpScrapeResponse> {
    pub fn from_scrape_bytes(buf: &[u8]) -> (r: Result<Response<UdpScrapeResponse>, UdpTrackerError>)
        ensures
            is_error_reply(buf@) && buf@.len() < 8 ==> r == Err::<Response<UdpScrapeResponse>, UdpTrackerError>(
                UdpTrackerError::PacketLen(PacketError::Short),
            ),
            is_error_reply(buf@) && buf@.len() >= 8 ==> (r matches Ok(Response::Failure(m))
                && m@ == utf8_lossy(buf@.subrange(8, buf@.len() as int))),
            !is_error_reply(buf@) ==> match scrape_response(buf@) {
                Ok((t, rs)) => r matches Ok(Response::Success(resp)) && resp.transaction_id == t
                    && resp.scrapes@ == rs,
                Err(e) => r == Err::<Response<UdpScrapeResponse>, UdpTrackerError>(e),
            },
    {
        if buf.len() >= 4 && read_action(buf) == ERROR_ACTION {
            match error_reply_message(buf) {
                Ok(m) => Ok(Response::Failure(m)),
                Err(e) => Err(e),
            }
        } else {
            match UdpScrapeResponse::try_from(buf) {
                Ok(c) => Ok(Response::Success(c)),
                Err(e) => Err(e),
            }
        }
    }
}

/// The first four bytes of a packet, most significant first.
fn read_action(buf: &[u8]) -> (r: u32)
    requires
        buf@.len() >= 4,
    ensures
        r == be_u32_of(buf@),
{
    let mut cur = TryBytes::from_slice(buf);
    match cur.try_get_u32() {
        Ok(a) => a,
        Err(_) => 0,
    }
}

} // verus!
