//! The ways a scrape can fail.
use crate::bencode::BencodeError;
use crate::wire::PacketError;
use vstd::prelude::*;
use vstd::string::StringExecFns;

verus! {

/// Failures of the UDP tracker protocol.  I/O failures carry the text of the
/// underlying error.
#[derive(Clone, Debug, PartialEq, Eq)]
pub enum UdpTrackerError {
    Lookup(String),
    NoResolve,
    Bind(String),
    Connect(String),
    Send(String),
    Recv(String),
    PacketLen(PacketError),
    BadAction { expected: u32, got: u32 },
    XactionMismatch { expected: u32, got: u32 },
}

/// Failures of an HTTP tracker request.  Transport failures carry the text of
/// the underlying error.
#[derive(Clone, Debug, PartialEq, Eq)]
pub enum HttpTrackerError {
    BuildClient(String),
    SendRequest(String),
    HttpStatus(String),
    ReadBody(String),
    ParseResponse(BencodeError),
}

/// Why a scrape did not produce statistics.
#[derive(Clone, Debug, PartialEq, Eq)]
pub enum TrackerError {
    Timeout,
    Failure(String),
    Http(HttpTrackerError),
    Udp(UdpTrackerError),
}

impl UdpTrackerError {
    pub fn message(&self) -> (r: String) {
        match self {
            UdpTrackerError::Lookup(_) => String::from_str("failed to resolve remote hostname"),
            UdpTrackerError::NoResolve => String::from_str(
                "remote hostname did not resolve to any IP addresses",
            ),
            UdpTrackerError::Bind(_) => String::from_str("failed to bind UDP socket"),
            UdpTrackerError::Connect(_) => String::from_str("failed to connect UDP socket"),
            UdpTrackerError::Send(_) => String::from_str("failed to send UDP packet"),
            UdpTrackerError::Recv(_) => String::from_str("failed to receive UDP packet"),
            UdpTrackerError::PacketLen(_) => String::from_str(
                "UDP tracker sent response with invalid length",
            ),
            UdpTrackerError::BadAction { .. } => String::from_str(
                "UDP tracker sent response with unexpected or unsupported action",
            ),
            UdpTrackerError::XactionMismatch { .. } => String::from_str(
                "response from UDP tracker did not contain expected transaction ID",
            ),
        }
    }
}

impl HttpTrackerError {
    pub fn message(&self) -> (r: String) {
        match self {
            HttpTrackerError::BuildClient(_) => String::from_str("failed to build HTTP client"),
            HttpTrackerError::SendRequest(_) => String::from_str(
                "failed to send request to HTTP tracker",
            ),
            HttpTrackerError::HttpStatus(_) => String::from_str(
                "HTTP tracker responded with HTTP error",
            ),
            HttpTrackerError::ReadBody(_) => String::from_str(
                "failed to read HTTP tracker response",
            ),
            HttpTrackerError::ParseResponse(_) => String::from_str(
                "failed to parse HTTP tracker response",
            ),
        }
    }
}

impl TrackerError {
    pub fn message(&self) -> (r: String) {
        match self {
            TrackerError::Timeout => String::from_str(
                "interactions with tracker did not complete in time",
            ),
            TrackerError::Failure(msg) => {
                let mut s = String::from_str("tracker replied with error message: ");
                s.append(msg.as_str());
                s
            },
            TrackerError::Http(e) => e.message(),
            TrackerError::Udp(e) => e.message(),
        }
    }
}

} // verus!
