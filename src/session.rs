//! The UDP tracker session as a state machine.  Its caller sends the message
//! of each `Action::Send`, waits for a reply at most `wait_secs` seconds (and
//! never past `deadline`), and hands back what happened; the session decides
//! what to send next, or finishes.  Instants are milliseconds on the caller's
//! monotonic clock.
use crate::error::{TrackerError, UdpTrackerError};
use crate::infohash::{group_info_hash, InfoHash};
use crate::scrape::{Scrape, ScrapeMap};
use crate::udp::{
    connect_request, connect_response, is_error_reply, scrape_request, scrape_response, Response,
    UdpConnectionRequest, UdpConnectionResponse, UdpScrapeRequest, UdpScrapeResponse,
};
use crate::wire::{utf8_lossy, PacketError};
use vstd::arithmetic::power2::{lemma2_to64, lemma_pow2_unfold, pow2};
use vstd::prelude::*;

verus! {

broadcast use group_info_hash;

/// How long a pseudo-connection lasts after it is made.
pub const CONNECTION_LIFETIME_MS: u64 = 60_000;

/// The wait for the first reply of an exchange.
pub const BASE_TIMEOUT_SECS: u64 = 15;

/// The wait doubles after each timeout, this many times at most.
pub const MAX_BACKOFF_EXPONENT: u32 = 8;

/// The wait, in seconds, after `attempt` doublings.
pub open spec fn wait_secs_for(attempt: nat) -> nat {
    (BASE_TIMEOUT_SECS * pow2(attempt)) as nat
}

/// The doubling count after one more timeout.
pub open spec fn next_attempt(attempt: nat) -> nat {
    if attempt < MAX_BACKOFF_EXPONENT {
        attempt + 1
    } else {
        attempt
    }
}

/// The doubling count after `k` timeouts in a row, from the start of an exchange.
pub open spec fn attempt_after(k: nat) -> nat
    decreases k,
{
    if k == 0 {
        0
    } else {
        next_attempt(attempt_after((k - 1) as nat))
    }
}

/// After `k` timeouts in a row an exchange waits 15 * 2^min(k, 8) seconds: the
/// wait doubles up to 3840 seconds and then stays there, with no limit on the
/// number of attempts.
pub proof fn lemma_backoff_schedule(k: nat)
    ensures
        attempt_after(k) == if k < 8 {
            k
        } else {
            8
        },
        wait_secs_for(attempt_after(k)) == 15 * pow2(if k < 8 {
            k
        } else {
            8
        }),
        wait_secs_for(attempt_after(k)) <= 3840,
        k >= 8 ==> wait_secs_for(attempt_after(k)) == 3840,
    decreases k,
{
    lemma2_to64();
    if k > 0 {
        lemma_backoff_schedule((k - 1) as nat);
    }
    let a = attempt_after(k);
    assert(a <= 8);
    assert(pow2(a) <= 256) by {
        if a == 0 {} else if a == 1 {} else if a == 2 {} else if a == 3 {} else if a == 4 {}
        else if a == 5 {} else if a == 6 {} else if a == 7 {} else {}
    }
}

/// Computes `15 * 2^attempt`.
fn wait_secs(attempt: u32) -> (r: u64)
    requires
        attempt <= MAX_BACKOFF_EXPONENT,
    ensures
        r == wait_secs_for(attempt as nat),
        r <= 3840,
{
    proof {
        lemma2_to64();
    }
    let mut w: u64 = BASE_TIMEOUT_SECS;
    let mut i: u32 = 0;
    while i < attempt
        invariant
            i <= attempt <= 8,
            w == 15 * pow2(i as nat),
            pow2(8) == 256,
        decreases attempt - i,
    {
        proof {
            lemma_pow2_unfold((i + 1) as nat);
            assert(pow2(i as nat) <= 128) by {
                if i == 0 {} else if i == 1 {} else if i == 2 {} else if i == 3 {} else if i == 4 {}
                else if i == 5 {} else if i == 6 {} else {}
                lemma2_to64();
            }
        }
        w = w * 2;
        i = i + 1;
    }
    assert(pow2(i as nat) <= 256) by {
        lemma2_to64();
        if i == 0 {} else if i == 1 {} else if i == 2 {} else if i == 3 {} else if i == 4 {}
        else if i == 5 {} else if i == 6 {} else if i == 7 {} else {}
    }
    w
}

/// A BEP 15 pseudo-connection: its ID and the instant it expires.
#[derive(Clone, Copy, Debug, PartialEq, Eq, Structural)]
pub struct Connection {
    pub id: u64,
    pub expiration: u64,
}

/// Where the session stands.
#[derive(Clone, Copy, Debug, PartialEq, Eq, Structural)]
pub enum Phase {
    Idle,
    /// A connect request with this transaction ID is out.
    Connecting { transaction_id: u32 },
    /// A scrape request with this transaction ID is out over `conn`.
    Scraping { transaction_id: u32, conn: Connection },
    Done,
}

/// What the caller does next.
#[derive(Debug)]
pub enum Action {
    /// Send `message`, then wait for one reply at most `wait_secs` seconds and
    /// never past the instant `deadline`.
    Send { message: Vec<u8>, wait_secs: u64, deadline: Option<u64> },
    /// The scrape is over.
    Finish(Result<ScrapeMap, TrackerError>),
}

/// The scrapes paired with the hashes that were asked for, in order; a hash
/// asked for twice keeps its last scrape.
pub open spec fn zip_map(hashes: Seq<InfoHash>, scrapes: Seq<Scrape>) -> Map<Seq<u8>, Scrape>
    decreases hashes.len(),
{
    if hashes.len() == 0 || scrapes.len() == 0 {
        Map::empty()
    } else {
        zip_map(hashes.drop_last(), scrapes.drop_last()).insert(hashes.last()@, scrapes.last())
    }
}

/// Pairs each scrape with the hash at the same place.
fn zip_scrapes(hashes: &Vec<InfoHash>, scrapes: &Vec<Scrape>) -> (r: ScrapeMap)
    requires
        hashes@.len() == scrapes@.len(),
    ensures
        r@ == zip_map(hashes@, scrapes@),
{
    let mut m = ScrapeMap::new();
    let mut i: usize = 0;
    while i < hashes.len()
        invariant
            hashes@.len() == scrapes@.len(),
            i <= hashes@.len(),
            m@ == zip_map(hashes@.subrange(0, i as int), scrapes@.subrange(0, i as int)),
        decreases hashes@.len() - i,
    {
        m.insert(hashes[i], scrapes[i]);
        proof {
            let hs = hashes@.subrange(0, i + 1);
            let ss = scrapes@.subrange(0, i + 1);
            assert(hs.drop_last() =~= hashes@.subrange(0, i as int));
            assert(ss.drop_last() =~= scrapes@.subrange(0, i as int));
        }
        i = i + 1;
    }
    assert(hashes@.subrange(0, i as int) =~= hashes@);
    assert(scrapes@.subrange(0, i as int) =~= scrapes@);
    m
}

/// Relies on `rand::random` for a transaction ID: any `u32`, nothing is
/// promised of which.  It panics only when the operating system's random
/// source cannot seed the thread-local generator.
#[verifier::external_body]
fn make_transaction_id() -> (r: u32) {
    rand::random::<u32>()
}

/// One scrape of a UDP tracker.
#[derive(Debug)]
pub struct UdpTrackerSession {
    hashes: Vec<InfoHash>,
    conn: Option<Connection>,
    phase: Phase,
    attempt: u32,
    message: Vec<u8>,
}

impl UdpTrackerSession {
    pub closed spec fn hashes_view(&self) -> Seq<InfoHash> {
        self.hashes@
    }

    pub closed spec fn conn_view(&self) -> Option<Connection> {
        self.conn
    }

    pub closed spec fn phase_view(&self) -> Phase {
        self.phase
    }

    /// How many times the wait of the current exchange has doubled.
    pub closed spec fn attempt_view(&self) -> nat {
        self.attempt as nat
    }

    /// The message of the current exchange.
    pub closed spec fn message_view(&self) -> Seq<u8> {
        self.message@
    }

    #[verifier::type_invariant]
    spec fn inv(&self) -> bool {
        self.attempt <= MAX_BACKOFF_EXPONENT
    }

    /// The session waits for a reply.
    pub open spec fn is_waiting_spec(&self) -> bool {
        self.phase_view() is Connecting || self.phase_view() is Scraping
    }

    pub fn new(hashes: Vec<InfoHash>) -> (r: UdpTrackerSession)
        ensures
            r.hashes_view() == hashes@,
            r.attempt_view() == 0,
            r.conn_view() == None::<Connection>,
            r.phase_view() == Phase::Idle,
    {
        UdpTrackerSession { hashes, conn: None, phase: Phase::Idle, attempt: 0, message: Vec::new() }
    }

    pub fn phase_of(&self) -> (r: Phase)
        ensures
            r == self.phase_view(),
    {
        self.phase
    }

    pub fn is_waiting(&self) -> (r: bool)
        ensures
            r == self.is_waiting_spec(),
    {
        match self.phase {
            Phase::Connecting { .. } => true,
            Phase::Scraping { .. } => true,
            _ => false,
        }
    }

    /// Opens a connect exchange.
    fn send_connect(&mut self, transaction_id: u32) -> (r: Action)
        ensures
            final(self).hashes_view() == old(self).hashes_view(),
            final(self).conn_view() == old(self).conn_view(),
            final(self).phase_view() == (Phase::Connecting { transaction_id }),
            final(self).attempt_view() == 0,
            final(self).message_view() == connect_request(transaction_id),
            r matches Action::Send { message, wait_secs, deadline } && message@ == connect_request(
                transaction_id,
            ) && wait_secs == BASE_TIMEOUT_SECS && deadline is None,
    {
        proof {
            use_type_invariant(&*self);
        }
        let req = UdpConnectionRequest { transaction_id };
        self.message = req.to_bytes();
        self.phase = Phase::Connecting { transaction_id };
        self.attempt = 0;
        Action::Send { message: req.to_bytes(), wait_secs: BASE_TIMEOUT_SECS, deadline: None }
    }

    /// Opens a scrape exchange over `conn`.
    fn send_scrape(&mut self, conn: Connection, transaction_id: u32) -> (r: Action)
        ensures
            final(self).hashes_view() == old(self).hashes_view(),
            final(self).conn_view() == old(self).conn_view(),
            final(self).phase_view() == (Phase::Scraping { transaction_id, conn }),
            final(self).attempt_view() == 0,
            final(self).message_view() == scrape_request(conn.id, transaction_id, old(self).hashes_view()),
            r matches Action::Send { message, wait_secs, deadline } && message@ == scrape_request(
                conn.id,
                transaction_id,
                old(self).hashes_view(),
            ) && wait_secs == BASE_TIMEOUT_SECS && deadline == Some(conn.expiration),
    {
        proof {
            use_type_invariant(&*self);
        }
        let req = UdpScrapeRequest {
            connection_id: conn.id,
            transaction_id,
            info_hashes: copy_hashes(&self.hashes),
        };
        self.message = req.to_bytes();
        self.phase = Phase::Scraping { transaction_id, conn };
        self.attempt = 0;
        Action::Send { message: req.to_bytes(), wait_secs: BASE_TIMEOUT_SECS, deadline: Some(conn.expiration) }
    }

    /// Ends the session with `result`.
    fn finish(&mut self, result: Result<ScrapeMap, TrackerError>) -> (r: Action)
        ensures
            final(self).hashes_view() == old(self).hashes_view(),
            final(self).conn_view() == old(self).conn_view(),
            final(self).phase_view() == Phase::Done,
            final(self).attempt_view() == 0,
            r == Action::Finish(result),
    {
        proof {
            use_type_invariant(&*self);
        }
        self.phase = Phase::Done;
        self.attempt = 0;
        Action::Finish(result)
    }
}

/// The session sent a connect request with `tid`, as the first attempt of a
/// new exchange.
pub open spec fn sends_connect(post: UdpTrackerSession, tid: u32, r: Action) -> bool {
    &&& post.phase_view() == (Phase::Connecting { transaction_id: tid })
    &&& post.attempt_view() == 0
    &&& post.message_view() == connect_request(tid)
    &&& r matches Action::Send { message, wait_secs, deadline }
    &&& message@ == connect_request(tid)
    &&& wait_secs == BASE_TIMEOUT_SECS
    &&& deadline is None
}

/// The session sent a scrape request over `c` with `tid`, as the first
/// attempt of a new exchange that ends when `c` expires.
pub open spec fn sends_scrape(post: UdpTrackerSession, c: Connection, tid: u32, r: Action) -> bool {
    &&& post.conn_view() == Some(c)
    &&& post.phase_view() == (Phase::Scraping { transaction_id: tid, conn: c })
    &&& post.attempt_view() == 0
    &&& post.message_view() == scrape_request(c.id, tid, post.hashes_view())
    &&& r matches Action::Send { message, wait_secs, deadline }
    &&& message@ == post.message_view()
    &&& wait_secs == BASE_TIMEOUT_SECS
    &&& deadline == Some(c.expiration)
}

/// The session finished with the error `e`.
pub open spec fn fails_with(post: UdpTrackerSession, r: Action, e: TrackerError) -> bool {
    &&& post.phase_view() == Phase::Done
    &&& r == Action::Finish(Err(e))
}

/// The session finished with the tracker's error message `raw`.
pub open spec fn fails_with_message(post: UdpTrackerSession, r: Action, raw: Seq<u8>) -> bool {
    &&& post.phase_view() == Phase::Done
    &&& r matches Action::Finish(Err(TrackerError::Failure(m)))
    &&& m@ == utf8_lossy(raw)
}

/// What starting a scrape at `now` does, with `tid` for a request.
pub open spec fn start_post(
    pre: UdpTrackerSession,
    post: UdpTrackerSession,
    now: u64,
    tid: u32,
    r: Action,
) -> bool {
    &&& post.hashes_view() == pre.hashes_view()
    &&& post.attempt_view() <= MAX_BACKOFF_EXPONENT
    &&& if pre.hashes_view().len() == 0 {
        &&& post.phase_view() == Phase::Done
        &&& post.conn_view() == pre.conn_view()
        &&& r matches Action::Finish(Ok(m))
        &&& m@ == Map::<Seq<u8>, Scrape>::empty()
    } else {
        match pre.conn_view() {
            Some(c) => if now < c.expiration {
                sends_scrape(post, c, tid, r)
            } else {
                post.conn_view() == None::<Connection> && sends_connect(post, tid, r)
            },
            None => post.conn_view() == None::<Connection> && sends_connect(post, tid, r),
        }
    }
}

/// What a reply `data` received at `now` does, with `tid` for a next request.
pub open spec fn reply_post(
    pre: UdpTrackerSession,
    post: UdpTrackerSession,
    data: Seq<u8>,
    now: u64,
    tid: u32,
    r: Action,
) -> bool {
    &&& post.hashes_view() == pre.hashes_view()
    &&& post.attempt_view() <= MAX_BACKOFF_EXPONENT
    &&& if is_error_reply(data) {
        &&& post.conn_view() == pre.conn_view()
        &&& if data.len() < 8 {
            fails_with(post, r, TrackerError::Udp(UdpTrackerError::PacketLen(PacketError::Short)))
        } else {
            fails_with_message(post, r, data.subrange(8, data.len() as int))
        }
    } else {
        match pre.phase_view() {
            Phase::Connecting { transaction_id } => match connect_response(data) {
                Err(e) => post.conn_view() == pre.conn_view() && fails_with(
                    post,
                    r,
                    TrackerError::Udp(e),
                ),
                Ok(resp) => if resp.transaction_id != transaction_id {
                    post.conn_view() == pre.conn_view() && fails_with(
                        post,
                        r,
                        TrackerError::Udp(
                            UdpTrackerError::XactionMismatch {
                                expected: transaction_id,
                                got: resp.transaction_id,
                            },
                        ),
                    )
                } else {
                    sends_scrape(
                        post,
                        Connection {
                            id: resp.connection_id,
                            expiration: now.saturating_add(CONNECTION_LIFETIME_MS),
                        },
                        tid,
                        r,
                    )
                },
            },
            Phase::Scraping { transaction_id, conn } => {
                &&& post.conn_view() == pre.conn_view()
                &&& match scrape_response(data) {
                    Err(e) => fails_with(post, r, TrackerError::Udp(e)),
                    Ok((got, scrapes)) => if got != transaction_id {
                        fails_with(
                            post,
                            r,
                            TrackerError::Udp(
                                UdpTrackerError::XactionMismatch { expected: transaction_id, got },
                            ),
                        )
                    } else if scrapes.len() != pre.hashes_view().len() {
                        fails_with(
                            post,
                            r,
                            TrackerError::Udp(UdpTrackerError::PacketLen(PacketError::Short)),
                        )
                    } else {
                        &&& post.phase_view() == Phase::Done
                        &&& r matches Action::Finish(Ok(m))
                        &&& m@ == zip_map(pre.hashes_view(), scrapes)
                    },
                }
            },
            _ => false,
        }
    }
}

/// A scrape exchange is out over a connection that has expired by `now`.
pub open spec fn expired_at(phase: Phase, now: u64) -> bool {
    match phase {
        Phase::Scraping { conn, .. } => now >= conn.expiration,
        _ => false,
    }
}

/// What a wait that ended at `now` without a reply does, with `tid` for a
/// new request.
pub open spec fn timeout_post(
    pre: UdpTrackerSession,
    post: UdpTrackerSession,
    now: u64,
    tid: u32,
    r: Action,
) -> bool {
    &&& post.hashes_view() == pre.hashes_view()
    &&& post.attempt_view() <= MAX_BACKOFF_EXPONENT
    &&& if expired_at(pre.phase_view(), now) {
        post.conn_view() == None::<Connection> && sends_connect(post, tid, r)
    } else {
        &&& post.conn_view() == pre.conn_view()
        &&& post.phase_view() == pre.phase_view()
        &&& post.message_view() == pre.message_view()
        &&& post.attempt_view() == next_attempt(pre.attempt_view())
        &&& r matches Action::Send { message, wait_secs, deadline }
        &&& message@ == pre.message_view()
        &&& wait_secs == wait_secs_for(post.attempt_view())
        &&& wait_secs <= 3840
        &&& deadline == match pre.phase_view() {
            Phase::Scraping { conn, .. } => Some(conn.expiration),
            _ => None,
        }
    }
}

impl UdpTrackerSession {
    /// Starts a scrape at `now`, with `transaction_id` for its first request.
    pub fn start_with(&mut self, now: u64, transaction_id: u32) -> (r: Action)
        ensures
            start_post(*old(self), *final(self), now, transaction_id, r),
    {
        proof {
            use_type_invariant(&*self);
        }
        if self.hashes.len() == 0 {
            return self.finish(Ok(ScrapeMap::new()));
        }
        match self.conn {
            Some(c) => {
                if now < c.expiration {
                    return self.send_scrape(c, transaction_id);
                }
            },
            None => {},
        }
        self.conn = None;
        self.send_connect(transaction_id)
    }

    /// Starts a scrape at `now`.
    pub fn start(&mut self, now: u64) -> (r: Action)
        ensures
            exists|tid: u32| start_post(*old(self), *final(self), now, tid, r),
    {
        proof {
            use_type_invariant(&*self);
        }
        let tid = make_transaction_id();
        self.start_with(now, tid)
    }

    /// Takes the reply `data` that came at `now`, with `transaction_id` for a
    /// request that may follow.
    pub fn on_reply_with(&mut self, data: &[u8], now: u64, transaction_id: u32) -> (r: Action)
        requires
            old(self).is_waiting_spec(),
        ensures
            reply_post(*old(self), *final(self), data@, now, transaction_id, r),
    {
        proof {
            use_type_invariant(&*self);
        }
        match self.phase {
            Phase::Connecting { transaction_id: expected } => {
                match Response::<UdpConnectionResponse>::from_connect_bytes(data) {
                    Err(e) => self.finish(Err(TrackerError::Udp(e))),
                    Ok(Response::Failure(msg)) => self.finish(Err(TrackerError::Failure(msg))),
                    Ok(Response::Success(resp)) => {
                        if resp.transaction_id != expected {
                            return self.finish(
                                Err(
                                    TrackerError::Udp(
                                        UdpTrackerError::XactionMismatch {
                                            expected,
                                            got: resp.transaction_id,
                                        },
                                    ),
                                ),
                            );
                        }
                        let conn = Connection {
                            id: resp.connection_id,
                            expiration: now.saturating_add(CONNECTION_LIFETIME_MS),
                        };
                        self.conn = Some(conn);
                        self.send_scrape(conn, transaction_id)
                    },
                }
            },
            Phase::Scraping { transaction_id: expected, .. } => {
                match Response::<UdpScrapeResponse>::from_scrape_bytes(data) {
                    Err(e) => self.finish(Err(TrackerError::Udp(e))),
                    Ok(Response::Failure(msg)) => self.finish(Err(TrackerError::Failure(msg))),
                    Ok(Response::Success(resp)) => {
                        if resp.transaction_id != expected {
                            return self.finish(
                                Err(
                                    TrackerError::Udp(
                                        UdpTrackerError::XactionMismatch {
                                            expected,
                                            got: resp.transaction_id,
                                        },
                                    ),
                                ),
                            );
                        }
                        if resp.scrapes.len() != self.hashes.len() {
                            return self.finish(
                                Err(TrackerError::Udp(UdpTrackerError::PacketLen(PacketError::Short))),
                            );
                        }
                        let m = zip_scrapes(&self.hashes, &resp.scrapes);
                        self.finish(Ok(m))
                    },
                }
            },
            _ => self.finish(Ok(ScrapeMap::new())),
        }
    }

    /// Takes the reply `data` that came at `now`.
    pub fn on_reply(&mut self, data: &[u8], now: u64) -> (r: Action)
        requires
            old(self).is_waiting_spec(),
        ensures
            exists|tid: u32| reply_post(*old(self), *final(self), data@, now, tid, r),
    {
        proof {
            use_type_invariant(&*self);
        }
        let tid = make_transaction_id();
        self.on_reply_with(data, now, tid)
    }

    /// Takes a wait that ended at `now` without a reply, with
    /// `transaction_id` for a request that may follow.
    pub fn on_timeout_with(&mut self, now: u64, transaction_id: u32) -> (r: Action)
        requires
            old(self).is_waiting_spec(),
        ensures
            timeout_post(*old(self), *final(self), now, transaction_id, r),
    {
        proof {
            use_type_invariant(&*self);
        }
        let deadline = match self.phase {
            Phase::Scraping { conn, .. } => {
                if now >= conn.expiration {
                    self.conn = None;
                    return self.send_connect(transaction_id);
                }
                Some(conn.expiration)
            },
            _ => None,
        };
        if self.attempt < MAX_BACKOFF_EXPONENT {
            self.attempt = self.attempt + 1;
        }
        let message = copy_message(&self.message);
        Action::Send { message, wait_secs: wait_secs(self.attempt), deadline }
    }

    /// Takes a wait that ended at `now` without a reply.
    pub fn on_timeout(&mut self, now: u64) -> (r: Action)
        requires
            old(self).is_waiting_spec(),
        ensures
            exists|tid: u32| timeout_post(*old(self), *final(self), now, tid, r),
    {
        proof {
            use_type_invariant(&*self);
        }
        let tid = make_transaction_id();
        self.on_timeout_with(now, tid)
    }
}

/// A fresh vector of the same bytes.
fn copy_message(m: &Vec<u8>) -> (r: Vec<u8>)
    ensures
        r@ == m@,
{
    crate::wire::copy_bytes(m.as_slice())
}

/// A fresh vector of the same hashes.
fn copy_hashes(hashes: &Vec<InfoHash>) -> (r: Vec<InfoHash>)
    ensures
        r@ == hashes@,
{
    let mut out: Vec<InfoHash> = Vec::new();
    let mut i: usize = 0;
    while i < hashes.len()
        invariant
            i <= hashes@.len(),
            out@ == hashes@.subrange(0, i as int),
        decreases hashes@.len() - i,
    {
        out.push(hashes[i]);
        i = i + 1;
        assert(out@ =~= hashes@.subrange(0, i as int));
    }
    assert(out@ =~= hashes@);
    out
}

/// A reply whose transaction ID differs from the one just sent ends the
/// session with `XactionMismatch`, and no scrapes are returned.
pub proof fn lemma_mismatched_transaction_fails(
    pre: UdpTrackerSession,
    post: UdpTrackerSession,
    data: Seq<u8>,
    now: u64,
    tid: u32,
    r: Action,
)
    requires
        reply_post(pre, post, data, now, tid, r),
        !is_error_reply(data),
        match pre.phase_view() {
            Phase::Connecting { transaction_id } => connect_response(data) matches Ok(resp)
                && resp.transaction_id != transaction_id,
            Phase::Scraping { transaction_id, .. } => scrape_response(data) matches Ok((got, _))
                && got != transaction_id,
            _ => false,
        },
    ensures
        post.phase_view() == Phase::Done,
        r matches Action::Finish(Err(TrackerError::Udp(UdpTrackerError::XactionMismatch { .. }))),
{
}

/// While the connection lasts, a wait that ends without a reply never ends the
/// exchange: the same message goes out again and the wait doubles, up to
/// 3840 seconds.  After `k` timeouts in a row the next wait is
/// `15 * 2^min(k + 1, 8)` seconds.
pub proof fn lemma_timeout_keeps_retrying(
    pre: UdpTrackerSession,
    post: UdpTrackerSession,
    now: u64,
    tid: u32,
    r: Action,
    k: nat,
)
    requires
        timeout_post(pre, post, now, tid, r),
        !expired_at(pre.phase_view(), now),
        pre.attempt_view() == attempt_after(k),
    ensures
        post.phase_view() == pre.phase_view(),
        post.attempt_view() == attempt_after(k + 1),
        r matches Action::Send { message, wait_secs, .. } && message@ == pre.message_view()
            && wait_secs == wait_secs_for(attempt_after(k + 1)) && wait_secs <= 3840,
{
    lemma_backoff_schedule(k + 1);
}

/// A scrape of no info-hashes sends nothing and yields an empty map.
pub proof fn lemma_no_hashes_no_work(
    pre: UdpTrackerSession,
    post: UdpTrackerSession,
    now: u64,
    tid: u32,
    r: Action,
)
    requires
        start_post(pre, post, now, tid, r),
        pre.hashes_view().len() == 0,
    ensures
        post.phase_view() == Phase::Done,
        r matches Action::Finish(Ok(m)) && m@ == Map::<Seq<u8>, Scrape>::empty(),
{
}

} // verus!
