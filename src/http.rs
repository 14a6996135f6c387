//! The body of an HTTP tracker's scrape response: a bencoded dictionary with
//! either `files` (info-hash to counters) or `failure reason`.
use crate::bencode::{
    bytes_at, decimal, int_text_end, int_text_end_exec, is_digit, lemma_decimal_prefix,
    lemma_parse_extend, parse_dict_items, parse_value, value_end, Bencode, BencodeError, Field, MAX_DEPTH,
};
use crate::error::{HttpTrackerError, TrackerError};
use crate::infohash::InfoHash;
use crate::scrape::{Scrape, ScrapeMap};
use crate::wire::{string_from_utf8_lossy, utf8_lossy};
use vstd::prelude::*;

verus! {

pub open spec fn key_files() -> Seq<u8> {
    seq![102u8, 105, 108, 101, 115]
}

pub open spec fn key_failure_reason() -> Seq<u8> {
    seq![102u8, 97, 105, 108, 117, 114, 101, 32, 114, 101, 97, 115, 111, 110]
}

pub open spec fn key_complete() -> Seq<u8> {
    seq![99u8, 111, 109, 112, 108, 101, 116, 101]
}

pub open spec fn key_downloaded() -> Seq<u8> {
    seq![100u8, 111, 119, 110, 108, 111, 97, 100, 101, 100]
}

pub open spec fn key_incomplete() -> Seq<u8> {
    seq![105u8, 110, 99, 111, 109, 112, 108, 101, 116, 101]
}

/// A counter: an integer that is not negative and fits in 32 bits.
pub open spec fn counter_of(v: Bencode) -> Result<u32, BencodeError> {
    match v {
        Bencode::Int(t) => {
            if t.len() > 0 && t[0] != 45 && decimal(t) <= u32::MAX {
                Ok(decimal(t) as u32)
            } else {
                Err(BencodeError::MalformedContent)
            }
        },
        _ => Err(BencodeError::UnexpectedType),
    }
}

/// The counters `complete`, `downloaded` and `incomplete` that the entries
/// `ps` of a files entry set, read in order; a later entry overrides an
/// earlier one and other keys are ignored.
pub open spec fn entry_fields(ps: Seq<(Seq<u8>, Bencode)>) -> Result<
    (Option<u32>, Option<u32>, Option<u32>),
    BencodeError,
>
    decreases ps.len(),
{
    if ps.len() == 0 {
        Ok((None, None, None))
    } else {
        match entry_fields(ps.drop_last()) {
            Err(e) => Err(e),
            Ok((c, d, n)) => {
                let (k, v) = ps.last();
                if k == key_complete() {
                    match counter_of(v) {
                        Ok(x) => Ok((Some(x), d, n)),
                        Err(e) => Err(e),
                    }
                } else if k == key_downloaded() {
                    match counter_of(v) {
                        Ok(x) => Ok((c, Some(x), n)),
                        Err(e) => Err(e),
                    }
                } else if k == key_incomplete() {
                    match counter_of(v) {
                        Ok(x) => Ok((c, d, Some(x))),
                        Err(e) => Err(e),
                    }
                } else {
                    Ok((c, d, n))
                }
            },
        }
    }
}

/// The scrape that a files entry stands for.
pub open spec fn entry_of(v: Bencode) -> Result<Scrape, BencodeError> {
    match v {
        Bencode::Dict(ps) => match entry_fields(ps) {
            Err(e) => Err(e),
            Ok((None, _, _)) => Err(BencodeError::MissingField(Field::Complete)),
            Ok((_, None, _)) => Err(BencodeError::MissingField(Field::Downloaded)),
            Ok((_, _, None)) => Err(BencodeError::MissingField(Field::Incomplete)),
            Ok((Some(c), Some(d), Some(n))) => Ok(
                Scrape { complete: c, incomplete: n, downloaded: d },
            ),
        },
        _ => Err(BencodeError::UnexpectedType),
    }
}

/// The scrapes that the entries `ps` of the `files` dictionary give, keyed by
/// info-hash; each key must be twenty bytes.
pub open spec fn files_map(ps: Seq<(Seq<u8>, Bencode)>) -> Result<
    Map<Seq<u8>, Scrape>,
    BencodeError,
>
    decreases ps.len(),
{
    if ps.len() == 0 {
        Ok(Map::empty())
    } else {
        match files_map(ps.drop_last()) {
            Err(e) => Err(e),
            Ok(m) => {
                let (k, v) = ps.last();
                if k.len() != 20 {
                    Err(BencodeError::MalformedContent)
                } else {
                    match entry_of(v) {
                        Ok(sc) => Ok(m.insert(k, sc)),
                        Err(e) => Err(e),
                    }
                }
            },
        }
    }
}

pub open spec fn files_of(v: Bencode) -> Result<Map<Seq<u8>, Scrape>, BencodeError> {
    match v {
        Bencode::Dict(ps) => files_map(ps),
        _ => Err(BencodeError::UnexpectedType),
    }
}

/// The `files` map and the `failure reason` bytes that the top-level entries
/// `ps` set, read in order.
pub open spec fn top_fields(ps: Seq<(Seq<u8>, Bencode)>) -> Result<
    (Option<Map<Seq<u8>, Scrape>>, Option<Seq<u8>>),
    BencodeError,
>
    decreases ps.len(),
{
    if ps.len() == 0 {
        Ok((None, None))
    } else {
        match top_fields(ps.drop_last()) {
            Err(e) => Err(e),
            Ok((f, r)) => {
                let (k, v) = ps.last();
                if k == key_files() {
                    match files_of(v) {
                        Ok(m) => Ok((Some(m), r)),
                        Err(e) => Err(e),
                    }
                } else if k == key_failure_reason() {
                    match v {
                        Bencode::Bytes(b) => Ok((f, Some(b))),
                        _ => Err(BencodeError::UnexpectedType),
                    }
                } else {
                    Ok((f, r))
                }
            },
        }
    }
}

/// What a scrape response says.
pub enum ScrapeReply {
    Success(Map<Seq<u8>, Scrape>),
    /// The tracker's message, as raw bytes.
    Failure(Seq<u8>),
}

/// The reply that a decoded value stands for; a failure reason takes
/// precedence over files.
pub open spec fn reply_of(v: Bencode) -> Result<ScrapeReply, BencodeError> {
    match v {
        Bencode::Dict(ps) => match top_fields(ps) {
            Err(e) => Err(e),
            Ok((_, Some(r))) => Ok(ScrapeReply::Failure(r)),
            Ok((Some(m), None)) => Ok(ScrapeReply::Success(m)),
            Ok((None, None)) => Err(BencodeError::MissingField(Field::Files)),
        },
        _ => Err(BencodeError::UnexpectedType),
    }
}

/// `s[a..b]` holds the bytes of `key`.
fn key_matches(s: &[u8], a: usize, b: usize, key: &[u8]) -> (r: bool)
    requires
        a <= b <= s@.len(),
    ensures
        r == (s@.subrange(a as int, b as int) == key@),
{
    if b - a != key.len() {
        return false;
    }
    let mut j: usize = 0;
    while j < key.len()
        invariant
            a <= b <= s@.len(),
            b - a == key@.len(),
            j <= key@.len(),
            forall|m: int| 0 <= m < j ==> s@[a + m] == key@[m],
        decreases key@.len() - j,
    {
        if s[a + j] != key[j] {
            assert(s@.subrange(a as int, b as int)[j as int] != key@[j as int]);
            return false;
        }
        j = j + 1;
    }
    assert(s@.subrange(a as int, b as int) =~= key@);
    true
}

proof fn lemma_entry_fields_err(a: Seq<(Seq<u8>, Bencode)>, b: Seq<(Seq<u8>, Bencode)>)
    requires
        entry_fields(a) is Err,
    ensures
        entry_fields(a + b) == entry_fields(a),
    decreases b.len(),
{
    if b.len() > 0 {
        lemma_entry_fields_err(a, b.drop_last());
        assert((a + b).drop_last() =~= a + b.drop_last());
    } else {
        assert(a + b =~= a);
    }
}

proof fn lemma_files_map_err(a: Seq<(Seq<u8>, Bencode)>, b: Seq<(Seq<u8>, Bencode)>)
    requires
        files_map(a) is Err,
    ensures
        files_map(a + b) == files_map(a),
    decreases b.len(),
{
    if b.len() > 0 {
        lemma_files_map_err(a, b.drop_last());
        assert((a + b).drop_last() =~= a + b.drop_last());
    } else {
        assert(a + b =~= a);
    }
}

proof fn lemma_top_fields_err(a: Seq<(Seq<u8>, Bencode)>, b: Seq<(Seq<u8>, Bencode)>)
    requires
        top_fields(a) is Err,
    ensures
        top_fields(a + b) == top_fields(a),
    decreases b.len(),
{
    if b.len() > 0 {
        lemma_top_fields_err(a, b.drop_last());
        assert((a + b).drop_last() =~= a + b.drop_last());
    } else {
        assert(a + b =~= a);
    }
}

/// Reads the counter that starts at `q`.
fn read_counter(s: &[u8], q: usize, d: usize) -> (r: Result<(u32, usize), BencodeError>)
    requires
        parse_value(s@, q as int, d as nat) is Ok,
    ensures
        match parse_value(s@, q as int, d as nat) {
            Ok((v, l)) => match counter_of(v) {
                Ok(x) => r is Ok && r->Ok_0.0 == x && r->Ok_0.1 == l,
                Err(e) => r == Err::<(u32, usize), BencodeError>(e),
            },
            Err(_) => false,
        },
{
    if s[q] != 105 {
        return Err(BencodeError::UnexpectedType);
    }
    let k = match int_text_end_exec(s, q + 1, 101) {
        Some(k) => k,
        None => {
            return Err(BencodeError::Syntax);
        },
    };
    let ghost t = s@.subrange(q + 1, k as int);
    if s[q + 1] == 45 {
        return Err(BencodeError::MalformedContent);
    }
    let mut val: u64 = 0;
    let mut j = q + 1;
    while j < k
        invariant
            q + 1 <= j <= k,
            k < s@.len(),
            s@[q + 1] != 45,
            s@[q as int] == 105,
            parse_value(s@, q as int, d as nat) is Ok,
            int_text_end(s@, q + 1, 101) == Some(k as int),
            t == s@.subrange(q + 1, k as int),
            forall|m: int| q + 1 <= m < k ==> is_digit(#[trigger] s@[m]),
            val == decimal(s@.subrange(q + 1, j as int)),
            val <= u32::MAX,
        decreases k - j,
    {
        let next = val * 10 + (s[j] - 48) as u64;
        proof {
            let p = s@.subrange(q + 1, j + 1);
            assert(p.drop_last() =~= s@.subrange(q + 1, j as int));
            assert(decimal(p) == next);
        }
        if next > 0xffff_ffff {
            proof {
                assert forall|m: int| 0 <= m < t.len() implies is_digit(#[trigger] t[m]) by {
                    assert(t[m] == s@[q + 1 + m]);
                }
                lemma_decimal_prefix(t, j + 1 - (q + 1));
                assert(t.subrange(0, j + 1 - (q + 1)) =~= s@.subrange(q + 1, j + 1));
            }
            return Err(BencodeError::MalformedContent);
        }
        val = next;
        j = j + 1;
    }
    Ok((val as u32, k + 1))
}

/// Reads the files entry that starts at `q`.
fn read_entry(s: &[u8], q: usize, d: usize) -> (r: Result<(Scrape, usize), BencodeError>)
    requires
        parse_value(s@, q as int, d as nat) is Ok,
    ensures
        match parse_value(s@, q as int, d as nat) {
            Ok((v, l)) => match entry_of(v) {
                Ok(x) => r is Ok && r->Ok_0.0 == x && r->Ok_0.1 == l,
                Err(e) => r == Err::<(Scrape, usize), BencodeError>(e),
            },
            Err(_) => false,
        },
{
    if s[q] != 100 {
        return Err(BencodeError::UnexpectedType);
    }
    let key_c: [u8; 8] = [99, 111, 109, 112, 108, 101, 116, 101];
    let key_d: [u8; 10] = [100, 111, 119, 110, 108, 111, 97, 100, 101, 100];
    let key_i: [u8; 10] = [105, 110, 99, 111, 109, 112, 108, 101, 116, 101];
    assert(key_c@ =~= key_complete());
    assert(key_d@ =~= key_downloaded());
    assert(key_i@ =~= key_incomplete());
    let d2 = d - 1;
    let mut complete: Option<u32> = None;
    let mut downloaded: Option<u32> = None;
    let mut incomplete: Option<u32> = None;
    let mut p = q + 1;
    let ghost mut done: Seq<(Seq<u8>, Bencode)> = Seq::empty();
    proof {
        if let Ok((rest, e)) = parse_dict_items(s@, p as int, d2 as nat) {
            assert(done + rest =~= rest);
        }
    }
    while s[p] != 101
        invariant
            d > 0,
            d2 == d - 1,
            s@[q as int] == 100,
            key_c@ == key_complete(),
            key_d@ == key_downloaded(),
            key_i@ == key_incomplete(),
            parse_value(s@, q as int, d as nat) is Ok,
            p < s@.len(),
            parse_dict_items(s@, q + 1, d2 as nat) == match parse_dict_items(
                s@,
                p as int,
                d2 as nat,
            ) {
                Ok((rest, e)) => Ok((done + rest, e)),
                Err(e) => Err(e),
            },
            entry_fields(done) == Ok::<_, BencodeError>((complete, downloaded, incomplete)),
        decreases s@.len() - p,
    {
        let (ka, kb) = match bytes_at(s, p) {
            Ok(r) => r,
            Err(e) => {
                return Err(e);
            },
        };
        let ghost key = s@.subrange(ka as int, kb as int);
        let ghost v = parse_value(s@, kb as int, d2 as nat)->Ok_0.0;
        let ghost l = parse_value(s@, kb as int, d2 as nat)->Ok_0.1;
        let ghost rest_after = parse_dict_items(s@, l, d2 as nat);
        let which: u8 = if key_matches(s, ka, kb, &key_c) {
            0
        } else if key_matches(s, ka, kb, &key_d) {
            1
        } else if key_matches(s, ka, kb, &key_i) {
            2
        } else {
            3
        };
        assert(which == 0 <==> key == key_complete());
        assert(which == 1 <==> key != key_complete() && key == key_downloaded());
        assert(which == 2 <==> key != key_complete() && key != key_downloaded() && key == key_incomplete());
        let l_exec: usize;
        if which < 3 {
            match read_counter(s, kb, d2) {
                Ok((x, e)) => {
                    if which == 0 {
                        complete = Some(x);
                    } else if which == 1 {
                        downloaded = Some(x);
                    } else {
                        incomplete = Some(x);
                    }
                    l_exec = e;
                },
                Err(e) => {
                    proof {
                        assert(counter_of(v) == Err::<u32, BencodeError>(e));
                        assert(done.push((key, v)).drop_last() =~= done);
                        assert(entry_fields(done.push((key, v))) == Err::<(Option<u32>, Option<u32>, Option<u32>), BencodeError>(e));
                        lemma_entry_fields_err(done.push((key, v)), rest_after->Ok_0.0);
                        assert(done + (seq![(key, v)] + rest_after->Ok_0.0) =~= done.push((key, v)) + rest_after->Ok_0.0);
                    }
                    return Err(e);
                },
            }
        } else {
            match value_end(s, kb, d2) {
                Ok(e) => {
                    l_exec = e;
                },
                Err(e) => {
                    assert(parse_value(s@, kb as int, d2 as nat) is Ok);
                    return Err(e);
                },
            }
        }
        proof {
            assert(l_exec == l);
            let rest = rest_after->Ok_0.0;
            assert(done.push((key, v)) + rest =~= done + (seq![(key, v)] + rest));
            assert(done.push((key, v)).drop_last() =~= done);
            done = done.push((key, v));
        }
        p = l_exec;
    }
    proof {
        assert(done + Seq::<(Seq<u8>, Bencode)>::empty() =~= done);
    }
    match (complete, downloaded, incomplete) {
        (Some(c), Some(dl), Some(n)) => Ok((Scrape { complete: c, incomplete: n, downloaded: dl }, p + 1)),
        (None, _, _) => Err(BencodeError::MissingField(Field::Complete)),
        (_, None, _) => Err(BencodeError::MissingField(Field::Downloaded)),
        (_, _, None) => Err(BencodeError::MissingField(Field::Incomplete)),
    }
}

/// Reads the `files` dictionary that starts at `q`.
fn read_files(s: &[u8], q: usize, d: usize) -> (r: Result<(ScrapeMap, usize), BencodeError>)
    requires
        parse_value(s@, q as int, d as nat) is Ok,
    ensures
        match parse_value(s@, q as int, d as nat) {
            Ok((v, l)) => match files_of(v) {
                Ok(m) => r is Ok && r->Ok_0.0@ == m && r->Ok_0.1 == l,
                Err(e) => r == Err::<(ScrapeMap, usize), BencodeError>(e),
            },
            Err(_) => false,
        },
{
    if s[q] != 100 {
        return Err(BencodeError::UnexpectedType);
    }
    let d2 = d - 1;
    let mut map = ScrapeMap::new();
    let mut p = q + 1;
    let ghost mut done: Seq<(Seq<u8>, Bencode)> = Seq::empty();
    proof {
        if let Ok((rest, e)) = parse_dict_items(s@, p as int, d2 as nat) {
            assert(done + rest =~= rest);
        }
    }
    while s[p] != 101
        invariant
            d > 0,
            d2 == d - 1,
            s@[q as int] == 100,
            parse_value(s@, q as int, d as nat) is Ok,
            p < s@.len(),
            parse_dict_items(s@, q + 1, d2 as nat) == match parse_dict_items(
                s@,
                p as int,
                d2 as nat,
            ) {
                Ok((rest, e)) => Ok((done + rest, e)),
                Err(e) => Err(e),
            },
            files_map(done) == Ok::<_, BencodeError>(map@),
        decreases s@.len() - p,
    {
        let (ka, kb) = match bytes_at(s, p) {
            Ok(r) => r,
            Err(e) => {
                return Err(e);
            },
        };
        let ghost key = s@.subrange(ka as int, kb as int);
        let ghost v = parse_value(s@, kb as int, d2 as nat)->Ok_0.0;
        let ghost l = parse_value(s@, kb as int, d2 as nat)->Ok_0.1;
        let ghost rest_after = parse_dict_items(s@, l, d2 as nat);
        proof {
            assert(done.push((key, v)).drop_last() =~= done);
            assert(done + (seq![(key, v)] + rest_after->Ok_0.0) =~= done.push((key, v))
                + rest_after->Ok_0.0);
        }
        let hash = match InfoHash::try_from_slice(&s[ka..kb]) {
            Ok(h) => h,
            Err(_) => {
                proof {
                    lemma_files_map_err(done.push((key, v)), rest_after->Ok_0.0);
                }
                return Err(BencodeError::MalformedContent);
            },
        };
        let (scrape, l_exec) = match read_entry(s, kb, d2) {
            Ok(r) => r,
            Err(e) => {
                proof {
                    lemma_files_map_err(done.push((key, v)), rest_after->Ok_0.0);
                }
                return Err(e);
            },
        };
        map.insert(hash, scrape);
        proof {
            let rest = rest_after->Ok_0.0;
            assert(done.push((key, v)) + rest =~= done + (seq![(key, v)] + rest));
            done = done.push((key, v));
        }
        p = l_exec;
    }
    proof {
        assert(done + Seq::<(Seq<u8>, Bencode)>::empty() =~= done);
    }
    Ok((map, p + 1))
}

/// A decoded scrape response.
#[derive(Debug)]
pub enum HttpScrapeResponse {
    Success(ScrapeMap),
    Failure(String),
}

impl HttpScrapeResponse {
    /// This response says what `reply` says; a failure message is the
    /// tracker's bytes read as UTF-8 with invalid sequences replaced.
    pub open spec fn stands_for(&self, reply: ScrapeReply) -> bool {
        match (self, reply) {
            (HttpScrapeResponse::Success(m), ScrapeReply::Success(spec_m)) => m@ == spec_m,
            (HttpScrapeResponse::Failure(msg), ScrapeReply::Failure(raw)) => msg@ == utf8_lossy(raw),
            _ => false,
        }
    }

    /// The scrapes, or the tracker's failure message as an error.
    pub fn result(self) -> (r: Result<ScrapeMap, TrackerError>)
        ensures
            match self {
                HttpScrapeResponse::Success(m) => r matches Ok(m2) && m2@ == m@,
                HttpScrapeResponse::Failure(msg) => r matches Err(TrackerError::Failure(m2))
                    && m2@ == msg@,
            },
    {
        match self {
            HttpScrapeResponse::Success(m) => Ok(m),
            HttpScrapeResponse::Failure(msg) => Err(TrackerError::Failure(msg)),
        }
    }
}

/// What the body `s` of an HTTP scrape response says: one bencoded value,
/// read as a reply, with nothing after it.
pub open spec fn decoded(s: Seq<u8>) -> Result<ScrapeReply, BencodeError> {
    if s.len() == 0 {
        Err(BencodeError::NoData)
    } else {
        match parse_value(s, 0, MAX_DEPTH as nat) {
            Err(e) => Err(e),
            Ok((v, end)) => match reply_of(v) {
                Err(e) => Err(e),
                Ok(reply) => if end < s.len() {
                    Err(BencodeError::TrailingData)
                } else {
                    Ok(reply)
                },
            },
        }
    }
}

/// Decodes the body of an HTTP scrape response: one bencoded dictionary and
/// nothing after it.
pub fn decode_scrape_response(s: &[u8]) -> (r: Result<HttpScrapeResponse, BencodeError>)
    ensures
        match decoded(s@) {
            Err(e) => r == Err::<HttpScrapeResponse, BencodeError>(e),
            Ok(reply) => r is Ok && r->Ok_0.stands_for(reply),
        },
{
    if s.len() == 0 {
        return Err(BencodeError::NoData);
    }
    let end = match value_end(s, 0, MAX_DEPTH) {
        Ok(e) => e,
        Err(e) => {
            return Err(e);
        },
    };
    if s[0] != 100 {
        return Err(BencodeError::UnexpectedType);
    }
    let key_f: [u8; 5] = [102, 105, 108, 101, 115];
    let key_r: [u8; 14] = [102, 97, 105, 108, 117, 114, 101, 32, 114, 101, 97, 115, 111, 110];
    assert(key_f@ =~= key_files());
    assert(key_r@ =~= key_failure_reason());
    let d2 = MAX_DEPTH - 1;
    let mut files: Option<ScrapeMap> = None;
    let mut reason: Option<(usize, usize)> = None;
    let mut p: usize = 1;
    let ghost mut done: Seq<(Seq<u8>, Bencode)> = Seq::empty();
    let ghost mut spec_files: Option<Map<Seq<u8>, Scrape>> = None;
    proof {
        if let Ok((rest, e)) = parse_dict_items(s@, p as int, d2 as nat) {
            assert(done + rest =~= rest);
        }
    }
    while s[p] != 101
        invariant
            d2 == MAX_DEPTH - 1,
            s@[0] == 100,
            key_f@ == key_files(),
            key_r@ == key_failure_reason(),
            parse_value(s@, 0, MAX_DEPTH as nat) is Ok,
            p < s@.len(),
            parse_dict_items(s@, 1, d2 as nat) == match parse_dict_items(s@, p as int, d2 as nat) {
                Ok((rest, e)) => Ok((done + rest, e)),
                Err(e) => Err(e),
            },
            top_fields(done) == Ok::<_, BencodeError>(
                (
                    spec_files,
                    match reason {
                        Some((a, b)) => Some(s@.subrange(a as int, b as int)),
                        None => None,
                    },
                ),
            ),
            files is Some <==> spec_files is Some,
            files is Some ==> files->0@ == spec_files->0,
            reason matches Some((a, b)) ==> a <= b <= s@.len(),
        decreases s@.len() - p,
    {
        let (ka, kb) = match bytes_at(s, p) {
            Ok(r) => r,
            Err(e) => {
                return Err(e);
            },
        };
        let ghost key = s@.subrange(ka as int, kb as int);
        let ghost v = parse_value(s@, kb as int, d2 as nat)->Ok_0.0;
        let ghost l = parse_value(s@, kb as int, d2 as nat)->Ok_0.1;
        let ghost rest_after = parse_dict_items(s@, l, d2 as nat);
        proof {
            assert(done.push((key, v)).drop_last() =~= done);
            assert(done + (seq![(key, v)] + rest_after->Ok_0.0) =~= done.push((key, v))
                + rest_after->Ok_0.0);
        }
        let l_exec: usize;
        if key_matches(s, ka, kb, &key_f) {
            match read_files(s, kb, d2) {
                Ok((m, e)) => {
                    proof {
                        spec_files = Some(m@);
                    }
                    files = Some(m);
                    l_exec = e;
                },
                Err(e) => {
                    proof {
                        lemma_top_fields_err(done.push((key, v)), rest_after->Ok_0.0);
                    }
                    return Err(e);
                },
            }
        } else if key_matches(s, ka, kb, &key_r) {
            if s[kb] < 48 || s[kb] > 57 {
                proof {
                    lemma_top_fields_err(done.push((key, v)), rest_after->Ok_0.0);
                }
                return Err(BencodeError::UnexpectedType);
            }
            match bytes_at(s, kb) {
                Ok((a, b)) => {
                    reason = Some((a, b));
                    l_exec = b;
                },
                Err(e) => {
                    return Err(e);
                },
            }
        } else {
            match value_end(s, kb, d2) {
                Ok(e) => {
                    l_exec = e;
                },
                Err(e) => {
                    assert(parse_value(s@, kb as int, d2 as nat) is Ok);
                    return Err(e);
                },
            }
        }
        proof {
            let rest = rest_after->Ok_0.0;
            assert(done.push((key, v)) + rest =~= done + (seq![(key, v)] + rest));
            done = done.push((key, v));
        }
        p = l_exec;
    }
    proof {
        assert(done + Seq::<(Seq<u8>, Bencode)>::empty() =~= done);
    }
    if end < s.len() {
        match (&files, &reason) {
            (_, Some(_)) => {},
            (Some(_), None) => {},
            (None, None) => {
                return Err(BencodeError::MissingField(Field::Files));
            },
        }
        return Err(BencodeError::TrailingData);
    }
    match reason {
        Some((a, b)) => Ok(HttpScrapeResponse::Failure(string_from_utf8_lossy(&s[a..b]))),
        None => match files {
            Some(m) => Ok(HttpScrapeResponse::Success(m)),
            None => Err(BencodeError::MissingField(Field::Files)),
        },
    }
}

/// The outcome of an HTTP scrape whose response body is `s`: the scrapes, the
/// tracker's failure message, or the decoding error.
pub fn scrape_result_from_body(s: &[u8]) -> (r: Result<ScrapeMap, TrackerError>)
    ensures
        match decoded(s@) {
            Err(e) => r == Err::<ScrapeMap, TrackerError>(
                TrackerError::Http(HttpTrackerError::ParseResponse(e)),
            ),
            Ok(ScrapeReply::Success(m)) => r matches Ok(x) && x@ == m,
            Ok(ScrapeReply::Failure(raw)) => r matches Err(TrackerError::Failure(msg)) && msg@
                == utf8_lossy(raw),
        },
{
    match decode_scrape_response(s) {
        Ok(resp) => resp.result(),
        Err(e) => Err(TrackerError::Http(HttpTrackerError::ParseResponse(e))),
    }
}

/// A complete response followed by any further bytes fails with
/// `TrailingData`.
pub proof fn lemma_trailing_data(s: Seq<u8>, x: Seq<u8>)
    requires
        decoded(s) is Ok,
        x.len() > 0,
    ensures
        decoded(s + x) == Err::<ScrapeReply, BencodeError>(BencodeError::TrailingData),
{
    let t = s + x;
    assert(t.subrange(0, s.len() as int) =~= s);
    lemma_parse_extend(s, t, 0, MAX_DEPTH as nat);
}

} // verus!
