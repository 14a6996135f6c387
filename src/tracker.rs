//! Tracker URLs: which transport a URL selects, what it must hold, and the
//! scrape request of an HTTP tracker.
use crate::infohash::{lower_hex_digit, InfoHash};
use std::borrow::Cow;
use vstd::prelude::*;
use vstd::string::{StrSliceExecFns, StringExecFns, StringSliceAdditionalSpecFns};

verus! {

/// `url::Url`, carried through opaque: the logic reads the parts that
/// `ParsedUrl` holds beside it.
#[verifier::external_type_specification]
#[verifier::external_body]
pub struct ExUrl(url::Url);

/// `url::ParseError`, carried through as the cause of `TrackerUrlError::Url`.
#[verifier::external_type_specification]
#[verifier::external_body]
pub struct ExParseError(url::ParseError);

/// The parts of a URL that trackers read: scheme, host, port, path and
/// query as `url` writes them, and the whole serialization.
pub struct UrlView {
    pub text: Seq<char>,
    pub scheme: Seq<char>,
    pub host: Option<Seq<char>>,
    pub port: Option<u16>,
    pub path: Seq<char>,
    pub query: Option<Seq<char>>,
}

/// The parts of the URL that `url::Url::parse` makes of the text `s`, if it
/// accepts it.
pub uninterp spec fn url_parts_of(s: Seq<char>) -> Option<UrlView>;

pub open spec fn opt_text(o: Option<String>) -> Option<Seq<char>> {
    match o {
        Some(s) => Some(s@),
        None => None,
    }
}

pub open spec fn opt_str(o: Option<&str>) -> Option<Seq<char>> {
    match o {
        Some(s) => Some(s@),
        None => None,
    }
}

/// A URL as `url` parsed it, with the parts that trackers read.
#[derive(Debug, PartialEq, Eq)]
pub struct ParsedUrl {
    url: url::Url,
    text: String,
    scheme: String,
    host: Option<String>,
    port: Option<u16>,
    path: String,
    query: Option<String>,
}

impl View for ParsedUrl {
    type V = UrlView;

    closed spec fn view(&self) -> UrlView {
        UrlView {
            text: self.text@,
            scheme: self.scheme@,
            host: opt_text(self.host),
            port: self.port,
            path: self.path@,
            query: opt_text(self.query),
        }
    }
}

/// Relies on `url::Url::parse`, whose outcome depends on the text alone, and
/// on `as_str`, `scheme`, `host_str`, `port`, `path` and `query` to read the
/// parts of the URL it returns.
#[verifier::external_body]
fn parse_url(s: &str) -> (r: Result<ParsedUrl, url::ParseError>)
    ensures
        r is Ok <==> url_parts_of(s@) is Some,
        r matches Ok(u) ==> u@ == url_parts_of(s@)->0,
{
    let url = url::Url::parse(s)?;
    Ok(ParsedUrl {
        text: url.as_str().to_owned(),
        scheme: url.scheme().to_owned(),
        host: url.host_str().map(str::to_owned),
        port: url.port(),
        path: url.path().to_owned(),
        query: url.query().map(str::to_owned),
        url,
    })
}

impl ParsedUrl {
    pub fn parse(s: &str) -> (r: Result<ParsedUrl, url::ParseError>)
        ensures
            r is Ok <==> url_parts_of(s@) is Some,
            r matches Ok(u) ==> u@ == url_parts_of(s@)->0,
    {
        parse_url(s)
    }

    /// The `url::Url` itself, for building a request.
    pub closed spec fn inner(&self) -> url::Url {
        self.url
    }

    pub fn url(&self) -> (r: &url::Url)
        ensures
            *r == self.inner(),
    {
        &self.url
    }

    pub fn as_str(&self) -> (r: &str)
        ensures
            r@ == self@.text,
    {
        self.text.as_str()
    }
}

/// `b` as the `application/x-www-form-urlencoded` byte serializer writes it:
/// ASCII letters, digits and `*-._` stay, a space becomes `+`, and every other
/// byte becomes `%` and two uppercase hexadecimal digits.
pub open spec fn form_encoded(b: Seq<u8>) -> Seq<char>
    decreases b.len(),
{
    if b.len() == 0 {
        Seq::empty()
    } else {
        form_encoded(b.drop_last()) + form_encoded_byte(b.last())
    }
}

pub open spec fn form_encoded_byte(x: u8) -> Seq<char> {
    if (48 <= x <= 57) || (65 <= x <= 90) || (97 <= x <= 122) || x == 42 || x == 45 || x == 46
        || x == 95 {
        seq![x as char]
    } else if x == 32 {
        seq!['+']
    } else {
        seq!['%', upper_hex_digit(x / 16), upper_hex_digit(x % 16)]
    }
}

pub open spec fn upper_hex_digit(n: u8) -> char {
    if n < 10 {
        (n + 48) as char
    } else {
        (n + 55) as char
    }
}

/// A byte that the form serializer leaves as it is.
pub open spec fn form_unreserved(c: char) -> bool {
    ('0' <= c <= '9') || ('A' <= c <= 'Z') || ('a' <= c <= 'z') || c == '*' || c == '-' || c
        == '.' || c == '_'
}

/// The bytes that the form serializer is to encode for `t`: the bytes of
/// `name` when `t` is `name`, and `value` otherwise.
fn pair_component(t: &str, name: &str, value: &[u8]) -> (r: Vec<u8>)
    ensures
        t@ == name@ ==> r@ == t.spec_bytes(),
        t@ != name@ ==> r@ == value@,
{
    if str_eq(t, name) {
        crate::wire::copy_bytes(t.as_bytes())
    } else {
        crate::wire::copy_bytes(value)
    }
}

/// Relies on form_urlencoded's `Serializer` (re-exported by url):
/// `for_suffix(query, 0)` and `append_pair(name, "")`, with an encoding
/// override that gives the name its own bytes and the value the raw bytes
/// `value`.  It writes `&` after a non-empty query, then the name and the
/// value through `byte_serialize` (`form_encoded`) with `=` between them; a
/// name of bytes that the serializer leaves alone stays as it is.
#[verifier::external_body]
fn append_raw_pair(query: Option<&str>, name: &str, value: &[u8]) -> (r: String)
    requires
        name@.len() > 0,
        forall|i: int| 0 <= i < name@.len() ==> form_unreserved(#[trigger] name@[i]),
    ensures
        r@ == query_with_pair(opt_str(query), name@, form_encoded(value@)),
{
    let target = match query {
        Some(q) => q.to_owned(),
        None => String::new(),
    };
    let raw: &dyn Fn(&str) -> Cow<[u8]> = &|t: &str| Cow::Owned(pair_component(t, name, value));
    url::form_urlencoded::Serializer::for_suffix(target, 0)
        .encoding_override(Some(raw))
        .append_pair(name, "")
        .finish()
}

/// Why a URL does not name a tracker.
#[derive(Debug, PartialEq, Eq)]
pub enum TrackerUrlError {
    Url(url::ParseError),
    UnsupportedScheme(String),
    NoHost,
    NoAnnounce,
    NoUdpPort,
}

impl TrackerUrlError {
    pub fn message(&self) -> (r: String) {
        match self {
            TrackerUrlError::Url(_) => String::from_str("invalid tracker URL"),
            TrackerUrlError::UnsupportedScheme(s) => {
                let mut m = String::from_str("unsupported tracker URL scheme: ");
                m.append(s.as_str());
                m
            },
            TrackerUrlError::NoHost => String::from_str("no host in tracker URL"),
            TrackerUrlError::NoAnnounce => String::from_str(
                "no \"announce\" string in HTTP tracker URL path",
            ),
            TrackerUrlError::NoUdpPort => String::from_str("no port in UDP tracker URL"),
        }
    }
}

/// `s` holds `p` starting at `i`.
pub open spec fn occurs_at(s: Seq<char>, p: Seq<char>, i: int) -> bool {
    0 <= i && i + p.len() <= s.len() && s.subrange(i, i + p.len()) == p
}

pub open spec fn contains_seq(s: Seq<char>, p: Seq<char>) -> bool {
    exists|i: int| occurs_at(s, p, i)
}

/// `s` with each occurrence of `pat` replaced by `rep`, left to right and
/// without overlaps.
pub open spec fn replace_all(s: Seq<char>, pat: Seq<char>, rep: Seq<char>) -> Seq<char>
    decreases s.len(),
{
    if pat.len() == 0 || s.len() < pat.len() {
        s
    } else if s.subrange(0, pat.len() as int) == pat {
        rep + replace_all(s.subrange(pat.len() as int, s.len() as int), pat, rep)
    } else {
        seq![s[0]] + replace_all(s.subrange(1, s.len() as int), pat, rep)
    }
}

fn str_eq(a: &str, b: &str) -> (r: bool)
    ensures
        r == (a@ == b@),
{
    let n = a.unicode_len();
    if n != b.unicode_len() {
        return false;
    }
    let mut i: usize = 0;
    while i < n
        invariant
            n == a@.len(),
            n == b@.len(),
            i <= n,
            forall|j: int| 0 <= j < i ==> a@[j] == b@[j],
        decreases n - i,
    {
        if a.get_char(i) != b.get_char(i) {
            return false;
        }
        i = i + 1;
    }
    assert(a@ =~= b@);
    true
}

fn occurs_at_exec(s: &str, n: usize, p: &str, m: usize, i: usize) -> (r: bool)
    requires
        n == s@.len(),
        m == p@.len(),
    ensures
        r == occurs_at(s@, p@, i as int),
{
    if i > n || n - i < m {
        return false;
    }
    let mut j: usize = 0;
    while j < m
        invariant
            n == s@.len(),
            m == p@.len(),
            i + m <= n,
            j <= m,
            forall|k: int| 0 <= k < j ==> s@[i + k] == p@[k],
        decreases m - j,
    {
        if s.get_char(i + j) != p.get_char(j) {
            assert(s@.subrange(i as int, i + m)[j as int] != p@[j as int]);
            return false;
        }
        j = j + 1;
    }
    assert(s@.subrange(i as int, i + m) =~= p@);
    true
}

fn contains_str(s: &str, p: &str) -> (r: bool)
    ensures
        r == contains_seq(s@, p@),
{
    let n = s.unicode_len();
    let m = p.unicode_len();
    if m > n {
        return false;
    }
    if m == 0 {
        assert(s@.subrange(0, 0) =~= p@);
        assert(occurs_at(s@, p@, 0));
        return true;
    }
    let mut i: usize = 0;
    while i <= n - m
        invariant
            n == s@.len(),
            m == p@.len(),
            0 < m <= n,
            i <= n - m + 1,
            forall|k: int| 0 <= k < i ==> !occurs_at(s@, p@, k),
        decreases n - m + 1 - i,
    {
        if occurs_at_exec(s, n, p, m, i) {
            return true;
        }
        i = i + 1;
    }
    false
}

/// `s` with each `announce` replaced by `scrape`.
pub fn scrape_path(s: &str) -> (r: String)
    ensures
        r@ == replace_all(s@, "announce"@, "scrape"@),
{
    let pat = "announce";
    let rep = "scrape";
    proof {
        reveal_strlit("announce");
    }
    let n = s.unicode_len();
    let mut out = String::new();
    let mut i: usize = 0;
    assert(s@.subrange(0, n as int) =~= s@);
    assert(out@ + replace_all(s@, pat@, rep@) =~= replace_all(s@, pat@, rep@));
    while i < n
        invariant
            n == s@.len(),
            i <= n,
            pat@ == "announce"@,
            pat@.len() == 8,
            replace_all(s@, pat@, rep@) == out@ + replace_all(
                s@.subrange(i as int, n as int),
                pat@,
                rep@,
            ),
        decreases n - i,
    {
        let ghost t = s@.subrange(i as int, n as int);
        if occurs_at_exec(s, n, pat, 8, i) {
            out.append(rep);
            proof {
                assert(t.subrange(0, 8) =~= s@.subrange(i as int, i + 8));
                assert(t.subrange(8, t.len() as int) =~= s@.subrange(i + 8, n as int));
                assert(out@ =~= (out@.subrange(0, out@.len() - rep@.len()) + rep@));
            }
            i = i + 8;
            proof {
                assert(out@ + replace_all(s@.subrange(i as int, n as int), pat@, rep@)
                    =~= out@.subrange(0, out@.len() - rep@.len()) + (rep@ + replace_all(
                    s@.subrange(i as int, n as int),
                    pat@,
                    rep@,
                )));
            }
        } else {
            let ghost before = out@;
            out.append(s.substring_char(i, i + 1));
            proof {
                if t.len() >= 8 {
                    assert(t.subrange(0, 8) != pat@) by {
                        if t.subrange(0, 8) == pat@ {
                            assert(s@.subrange(i as int, i + 8) =~= t.subrange(0, 8));
                        }
                    }
                }
                assert(t.subrange(1, t.len() as int) =~= s@.subrange(i + 1, n as int));
                assert(out@ =~= before + seq![t[0]]);
                assert(before + replace_all(t, pat@, rep@) =~= out@ + replace_all(
                    s@.subrange(i + 1, n as int),
                    pat@,
                    rep@,
                ));
            }
            i = i + 1;
        }
    }
    proof {
        assert(replace_all(s@.subrange(n as int, n as int), pat@, rep@) =~= Seq::<char>::empty());
        assert(out@ + Seq::<char>::empty() =~= out@);
    }
    out
}

/// `query` with the pair `name=value` appended, `&` separating it from an
/// earlier pair.
pub open spec fn query_with_pair(query: Option<Seq<char>>, name: Seq<char>, value: Seq<char>) -> Seq<char> {
    match query {
        Some(q) => if q.len() > 0 {
            q + seq!['&'] + name + seq!['='] + value
        } else {
            name + seq!['='] + value
        },
        None => name + seq!['='] + value,
    }
}

/// `query` with one `info_hash` pair appended per hash, in order.
pub open spec fn with_info_hashes(query: Option<Seq<char>>, hashes: Seq<InfoHash>) -> Option<
    Seq<char>,
>
    decreases hashes.len(),
{
    if hashes.len() == 0 {
        query
    } else {
        Some(
            query_with_pair(
                with_info_hashes(query, hashes.drop_last()),
                "info_hash"@,
                form_encoded(hashes.last()@),
            ),
        )
    }
}

impl InfoHash {
    /// `query` with `info_hash=` and the percent-encoded raw bytes appended.
    pub fn add_query_param(&self, query: Option<&str>) -> (r: String)
        ensures
            r@ == query_with_pair(opt_str(query), "info_hash"@, form_encoded(self@)),
    {
        let name = "info_hash";
        proof {
            reveal_strlit("info_hash");
        }
        append_raw_pair(query, name, self.as_bytes())
    }
}

/// `query` with one `info_hash` pair appended per hash, in order.
pub fn scrape_query(query: Option<&str>, hashes: &[InfoHash]) -> (r: Option<String>)
    ensures
        opt_text(r) == with_info_hashes(opt_str(query), hashes@),
{
    let mut cur: Option<String> = match query {
        Some(q) => Some(q.to_owned()),
        None => None,
    };
    let mut i: usize = 0;
    while i < hashes.len()
        invariant
            i <= hashes@.len(),
            opt_text(cur) == with_info_hashes(opt_str(query), hashes@.subrange(0, i as int)),
        decreases hashes@.len() - i,
    {
        let next = match &cur {
            Some(q) => hashes[i].add_query_param(Some(q.as_str())),
            None => hashes[i].add_query_param(None),
        };
        proof {
            assert(hashes@.subrange(0, i + 1).drop_last() =~= hashes@.subrange(0, i as int));
        }
        cur = Some(next);
        i = i + 1;
    }
    assert(hashes@.subrange(0, i as int) =~= hashes@);
    cur
}

/// What checking `v` as an HTTP tracker URL gives: the scheme is `http` or
/// `https`, there is a host, and the path holds `announce`.
pub open spec fn http_outcome(v: UrlView, r: Result<(), TrackerUrlError>) -> bool {
    if v.scheme != "http"@ && v.scheme != "https"@ {
        r matches Err(TrackerUrlError::UnsupportedScheme(s)) && s@ == v.scheme
    } else if v.host is None {
        r == Err::<(), TrackerUrlError>(TrackerUrlError::NoHost)
    } else if !contains_seq(v.path, "announce"@) {
        r == Err::<(), TrackerUrlError>(TrackerUrlError::NoAnnounce)
    } else {
        r == Ok::<(), TrackerUrlError>(())
    }
}

/// Checks that `url` can name an HTTP tracker.
pub fn check_http_url(url: &ParsedUrl) -> (r: Result<(), TrackerUrlError>)
    ensures
        http_outcome(url@, r),
{
    if !str_eq(url.scheme.as_str(), "http") && !str_eq(url.scheme.as_str(), "https") {
        return Err(TrackerUrlError::UnsupportedScheme(url.scheme.as_str().to_owned()));
    }
    if url.host.is_none() {
        return Err(TrackerUrlError::NoHost);
    }
    if !contains_str(url.path.as_str(), "announce") {
        return Err(TrackerUrlError::NoAnnounce);
    }
    Ok(())
}

/// An HTTP or HTTPS tracker, by its announce URL.
#[derive(Debug, PartialEq, Eq)]
pub struct HttpTracker(ParsedUrl);

/// The request URL of a scrape: the announce URL with this path and query
/// and no fragment.
#[derive(Clone, Debug)]
pub struct ScrapeTarget {
    path: String,
    query: Option<String>,
}

impl ScrapeTarget {
    pub closed spec fn path_view(&self) -> Seq<char> {
        self.path@
    }

    pub closed spec fn query_view(&self) -> Option<Seq<char>> {
        opt_text(self.query)
    }

    pub fn path(&self) -> (r: &str)
        ensures
            r@ == self.path_view(),
    {
        self.path.as_str()
    }

    pub fn query(&self) -> (r: Option<&str>)
        ensures
            opt_str(r) == self.query_view(),
    {
        match &self.query {
            Some(q) => Some(q.as_str()),
            None => None,
        }
    }
}

impl HttpTracker {
    /// The announce URL.
    pub closed spec fn target(&self) -> ParsedUrl {
        self.0
    }

    pub fn announce_url(&self) -> (r: &ParsedUrl)
        ensures
            *r == self.target(),
    {
        &self.0
    }

    pub fn try_from(url: ParsedUrl) -> (r: Result<HttpTracker, TrackerUrlError>)
        ensures
            http_outcome(
                url@,
                match r {
                    Ok(_) => Ok(()),
                    Err(e) => Err(e),
                },
            ),
            r matches Ok(t) ==> t.target() == url,
    {
        match check_http_url(&url) {
            Ok(()) => Ok(HttpTracker(url)),
            Err(e) => Err(e),
        }
    }

    /// The scrape request: the announce URL with `announce` in its path
    /// replaced by `scrape`, no fragment, and one `info_hash` pair per hash
    /// appended to its query.
    pub fn scrape_url(&self, hashes: &[InfoHash]) -> (r: ScrapeTarget)
        ensures
            r.path_view() == replace_all(self.target()@.path, "announce"@, "scrape"@),
            r.query_view() == with_info_hashes(self.target()@.query, hashes@),
    {
        let path = scrape_path(self.0.path.as_str());
        let query = match &self.0.query {
            Some(q) => scrape_query(Some(q.as_str()), hashes),
            None => scrape_query(None, hashes),
        };
        ScrapeTarget { path, query }
    }

    pub fn to_string(&self) -> (r: String)
        ensures
            r@ == self.target()@.text,
    {
        self.0.text.as_str().to_owned()
    }
}

/// A UDP tracker's address: host, port, and path with query.
#[derive(Clone, Debug, PartialEq, Eq)]
pub struct UdpUrl {
    pub host: String,
    pub port: u16,
    pub urldata: String,
}

/// The decimal digits of `n`.
pub open spec fn decimal_text(n: nat) -> Seq<char>
    decreases n,
{
    if n < 10 {
        seq![lower_hex_digit(n as int)]
    } else {
        decimal_text(n / 10) + seq![lower_hex_digit((n % 10) as int)]
    }
}

fn append_decimal(out: &mut String, n: u16)
    ensures
        final(out)@ == old(out)@ + decimal_text(n as nat),
    decreases n,
{
    let digits = "0123456789";
    proof {
        reveal_strlit("0123456789");
    }
    if n >= 10 {
        append_decimal(out, n / 10);
    }
    let d = (n % 10) as usize;
    let ghost before = out@;
    out.append(digits.substring_char(d, d + 1));
    proof {
        assert(digits@[d as int] == lower_hex_digit(d as int));
        assert(out@ =~= before + seq![lower_hex_digit(d as int)]);
    }
}

/// `udp://`, the host (in brackets if it holds a colon), `:`, the port in
/// decimal, and the path with query.
pub open spec fn udp_url_text(u: UdpUrl) -> Seq<char> {
    seq!['u', 'd', 'p', ':', '/', '/'] + (if contains_seq(u.host@, seq![':']) {
        seq!['['] + u.host@ + seq![']']
    } else {
        u.host@
    }) + seq![':'] + decimal_text(u.port as nat) + u.urldata@
}

/// What reading `v` as a UDP tracker address gives: the scheme must be
/// `udp`, and host and port must be present (a UDP tracker has no default
/// port); the path and query follow the port.
pub open spec fn udp_outcome(v: UrlView, r: Result<UdpUrl, TrackerUrlError>) -> bool {
    if v.scheme != "udp"@ {
        r matches Err(TrackerUrlError::UnsupportedScheme(s)) && s@ == v.scheme
    } else if v.host is None {
        r == Err::<UdpUrl, TrackerUrlError>(TrackerUrlError::NoHost)
    } else if v.port is None {
        r == Err::<UdpUrl, TrackerUrlError>(TrackerUrlError::NoUdpPort)
    } else {
        r matches Ok(u) && u.host@ == v.host->0 && u.port == v.port->0 && u.urldata@ == v.path
            + match v.query {
            Some(q) => seq!['?'] + q,
            None => Seq::<char>::empty(),
        }
    }
}

impl UdpUrl {
    pub fn try_from(url: ParsedUrl) -> (r: Result<UdpUrl, TrackerUrlError>)
        ensures
            udp_outcome(url@, r),
    {
        if !str_eq(url.scheme.as_str(), "udp") {
            return Err(TrackerUrlError::UnsupportedScheme(url.scheme.as_str().to_owned()));
        }
        let host = match &url.host {
            Some(h) => h.as_str().to_owned(),
            None => {
                return Err(TrackerUrlError::NoHost);
            },
        };
        let port = match url.port {
            Some(p) => p,
            None => {
                return Err(TrackerUrlError::NoUdpPort);
            },
        };
        let mut urldata = url.path.as_str().to_owned();
        match &url.query {
            Some(q) => {
                proof {
                    reveal_strlit("?");
                }
                urldata.append("?");
                urldata.append(q.as_str());
                assert(urldata@ =~= url.path@ + (seq!['?'] + q@));
            },
            None => {
                assert(urldata@ =~= url.path@ + Seq::<char>::empty());
            },
        }
        Ok(UdpUrl { host, port, urldata })
    }

    pub fn to_string(&self) -> (r: String)
        ensures
            r@ == udp_url_text(*self),
    {
        proof {
            reveal_strlit("udp://");
            reveal_strlit(":");
            reveal_strlit("[");
            reveal_strlit("]");
        }
        assert(":"@ =~= seq![':']);
        assert("["@ =~= seq!['[']);
        assert("]"@ =~= seq![']']);
        assert("udp://"@ =~= seq!['u', 'd', 'p', ':', '/', '/']);
        let mut out = String::from_str("udp://");
        let bracket = contains_str(self.host.as_str(), ":");
        if bracket {
            out.append("[");
            out.append(self.host.as_str());
            out.append("]");
        } else {
            out.append(self.host.as_str());
        }
        out.append(":");
        let ghost before = out@;
        append_decimal(&mut out, self.port);
        out.append(self.urldata.as_str());
        assert(out@ =~= seq!['u', 'd', 'p', ':', '/', '/'] + (if contains_seq(self.host@, seq![':']) {
            seq!['['] + self.host@ + seq![']']
        } else {
            self.host@
        }) + seq![':'] + decimal_text(self.port as nat) + self.urldata@);
        out
    }
}

/// A UDP tracker.
#[derive(Clone, Debug, PartialEq, Eq)]
pub struct UdpTracker(pub UdpUrl);

impl UdpTracker {
    pub fn try_from(url: ParsedUrl) -> (r: Result<UdpTracker, TrackerUrlError>)
        ensures
            udp_outcome(
                url@,
                match r {
                    Ok(t) => Ok(t.0),
                    Err(e) => Err(e),
                },
            ),
    {
        match UdpUrl::try_from(url) {
            Ok(u) => Ok(UdpTracker(u)),
            Err(e) => Err(e),
        }
    }

    pub fn to_string(&self) -> (r: String)
        ensures
            r@ == udp_url_text(self.0),
    {
        self.0.to_string()
    }
}

/// A tracker, by transport.
#[derive(Debug, PartialEq, Eq)]
pub enum Tracker {
    Http(HttpTracker),
    Udp(UdpTracker),
}

impl Tracker {
    /// Parses a tracker URL; `http` and `https` select an HTTP tracker and
    /// `udp` a UDP tracker.
    pub fn from_str(s: &str) -> (r: Result<Tracker, TrackerUrlError>)
        ensures
            match url_parts_of(s@) {
                None => r matches Err(TrackerUrlError::Url(_)),
                Some(v) => if v.scheme == "http"@ || v.scheme == "https"@ {
                    match r {
                        Ok(Tracker::Http(t)) => http_outcome(v, Ok(())) && t.target()@ == v,
                        Ok(Tracker::Udp(_)) => false,
                        Err(e) => http_outcome(v, Err(e)),
                    }
                } else if v.scheme == "udp"@ {
                    match r {
                        Ok(Tracker::Udp(t)) => udp_outcome(v, Ok(t.0)),
                        Ok(Tracker::Http(_)) => false,
                        Err(e) => udp_outcome(v, Err(e)),
                    }
                } else {
                    r matches Err(TrackerUrlError::UnsupportedScheme(x)) && x@ == v.scheme
                },
            },
    {
        let url = match ParsedUrl::parse(s) {
            Ok(u) => u,
            Err(e) => {
                return Err(TrackerUrlError::Url(e));
            },
        };
        if str_eq(url.scheme.as_str(), "http") || str_eq(url.scheme.as_str(), "https") {
            match HttpTracker::try_from(url) {
                Ok(t) => Ok(Tracker::Http(t)),
                Err(e) => Err(e),
            }
        } else if str_eq(url.scheme.as_str(), "udp") {
            match UdpTracker::try_from(url) {
                Ok(t) => Ok(Tracker::Udp(t)),
                Err(e) => Err(e),
            }
        } else {
            Err(TrackerUrlError::UnsupportedScheme(url.scheme.as_str().to_owned()))
        }
    }

    pub fn to_string(&self) -> (r: String)
        ensures
            self matches Tracker::Udp(t) ==> r@ == udp_url_text(t.0),
            self matches Tracker::Http(t) ==> r@ == t.target()@.text,
    {
        match self {
            Tracker::Http(t) => t.to_string(),
            Tracker::Udp(t) => t.to_string(),
        }
    }
}

} // verus!
