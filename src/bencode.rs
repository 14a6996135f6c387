//! Bencode, the serialization format of BitTorrent: its grammar, its
//! encoding, and a checker that finds where a value ends.
use vstd::prelude::*;

verus! {

/// The deepest nesting of lists and dictionaries that is accepted.
pub const MAX_DEPTH: usize = 2048;

/// A field that a scrape response must hold.
#[derive(Clone, Copy, Debug, PartialEq, Eq, Structural)]
pub enum Field {
    Files,
    Complete,
    Downloaded,
    Incomplete,
}

/// Why bytes are not a scrape response.
#[derive(Clone, Copy, Debug, PartialEq, Eq, Structural)]
pub enum BencodeError {
    /// The input is empty.
    NoData,
    /// Bytes follow the top-level value.
    TrailingData,
    /// The input is not bencode.
    Syntax,
    /// Lists and dictionaries nest deeper than `MAX_DEPTH`.
    NestingTooDeep,
    /// A value has another kind than the one its place calls for.
    UnexpectedType,
    /// A field that the response needs is absent.
    MissingField(Field),
    /// A value has the right kind but not an acceptable content.
    MalformedContent,
}

/// A bencoded value.  An integer is kept as its decimal text.
pub enum Bencode {
    Int(Seq<u8>),
    Bytes(Seq<u8>),
    List(Seq<Bencode>),
    Dict(Seq<(Seq<u8>, Bencode)>),
}

pub open spec fn is_digit(b: u8) -> bool {
    48 <= b <= 57
}

/// The end of the run of decimal digits that starts at `k`.
pub open spec fn digits_end(s: Seq<u8>, k: int) -> int
    decreases s.len() - k,
{
    if 0 <= k < s.len() && is_digit(s[k]) {
        digits_end(s, k + 1)
    } else {
        k
    }
}

/// The value of a run of decimal digits.
pub open spec fn decimal(d: Seq<u8>) -> nat
    decreases d.len(),
{
    if d.len() == 0 {
        0
    } else {
        decimal(d.drop_last()) * 10 + (d.last() - 48) as nat
    }
}

/// Where the integer text that starts at `i` ends, if it is an optional minus
/// sign and digits without a leading zero (and not `-0`), followed by `term`.
pub open spec fn int_text_end(s: Seq<u8>, i: int, term: u8) -> Option<int> {
    let j = if 0 <= i < s.len() && s[i] == 45 {
        i + 1
    } else {
        i
    };
    let k = digits_end(s, j);
    if k == j {
        None
    } else if s[j] == 48 && (k > j + 1 || j > i) {
        None
    } else if k < s.len() && s[k] == term {
        Some(k)
    } else {
        None
    }
}

/// The byte string that starts at `i`: its length in decimal, a colon, and
/// that many bytes.  Returns the bytes and where they end.
pub open spec fn parse_bytes(s: Seq<u8>, i: int) -> Result<(Seq<u8>, int), BencodeError> {
    match int_text_end(s, i, 58) {
        None => Err(BencodeError::Syntax),
        Some(c) => {
            if s[i] == 45 {
                Err(BencodeError::Syntax)
            } else {
                let n = decimal(s.subrange(i, c));
                if c + 1 + n > s.len() {
                    Err(BencodeError::Syntax)
                } else {
                    Ok((s.subrange(c + 1, c + 1 + n), c + 1 + n))
                }
            }
        },
    }
}

/// The value that starts at `i`, with lists and dictionaries nested at most
/// `depth` deep, and where it ends.
pub open spec fn parse_value(s: Seq<u8>, i: int, depth: nat) -> Result<(Bencode, int), BencodeError>
    decreases s.len() - i, 0int,
{
    if i < 0 || i >= s.len() {
        Err(BencodeError::Syntax)
    } else if s[i] == 105 {
        match int_text_end(s, i + 1, 101) {
            Some(k) => Ok((Bencode::Int(s.subrange(i + 1, k)), k + 1)),
            None => Err(BencodeError::Syntax),
        }
    } else if is_digit(s[i]) {
        match parse_bytes(s, i) {
            Ok((b, e)) => Ok((Bencode::Bytes(b), e)),
            Err(e) => Err(e),
        }
    } else if s[i] == 108 {
        if depth == 0 {
            Err(BencodeError::NestingTooDeep)
        } else {
            match parse_list_items(s, i + 1, (depth - 1) as nat) {
                Ok((items, e)) => Ok((Bencode::List(items), e)),
                Err(e) => Err(e),
            }
        }
    } else if s[i] == 100 {
        if depth == 0 {
            Err(BencodeError::NestingTooDeep)
        } else {
            match parse_dict_items(s, i + 1, (depth - 1) as nat) {
                Ok((items, e)) => Ok((Bencode::Dict(items), e)),
                Err(e) => Err(e),
            }
        }
    } else {
        Err(BencodeError::Syntax)
    }
}

/// List items from `i` up to and including the closing `e`.
pub open spec fn parse_list_items(s: Seq<u8>, i: int, depth: nat) -> Result<
    (Seq<Bencode>, int),
    BencodeError,
>
    decreases s.len() - i, 1int,
{
    if i < 0 || i >= s.len() {
        Err(BencodeError::Syntax)
    } else if s[i] == 101 {
        Ok((Seq::empty(), i + 1))
    } else {
        match parse_value(s, i, depth) {
            Err(e) => Err(e),
            Ok((v, j)) => {
                if j <= i || j > s.len() {
                    Err(BencodeError::Syntax)
                } else {
                    match parse_list_items(s, j, depth) {
                        Err(e) => Err(e),
                        Ok((rest, e)) => Ok((seq![v] + rest, e)),
                    }
                }
            },
        }
    }
}

/// Dictionary entries from `i` up to and including the closing `e`; each key
/// is a byte string.
pub open spec fn parse_dict_items(s: Seq<u8>, i: int, depth: nat) -> Result<
    (Seq<(Seq<u8>, Bencode)>, int),
    BencodeError,
>
    decreases s.len() - i, 1int,
{
    if i < 0 || i >= s.len() {
        Err(BencodeError::Syntax)
    } else if s[i] == 101 {
        Ok((Seq::empty(), i + 1))
    } else if !is_digit(s[i]) {
        Err(BencodeError::Syntax)
    } else {
        match parse_bytes(s, i) {
            Err(e) => Err(e),
            Ok((k, j)) => {
                if j <= i {
                    Err(BencodeError::Syntax)
                } else {
                    match parse_value(s, j, depth) {
                        Err(e) => Err(e),
                        Ok((v, l)) => {
                            if l <= j || l > s.len() {
                                Err(BencodeError::Syntax)
                            } else {
                                match parse_dict_items(s, l, depth) {
                                    Err(e) => Err(e),
                                    Ok((rest, e)) => Ok((seq![(k, v)] + rest, e)),
                                }
                            }
                        },
                    }
                }
            },
        }
    }
}

/// The decimal digits of `n`, most significant first.
pub open spec fn decimal_digits(n: nat) -> Seq<u8>
    decreases n,
{
    if n < 10 {
        seq![(n + 48) as u8]
    } else {
        decimal_digits(n / 10).push((n % 10 + 48) as u8)
    }
}

/// The bencoding of a byte string: its length in decimal, a colon, the bytes.
pub open spec fn encode_bytes(b: Seq<u8>) -> Seq<u8> {
    decimal_digits(b.len()) + seq![58u8] + b
}

/// The bencoding of `v`.
pub open spec fn encode(v: Bencode) -> Seq<u8>
    decreases v,
{
    match v {
        Bencode::Int(t) => seq![105u8] + t + seq![101u8],
        Bencode::Bytes(b) => encode_bytes(b),
        Bencode::List(items) => seq![108u8] + encode_list(items) + seq![101u8],
        Bencode::Dict(entries) => seq![100u8] + encode_dict(entries) + seq![101u8],
    }
}

pub open spec fn encode_list(items: Seq<Bencode>) -> Seq<u8>
    decreases items,
{
    if items.len() == 0 {
        Seq::empty()
    } else {
        encode(items[0]) + encode_list(items.subrange(1, items.len() as int))
    }
}

pub open spec fn encode_dict(entries: Seq<(Seq<u8>, Bencode)>) -> Seq<u8>
    decreases entries,
{
    if entries.len() == 0 {
        Seq::empty()
    } else {
        encode_bytes(entries[0].0) + encode(entries[0].1) + encode_dict(
            entries.subrange(1, entries.len() as int),
        )
    }
}

/// The digits of integer text: what follows a leading minus sign.
pub open spec fn int_digits(t: Seq<u8>) -> Seq<u8> {
    if t.len() > 0 && t[0] == 45 {
        t.subrange(1, t.len() as int)
    } else {
        t
    }
}

/// `t` is the text of an integer as bencode writes it: `0`, or digits without
/// a leading zero, after an optional minus sign.
pub open spec fn is_int_text(t: Seq<u8>) -> bool {
    let d = int_digits(t);
    &&& d.len() > 0
    &&& forall|m: int| 0 <= m < d.len() ==> is_digit(#[trigger] d[m])
    &&& (d[0] == 48 ==> d.len() == 1 && d == t)
}

/// Integers are well written and lists and dictionaries nest at most `depth` deep.
pub open spec fn well_formed(v: Bencode, depth: nat) -> bool
    decreases v,
{
    match v {
        Bencode::Int(t) => is_int_text(t),
        Bencode::Bytes(_) => true,
        Bencode::List(items) => depth > 0 && forall|m: int|
            0 <= m < items.len() ==> well_formed(#[trigger] items[m], (depth - 1) as nat),
        Bencode::Dict(entries) => depth > 0 && forall|m: int|
            0 <= m < entries.len() ==> well_formed(#[trigger] entries[m].1, (depth - 1) as nat),
    }
}

proof fn lemma_digits_end(s: Seq<u8>, k: int, j: int)
    requires
        0 <= k <= j < s.len(),
        forall|m: int| k <= m < j ==> is_digit(#[trigger] s[m]),
        !is_digit(s[j]),
    ensures
        digits_end(s, k) == j,
    decreases j - k,
{
    if k < j {
        lemma_digits_end(s, k + 1, j);
    }
}

proof fn lemma_decimal_digits(n: nat)
    ensures
        decimal_digits(n).len() > 0,
        forall|m: int| 0 <= m < decimal_digits(n).len() ==> is_digit(#[trigger] decimal_digits(n)[m]),
        decimal_digits(n)[0] == 48 ==> n == 0 && decimal_digits(n).len() == 1,
        decimal(decimal_digits(n)) == n,
    decreases n,
{
    if n >= 10 {
        lemma_decimal_digits(n / 10);
        let d = decimal_digits(n);
        assert(d.drop_last() =~= decimal_digits(n / 10));
        assert(d[0] == decimal_digits(n / 10)[0]);
    } else {
        assert(decimal(seq![(n + 48) as u8].drop_last()) == 0) by {
            assert(seq![(n + 48) as u8].drop_last() =~= Seq::<u8>::empty());
        }
    }
}

proof fn lemma_int_text_end(s: Seq<u8>, i: int, t: Seq<u8>, term: u8)
    requires
        0 <= i,
        i + t.len() < s.len(),
        s.subrange(i, i + t.len()) == t,
        s[i + t.len()] == term,
        !is_digit(term),
        is_int_text(t),
    ensures
        int_text_end(s, i, term) == Some(i + t.len()),
{
    let j = if s[i] == 45 {
        i + 1
    } else {
        i
    };
    assert(s[i] == t[0]);
    let d = int_digits(t);
    assert(forall|m: int| 0 <= m < d.len() ==> is_digit(#[trigger] d[m]));
    assert forall|m: int| j <= m < i + t.len() implies is_digit(#[trigger] s[m]) by {
        assert(s[m] == s.subrange(i, i + t.len())[m - i]);
        assert(d[m - j] == t[m - i]);
        assert(is_digit(d[m - j]));
    }
    lemma_digits_end(s, j, i + t.len());
    if s[i] == 45 {
        assert(t.subrange(1, t.len() as int)[0] == s[j]);
    }
}

proof fn lemma_parse_encoded_bytes(s: Seq<u8>, i: int, b: Seq<u8>)
    requires
        0 <= i,
        i + encode_bytes(b).len() <= s.len(),
        s.subrange(i, i + encode_bytes(b).len()) == encode_bytes(b),
    ensures
        is_digit(s[i]),
        parse_bytes(s, i) == Ok::<(Seq<u8>, int), BencodeError>((b, i + encode_bytes(b).len())),
{
    let e = encode_bytes(b);
    let d = decimal_digits(b.len());
    lemma_decimal_digits(b.len());
    assert(is_int_text(d)) by {
        assert(is_digit(d[0]));
    }
    assert(s.subrange(i, i + d.len()) =~= d) by {
        assert forall|m: int| 0 <= m < d.len() implies s[i + m] == d[m] by {
            assert(s[i + m] == s.subrange(i, i + e.len())[m]);
            assert(e[m] == d[m]);
        }
    }
    assert(s[i + d.len()] == s.subrange(i, i + e.len())[d.len() as int]);
    assert(e[d.len() as int] == 58);
    lemma_int_text_end(s, i, d, 58);
    assert(s[i] == d[0]);
    assert(s.subrange(i + d.len() + 1, i + d.len() + 1 + b.len()) =~= b) by {
        assert forall|m: int| 0 <= m < b.len() implies s[i + d.len() + 1 + m] == b[m] by {
            assert(s[i + d.len() + 1 + m] == s.subrange(i, i + e.len())[d.len() + 1 + m]);
            assert(e[d.len() + 1 + m] == b[m]);
        }
    }
}

/// The value encoded at `i` is read back by the grammar, and the read ends
/// right after its encoding.
proof fn lemma_parse_encoded(s: Seq<u8>, i: int, v: Bencode, depth: nat)
    requires
        0 <= i,
        i + encode(v).len() <= s.len(),
        s.subrange(i, i + encode(v).len()) == encode(v),
        well_formed(v, depth),
    ensures
        encode(v).len() > 0,
        parse_value(s, i, depth) == Ok::<(Bencode, int), BencodeError>((v, i + encode(v).len())),
    decreases v, 1int,
{
    let e = encode(v);
    assert(s[i] == e[0]);
    match v {
        Bencode::Int(t) => {
            assert(s.subrange(i + 1, i + 1 + t.len()) =~= t) by {
                assert forall|m: int| 0 <= m < t.len() implies s[i + 1 + m] == t[m] by {
                    assert(s[i + 1 + m] == e[1 + m]);
                }
            }
            assert(s[i + 1 + t.len()] == e[1 + t.len() as int]);
            lemma_int_text_end(s, i + 1, t, 101);
        },
        Bencode::Bytes(b) => {
            lemma_parse_encoded_bytes(s, i, b);
        },
        Bencode::List(items) => {
            let body = encode_list(items);
            assert(s.subrange(i + 1, i + 1 + body.len()) =~= body) by {
                assert forall|m: int| 0 <= m < body.len() implies s[i + 1 + m] == body[m] by {
                    assert(s[i + 1 + m] == e[1 + m]);
                }
            }
            assert(s[i + 1 + body.len()] == e[1 + body.len() as int]);
            lemma_parse_encoded_list(s, i + 1, items, (depth - 1) as nat);
        },
        Bencode::Dict(entries) => {
            let body = encode_dict(entries);
            assert(s.subrange(i + 1, i + 1 + body.len()) =~= body) by {
                assert forall|m: int| 0 <= m < body.len() implies s[i + 1 + m] == body[m] by {
                    assert(s[i + 1 + m] == e[1 + m]);
                }
            }
            assert(s[i + 1 + body.len()] == e[1 + body.len() as int]);
            lemma_parse_encoded_dict(s, i + 1, entries, (depth - 1) as nat);
        },
    }
}

proof fn lemma_parse_encoded_list(s: Seq<u8>, i: int, items: Seq<Bencode>, depth: nat)
    requires
        0 <= i,
        i + encode_list(items).len() < s.len(),
        s.subrange(i, i + encode_list(items).len()) == encode_list(items),
        s[i + encode_list(items).len()] == 101,
        forall|m: int| 0 <= m < items.len() ==> well_formed(#[trigger] items[m], depth),
    ensures
        parse_list_items(s, i, depth) == Ok::<(Seq<Bencode>, int), BencodeError>(
            (items, i + encode_list(items).len() + 1),
        ),
    decreases items, 0int,
{
    if items.len() == 0 {
        assert(items =~= Seq::<Bencode>::empty());
    } else {
        let head = encode(items[0]);
        let tail = items.subrange(1, items.len() as int);
        let body = encode_list(items);
        assert(body =~= head + encode_list(tail));
        assert(s.subrange(i, i + head.len()) =~= head) by {
            assert forall|m: int| 0 <= m < head.len() implies s[i + m] == head[m] by {
                assert(s[i + m] == body[m]);
            }
        }
        lemma_parse_encoded(s, i, items[0], depth);
        let j = i + head.len();
        assert(s.subrange(j, j + encode_list(tail).len()) =~= encode_list(tail)) by {
            assert forall|m: int| 0 <= m < encode_list(tail).len() implies s[j + m] == encode_list(tail)[m] by {
                assert(s[j + m] == body[head.len() + m]);
            }
        }
        assert forall|m: int| 0 <= m < tail.len() implies well_formed(#[trigger] tail[m], depth) by {
            assert(tail[m] == items[m + 1]);
        }
        lemma_parse_encoded_list(s, j, tail, depth);
        assert(s[i] == head[0]);
        assert(seq![items[0]] + tail =~= items);
    }
}

proof fn lemma_parse_encoded_dict(s: Seq<u8>, i: int, entries: Seq<(Seq<u8>, Bencode)>, depth: nat)
    requires
        0 <= i,
        i + encode_dict(entries).len() < s.len(),
        s.subrange(i, i + encode_dict(entries).len()) == encode_dict(entries),
        s[i + encode_dict(entries).len()] == 101,
        forall|m: int| 0 <= m < entries.len() ==> well_formed(#[trigger] entries[m].1, depth),
    ensures
        parse_dict_items(s, i, depth) == Ok::<(Seq<(Seq<u8>, Bencode)>, int), BencodeError>(
            (entries, i + encode_dict(entries).len() + 1),
        ),
    decreases entries, 0int,
{
    if entries.len() == 0 {
        assert(entries =~= Seq::<(Seq<u8>, Bencode)>::empty());
    } else {
        let key = encode_bytes(entries[0].0);
        let val = encode(entries[0].1);
        let tail = entries.subrange(1, entries.len() as int);
        let body = encode_dict(entries);
        assert(body =~= key + val + encode_dict(tail));
        assert(s.subrange(i, i + key.len()) =~= key) by {
            assert forall|m: int| 0 <= m < key.len() implies s[i + m] == key[m] by {
                assert(s[i + m] == body[m]);
            }
        }
        lemma_parse_encoded_bytes(s, i, entries[0].0);
        let j = i + key.len();
        assert(s.subrange(j, j + val.len()) =~= val) by {
            assert forall|m: int| 0 <= m < val.len() implies s[j + m] == val[m] by {
                assert(s[j + m] == body[key.len() + m]);
            }
        }
        lemma_parse_encoded(s, j, entries[0].1, depth);
        let l = j + val.len();
        assert(s.subrange(l, l + encode_dict(tail).len()) =~= encode_dict(tail)) by {
            assert forall|m: int| 0 <= m < encode_dict(tail).len() implies s[l + m] == encode_dict(tail)[m] by {
                assert(s[l + m] == body[key.len() + val.len() + m]);
            }
        }
        assert forall|m: int| 0 <= m < tail.len() implies well_formed(#[trigger] tail[m].1, depth) by {
            assert(tail[m] == entries[m + 1]);
        }
        lemma_parse_encoded_dict(s, l, tail, depth);
        assert(s[i] == key[0]);
        assert(seq![entries[0]] + tail =~= entries);
    }
}

/// Decoding the encoding of a well-formed value, with anything after it,
/// gives back that value and stops right after its encoding.
pub proof fn lemma_decode_encode(v: Bencode, rest: Seq<u8>, depth: nat)
    requires
        well_formed(v, depth),
    ensures
        parse_value(encode(v) + rest, 0, depth) == Ok::<(Bencode, int), BencodeError>(
            (v, encode(v).len() as int),
        ),
{
    let s = encode(v) + rest;
    assert(s.subrange(0, encode(v).len() as int) =~= encode(v));
    lemma_parse_encoded(s, 0, v, depth);
}

proof fn lemma_digits_end_extend(s: Seq<u8>, t: Seq<u8>, k: int)
    requires
        0 <= k,
        s.len() <= t.len(),
        t.subrange(0, s.len() as int) == s,
        digits_end(s, k) < s.len(),
    ensures
        digits_end(t, k) == digits_end(s, k),
    decreases s.len() - k,
{
    assert(t[k] == t.subrange(0, s.len() as int)[k]);
    if is_digit(s[k]) {
        lemma_digits_end_extend(s, t, k + 1);
    }
}

proof fn lemma_digits_end_ge(s: Seq<u8>, k: int)
    ensures
        digits_end(s, k) >= k,
    decreases s.len() - k,
{
    if 0 <= k < s.len() && is_digit(s[k]) {
        lemma_digits_end_ge(s, k + 1);
    }
}

proof fn lemma_int_text_end_extend(s: Seq<u8>, t: Seq<u8>, i: int, term: u8)
    requires
        0 <= i,
        s.len() <= t.len(),
        t.subrange(0, s.len() as int) == s,
        int_text_end(s, i, term) is Some,
    ensures
        int_text_end(t, i, term) == int_text_end(s, i, term),
        i < int_text_end(s, i, term)->0 < s.len(),
{
    let k = int_text_end(s, i, term)->0;
    assert(i < s.len()) by {
        if i >= s.len() {
            assert(digits_end(s, i) == i);
        }
    }
    assert(t[i] == t.subrange(0, s.len() as int)[i]);
    let j = if s[i] == 45 {
        i + 1
    } else {
        i
    };
    lemma_digits_end_ge(s, j);
    lemma_digits_end_extend(s, t, j);
    assert(t[j] == t.subrange(0, s.len() as int)[j]);
    assert(t[k] == t.subrange(0, s.len() as int)[k]);
}

proof fn lemma_parse_bytes_extend(s: Seq<u8>, t: Seq<u8>, i: int)
    requires
        0 <= i,
        s.len() <= t.len(),
        t.subrange(0, s.len() as int) == s,
        parse_bytes(s, i) is Ok,
    ensures
        parse_bytes(t, i) == parse_bytes(s, i),
        i < parse_bytes(s, i)->Ok_0.1 <= s.len(),
{
    lemma_int_text_end_extend(s, t, i, 58);
    let c = int_text_end(s, i, 58)->0;
    assert(t[i] == t.subrange(0, s.len() as int)[i]);
    assert(t.subrange(i, c) =~= s.subrange(i, c));
    let n = decimal(s.subrange(i, c));
    assert(t.subrange(c + 1, c + 1 + n) =~= s.subrange(c + 1, c + 1 + n));
}

/// A value read from bytes reads the same, and ends at the same place
/// within them, when more bytes follow.
pub proof fn lemma_parse_extend(s: Seq<u8>, t: Seq<u8>, i: int, depth: nat)
    requires
        s.len() <= t.len(),
        t.subrange(0, s.len() as int) == s,
        parse_value(s, i, depth) is Ok,
    ensures
        parse_value(t, i, depth) == parse_value(s, i, depth),
        i < parse_value(s, i, depth)->Ok_0.1 <= s.len(),
    decreases s.len() - i, 0int,
{
    assert(t[i] == t.subrange(0, s.len() as int)[i]);
    if s[i] == 105 {
        lemma_int_text_end_extend(s, t, i + 1, 101);
        let k = int_text_end(s, i + 1, 101)->0;
        assert(t.subrange(i + 1, k) =~= s.subrange(i + 1, k));
    } else if is_digit(s[i]) {
        lemma_parse_bytes_extend(s, t, i);
    } else if s[i] == 108 {
        lemma_list_extend(s, t, i + 1, (depth - 1) as nat);
    } else if s[i] == 100 {
        lemma_dict_extend(s, t, i + 1, (depth - 1) as nat);
    }
}

proof fn lemma_list_extend(s: Seq<u8>, t: Seq<u8>, i: int, depth: nat)
    requires
        s.len() <= t.len(),
        t.subrange(0, s.len() as int) == s,
        parse_list_items(s, i, depth) is Ok,
    ensures
        parse_list_items(t, i, depth) == parse_list_items(s, i, depth),
        i < parse_list_items(s, i, depth)->Ok_0.1 <= s.len(),
    decreases s.len() - i, 1int,
{
    assert(t[i] == t.subrange(0, s.len() as int)[i]);
    if s[i] != 101 {
        lemma_parse_extend(s, t, i, depth);
        let j = parse_value(s, i, depth)->Ok_0.1;
        lemma_list_extend(s, t, j, depth);
    }
}

proof fn lemma_dict_extend(s: Seq<u8>, t: Seq<u8>, i: int, depth: nat)
    requires
        s.len() <= t.len(),
        t.subrange(0, s.len() as int) == s,
        parse_dict_items(s, i, depth) is Ok,
    ensures
        parse_dict_items(t, i, depth) == parse_dict_items(s, i, depth),
        i < parse_dict_items(s, i, depth)->Ok_0.1 <= s.len(),
    decreases s.len() - i, 1int,
{
    assert(t[i] == t.subrange(0, s.len() as int)[i]);
    if s[i] != 101 {
        lemma_parse_bytes_extend(s, t, i);
        let j = parse_bytes(s, i)->Ok_0.1;
        lemma_parse_extend(s, t, j, depth);
        let l = parse_value(s, j, depth)->Ok_0.1;
        lemma_dict_extend(s, t, l, depth);
    }
}

/// The end position of a parse, or its error.
pub open spec fn end_of<T>(r: Result<(T, int), BencodeError>) -> Result<int, BencodeError> {
    match r {
        Ok((_, e)) => Ok(e),
        Err(e) => Err(e),
    }
}

/// A position, or an error, widened to `int`.
pub open spec fn widen(r: Result<usize, BencodeError>) -> Result<int, BencodeError> {
    match r {
        Ok(e) => Ok(e as int),
        Err(e) => Err(e),
    }
}

pub(crate) fn scan_digits(s: &[u8], k: usize) -> (r: usize)
    requires
        k <= s@.len(),
    ensures
        r == digits_end(s@, k as int),
        k <= r <= s@.len(),
        forall|m: int| k <= m < r ==> is_digit(#[trigger] s@[m]),
{
    let mut j = k;
    while j < s.len() && s[j] >= 48 && s[j] <= 57
        invariant
            k <= j <= s@.len(),
            digits_end(s@, k as int) == digits_end(s@, j as int),
            forall|m: int| k <= m < j ==> is_digit(#[trigger] s@[m]),
        decreases s@.len() - j,
    {
        j = j + 1;
    }
    j
}

pub(crate) fn int_text_end_exec(s: &[u8], i: usize, term: u8) -> (r: Option<usize>)
    requires
        i <= s@.len(),
    ensures
        r is Some <==> int_text_end(s@, i as int, term) is Some,
        r is Some ==> r->0 == int_text_end(s@, i as int, term)->0,
        r is Some ==> i < r->0 < s@.len(),
        r is Some && s@[i as int] != 45 ==> forall|m: int|
            i <= m < r->0 ==> is_digit(#[trigger] s@[m]),
{
    let j = if i < s.len() && s[i] == 45 {
        i + 1
    } else {
        i
    };
    let k = scan_digits(s, j);
    if k == j {
        None
    } else if s[j] == 48 && (k > j + 1 || j > i) {
        None
    } else if k < s.len() && s[k] == term {
        Some(k)
    } else {
        None
    }
}

pub(crate) proof fn lemma_decimal_prefix(d: Seq<u8>, k: int)
    requires
        0 <= k <= d.len(),
        forall|m: int| 0 <= m < d.len() ==> is_digit(#[trigger] d[m]),
    ensures
        decimal(d.subrange(0, k)) <= decimal(d),
    decreases d.len() - k,
{
    if k < d.len() {
        lemma_decimal_prefix(d, k + 1);
        let p = d.subrange(0, k + 1);
        assert(p.drop_last() =~= d.subrange(0, k));
    } else {
        assert(d.subrange(0, k) =~= d);
    }
}

/// The bytes of a byte string that starts at `i`, as a range of `s`.
pub(crate) fn bytes_at(s: &[u8], i: usize) -> (r: Result<(usize, usize), BencodeError>)
    requires
        i < s@.len(),
        is_digit(s@[i as int]),
    ensures
        match parse_bytes(s@, i as int) {
            Ok((b, e)) => r is Ok && r->Ok_0.1 == e && r->Ok_0.0 <= r->Ok_0.1 <= s@.len()
                && b == s@.subrange(r->Ok_0.0 as int, r->Ok_0.1 as int),
            Err(e) => r == Err::<(usize, usize), BencodeError>(e),
        },
{
    let c = match int_text_end_exec(s, i, 58) {
        Some(c) => c,
        None => {
            return Err(BencodeError::Syntax);
        },
    };
    let ghost digits = s@.subrange(i as int, c as int);
    let avail = s.len() - (c + 1);
    let mut n: usize = 0;
    let mut k = i;
    while k < c
        invariant
            i <= k <= c,
            c < s@.len(),
            is_digit(s@[i as int]),
            int_text_end(s@, i as int, 58) == Some(c as int),
            avail == s@.len() - (c + 1),
            digits == s@.subrange(i as int, c as int),
            forall|m: int| i <= m < c ==> is_digit(#[trigger] s@[m]),
            n == decimal(s@.subrange(i as int, k as int)),
            n <= avail,
        decreases c - k,
    {
        let next = n as u128 * 10 + (s[k] - 48) as u128;
        proof {
            let p = s@.subrange(i as int, k + 1);
            assert(p.drop_last() =~= s@.subrange(i as int, k as int));
            assert(is_digit(s@[k as int]));
        }
        if next > avail as u128 {
            proof {
                assert forall|m: int| 0 <= m < digits.len() implies is_digit(#[trigger] digits[m]) by {
                    assert(digits[m] == s@[i + m]);
                }
                lemma_decimal_prefix(digits, k + 1 - i);
                assert(digits.subrange(0, k + 1 - i) =~= s@.subrange(i as int, k + 1));
                let p = s@.subrange(i as int, k + 1);
                assert(p.drop_last() =~= s@.subrange(i as int, k as int));
                assert(decimal(p) == next);
            }
            return Err(BencodeError::Syntax);
        }
        n = next as usize;
        k = k + 1;
    }
    Ok((c + 1, c + 1 + n))
}

/// Checks the value that starts at `i` and returns where it ends.
pub fn value_end(s: &[u8], i: usize, depth: usize) -> (r: Result<usize, BencodeError>)
    ensures
        widen(r) == end_of(parse_value(s@, i as int, depth as nat)),
    decreases s@.len() - i,
{
    if i >= s.len() {
        return Err(BencodeError::Syntax);
    }
    let b = s[i];
    if b == 105 {
        match int_text_end_exec(s, i + 1, 101) {
            Some(k) => Ok(k + 1),
            None => Err(BencodeError::Syntax),
        }
    } else if b >= 48 && b <= 57 {
        match bytes_at(s, i) {
            Ok((_, e)) => Ok(e),
            Err(e) => Err(e),
        }
    } else if b == 108 || b == 100 {
        if depth == 0 {
            return Err(BencodeError::NestingTooDeep);
        }
        let is_dict = b == 100;
        let d = depth - 1;
        let mut p = i + 1;
        while p < s.len() && s[p] != 101
            invariant
                i < p <= s@.len(),
                depth > 0,
                d == depth - 1,
                s@[i as int] == 100 || s@[i as int] == 108,
                is_dict == (s@[i as int] == 100),
                is_dict ==> end_of(parse_dict_items(s@, i + 1, d as nat)) == end_of(
                    parse_dict_items(s@, p as int, d as nat),
                ),
                !is_dict ==> end_of(parse_list_items(s@, i + 1, d as nat)) == end_of(
                    parse_list_items(s@, p as int, d as nat),
                ),
            decreases s@.len() - p,
        {
            let mut q = p;
            if is_dict {
                if s[p] < 48 || s[p] > 57 {
                    return Err(BencodeError::Syntax);
                }
                match bytes_at(s, p) {
                    Ok((_, e)) => {
                        q = e;
                    },
                    Err(e) => {
                        return Err(e);
                    },
                }
                if q <= p {
                    return Err(BencodeError::Syntax);
                }
            }
            let j = match value_end(s, q, d) {
                Ok(j) => j,
                Err(e) => {
                    proof {
                        assert(parse_value(s@, q as int, d as nat) matches Err(e2) && e2 == e);
                        if is_dict {
                            assert(end_of(parse_dict_items(s@, p as int, d as nat)) == Err::<int, BencodeError>(e));
                        } else {
                            assert(end_of(parse_list_items(s@, p as int, d as nat)) == Err::<int, BencodeError>(e));
                        }
                    }
                    return Err(e);
                },
            };
            if j <= q || j > s.len() {
                proof {
                    if is_dict {
                        assert(end_of(parse_dict_items(s@, p as int, d as nat)) == Err::<int, BencodeError>(BencodeError::Syntax));
                    } else {
                        assert(end_of(parse_list_items(s@, p as int, d as nat)) == Err::<int, BencodeError>(BencodeError::Syntax));
                    }
                }
                return Err(BencodeError::Syntax);
            }
            p = j;
        }
        if p >= s.len() {
            return Err(BencodeError::Syntax);
        }
        Ok(p + 1)
    } else {
        Err(BencodeError::Syntax)
    }
}

} // verus!
