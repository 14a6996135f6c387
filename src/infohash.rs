//! Torrent info-hashes: twenty raw bytes, written as forty hexadecimal digits.
use crate::wire::{PacketError, TryBytes, TryFromBuf};
use vstd::prelude::*;
use vstd::string::{StrSliceExecFns, StringExecFns};

verus! {

/// The value of a hexadecimal digit in either case.
pub open spec fn hex_digit_value(c: char) -> Option<u8> {
    if c == '0' { Some(0u8) }
    else if c == '1' { Some(1u8) }
    else if c == '2' { Some(2u8) }
    else if c == '3' { Some(3u8) }
    else if c == '4' { Some(4u8) }
    else if c == '5' { Some(5u8) }
    else if c == '6' { Some(6u8) }
    else if c == '7' { Some(7u8) }
    else if c == '8' { Some(8u8) }
    else if c == '9' { Some(9u8) }
    else if c == 'a' || c == 'A' { Some(10u8) }
    else if c == 'b' || c == 'B' { Some(11u8) }
    else if c == 'c' || c == 'C' { Some(12u8) }
    else if c == 'd' || c == 'D' { Some(13u8) }
    else if c == 'e' || c == 'E' { Some(14u8) }
    else if c == 'f' || c == 'F' { Some(15u8) }
    else { None }
}

/// The lowercase hexadecimal digit for `n < 16`.
pub open spec fn lower_hex_digit(n: int) -> char {
    if n == 0 { '0' }
    else if n == 1 { '1' }
    else if n == 2 { '2' }
    else if n == 3 { '3' }
    else if n == 4 { '4' }
    else if n == 5 { '5' }
    else if n == 6 { '6' }
    else if n == 7 { '7' }
    else if n == 8 { '8' }
    else if n == 9 { '9' }
    else if n == 10 { 'a' }
    else if n == 11 { 'b' }
    else if n == 12 { 'c' }
    else if n == 13 { 'd' }
    else if n == 14 { 'e' }
    else { 'f' }
}

/// `s` is an even number of hexadecimal digits.
pub open spec fn is_hex(s: Seq<char>) -> bool {
    &&& s.len() % 2 == 0
    &&& forall|i: int| 0 <= i < s.len() ==> (#[trigger] hex_digit_value(s[i])) is Some
}

/// The bytes that the digit pairs of `s` stand for, high digit first.
pub open spec fn hex_decoded(s: Seq<char>) -> Seq<u8> {
    Seq::new(
        s.len() / 2,
        |i: int|
            (hex_digit_value(s[2 * i])->0 * 16 + hex_digit_value(s[2 * i + 1])->0) as u8,
    )
}

/// `b` in lowercase hexadecimal, two digits per byte, high digit first.
pub open spec fn hex_lower(b: Seq<u8>) -> Seq<char> {
    Seq::new(
        2 * b.len(),
        |i: int|
            if i % 2 == 0 {
                lower_hex_digit(b[i / 2] as int / 16)
            } else {
                lower_hex_digit(b[i / 2] as int % 16)
            },
    )
}

proof fn lemma_lower_hex_digit_value(n: int)
    requires
        0 <= n < 16,
    ensures
        hex_digit_value(lower_hex_digit(n)) == Some(n as u8),
{
}

/// Writing bytes in hexadecimal and reading the digits back gives the same bytes.
pub proof fn lemma_hex_round_trip(b: Seq<u8>)
    ensures
        hex_lower(b).len() == 2 * b.len(),
        is_hex(hex_lower(b)),
        hex_decoded(hex_lower(b)) == b,
{
    let s = hex_lower(b);
    assert forall|i: int| 0 <= i < s.len() implies (#[trigger] hex_digit_value(s[i])) is Some by {
        if i % 2 == 0 {
            lemma_lower_hex_digit_value(b[i / 2] as int / 16);
        } else {
            lemma_lower_hex_digit_value(b[i / 2] as int % 16);
        }
    }
    assert(s.len() % 2 == 0) by (nonlinear_arith)
        requires
            s.len() == 2 * b.len(),
    ;
    assert(s.len() / 2 == b.len()) by (nonlinear_arith)
        requires
            s.len() == 2 * b.len(),
    ;
    assert forall|i: int| 0 <= i < b.len() implies #[trigger] hex_decoded(s)[i] == b[i] by {
        assert((2 * i) % 2 == 0 && (2 * i + 1) % 2 == 1 && (2 * i) / 2 == i && (2 * i + 1) / 2 == i)
            by (nonlinear_arith);
        lemma_lower_hex_digit_value(b[i] as int / 16);
        lemma_lower_hex_digit_value(b[i] as int % 16);
        assert((b[i] as int / 16) * 16 + b[i] as int % 16 == b[i] as int) by (nonlinear_arith);
    }
    assert(hex_decoded(s) =~= b);
}

/// A hexadecimal letter in lowercase; other characters stay as they are.
pub open spec fn hex_to_lower(c: char) -> char {
    if c == 'A' { 'a' }
    else if c == 'B' { 'b' }
    else if c == 'C' { 'c' }
    else if c == 'D' { 'd' }
    else if c == 'E' { 'e' }
    else if c == 'F' { 'f' }
    else { c }
}

/// A hexadecimal letter in uppercase; other characters stay as they are.
pub open spec fn hex_to_upper(c: char) -> char {
    if c == 'a' { 'A' }
    else if c == 'b' { 'B' }
    else if c == 'c' { 'C' }
    else if c == 'd' { 'D' }
    else if c == 'e' { 'E' }
    else if c == 'f' { 'F' }
    else { c }
}

proof fn lemma_hex_digit_cases(c: char)
    ensures
        hex_digit_value(hex_to_upper(c)) == hex_digit_value(c),
        hex_digit_value(c) is Some ==> lower_hex_digit(hex_digit_value(c)->0 as int)
            == hex_to_lower(c),
        hex_digit_value(c) is Some ==> hex_digit_value(c)->0 < 16,
{
}

/// Hexadecimal text read as bytes and written back is the same text in
/// lowercase, and reading it in uppercase gives the same bytes.
pub proof fn lemma_hex_text_round_trip(s: Seq<char>)
    requires
        is_hex(s),
    ensures
        hex_lower(hex_decoded(s)) == s.map_values(|c: char| hex_to_lower(c)),
        is_hex(s.map_values(|c: char| hex_to_upper(c))),
        hex_decoded(s.map_values(|c: char| hex_to_upper(c))) == hex_decoded(s),
{
    let d = hex_decoded(s);
    let lo = s.map_values(|c: char| hex_to_lower(c));
    let up = s.map_values(|c: char| hex_to_upper(c));
    assert(2 * (s.len() / 2) == s.len()) by (nonlinear_arith)
        requires
            s.len() % 2 == 0,
    ;
    assert forall|k: int| 0 <= k < s.len() implies #[trigger] hex_lower(d)[k] == lo[k] by {
        let j = k / 2;
        assert(0 <= j < s.len() / 2 && 2 * j <= k <= 2 * j + 1) by (nonlinear_arith)
            requires
                0 <= k < s.len(),
                s.len() % 2 == 0,
                j == k / 2,
        ;
        lemma_hex_digit_cases(s[2 * j]);
        lemma_hex_digit_cases(s[2 * j + 1]);
        assert(hex_digit_value(s[2 * j]) is Some);
        assert(hex_digit_value(s[2 * j + 1]) is Some);
        let hi = hex_digit_value(s[2 * j])->0 as int;
        let low = hex_digit_value(s[2 * j + 1])->0 as int;
        assert(d[j] as int == hi * 16 + low);
        assert((hi * 16 + low) / 16 == hi && (hi * 16 + low) % 16 == low) by (nonlinear_arith)
            requires
                0 <= hi < 16,
                0 <= low < 16,
        ;
        if k % 2 == 0 {
            assert(k == 2 * j);
        } else {
            assert(k == 2 * j + 1);
        }
    }
    assert(hex_lower(d) =~= lo);
    assert forall|i: int| 0 <= i < up.len() implies (#[trigger] hex_digit_value(up[i])) is Some by {
        lemma_hex_digit_cases(s[i]);
    }
    assert forall|j: int| 0 <= j < d.len() implies #[trigger] hex_decoded(up)[j] == d[j] by {
        assert(0 <= 2 * j && 2 * j + 1 < s.len()) by (nonlinear_arith)
            requires
                0 <= j < s.len() / 2,
        ;
        lemma_hex_digit_cases(s[2 * j]);
        lemma_hex_digit_cases(s[2 * j + 1]);
    }
    assert(hex_decoded(up) =~= d);
}

/// The identifier of a torrent: the SHA-1 digest of its metadata.
#[derive(Clone, Copy, Debug, PartialEq, Eq, Hash, PartialOrd, Ord)]
pub struct InfoHash([u8; 20]);

impl View for InfoHash {
    type V = Seq<u8>;

    closed spec fn view(&self) -> Seq<u8> {
        self.0@
    }
}

pub broadcast proof fn lemma_info_hash_len(h: InfoHash)
    ensures
        (#[trigger] h@).len() == 20,
{
}

pub broadcast proof fn lemma_info_hash_view_eq(a: InfoHash, b: InfoHash)
    ensures
        (#[trigger] a@ == #[trigger] b@) <==> a == b,
{
    if a@ == b@ {
        assert(a.0 =~= b.0);
    }
}

/// An info-hash read off a packet is the first twenty bytes read.
pub broadcast proof fn lemma_info_hash_from_be(b: Seq<u8>)
    requires
        b.len() >= 20,
    ensures
        (#[trigger] <InfoHash as TryFromBuf>::from_be(b))@ == b.subrange(0, 20),
{
    lemma_array_prefix(b, 20);
    assert(array_prefix(b, 20)@ =~= b.subrange(0, 20));
}

/// An array whose first `k` bytes are those of `b`.
spec fn array_prefix(b: Seq<u8>, k: nat) -> [u8; 20]
    decreases k,
{
    if k == 0 {
        vstd::array::spec_array_fill_for_copy_type::<u8, 20>(0)
    } else {
        vstd::array::spec_array_update(array_prefix(b, (k - 1) as nat), k - 1, b[k - 1])
    }
}

proof fn lemma_array_prefix(b: Seq<u8>, k: nat)
    requires
        k <= 20,
        b.len() >= k,
    ensures
        array_prefix(b, k)@.len() == 20,
        forall|i: int| 0 <= i < k ==> array_prefix(b, k)@[i] == b[i],
    decreases k,
{
    if k > 0 {
        lemma_array_prefix(b, (k - 1) as nat);
    }
}

pub broadcast group group_info_hash {
    lemma_info_hash_len,
    lemma_info_hash_view_eq,
    lemma_info_hash_from_be,
}

/// An info-hash written as hexadecimal text and read back, in either case, is
/// the same info-hash, and so is one whose twenty bytes are read back: `back`
/// stands for the value that `from_hex` gives on the text of `to_string`,
/// `upper` for the value it gives on that text in uppercase, and `again` for
/// the value that `try_from_slice` gives on the bytes of `as_bytes`.
pub proof fn lemma_info_hash_round_trip(h: InfoHash, back: InfoHash, upper: InfoHash, again: InfoHash)
    requires
        back@ == hex_decoded(hex_lower(h@)),
        upper@ == hex_decoded(hex_lower(h@).map_values(|c: char| hex_to_upper(c))),
        again@ == h@,
    ensures
        is_hex(hex_lower(h@)),
        is_hex(hex_lower(h@).map_values(|c: char| hex_to_upper(c))),
        hex_lower(h@).len() == 40,
        back == h,
        upper == h,
        again == h,
{
    lemma_hex_round_trip(h@);
    lemma_hex_text_round_trip(hex_lower(h@));
    lemma_info_hash_view_eq(back, h);
    lemma_info_hash_view_eq(upper, h);
    lemma_info_hash_view_eq(again, h);
}

/// `data_encoding::DecodeError`, carried through as the cause of `InvalidHex`.
#[verifier::external_type_specification]
#[verifier::external_body]
pub struct ExDecodeError(data_encoding::DecodeError);

/// Why text or bytes are not an info-hash.
#[derive(Clone, Copy, Debug, PartialEq, Eq)]
pub enum InfoHashError {
    InvalidHex(data_encoding::DecodeError),
    InvalidLength(usize),
}

impl InfoHashError {
    pub fn message(&self) -> (r: String) {
        match self {
            InfoHashError::InvalidHex(_) => String::from_str("info hash is invalid hexadecimal"),
            InfoHashError::InvalidLength(_) => String::from_str(
                "info hash has the wrong length, expected 20 bytes",
            ),
        }
    }
}

/// Relies on data_encoding's `HEXLOWER_PERMISSIVE.decode`: it accepts an even
/// number of hexadecimal digits in either case, and nothing else, and gives the
/// byte of each digit pair, high digit first.
#[verifier::external_body]
fn decode_hex(s: &str) -> (r: Result<Vec<u8>, data_encoding::DecodeError>)
    ensures
        r is Ok <==> is_hex(s@),
        r matches Ok(v) ==> v@ == hex_decoded(s@),
{
    data_encoding::HEXLOWER_PERMISSIVE.decode(s.as_bytes())
}

impl InfoHash {
    pub const LENGTH: usize = 20;

    pub fn from_array(bytes: &[u8; 20]) -> (r: InfoHash)
        ensures
            r@ == bytes@,
    {
        InfoHash(*bytes)
    }

    /// Reads twenty bytes; any other length is refused.
    pub fn try_from_slice(bs: &[u8]) -> (r: Result<InfoHash, InfoHashError>)
        ensures
            bs@.len() == 20 ==> r is Ok && r->Ok_0@ == bs@,
            bs@.len() != 20 ==> r == Err::<InfoHash, InfoHashError>(
                InfoHashError::InvalidLength(bs@.len() as usize),
            ),
    {
        if bs.len() != 20 {
            return Err(InfoHashError::InvalidLength(bs.len()));
        }
        let mut data = [0u8; 20];
        let mut i: usize = 0;
        while i < 20
            invariant
                bs@.len() == 20,
                i <= 20,
                forall|j: int| 0 <= j < i ==> data@[j] == bs@[j],
            decreases 20 - i,
        {
            data[i] = bs[i];
            i = i + 1;
        }
        assert(data@ =~= bs@);
        Ok(InfoHash(data))
    }

    /// Parses forty hexadecimal digits, in either case.
    pub fn from_hex(s: &str) -> (r: Result<InfoHash, InfoHashError>)
        ensures
            !is_hex(s@) ==> r matches Err(InfoHashError::InvalidHex(_)),
            is_hex(s@) && s@.len() == 40 ==> r is Ok && r->Ok_0@ == hex_decoded(s@),
            is_hex(s@) && s@.len() != 40 ==> r == Err::<InfoHash, InfoHashError>(
                InfoHashError::InvalidLength((s@.len() / 2) as usize),
            ),
    {
        match decode_hex(s) {
            Ok(bytes) => InfoHash::try_from_slice(bytes.as_slice()),
            Err(e) => Err(InfoHashError::InvalidHex(e)),
        }
    }

    pub fn as_bytes(&self) -> (r: &[u8])
        ensures
            r@ == self@,
    {
        self.0.as_slice()
    }

    /// The bytes are equal.
    pub fn same_as(&self, other: &InfoHash) -> (r: bool)
        ensures
            r == (self@ == other@),
    {
        let mut i: usize = 0;
        while i < 20
            invariant
                i <= 20,
                self@.len() == 20,
                other@.len() == 20,
                forall|j: int| 0 <= j < i ==> self@[j] == other@[j],
            decreases 20 - i,
        {
            if self.0[i] != other.0[i] {
                return false;
            }
            i = i + 1;
        }
        assert(self@ =~= other@);
        true
    }

    /// Forty lowercase hexadecimal digits.
    pub fn to_string(&self) -> (r: String)
        ensures
            r@ == hex_lower(self@),
    {
        let digits = "0123456789abcdef";
        proof {
            reveal_strlit("0123456789abcdef");
        }
        let mut out = String::new();
        let mut i: usize = 0;
        while i < 20
            invariant
                i <= 20,
                self@.len() == 20,
                digits@ == "0123456789abcdef"@,
                digits@.len() == 16,
                forall|n: int| 0 <= n < 16 ==> #[trigger] digits@[n] == lower_hex_digit(n),
                out@ == hex_lower(self@.subrange(0, i as int)),
            decreases 20 - i,
        {
            let b = self.0[i];
            let hi = (b / 16) as usize;
            let lo = (b % 16) as usize;
            let ghost before = out@;
            out.append(digits.substring_char(hi, hi + 1));
            out.append(digits.substring_char(lo, lo + 1));
            i = i + 1;
            proof {
                let done = self@.subrange(0, i as int);
                assert(out@ =~= hex_lower(done)) by {
                    assert(hex_lower(self@.subrange(0, i - 1)) == before);
                    assert forall|k: int| 0 <= k < 2 * i implies #[trigger] out@[k] == hex_lower(done)[k] by {
                        if k < 2 * (i - 1) {
                            assert(before[k] == hex_lower(self@.subrange(0, i - 1))[k]);
                        }
                    }
                }
            }
        }
        assert(self@.subrange(0, 20) =~= self@);
        out
    }
}

impl TryFromBuf for InfoHash {
    open spec fn width() -> nat {
        20
    }

    closed spec fn from_be(b: Seq<u8>) -> InfoHash {
        InfoHash(choose|a: [u8; 20]| a@ == b.subrange(0, 20))
    }

    proof fn lemma_width_positive() {
    }

    fn try_from_buf(buf: &mut TryBytes) -> (r: Result<InfoHash, PacketError>) {
        let bytes = buf.take_bytes(20)?;
        match InfoHash::try_from_slice(bytes.as_slice()) {
            Ok(h) => {
                proof {
                    let a = choose|a: [u8; 20]| a@ == old(buf).rest().subrange(0, 20);
                    assert(h.0@ == old(buf).rest().subrange(0, 20));
                    assert(a =~= h.0);
                }
                Ok(h)
            },
            Err(_) => Err(PacketError::Short),
        }
    }
}

} // verus!
