//! Big-endian integers on the wire, and a bounds-checked cursor that reads them.
use vstd::prelude::*;

verus! {

/// The value of four bytes read most significant first.
pub open spec fn be_u32_of(b: Seq<u8>) -> int {
    ((b[0] as int * 256 + b[1] as int) * 256 + b[2] as int) * 256 + b[3] as int
}

/// The value of eight bytes read most significant first.
pub open spec fn be_u64_of(b: Seq<u8>) -> int {
    be_u32_of(b) * 0x1_0000_0000 + be_u32_of(b.subrange(4, 8))
}

/// The four bytes of `x`, most significant first.
pub open spec fn u32_be(x: u32) -> Seq<u8> {
    seq![
        (x / 0x100_0000) as u8,
        (x / 0x1_0000 % 256) as u8,
        (x / 256 % 256) as u8,
        (x % 256) as u8,
    ]
}

/// The eight bytes of `x`, most significant first.
pub open spec fn u64_be(x: u64) -> Seq<u8> {
    u32_be((x / 0x1_0000_0000) as u32) + u32_be((x % 0x1_0000_0000) as u32)
}

/// Four bytes written from `x` read back as `x`.
pub proof fn lemma_u32_be_round_trip(x: u32)
    ensures
        u32_be(x).len() == 4,
        be_u32_of(u32_be(x)) == x,
{
    let b = u32_be(x);
    assert(b[0] as int == x / 0x100_0000);
    assert(b[1] as int == x / 0x1_0000 % 256);
    assert(b[2] as int == x / 256 % 256);
    assert(b[3] as int == x % 256);
    assert(((x / 0x100_0000 * 256 + x / 0x1_0000 % 256) * 256 + x / 256 % 256) * 256 + x % 256
        == x) by (nonlinear_arith);
}

/// Eight bytes written from `x` read back as `x`.
pub proof fn lemma_u64_be_round_trip(x: u64)
    ensures
        u64_be(x).len() == 8,
        be_u64_of(u64_be(x)) == x,
{
    let hi = (x / 0x1_0000_0000) as u32;
    let lo = (x % 0x1_0000_0000) as u32;
    lemma_u32_be_round_trip(hi);
    lemma_u32_be_round_trip(lo);
    let b = u64_be(x);
    assert(b.subrange(0, 4) =~= u32_be(hi));
    assert(b.subrange(4, 8) =~= u32_be(lo));
    assert(be_u32_of(b) == be_u32_of(u32_be(hi)));
    assert(x / 0x1_0000_0000 * 0x1_0000_0000 + x % 0x1_0000_0000 == x) by (nonlinear_arith);
}

/// Appends the four bytes of `x`, most significant first.
pub fn put_u32(buf: &mut Vec<u8>, x: u32)
    ensures
        final(buf)@ == old(buf)@ + u32_be(x),
{
    buf.push((x / 0x100_0000) as u8);
    buf.push((x / 0x1_0000 % 256) as u8);
    buf.push((x / 256 % 256) as u8);
    buf.push((x % 256) as u8);
    assert(final(buf)@ =~= old(buf)@ + u32_be(x));
}

/// Appends the eight bytes of `x`, most significant first.
pub fn put_u64(buf: &mut Vec<u8>, x: u64)
    ensures
        final(buf)@ == old(buf)@ + u64_be(x),
{
    put_u32(buf, (x / 0x1_0000_0000) as u32);
    put_u32(buf, (x % 0x1_0000_0000) as u32);
    assert(final(buf)@ =~= old(buf)@ + u64_be(x));
}

/// Reads four bytes at `at`, most significant first.
fn read_u32_at(data: &Vec<u8>, at: usize) -> (r: u32)
    requires
        at + 4 <= data@.len(),
    ensures
        r == be_u32_of(data@.subrange(at as int, at + 4)),
{
    let len = data.len();
    assert(at + 3 < len);
    let b0 = data[at] as u32;
    let b1 = data[at + 1] as u32;
    let b2 = data[at + 2] as u32;
    let b3 = data[at + 3] as u32;
    ((b0 * 256 + b1) * 256 + b2) * 256 + b3
}

/// A fresh vector holding the bytes of `bs`.
pub fn copy_bytes(bs: &[u8]) -> (r: Vec<u8>)
    ensures
        r@ == bs@,
{
    let mut out: Vec<u8> = Vec::new();
    let mut i: usize = 0;
    while i < bs.len()
        invariant
            i <= bs@.len(),
            out@ == bs@.subrange(0, i as int),
        decreases bs@.len() - i,
    {
        out.push(bs[i]);
        i = i + 1;
        assert(out@ =~= bs@.subrange(0, i as int));
    }
    assert(out@ =~= bs@);
    out
}

/// The cursor ran past the end of the packet.
#[derive(Clone, Copy, Debug, PartialEq, Eq, Structural)]
pub enum PacketError {
    Short,
}

impl PacketError {
    pub fn message(&self) -> (r: String) {
        String::from_str("unexpected end of packet")
    }
}

/// A cursor over a byte buffer whose reads check the remaining length first.
#[derive(Debug, PartialEq, Eq)]
pub struct TryBytes {
    data: Vec<u8>,
    pos: usize,
}

impl TryBytes {
    #[verifier::type_invariant]
    spec fn inv(&self) -> bool {
        self.pos <= self.data@.len()
    }

    /// The bytes not read yet.
    pub closed spec fn rest(&self) -> Seq<u8> {
        self.data@.subrange(self.pos as int, self.data@.len() as int)
    }

    pub fn new(data: Vec<u8>) -> (r: TryBytes)
        ensures
            r.rest() == data@,
    {
        let r = TryBytes { data, pos: 0 };
        assert(r.rest() =~= r.data@);
        r
    }

    pub fn from_slice(bs: &[u8]) -> (r: TryBytes)
        ensures
            r.rest() == bs@,
    {
        TryBytes::new(copy_bytes(bs))
    }

    pub fn remaining(&self) -> (r: usize)
        ensures
            r == self.rest().len(),
    {
        proof {
            use_type_invariant(self);
        }
        self.data.len() - self.pos
    }

    pub fn has_remaining(&self) -> (r: bool)
        ensures
            r == (self.rest().len() > 0),
    {
        self.remaining() > 0
    }

    /// Takes the next `n` bytes, or fails with `Short` leaving the cursor as it was.
    pub fn take_bytes(&mut self, n: usize) -> (r: Result<Vec<u8>, PacketError>)
        ensures
            old(self).rest().len() < n ==> r == Err::<Vec<u8>, PacketError>(PacketError::Short)
                && final(self).rest() == old(self).rest(),
            old(self).rest().len() >= n ==> r is Ok && r->Ok_0@ == old(self).rest().subrange(
                0,
                n as int,
            ) && final(self).rest() == old(self).rest().subrange(
                n as int,
                old(self).rest().len() as int,
            ),
    {
        proof {
            use_type_invariant(&*self);
        }
        if self.data.len() - self.pos < n {
            return Err(PacketError::Short);
        }
        let mut out: Vec<u8> = Vec::new();
        let start = self.pos;
        let len = self.data.len();
        let mut i: usize = 0;
        while i < n
            invariant
                len == self.data@.len(),
                start + n <= len,
                i <= n,
                out@ == self.data@.subrange(start as int, start + i),
            decreases n - i,
        {
            out.push(self.data[start + i]);
            i = i + 1;
            assert(out@ =~= self.data@.subrange(start as int, start + i));
        }
        self.pos = start + n;
        assert(out@ =~= old(self).rest().subrange(0, n as int));
        assert(self.rest() =~= old(self).rest().subrange(n as int, old(self).rest().len() as int));
        Ok(out)
    }

    pub fn try_get_u32(&mut self) -> (r: Result<u32, PacketError>)
        ensures
            old(self).rest().len() < 4 ==> r == Err::<u32, PacketError>(PacketError::Short)
                && final(self).rest() == old(self).rest(),
            old(self).rest().len() >= 4 ==> r == Ok::<u32, PacketError>(
                be_u32_of(old(self).rest()) as u32,
            ) && final(self).rest() == old(self).rest().subrange(
                4,
                old(self).rest().len() as int,
            ),
    {
        proof {
            use_type_invariant(&*self);
        }
        if self.data.len() - self.pos < 4 {
            return Err(PacketError::Short);
        }
        let v = read_u32_at(&self.data, self.pos);
        self.pos = self.pos + 4;
        assert(self.rest() =~= old(self).rest().subrange(4, old(self).rest().len() as int));
        Ok(v)
    }

    pub fn try_get_u64(&mut self) -> (r: Result<u64, PacketError>)
        ensures
            old(self).rest().len() < 8 ==> r == Err::<u64, PacketError>(PacketError::Short)
                && final(self).rest() == old(self).rest(),
            old(self).rest().len() >= 8 ==> r == Ok::<u64, PacketError>(
                be_u64_of(old(self).rest()) as u64,
            ) && final(self).rest() == old(self).rest().subrange(
                8,
                old(self).rest().len() as int,
            ),
    {
        proof {
            use_type_invariant(&*self);
        }
        if self.data.len() - self.pos < 8 {
            return Err(PacketError::Short);
        }
        let hi = read_u32_at(&self.data, self.pos);
        let lo = read_u32_at(&self.data, self.pos + 4);
        self.pos = self.pos + 8;
        let ghost rest = old(self).rest();
        assert(rest.subrange(4, 8) =~= old(self).data@.subrange(old(self).pos + 4, old(self).pos + 8));
        assert(self.rest() =~= rest.subrange(8, rest.len() as int));
        Ok(hi as u64 * 0x1_0000_0000 + lo as u64)
    }
}


/// A value that is read off the front of a packet, `width()` bytes wide.
pub trait TryFromBuf: Sized {
    spec fn width() -> nat;

    /// The value that the first `width()` bytes of `b` stand for.
    spec fn from_be(b: Seq<u8>) -> Self;

    proof fn lemma_width_positive()
        ensures
            Self::width() > 0,
    ;

    fn try_from_buf(buf: &mut TryBytes) -> (r: Result<Self, PacketError>)
        ensures
            old(buf).rest().len() < Self::width() ==> r == Err::<Self, PacketError>(
                PacketError::Short,
            ) && final(buf).rest() == old(buf).rest(),
            old(buf).rest().len() >= Self::width() ==> r == Ok::<Self, PacketError>(
                Self::from_be(old(buf).rest()),
            ) && final(buf).rest() == old(buf).rest().subrange(
                Self::width() as int,
                old(buf).rest().len() as int,
            ),
    ;
}

impl TryFromBuf for u32 {
    open spec fn width() -> nat {
        4
    }

    open spec fn from_be(b: Seq<u8>) -> u32 {
        be_u32_of(b) as u32
    }

    proof fn lemma_width_positive() {
    }

    fn try_from_buf(buf: &mut TryBytes) -> (r: Result<u32, PacketError>) {
        buf.try_get_u32()
    }
}

impl TryFromBuf for u64 {
    open spec fn width() -> nat {
        8
    }

    open spec fn from_be(b: Seq<u8>) -> u64 {
        be_u64_of(b) as u64
    }

    proof fn lemma_width_positive() {
    }

    fn try_from_buf(buf: &mut TryBytes) -> (r: Result<u64, PacketError>) {
        buf.try_get_u64()
    }
}

/// The records that `b` holds back to back, or `None` when its length is not a
/// whole number of records.
pub open spec fn records_of<T: TryFromBuf>(b: Seq<u8>) -> Option<Seq<T>>
    decreases b.len(),
{
    if b.len() == 0 {
        Some(Seq::empty())
    } else if b.len() < T::width() || T::width() == 0 {
        None
    } else {
        match records_of::<T>(b.subrange(T::width() as int, b.len() as int)) {
            Some(tail) => Some(seq![T::from_be(b)] + tail),
            None => None,
        }
    }
}

/// Reading records back to back succeeds exactly when the bytes are a whole
/// number of records, and then yields one record per `width()` bytes.
pub proof fn lemma_records_of_len<T: TryFromBuf>(b: Seq<u8>)
    ensures
        records_of::<T>(b) is Some <==> b.len() % T::width() == 0,
        records_of::<T>(b) is Some ==> records_of::<T>(b)->0.len() == b.len() / T::width(),
    decreases b.len(),
{
    T::lemma_width_positive();
    let w = T::width();
    if b.len() == 0 {
    } else if b.len() < w {
        assert(b.len() % w == b.len()) by (nonlinear_arith)
            requires
                0 < b.len() < w,
        ;
    } else {
        let tail = b.subrange(w as int, b.len() as int);
        lemma_records_of_len::<T>(tail);
        let n = b.len() as int;
        assert((n - w) % (w as int) == n % (w as int)) by (nonlinear_arith)
            requires
                n >= w,
                w > 0,
        ;
        assert((n - w) / (w as int) + 1 == n / (w as int)) by (nonlinear_arith)
            requires
                n >= w,
                w > 0,
        ;
    }
}

impl TryBytes {
    pub fn try_get<T: TryFromBuf>(&mut self) -> (r: Result<T, PacketError>)
        ensures
            old(self).rest().len() < T::width() ==> r == Err::<T, PacketError>(
                PacketError::Short,
            ) && final(self).rest() == old(self).rest(),
            old(self).rest().len() >= T::width() ==> r == Ok::<T, PacketError>(
                T::from_be(old(self).rest()),
            ) && final(self).rest() == old(self).rest().subrange(
                T::width() as int,
                old(self).rest().len() as int,
            ),
    {
        T::try_from_buf(self)
    }

    /// Reads records until no byte is left; a partial record at the end fails
    /// the whole read with `Short`.
    pub fn try_get_all<T: TryFromBuf>(self) -> (r: Result<Vec<T>, PacketError>)
        ensures
            records_of::<T>(self.rest()) is None ==> r == Err::<Vec<T>, PacketError>(
                PacketError::Short,
            ),
            records_of::<T>(self.rest()) is Some ==> r is Ok,
            records_of::<T>(self.rest()) is Some ==> r->Ok_0@ == records_of::<T>(self.rest())->0,
    {
        let ghost all = self.rest();
        let mut cur = self;
        let mut values: Vec<T> = Vec::new();
        proof {
            T::lemma_width_positive();
            if let Some(tail) = records_of::<T>(all) {
                assert(values@ + tail =~= tail);
            }
        }
        while cur.has_remaining()
            invariant
                T::width() > 0,
                all == self.rest(),
                records_of::<T>(all) == match records_of::<T>(cur.rest()) {
                    Some(tail) => Some(values@ + tail),
                    None => None::<Seq<T>>,
                },
            decreases cur.rest().len(),
        {
            let ghost before = cur.rest();
            match cur.try_get::<T>() {
                Ok(v) => {
                    let ghost prev = values@;
                    values.push(v);
                    proof {
                        match records_of::<T>(cur.rest()) {
                            Some(tail) => {
                                assert(values@ + tail =~= prev + (seq![v] + tail));
                            },
                            None => {},
                        }
                    }
                },
                Err(e) => {
                    assert(records_of::<T>(before) is None);
                    return Err(e);
                },
            }
        }
        proof {
            assert(values@ + Seq::<T>::empty() =~= values@);
        }
        Ok(values)
    }

    /// The bytes not read yet, as text with invalid UTF-8 replaced.
    pub fn into_string_lossy(self) -> (r: String)
        ensures
            r@ == utf8_lossy(self.rest()),
    {
        proof {
            use_type_invariant(&self);
        }
        let rest = self.take_rest();
        string_from_utf8_lossy(rest.as_slice())
    }

    fn take_rest(self) -> (r: Vec<u8>)
        ensures
            r@ == self.rest(),
    {
        let mut cur = self;
        let n = cur.remaining();
        match cur.take_bytes(n) {
            Ok(v) => v,
            Err(_) => Vec::new(),
        }
    }
}

/// What `String::from_utf8_lossy` makes of the bytes `b`.
pub uninterp spec fn utf8_lossy(b: Seq<u8>) -> Seq<char>;

/// Relies on `String::from_utf8_lossy`: the text depends on the bytes alone.
#[verifier::external_body]
pub(crate) fn string_from_utf8_lossy(b: &[u8]) -> (r: String)
    ensures
        r@ == utf8_lossy(b@),
{
    String::from_utf8_lossy(b).into_owned()
}

} // verus!
