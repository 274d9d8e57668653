use vstd::prelude::*;
use vstd::slice::slice_subrange;
use vstd::string::StringSliceAdditionalSpecFns;
use vstd::utf8::valid_utf8;
use crate::util::{CassError, DbExpiryTimestamp, DbTimestamp, Token};

verus! {

/// Big-endian encoding of a 16-bit value.
pub open spec fn be_u16(v: u16) -> Seq<u8> {
    seq![(v / 0x100) as u8, (v % 0x100) as u8]
}

/// Big-endian encoding of a 32-bit value.
pub open spec fn be_u32(v: u32) -> Seq<u8> {
    seq![
        (v / 0x100_0000) as u8,
        (v / 0x1_0000 % 0x100) as u8,
        (v / 0x100 % 0x100) as u8,
        (v % 0x100) as u8,
    ]
}

/// Big-endian encoding of a 64-bit value.
pub open spec fn be_u64(v: u64) -> Seq<u8> {
    be_u32((v / 0x1_0000_0000) as u32) + be_u32((v % 0x1_0000_0000) as u32)
}

/// Big-endian encoding of a 128-bit value.
pub open spec fn be_u128(v: u128) -> Seq<u8> {
    be_u64((v / 0x1_0000_0000_0000_0000) as u64) + be_u64((v % 0x1_0000_0000_0000_0000) as u64)
}

/// The 16-bit value whose big-endian encoding is the first two bytes of `b`.
pub open spec fn u16_from_be(b: Seq<u8>) -> u16
    recommends
        b.len() >= 2,
{
    (b[0] as int * 0x100 + b[1] as int) as u16
}

/// The 32-bit value whose big-endian encoding is the first four bytes of `b`.
pub open spec fn u32_from_be(b: Seq<u8>) -> u32
    recommends
        b.len() >= 4,
{
    (b[0] as int * 0x100_0000 + b[1] as int * 0x1_0000 + b[2] as int * 0x100 + b[3] as int) as u32
}

/// The 64-bit value whose big-endian encoding is the first eight bytes of `b`.
pub open spec fn u64_from_be(b: Seq<u8>) -> u64
    recommends
        b.len() >= 8,
{
    (u32_from_be(b) as int * 0x1_0000_0000 + u32_from_be(b.skip(4)) as int) as u64
}

/// The 128-bit value whose big-endian encoding is the first sixteen bytes of `b`.
pub open spec fn u128_from_be(b: Seq<u8>) -> u128
    recommends
        b.len() >= 16,
{
    (u64_from_be(b) as int * 0x1_0000_0000_0000_0000 + u64_from_be(b.skip(8)) as int) as u128
}

/// Decoding undoes encoding, whatever follows the encoded value.
pub proof fn lemma_be_u16_decodes(v: u16, rest: Seq<u8>)
    ensures
        be_u16(v).len() == 2,
        u16_from_be(be_u16(v) + rest) == v,
{
}

/// Decoding undoes encoding, whatever follows the encoded value.
pub proof fn lemma_be_u32_decodes(v: u32, rest: Seq<u8>)
    ensures
        be_u32(v).len() == 4,
        u32_from_be(be_u32(v) + rest) == v,
{
}

/// Decoding undoes encoding, whatever follows the encoded value.
pub proof fn lemma_be_u64_decodes(v: u64, rest: Seq<u8>)
    ensures
        be_u64(v).len() == 8,
        u64_from_be(be_u64(v) + rest) == v,
{
    let hi = (v / 0x1_0000_0000) as u32;
    let lo = (v % 0x1_0000_0000) as u32;
    let b = be_u64(v) + rest;
    lemma_be_u32_decodes(hi, be_u32(lo) + rest);
    lemma_be_u32_decodes(lo, rest);
    assert(b =~= be_u32(hi) + (be_u32(lo) + rest));
    assert(b.skip(4) =~= be_u32(lo) + rest);
}

/// Decoding undoes encoding, whatever follows the encoded value.
pub proof fn lemma_be_u128_decodes(v: u128, rest: Seq<u8>)
    ensures
        be_u128(v).len() == 16,
        u128_from_be(be_u128(v) + rest) == v,
{
    let hi = (v / 0x1_0000_0000_0000_0000) as u64;
    let lo = (v % 0x1_0000_0000_0000_0000) as u64;
    let b = be_u128(v) + rest;
    lemma_be_u64_decodes(hi, be_u64(lo) + rest);
    lemma_be_u64_decodes(lo, rest);
    assert(b =~= be_u64(hi) + (be_u64(lo) + rest));
    assert(b.skip(8) =~= be_u64(lo) + rest);
}

/// An append-only byte sink with big-endian primitives.
pub struct CassWrite {
    out: Vec<u8>,
}

impl View for CassWrite {
    type V = Seq<u8>;

    closed spec fn view(&self) -> Seq<u8> {
        self.out@
    }
}

impl CassWrite {
    /// Wraps a buffer; everything written is appended behind what it holds.
    pub fn new(out: Vec<u8>) -> (w: CassWrite)
        ensures
            w@ == out@,
    {
        CassWrite { out }
    }

    /// What was written fits the machine's address space.
    pub proof fn lemma_len_fits(&self)
        ensures
            self@.len() <= usize::MAX,
    {
        assert(self.out@.len() == self.out.len());
    }

    /// The offset at which the next byte will be written.
    pub fn position(&self) -> (r: Result<u64, CassError>)
        ensures
            r is Ok,
            r->Ok_0 == self@.len(),
    {
        Ok(self.out.len() as u64)
    }

    pub fn write_u8(&mut self, value: u8) -> (r: Result<(), CassError>)
        ensures
            r is Ok,
            final(self)@ == old(self)@.push(value),
    {
        self.out.push(value);
        Ok(())
    }

    pub fn write_u16(&mut self, value: u16) -> (r: Result<(), CassError>)
        ensures
            r is Ok,
            final(self)@ == old(self)@ + be_u16(value),
    {
        self.out.push((value / 0x100) as u8);
        self.out.push((value % 0x100) as u8);
        assert(self.out@ =~= old(self).out@ + be_u16(value));
        Ok(())
    }

    pub fn write_u32(&mut self, value: u32) -> (r: Result<(), CassError>)
        ensures
            r is Ok,
            final(self)@ == old(self)@ + be_u32(value),
    {
        self.out.push((value / 0x100_0000) as u8);
        self.out.push((value / 0x1_0000 % 0x100) as u8);
        self.out.push((value / 0x100 % 0x100) as u8);
        self.out.push((value % 0x100) as u8);
        assert(self.out@ =~= old(self).out@ + be_u32(value));
        Ok(())
    }

    pub fn write_u64(&mut self, value: u64) -> (r: Result<(), CassError>)
        ensures
            r is Ok,
            final(self)@ == old(self)@ + be_u64(value),
    {
        let _ = self.write_u32((value / 0x1_0000_0000) as u32);
        let _ = self.write_u32((value % 0x1_0000_0000) as u32);
        assert(self.out@ =~= old(self).out@ + be_u64(value));
        Ok(())
    }

    /// Writes a 128-bit identifier as its sixteen big-endian bytes.
    pub fn write_uuid(&mut self, value: u128) -> (r: Result<(), CassError>)
        ensures
            r is Ok,
            final(self)@ == old(self)@ + be_u128(value),
    {
        let _ = self.write_u64((value / 0x1_0000_0000_0000_0000) as u64);
        let _ = self.write_u64((value % 0x1_0000_0000_0000_0000) as u64);
        assert(self.out@ =~= old(self).out@ + be_u128(value));
        Ok(())
    }

    pub fn write_db_timestamp(&mut self, value: DbTimestamp) -> (r: Result<(), CassError>)
        ensures
            r is Ok,
            final(self)@ == old(self)@ + be_u64(value),
    {
        self.write_u64(value)
    }

    pub fn write_db_expiry_timestamp(&mut self, value: DbExpiryTimestamp) -> (r: Result<
        (),
        CassError,
    >)
        ensures
            r is Ok,
            final(self)@ == old(self)@ + be_u32(value),
    {
        self.write_u32(value)
    }

    pub fn write_bool(&mut self, value: bool) -> (r: Result<(), CassError>)
        ensures
            r is Ok,
            final(self)@ == old(self)@.push(if value { 1u8 } else { 0u8 }),
    {
        if value {
            self.write_u8(1u8)
        } else {
            self.write_u8(0u8)
        }
    }

    /// Writes the string's byte length as a 32-bit prefix, then its UTF-8 bytes.
    /// A string too long for the prefix is refused and nothing is written.
    pub fn write_utf8(&mut self, value: &str) -> (r: Result<(), CassError>)
        ensures
            r is Ok <==> value.spec_bytes().len() <= u32::MAX,
            r is Ok ==> final(self)@ == old(self)@ + be_u32(value.spec_bytes().len() as u32)
                + value.spec_bytes(),
            r is Err ==> r == Err::<(), CassError>(CassError::StringTooLong) && final(self)@ == old(
                self,
            )@,
    {
        let bytes = value.as_bytes();
        let len: usize = bytes.len();
        if len > u32::MAX as usize {
            return Err(CassError::StringTooLong);
        }
        let _ = self.write_u32(len as u32);
        self.write_raw(bytes)
    }

    pub fn write_raw(&mut self, value: &[u8]) -> (r: Result<(), CassError>)
        ensures
            r is Ok,
            final(self)@ == old(self)@ + value@,
    {
        self.out.extend_from_slice(value);
        assert(self.out@ =~= old(self).out@ + value@);
        Ok(())
    }

    /// Hands back the buffer with everything that was written.
    pub fn into_inner(self) -> (out: Vec<u8>)
        ensures
            out@ == self@,
    {
        self.out
    }
}

/// Calls `std::str::from_utf8`, which gives the bytes back as text where
/// they are valid UTF-8 and refuses them where they are not.
#[verifier::external_body]
fn text_of<'a>(bytes: &'a [u8]) -> (text: Option<&'a str>)
    ensures
        text is Some <==> valid_utf8(bytes@),
        text is Some ==> text->Some_0.spec_bytes() == bytes@,
{
    match std::str::from_utf8(bytes) {
        Ok(text) => Some(text),
        Err(_) => None,
    }
}

/// A forward-only cursor over a borrowed buffer. Everything it hands out
/// borrows from that buffer; nothing is copied.
pub struct CassRead<'a> {
    pub buf: &'a [u8],
    pub pos: usize,
}

impl<'a> View for CassRead<'a> {
    type V = Seq<u8>;

    /// The whole buffer, from its first byte, wherever the cursor stands.
    open spec fn view(&self) -> Seq<u8> {
        self.buf@
    }
}

impl<'a> CassRead<'a> {
    /// What lies between the cursor and the end of the buffer.
    pub open spec fn rest(&self) -> Seq<u8> {
        self@.skip(self.pos as int)
    }

    pub fn wrap(buf: &'a [u8]) -> (r: CassRead<'a>)
        ensures
            r@ == buf@,
            r.pos == 0,
    {
        CassRead { buf, pos: 0 }
    }

    /// Tells whether at least `size` bytes lie behind the cursor.
    pub fn has_remaining(&self, size: usize) -> (b: bool)
        ensures
            b == (self.pos + size <= self@.len()),
    {
        self.pos <= self.buf.len() && size <= self.buf.len() - self.pos
    }

    /// States that at least `size` bytes lie behind the cursor; a caller that
    /// cannot show it has to test `has_remaining` first.
    pub fn assert_remaining(&self, size: usize)
        requires
            self@.len() >= self.pos + size,
    {
    }

    pub fn read_slice(&mut self, size: usize) -> (s: &'a [u8])
        requires
            old(self).pos + size <= old(self)@.len(),
        ensures
            s@ == old(self)@.subrange(old(self).pos as int, old(self).pos + size),
            final(self)@ == old(self)@,
            final(self).pos == old(self).pos + size,
    {
        let len: usize = self.buf.len();
        assert(self.pos + size <= len);
        let result = slice_subrange(self.buf, self.pos, self.pos + size);
        self.pos += size;
        result
    }

    pub fn peek_u8(&self) -> (v: u8)
        requires
            self.pos < self@.len(),
        ensures
            v == self@[self.pos as int],
    {
        self.buf[self.pos]
    }

    pub fn read_u8(&mut self) -> (v: u8)
        requires
            old(self).pos < old(self)@.len(),
        ensures
            v == old(self)@[old(self).pos as int],
            final(self)@ == old(self)@,
            final(self).pos == old(self).pos + 1,
    {
        let len: usize = self.buf.len();
        assert(self.pos < len);
        let result: u8 = self.peek_u8();
        self.pos += 1;
        result
    }

    pub fn peek_u32(&self) -> (v: u32)
        requires
            self.pos + 4 <= self@.len(),
        ensures
            v == u32_from_be(self@.skip(self.pos as int)),
    {
        self.peek_u32_offs(0)
    }

    /// The 32-bit value that starts `offs` bytes behind the cursor.
    pub fn peek_u32_offs(&self, offs: usize) -> (v: u32)
        requires
            self.pos + offs + 4 <= self@.len(),
        ensures
            v == u32_from_be(self@.skip(self.pos + offs)),
    {
        let len: usize = self.buf.len();
        assert(self.pos + offs + 4 <= len);
        let at: usize = self.pos + offs;
        let b0: u32 = self.buf[at] as u32;
        let b1: u32 = self.buf[at + 1] as u32;
        let b2: u32 = self.buf[at + 2] as u32;
        let b3: u32 = self.buf[at + 3] as u32;
        b0 * 0x100_0000 + b1 * 0x1_0000 + b2 * 0x100 + b3
    }

    pub fn read_u32(&mut self) -> (v: u32)
        requires
            old(self).pos + 4 <= old(self)@.len(),
        ensures
            v == u32_from_be(old(self)@.skip(old(self).pos as int)),
            final(self)@ == old(self)@,
            final(self).pos == old(self).pos + 4,
    {
        let len: usize = self.buf.len();
        assert(self.pos + 4 <= len);
        let result: u32 = self.peek_u32();
        self.pos += 4;
        result
    }

    pub fn peek_u64(&self) -> (v: u64)
        requires
            self.pos + 8 <= self@.len(),
        ensures
            v == u64_from_be(self@.skip(self.pos as int)),
    {
        let hi: u64 = self.peek_u32_offs(0) as u64;
        let lo: u64 = self.peek_u32_offs(4) as u64;
        assert(self@.skip(self.pos as int).skip(4) =~= self@.skip(self.pos + 4));
        hi * 0x1_0000_0000 + lo
    }

    pub fn read_u64(&mut self) -> (v: u64)
        requires
            old(self).pos + 8 <= old(self)@.len(),
        ensures
            v == u64_from_be(old(self)@.skip(old(self).pos as int)),
            final(self)@ == old(self)@,
            final(self).pos == old(self).pos + 8,
    {
        let len: usize = self.buf.len();
        assert(self.pos + 8 <= len);
        let result: u64 = self.peek_u64();
        self.pos += 8;
        result
    }

    /// Reads a 128-bit identifier from its sixteen big-endian bytes.
    pub fn read_uuid(&mut self) -> (v: u128)
        requires
            old(self).pos + 16 <= old(self)@.len(),
        ensures
            v == u128_from_be(old(self)@.skip(old(self).pos as int)),
            final(self)@ == old(self)@,
            final(self).pos == old(self).pos + 16,
    {
        let hi: u128 = self.read_u64() as u128;
        let lo: u128 = self.read_u64() as u128;
        assert(old(self)@.skip(old(self).pos as int).skip(8) =~= old(self)@.skip(
            old(self).pos + 8,
        ));
        hi * 0x1_0000_0000_0000_0000 + lo
    }

    /// Reads a string: its byte length as a 32-bit prefix, then that many
    /// bytes, which must be valid UTF-8. The cursor moves only on success.
    pub fn read_utf8(&mut self) -> (r: Result<&'a str, CassError>)
        requires
            old(self).pos <= old(self)@.len(),
        ensures
            final(self)@ == old(self)@,
            match r {
                Ok(text) => {
                    &&& 4 + text.spec_bytes().len() <= old(self).rest().len()
                    &&& text.spec_bytes().len() == u32_from_be(old(self).rest())
                    &&& text.spec_bytes() == old(self).rest().subrange(
                        4,
                        4 + text.spec_bytes().len() as int,
                    )
                    &&& final(self).pos == old(self).pos + 4 + text.spec_bytes().len()
                },
                Err(e) => {
                    &&& final(self).pos == old(self).pos
                    &&& e == if old(self).rest().len() < 4 || old(self).rest().len() < 4
                        + u32_from_be(old(self).rest()) {
                        CassError::UnexpectedEnd
                    } else {
                        CassError::InvalidUtf8
                    }
                    &&& e == CassError::InvalidUtf8 ==> !valid_utf8(
                        old(self).rest().subrange(4, 4 + u32_from_be(old(self).rest()) as int),
                    )
                },
            },
    {
        if !self.has_remaining(4) {
            return Err(CassError::UnexpectedEnd);
        }
        let len: usize = self.peek_u32() as usize;
        let total: usize = self.buf.len();
        if total - self.pos - 4 < len {
            return Err(CassError::UnexpectedEnd);
        }
        let bytes = slice_subrange(self.buf, self.pos + 4, self.pos + 4 + len);
        assert(bytes@ =~= self.rest().subrange(4, 4 + len as int));
        match text_of(bytes) {
            Some(text) => {
                self.pos += 4 + len;
                Ok(text)
            },
            None => Err(CassError::InvalidUtf8),
        }
    }

    pub fn read_db_timestamp(&mut self) -> (v: DbTimestamp)
        requires
            old(self).pos + 8 <= old(self)@.len(),
        ensures
            v == u64_from_be(old(self)@.skip(old(self).pos as int)),
            final(self)@ == old(self)@,
            final(self).pos == old(self).pos + 8,
    {
        self.read_u64()
    }

    pub fn read_db_expiry_timestamp(&mut self) -> (v: DbExpiryTimestamp)
        requires
            old(self).pos + 4 <= old(self)@.len(),
        ensures
            v == u32_from_be(old(self)@.skip(old(self).pos as int)),
            final(self)@ == old(self)@,
            final(self).pos == old(self).pos + 4,
    {
        self.read_u32()
    }
}

/// A pluggable encoder for values of type `T`. An encoder fixes, for every
/// value, the bytes that stand for it, and says which values it takes;
/// writing either appends exactly those bytes or fails, and it does not
/// fail on a value that the encoder takes.
pub trait CassSerializer<T> {
    /// The bytes that stand for `o`.
    spec fn encoding(o: &T) -> Seq<u8>;

    /// Whether the encoder takes `o`. This is for each encoder to say; one
    /// that takes no value promises nothing.
    spec fn accepts(o: &T) -> bool;

    fn ser(out: &mut CassWrite, o: &T) -> (r: Result<(), CassError>)
        ensures
            r is Ok ==> final(out)@ == old(out)@ + Self::encoding(o),
            Self::accepts(o) ==> r is Ok,
    ;
}

/// A pluggable decoder for values of type `T`, each of which takes the same
/// number of bytes.
pub trait CassDeserializer<T> {
    /// The number of bytes that a value takes.
    spec fn width() -> nat;

    /// The value that the first `width()` bytes of `bytes` stand for.
    spec fn decoding(bytes: Seq<u8>) -> T;

    fn deser(r: &mut CassRead) -> (o: T)
        requires
            old(r).pos + Self::width() <= old(r)@.len(),
        ensures
            o == Self::decoding(old(r).rest()),
            final(r)@ == old(r)@,
            final(r).pos == old(r).pos + Self::width(),
    ;
}

/// Tokens as sixteen big-endian bytes.
pub struct TokenCodec;

impl CassSerializer<Token> for TokenCodec {
    open spec fn encoding(o: &Token) -> Seq<u8> {
        be_u128(*o)
    }

    open spec fn accepts(o: &Token) -> bool {
        true
    }

    fn ser(out: &mut CassWrite, o: &Token) -> (r: Result<(), CassError>) {
        out.write_uuid(*o)
    }
}

impl CassDeserializer<Token> for TokenCodec {
    open spec fn width() -> nat {
        16
    }

    open spec fn decoding(bytes: Seq<u8>) -> Token {
        u128_from_be(bytes)
    }

    fn deser(r: &mut CassRead) -> (o: Token) {
        r.read_uuid()
    }
}

/// File offsets as eight big-endian bytes.
pub struct OffsetCodec;

impl CassSerializer<u64> for OffsetCodec {
    open spec fn encoding(o: &u64) -> Seq<u8> {
        be_u64(*o)
    }

    open spec fn accepts(o: &u64) -> bool {
        true
    }

    fn ser(out: &mut CassWrite, o: &u64) -> (r: Result<(), CassError>) {
        out.write_u64(*o)
    }
}

impl CassDeserializer<u64> for OffsetCodec {
    open spec fn width() -> nat {
        8
    }

    open spec fn decoding(bytes: Seq<u8>) -> u64 {
        u64_from_be(bytes)
    }

    fn deser(r: &mut CassRead) -> (o: u64) {
        r.read_u64()
    }
}

} // verus!
