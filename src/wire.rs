//! Cursor over a received message and the fixed-width field readers that
//! every section decoder is built from.
use vstd::prelude::*;
use vstd::slice::slice_subrange;
use vstd::utf8::{decode_utf8, valid_utf8};

verus! {

/// Why encoding or decoding a message failed.
#[derive(Debug, Clone, Copy, PartialEq, Eq, Structural)]
pub enum CodecError {
    /// The input ends before the field being read.
    UnexpectedEof,
    /// A label does not fit in 1..=63 bytes, or a declared data length does
    /// not match the payload it announces.
    InvalidLabelLength,
    /// A type tag outside the recognised set, or one that has no payload codec.
    UnsupportedType,
    /// A class tag outside the recognised set.
    UnsupportedClass,
    /// An operation code outside 0..=3.
    UnsupportedOpcode,
    /// A response code outside 0..=5.
    UnsupportedResponseCode,
    /// A compression pointer that does not point strictly backwards.
    MalformedPointer,
    /// Label or text bytes that are not valid UTF-8.
    Utf8DecodeError,
    /// The answer count announces more records than the message holds, or
    /// disagrees with the records handed to the encoder.
    SectionCountMismatch,
}

/// A read position into a received message: `current` is the part not yet
/// consumed and `source` the whole message, against which compression
/// pointers are resolved.
#[derive(Debug, Clone, Copy)]
pub struct Buffer<'a> {
    pub current: &'a [u8],
    pub source: &'a [u8],
}

impl<'a> Buffer<'a> {
    /// `current` is a suffix of `source`.
    pub open spec fn wf(&self) -> bool {
        &&& self.current@.len() <= self.source@.len()
        &&& self.source@.subrange(self.pos(), self.source@.len() as int) == self.current@
    }

    /// Offset of the cursor from the start of the message.
    pub open spec fn pos(&self) -> int {
        self.source@.len() - self.current@.len()
    }

    /// A cursor at the start of `message`.
    pub fn new(message: &'a [u8]) -> (r: Buffer<'a>)
        ensures
            r.wf(),
            r.pos() == 0,
            r.source@ == message@,
    {
        let r = Buffer { current: message, source: message };
        assert(r.source@.subrange(0, r.source@.len() as int) =~= r.current@);
        r
    }

    /// Offset of the cursor from the start of the message.
    pub fn position(&self) -> (r: usize)
        requires
            self.wf(),
        ensures
            r == self.pos(),
    {
        self.source.len() - self.current.len()
    }

    /// Moves the cursor forward to offset `pos` of the message.
    pub fn advance_to(&mut self, pos: usize)
        requires
            old(self).wf(),
            old(self).pos() <= pos <= old(self).source@.len(),
        ensures
            final(self).wf(),
            final(self).source == old(self).source,
            final(self).pos() == pos,
    {
        self.current = slice_subrange(self.source, pos, self.source.len());
    }
}

/// Types that encode to bytes on the wire.
pub trait Serialize {
    /// The bytes that encoding gives, or why it is refused.
    spec fn spec_serialize(&self) -> Result<Seq<u8>, CodecError>;

    fn serialize(&self) -> (r: Result<Vec<u8>, CodecError>)
        ensures
            match self.spec_serialize() {
                Ok(b) => r is Ok && r->Ok_0@ == b,
                Err(e) => r == Err::<Vec<u8>, CodecError>(e),
            },
    ;
}

/// Types that decode from the cursor of a [`Buffer`].
pub trait DeSerialize: Sized + View {
    /// Decoding at offset `pos` of the message `src`: the value and the offset
    /// just past it, or why it is refused.
    spec fn spec_deserialize(src: Seq<u8>, pos: int) -> Result<(Self::V, int), CodecError>;

    /// Decodes at the cursor and moves it past what was read; on failure the
    /// cursor stays where it was. Returns the moved cursor with the value.
    fn deserialize<'a>(buffer: &mut Buffer<'a>) -> (r: Result<(Buffer<'a>, Self), CodecError>)
        requires
            old(buffer).wf(),
        ensures
            final(buffer).wf(),
            final(buffer).source == old(buffer).source,
            match Self::spec_deserialize(old(buffer).source@, old(buffer).pos()) {
                Ok((v, end)) => r is Ok && r->Ok_0.1@ == v && final(buffer).pos() == end && r->Ok_0.0 == *final(buffer),
                Err(e) => r is Err && r->Err_0 == e && *final(buffer) == *old(buffer),
            },
    ;
}

/// Big-endian value of two bytes.
pub open spec fn be16(hi: u8, lo: u8) -> u16 {
    (hi as int * 256 + lo as int) as u16
}

/// Big-endian value of four bytes.
pub open spec fn be32(b0: u8, b1: u8, b2: u8, b3: u8) -> u32 {
    (b0 as int * 16777216 + b1 as int * 65536 + b2 as int * 256 + b3 as int) as u32
}

/// Big-endian bytes of a 16-bit value.
pub open spec fn u16_bytes(v: u16) -> Seq<u8> {
    seq![(v / 256) as u8, (v % 256) as u8]
}

/// Big-endian bytes of a 32-bit value.
pub open spec fn u32_bytes(v: u32) -> Seq<u8> {
    seq![(v / 16777216) as u8, ((v / 65536) % 256) as u8, ((v / 256) % 256) as u8, (v % 256) as u8]
}

/// Turns the end position of an executable read into the `int` of the
/// spec function that describes the read.
pub open spec fn widen<T>(r: Result<(T, usize), CodecError>) -> Result<(T, int), CodecError> {
    match r {
        Ok((v, p)) => Ok((v, p as int)),
        Err(e) => Err(e),
    }
}

/// Reading `n` bytes at `pos`.
pub open spec fn spec_bytes_at(src: Seq<u8>, pos: int, n: int) -> Result<(Seq<u8>, int), CodecError> {
    if 0 <= pos && 0 <= n && pos + n <= src.len() {
        Ok((src.subrange(pos, pos + n), pos + n))
    } else {
        Err(CodecError::UnexpectedEof)
    }
}

/// Reading a big-endian 16-bit value at `pos`.
pub open spec fn spec_u16_at(src: Seq<u8>, pos: int) -> Result<(u16, int), CodecError> {
    if 0 <= pos && pos + 2 <= src.len() {
        Ok((be16(src[pos], src[pos + 1]), pos + 2))
    } else {
        Err(CodecError::UnexpectedEof)
    }
}

/// Reading a big-endian 32-bit value at `pos`.
pub open spec fn spec_u32_at(src: Seq<u8>, pos: int) -> Result<(u32, int), CodecError> {
    if 0 <= pos && pos + 4 <= src.len() {
        Ok((be32(src[pos], src[pos + 1], src[pos + 2], src[pos + 3]), pos + 4))
    } else {
        Err(CodecError::UnexpectedEof)
    }
}

pub fn read_u16_at(src: &[u8], pos: usize) -> (r: Result<(u16, usize), CodecError>)
    ensures
        widen(r) == spec_u16_at(src@, pos as int),
{
    if pos < src.len() && src.len() - pos >= 2 {
        let v: u16 = src[pos] as u16 * 256 + src[pos + 1] as u16;
        Ok((v, pos + 2))
    } else {
        Err(CodecError::UnexpectedEof)
    }
}

pub fn read_u32_at(src: &[u8], pos: usize) -> (r: Result<(u32, usize), CodecError>)
    ensures
        widen(r) == spec_u32_at(src@, pos as int),
{
    if pos < src.len() && src.len() - pos >= 4 {
        let v: u32 = src[pos] as u32 * 16777216 + src[pos + 1] as u32 * 65536
            + src[pos + 2] as u32 * 256 + src[pos + 3] as u32;
        Ok((v, pos + 4))
    } else {
        Err(CodecError::UnexpectedEof)
    }
}

pub fn read_bytes_at<'s>(src: &'s [u8], pos: usize, n: usize) -> (r: Result<(&'s [u8], usize), CodecError>)
    ensures
        match r {
            Ok((b, p)) => spec_bytes_at(src@, pos as int, n as int) == Ok::<(Seq<u8>, int), CodecError>((b@, p as int)),
            Err(e) => spec_bytes_at(src@, pos as int, n as int) == Err::<(Seq<u8>, int), CodecError>(e),
        },
{
    if pos <= src.len() && src.len() - pos >= n {
        Ok((slice_subrange(src, pos, pos + n), pos + n))
    } else {
        Err(CodecError::UnexpectedEof)
    }
}

/// Relies on `std::str::from_utf8`: the bytes are accepted exactly when they
/// are well-formed UTF-8, and the text is their decoding.
#[verifier::external_body]
pub(crate) fn utf8_text(b: &[u8]) -> (r: Option<&str>)
    ensures
        r is Some <==> valid_utf8(b@),
        r is Some ==> r->Some_0@ == decode_utf8(b@),
{
    std::str::from_utf8(b).ok()
}

/// Appends `bytes` to `out`.
pub fn push_bytes(out: &mut Vec<u8>, bytes: &[u8])
    ensures
        final(out)@ == old(out)@ + bytes@,
{
    let mut i: usize = 0;
    while i < bytes.len()
        invariant
            i <= bytes@.len(),
            out@ == old(out)@ + bytes@.subrange(0, i as int),
        decreases bytes@.len() - i,
    {
        out.push(bytes[i]);
        i = i + 1;
        assert(out@ =~= old(out)@ + bytes@.subrange(0, i as int));
    }
    assert(bytes@.subrange(0, bytes@.len() as int) =~= bytes@);
}

/// Appends the big-endian bytes of `v`.
pub fn push_u16(out: &mut Vec<u8>, v: u16)
    ensures
        final(out)@ == old(out)@ + u16_bytes(v),
{
    out.push((v / 256) as u8);
    out.push((v % 256) as u8);
    assert(final(out)@ =~= old(out)@ + u16_bytes(v));
}

/// Appends the big-endian bytes of `v`.
pub fn push_u32(out: &mut Vec<u8>, v: u32)
    ensures
        final(out)@ == old(out)@ + u32_bytes(v),
{
    out.push((v / 16777216) as u8);
    out.push(((v / 65536) % 256) as u8);
    out.push(((v / 256) % 256) as u8);
    out.push((v % 256) as u8);
    assert(final(out)@ =~= old(out)@ + u32_bytes(v));
}

/// The bytes of a 16-bit value read back give the value.
pub proof fn lemma_u16_round_trip(v: u16)
    ensures
        be16(u16_bytes(v)[0], u16_bytes(v)[1]) == v,
{
}

/// The bytes of a 32-bit value read back give the value.
pub proof fn lemma_u32_round_trip(v: u32)
    ensures
        be32(u32_bytes(v)[0], u32_bytes(v)[1], u32_bytes(v)[2], u32_bytes(v)[3]) == v,
{
}

/// A piece of bytes that stand at `pos` of `src` stands at the matching
/// offset of `src`.
pub proof fn lemma_subrange_at(src: Seq<u8>, pos: int, b: Seq<u8>, off: int, len: int)
    requires
        0 <= pos,
        pos + b.len() <= src.len(),
        src.subrange(pos, pos + b.len()) == b,
        0 <= off,
        0 <= len,
        off + len <= b.len(),
    ensures
        src.subrange(pos + off, pos + off + len) == b.subrange(off, off + len),
{
    assert forall|i: int| 0 <= i < len implies #[trigger] src.subrange(pos + off, pos + off + len)[i] == b.subrange(off, off + len)[i] by {
        assert(src[pos + off + i] == src.subrange(pos, pos + b.len())[off + i]);
    }
    assert(src.subrange(pos + off, pos + off + len) =~= b.subrange(off, off + len));
}

} // verus!
