//! The fixed twelve-byte header of a message.
use vstd::prelude::*;

use crate::wire::{be16, push_u16, u16_bytes, Buffer, CodecError, DeSerialize, Serialize};

verus! {

/// Length of the header on the wire.
pub const HEADER_LENGTH: usize = 12;

/// Kind of query in a message.
#[derive(Debug, Clone, Copy, PartialEq, Eq, Structural)]
pub enum Opcode {
    /// a standard query
    Query,
    /// an inverse query
    IQuery,
    /// a server status request
    Status,
    /// reserved for future use
    Reserved,
}

/// Outcome that a response reports.
#[derive(Debug, Clone, Copy, PartialEq, Eq, Structural)]
pub enum ResponseCode {
    /// No error condition
    NoError,
    /// The name server was unable to interpret the query.
    FormatError,
    /// The name server was unable to process this query.
    ServerFailure,
    /// The domain name referenced in the query does not exist.
    NameError,
    /// The name server does not support the requested kind of query.
    NotImplemented,
    /// The name server refuses to perform the specified operation.
    Refused,
}

impl Opcode {
    /// The four-bit value of the operation code.
    pub open spec fn spec_code(self) -> u8 {
        match self {
            Opcode::Query => 0,
            Opcode::IQuery => 1,
            Opcode::Status => 2,
            Opcode::Reserved => 3,
        }
    }

    pub open spec fn spec_from_code(code: u8) -> Option<Opcode> {
        if code == 0 { Some(Opcode::Query) }
        else if code == 1 { Some(Opcode::IQuery) }
        else if code == 2 { Some(Opcode::Status) }
        else if code == 3 { Some(Opcode::Reserved) }
        else { None }
    }

    pub fn code(&self) -> (r: u8)
        ensures
            r == self.spec_code(),
    {
        match self {
            Opcode::Query => 0,
            Opcode::IQuery => 1,
            Opcode::Status => 2,
            Opcode::Reserved => 3,
        }
    }

    pub fn from_code(code: u8) -> (r: Option<Opcode>)
        ensures
            r == Opcode::spec_from_code(code),
    {
        match code {
            0 => Some(Opcode::Query),
            1 => Some(Opcode::IQuery),
            2 => Some(Opcode::Status),
            3 => Some(Opcode::Reserved),
            _ => None,
        }
    }

    /// The name of the operation code.
    pub fn name(&self) -> &'static str {
        match self {
            Opcode::Query => "Query",
            Opcode::IQuery => "IQuery",
            Opcode::Status => "Status",
            Opcode::Reserved => "Reserved",
        }
    }
}

impl ResponseCode {
    /// The four-bit value of the response code.
    pub open spec fn spec_code(self) -> u8 {
        match self {
            ResponseCode::NoError => 0,
            ResponseCode::FormatError => 1,
            ResponseCode::ServerFailure => 2,
            ResponseCode::NameError => 3,
            ResponseCode::NotImplemented => 4,
            ResponseCode::Refused => 5,
        }
    }

    pub open spec fn spec_from_code(code: u8) -> Option<ResponseCode> {
        if code == 0 { Some(ResponseCode::NoError) }
        else if code == 1 { Some(ResponseCode::FormatError) }
        else if code == 2 { Some(ResponseCode::ServerFailure) }
        else if code == 3 { Some(ResponseCode::NameError) }
        else if code == 4 { Some(ResponseCode::NotImplemented) }
        else if code == 5 { Some(ResponseCode::Refused) }
        else { None }
    }

    pub fn code(&self) -> (r: u8)
        ensures
            r == self.spec_code(),
    {
        match self {
            ResponseCode::NoError => 0,
            ResponseCode::FormatError => 1,
            ResponseCode::ServerFailure => 2,
            ResponseCode::NameError => 3,
            ResponseCode::NotImplemented => 4,
            ResponseCode::Refused => 5,
        }
    }

    pub fn from_code(code: u8) -> (r: Option<ResponseCode>)
        ensures
            r == ResponseCode::spec_from_code(code),
    {
        match code {
            0 => Some(ResponseCode::NoError),
            1 => Some(ResponseCode::FormatError),
            2 => Some(ResponseCode::ServerFailure),
            3 => Some(ResponseCode::NameError),
            4 => Some(ResponseCode::NotImplemented),
            5 => Some(ResponseCode::Refused),
            _ => None,
        }
    }

    /// The name of the response code.
    pub fn name(&self) -> &'static str {
        match self {
            ResponseCode::NoError => "NoError",
            ResponseCode::FormatError => "FormatError",
            ResponseCode::ServerFailure => "ServerFailure",
            ResponseCode::NameError => "NameError",
            ResponseCode::NotImplemented => "NotImplemented",
            ResponseCode::Refused => "Refused",
        }
    }
}

/// The message header.
#[derive(Debug, Clone, Copy, PartialEq, Eq, Structural)]
pub struct Header {
    /// Identifier chosen by the program that sends the query.
    pub id: u16,
    /// Whether the message is a response.
    pub qr: bool,
    /// Kind of query.
    pub opcode: Opcode,
    /// Authoritative answer.
    pub aa: bool,
    /// The message was truncated.
    pub tc: bool,
    /// Recursion desired.
    pub rd: bool,
    /// Recursion available.
    pub ra: bool,
    /// Reserved three bits: always sent as zero, kept as read.
    pub z: u8,
    /// Response code.
    pub r_code: ResponseCode,
    /// Number of questions.
    pub qd_count: u16,
    /// Number of answer records.
    pub an_count: u16,
    /// Number of authority records.
    pub ns_count: u16,
    /// Number of additional records.
    pub ar_count: u16,
}

impl View for Header {
    type V = Header;

    open spec fn view(&self) -> Header {
        *self
    }
}

/// One bit as a number.
pub open spec fn bit(b: bool) -> int {
    if b { 1 } else { 0 }
}

/// Third header byte: qr, opcode, aa, tc, rd from the top bit down.
pub open spec fn flags_hi(h: Header) -> u8 {
    (bit(h.qr) * 128 + h.opcode.spec_code() as int * 8 + bit(h.aa) * 4 + bit(h.tc) * 2 + bit(h.rd)) as u8
}

/// Fourth header byte: ra, three zero bits, then the response code.
pub open spec fn flags_lo(h: Header) -> u8 {
    (bit(h.ra) * 128 + h.r_code.spec_code() as int) as u8
}

/// The twelve bytes of a header.
pub open spec fn spec_header_bytes(h: Header) -> Seq<u8> {
    u16_bytes(h.id) + seq![flags_hi(h), flags_lo(h)] + u16_bytes(h.qd_count) + u16_bytes(h.an_count)
        + u16_bytes(h.ns_count) + u16_bytes(h.ar_count)
}

/// Decoding the header at `pos`, field by field from the top bit: id (16),
/// qr (1), opcode (4), aa, tc, rd, ra (1 each), z (3), rcode (4), and the four
/// counts (16 each).
pub open spec fn spec_header_at(src: Seq<u8>, pos: int) -> Result<(Header, int), CodecError> {
    if pos < 0 || pos + 12 > src.len() {
        Err(CodecError::UnexpectedEof)
    } else {
        let b2 = src[pos + 2];
        let b3 = src[pos + 3];
        match Opcode::spec_from_code(((b2 / 8) % 16) as u8) {
            None => Err(CodecError::UnsupportedOpcode),
            Some(opcode) => match ResponseCode::spec_from_code(b3 % 16) {
                None => Err(CodecError::UnsupportedResponseCode),
                Some(r_code) => Ok((
                    Header {
                        id: be16(src[pos], src[pos + 1]),
                        qr: b2 >= 128,
                        opcode,
                        aa: (b2 / 4) % 2 == 1,
                        tc: (b2 / 2) % 2 == 1,
                        rd: b2 % 2 == 1,
                        ra: b3 >= 128,
                        z: ((b3 / 16) % 8) as u8,
                        r_code,
                        qd_count: be16(src[pos + 4], src[pos + 5]),
                        an_count: be16(src[pos + 6], src[pos + 7]),
                        ns_count: be16(src[pos + 8], src[pos + 9]),
                        ar_count: be16(src[pos + 10], src[pos + 11]),
                    },
                    pos + 12,
                )),
            },
        }
    }
}

impl Header {
    pub fn new(
        id: u16,
        qr: bool,
        opcode: Opcode,
        aa: bool,
        tc: bool,
        rd: bool,
        ra: bool,
        r_code: ResponseCode,
        qd_count: u16,
        an_count: u16,
        ns_count: u16,
        ar_count: u16,
    ) -> (r: Header)
        ensures
            r == (Header { id, qr, opcode, aa, tc, rd, ra, z: 0, r_code, qd_count, an_count, ns_count, ar_count }),
    {
        Header { id, qr, opcode, aa, tc, rd, ra, z: 0, r_code, qd_count, an_count, ns_count, ar_count }
    }

    /// The header that [`Header::request`] returns.
    pub open spec fn request_spec() -> Header {
        Header {
            id: 2,
            qr: false,
            opcode: Opcode::Query,
            aa: false,
            tc: false,
            rd: true,
            ra: false,
            z: 0,
            r_code: ResponseCode::NoError,
            qd_count: 1,
            an_count: 0,
            ns_count: 0,
            ar_count: 1,
        }
    }

    /// Header of a plain recursive query with one question and one
    /// additional record announced.
    pub fn request() -> (r: Header)
        ensures
            r == Header::request_spec(),
    {
        Header::new(0x0002, false, Opcode::Query, false, false, true, false, ResponseCode::NoError, 1, 0, 0, 1)
    }
}

/// Decodes the header at `pos` of `src`.
pub fn read_header_at(src: &[u8], pos: usize) -> (r: Result<(Header, usize), CodecError>)
    ensures
        crate::wire::widen(r) == spec_header_at(src@, pos as int),
{
    if pos > src.len() || src.len() - pos < HEADER_LENGTH {
        return Err(CodecError::UnexpectedEof);
    }
    let b2 = src[pos + 2];
    let b3 = src[pos + 3];
    let opcode = match Opcode::from_code((b2 / 8) % 16) {
        Some(o) => o,
        None => {
            return Err(CodecError::UnsupportedOpcode);
        },
    };
    let r_code = match ResponseCode::from_code(b3 % 16) {
        Some(c) => c,
        None => {
            return Err(CodecError::UnsupportedResponseCode);
        },
    };
    let h = Header {
        id: src[pos] as u16 * 256 + src[pos + 1] as u16,
        qr: b2 >= 128,
        opcode,
        aa: (b2 / 4) % 2 == 1,
        tc: (b2 / 2) % 2 == 1,
        rd: b2 % 2 == 1,
        ra: b3 >= 128,
        z: (b3 / 16) % 8,
        r_code,
        qd_count: src[pos + 4] as u16 * 256 + src[pos + 5] as u16,
        an_count: src[pos + 6] as u16 * 256 + src[pos + 7] as u16,
        ns_count: src[pos + 8] as u16 * 256 + src[pos + 9] as u16,
        ar_count: src[pos + 10] as u16 * 256 + src[pos + 11] as u16,
    };
    Ok((h, pos + HEADER_LENGTH))
}

/// Appends the twelve header bytes of `h`.
pub fn write_header(h: &Header, out: &mut Vec<u8>)
    ensures
        final(out)@ == old(out)@ + spec_header_bytes(*h),
{
    let hi: u8 = (if h.qr { 128u8 } else { 0u8 }) + h.opcode.code() * 8 + (if h.aa { 4u8 } else { 0u8 })
        + (if h.tc { 2u8 } else { 0u8 }) + (if h.rd { 1u8 } else { 0u8 });
    let lo: u8 = (if h.ra { 128u8 } else { 0u8 }) + h.r_code.code();
    push_u16(out, h.id);
    out.push(hi);
    out.push(lo);
    push_u16(out, h.qd_count);
    push_u16(out, h.an_count);
    push_u16(out, h.ns_count);
    push_u16(out, h.ar_count);
    assert(final(out)@ =~= old(out)@ + spec_header_bytes(*h));
}

impl Serialize for Header {
    open spec fn spec_serialize(&self) -> Result<Seq<u8>, CodecError> {
        Ok(spec_header_bytes(*self))
    }

    fn serialize(&self) -> (r: Result<Vec<u8>, CodecError>) {
        let mut out: Vec<u8> = Vec::new();
        write_header(self, &mut out);
        assert(out@ =~= spec_header_bytes(*self));
        Ok(out)
    }
}

impl DeSerialize for Header {
    open spec fn spec_deserialize(src: Seq<u8>, pos: int) -> Result<(Header, int), CodecError> {
        spec_header_at(src, pos)
    }

    fn deserialize<'a>(buffer: &mut Buffer<'a>) -> (r: Result<(Buffer<'a>, Header), CodecError>) {
        let pos = buffer.position();
        let (header, end) = read_header_at(buffer.source, pos)?;
        buffer.advance_to(end);
        Ok((*buffer, header))
    }
}

proof fn lemma_unpack_hi(q: int, o: int, a: int, t: int, r: int)
    requires
        0 <= q <= 1,
        0 <= o <= 15,
        0 <= a <= 1,
        0 <= t <= 1,
        0 <= r <= 1,
    ensures
        ({
            let b = q * 128 + o * 8 + a * 4 + t * 2 + r;
            &&& 0 <= b < 256
            &&& (b >= 128) == (q == 1)
            &&& (b / 8) % 16 == o
            &&& (b / 4) % 2 == a
            &&& (b / 2) % 2 == t
            &&& b % 2 == r
        }),
{
}

proof fn lemma_unpack_lo(ra: int, c: int)
    requires
        0 <= ra <= 1,
        0 <= c <= 15,
    ensures
        ({
            let b = ra * 128 + c;
            &&& 0 <= b < 256
            &&& (b >= 128) == (ra == 1)
            &&& (b / 16) % 8 == 0
            &&& b % 16 == c
        }),
{
}

proof fn lemma_flags(h: Header)
    ensures
        (flags_hi(h) >= 128) == h.qr,
        ((flags_hi(h) / 8) % 16) as u8 == h.opcode.spec_code(),
        ((flags_hi(h) / 4) % 2 == 1) == h.aa,
        ((flags_hi(h) / 2) % 2 == 1) == h.tc,
        (flags_hi(h) % 2 == 1) == h.rd,
        (flags_lo(h) >= 128) == h.ra,
        (flags_lo(h) / 16) % 8 == 0,
        flags_lo(h) % 16 == h.r_code.spec_code(),
{
    lemma_unpack_hi(bit(h.qr), h.opcode.spec_code() as int, bit(h.aa), bit(h.tc), bit(h.rd));
    lemma_unpack_lo(bit(h.ra), h.r_code.spec_code() as int);
}

/// The bytes of a header, wherever in a message they stand, decode to it
/// with the reserved bits read as zero.
pub proof fn lemma_decode_encoded_header(src: Seq<u8>, pos: int, h: Header)
    requires
        0 <= pos,
        pos + 12 <= src.len(),
        src.subrange(pos, pos + 12) == spec_header_bytes(h),
    ensures
        spec_header_at(src, pos) == Ok::<(Header, int), CodecError>((Header { z: 0, ..h }, pos + 12)),
{
    let b = spec_header_bytes(h);
    assert forall|i: int| 0 <= i < 12 implies #[trigger] src[pos + i] == b[i] by {
        assert(src[pos + i] == src.subrange(pos, pos + 12)[i]);
    }
    crate::wire::lemma_u16_round_trip(h.id);
    crate::wire::lemma_u16_round_trip(h.qd_count);
    crate::wire::lemma_u16_round_trip(h.an_count);
    crate::wire::lemma_u16_round_trip(h.ns_count);
    crate::wire::lemma_u16_round_trip(h.ar_count);
    lemma_flags(h);
    let hi = flags_hi(h);
    let lo = flags_lo(h);
    assert(b.len() == 12);
    assert(src[pos + 2] == hi);
    assert(src[pos + 3] == lo);
    assert(Opcode::spec_from_code(((hi / 8) % 16) as u8) == Some(h.opcode));
    assert(ResponseCode::spec_from_code(lo % 16) == Some(h.r_code));
    assert(src[pos] == b[0]) by {
        assert(src[pos] == src.subrange(pos, pos + 12)[0]);
    }
    assert(be16(src[pos], src[pos + 1]) == h.id);
    assert(be16(src[pos + 4], src[pos + 5]) == h.qd_count);
    assert(be16(src[pos + 6], src[pos + 7]) == h.an_count);
    assert(be16(src[pos + 8], src[pos + 9]) == h.ns_count);
    assert(be16(src[pos + 10], src[pos + 11]) == h.ar_count);
}

/// Decoding the bytes of a header gives it back, with the reserved bits read
/// as zero; those bits are always sent as zero, so a header made with them
/// zero, as `Header::new` makes it, comes back unchanged.
pub proof fn lemma_header_round_trip(h: Header)
    ensures
        spec_header_at(spec_header_bytes(h), 0) == Ok::<(Header, int), CodecError>((Header { z: 0, ..h }, 12)),
        (spec_header_bytes(h)[3] / 16) % 8 == 0,
        h.z == 0 ==> spec_header_at(spec_header_bytes(h), 0) == Ok::<(Header, int), CodecError>((h, 12)),
{
    let b = spec_header_bytes(h);
    assert(b.subrange(0, 12) =~= b);
    lemma_decode_encoded_header(b, 0, h);
    lemma_flags(h);
}

} // verus!
