//! Resource records of the answer section.
use vstd::prelude::*;
use vstd::array::array_as_slice;
use vstd::utf8::{decode_utf8, encode_utf8, valid_utf8};

use crate::name::{
    encode_name, lemma_decode_encoded_name, lemma_normal_name, normal_name, read_name_at, spec_encode_name,
    spec_name_at,
};
use crate::tags::{
    lemma_qclass_code_round_trip, lemma_qtype_code_round_trip, read_qclass_at, read_qtype_at, spec_qclass_at,
    spec_qtype_at, QClass, QType,
};
use crate::wire::{
    be16, be32, lemma_subrange_at, lemma_u16_round_trip, lemma_u32_round_trip, push_bytes, push_u16, push_u32, read_bytes_at, read_u16_at, read_u32_at, spec_bytes_at, spec_u16_at,
    spec_u32_at, u16_bytes, u32_bytes, utf8_text, Buffer, CodecError, DeSerialize, Serialize,
};

verus! {

/// The payload of a record, by record type.
#[allow(clippy::upper_case_acronyms)]
#[derive(Debug, Clone, PartialEq, Eq)]
pub enum RData {
    /// An IPv4 address.
    A([u8; 4]),
    /// An IPv6 address.
    AAAA([u8; 16]),
    /// The canonical name of an alias.
    CNAME(String),
    /// Text.
    TXT(String),
}

/// What a payload holds: address bytes, or text as characters.
pub ghost enum RDataView {
    A(Seq<u8>),
    AAAA(Seq<u8>),
    CNAME(Seq<char>),
    TXT(Seq<char>),
}

impl View for RData {
    type V = RDataView;

    open spec fn view(&self) -> RDataView {
        match self {
            RData::A(b) => RDataView::A(b@),
            RData::AAAA(b) => RDataView::AAAA(b@),
            RData::CNAME(n) => RDataView::CNAME(n@),
            RData::TXT(t) => RDataView::TXT(t@),
        }
    }
}

#[derive(Debug, Clone, PartialEq, Eq)]
pub struct Record {
    /// The name that the record is about.
    pub name: String,
    /// Record type, which decides the payload's shape.
    pub qtype: QType,
    /// Record class.
    pub qclass: QClass,
    /// Seconds that the record may be cached; zero means not at all.
    pub ttl: u32,
    /// Length of the payload on the wire.
    pub rd_length: u16,
    /// The payload.
    pub rdata: RData,
}

/// What a record holds, with its names as characters.
pub ghost struct RecordView {
    pub name: Seq<char>,
    pub qtype: QType,
    pub qclass: QClass,
    pub ttl: u32,
    pub rd_length: u16,
    pub rdata: RDataView,
}

impl View for Record {
    type V = RecordView;

    open spec fn view(&self) -> RecordView {
        RecordView {
            name: self.name@,
            qtype: self.qtype,
            qclass: self.qclass,
            ttl: self.ttl,
            rd_length: self.rd_length,
            rdata: self.rdata@,
        }
    }
}

impl Record {
    pub fn new(name: String, qtype: QType, qclass: QClass, ttl: u32, rd_length: u16, rdata: RData) -> (r: Record)
        ensures
            r@ == (RecordView { name: name@, qtype, qclass, ttl, rd_length, rdata: rdata@ }),
    {
        Record { name, qtype, qclass, ttl, rd_length, rdata }
    }
}

/// Decoding the payload of a record of type `t` whose declared length is
/// `len`, at `pos`. Addresses must be declared with their exact size, a
/// canonical name must take exactly the declared bytes, text is the declared
/// bytes read as UTF-8; other types are refused.
pub open spec fn spec_rdata_at(src: Seq<u8>, pos: int, t: QType, len: u16) -> Result<(RDataView, int), CodecError> {
    match t {
        QType::A => if len != 4 {
            Err(CodecError::InvalidLabelLength)
        } else {
            match spec_bytes_at(src, pos, 4) {
                Ok((b, end)) => Ok((RDataView::A(b), end)),
                Err(e) => Err(e),
            }
        },
        QType::AAAA => if len != 16 {
            Err(CodecError::InvalidLabelLength)
        } else {
            match spec_bytes_at(src, pos, 16) {
                Ok((b, end)) => Ok((RDataView::AAAA(b), end)),
                Err(e) => Err(e),
            }
        },
        QType::CNAME => match spec_name_at(src, pos) {
            Ok((n, end)) => if end - pos != len {
                Err(CodecError::InvalidLabelLength)
            } else {
                Ok((RDataView::CNAME(n), end))
            },
            Err(e) => Err(e),
        },
        QType::TXT => match spec_bytes_at(src, pos, len as int) {
            Ok((b, end)) => if valid_utf8(b) {
                Ok((RDataView::TXT(decode_utf8(b)), end))
            } else {
                Err(CodecError::Utf8DecodeError)
            },
            Err(e) => Err(e),
        },
        _ => Err(CodecError::UnsupportedType),
    }
}

/// Decoding the record at `pos`: name, type, class, ttl, data length, payload.
#[verifier::opaque]
pub open spec fn spec_record_at(src: Seq<u8>, pos: int) -> Result<(RecordView, int), CodecError> {
    match spec_name_at(src, pos) {
        Err(e) => Err(e),
        Ok((name, at_type)) => match spec_qtype_at(src, at_type) {
            Err(e) => Err(e),
            Ok((qtype, at_class)) => match spec_qclass_at(src, at_class) {
                Err(e) => Err(e),
                Ok((qclass, at_ttl)) => match spec_u32_at(src, at_ttl) {
                    Err(e) => Err(e),
                    Ok((ttl, at_len)) => match spec_u16_at(src, at_len) {
                        Err(e) => Err(e),
                        Ok((rd_length, at_data)) => match spec_rdata_at(src, at_data, qtype, rd_length) {
                            Err(e) => Err(e),
                            Ok((rdata, end)) => Ok((RecordView { name, qtype, qclass, ttl, rd_length, rdata }, end)),
                        },
                    },
                },
            },
        },
    }
}

/// The payload bytes of a record of type `t`, or why they are refused: the
/// payload must be of the shape that the type announces.
pub open spec fn spec_rdata_bytes(t: QType, d: RDataView) -> Result<Seq<u8>, CodecError> {
    match (t, d) {
        (QType::A, RDataView::A(b)) => Ok(b),
        (QType::AAAA, RDataView::AAAA(b)) => Ok(b),
        (QType::CNAME, RDataView::CNAME(n)) => spec_encode_name(n),
        (QType::TXT, RDataView::TXT(s)) => Ok(encode_utf8(s)),
        _ => Err(CodecError::UnsupportedType),
    }
}

/// Encoding a record; refused when a name does not encode, the payload does
/// not match the type, or the declared length is not the payload's.
#[verifier::opaque]
pub open spec fn spec_record_bytes(r: RecordView) -> Result<Seq<u8>, CodecError> {
    match spec_encode_name(r.name) {
        Err(e) => Err(e),
        Ok(name) => match spec_rdata_bytes(r.qtype, r.rdata) {
            Err(e) => Err(e),
            Ok(payload) => if payload.len() != r.rd_length {
                Err(CodecError::InvalidLabelLength)
            } else {
                Ok(name + u16_bytes(r.qtype.spec_code()) + u16_bytes(r.qclass.spec_code()) + u32_bytes(r.ttl)
                    + u16_bytes(r.rd_length) + payload)
            },
        },
    }
}

/// Decodes the payload of a record of type `t` at `pos` of `src`.
pub fn read_rdata_at(src: &[u8], pos: usize, t: QType, len: u16) -> (r: Result<(RData, usize), CodecError>)
    ensures
        match r {
            Ok((d, end)) => spec_rdata_at(src@, pos as int, t, len) == Ok::<(RDataView, int), CodecError>((d@, end as int)),
            Err(e) => spec_rdata_at(src@, pos as int, t, len) == Err::<(RDataView, int), CodecError>(e),
        },
{
    match t {
        QType::A => {
            if len != 4 {
                return Err(CodecError::InvalidLabelLength);
            }
            let (b, end) = read_bytes_at(src, pos, 4)?;
            let a: [u8; 4] = [b[0], b[1], b[2], b[3]];
            assert(a@ =~= b@);
            Ok((RData::A(a), end))
        },
        QType::AAAA => {
            if len != 16 {
                return Err(CodecError::InvalidLabelLength);
            }
            let (b, end) = read_bytes_at(src, pos, 16)?;
            let a: [u8; 16] = [
                b[0], b[1], b[2], b[3], b[4], b[5], b[6], b[7],
                b[8], b[9], b[10], b[11], b[12], b[13], b[14], b[15],
            ];
            assert(a@ =~= b@);
            Ok((RData::AAAA(a), end))
        },
        QType::CNAME => {
            let (n, end) = read_name_at(src, pos)?;
            proof {
                crate::name::lemma_name_end(src@, pos as int);
            }
            if end - pos != len as usize {
                return Err(CodecError::InvalidLabelLength);
            }
            Ok((RData::CNAME(n), end))
        },
        QType::TXT => {
            let (b, end) = read_bytes_at(src, pos, len as usize)?;
            match utf8_text(b) {
                Some(text) => Ok((RData::TXT(text.to_owned()), end)),
                None => Err(CodecError::Utf8DecodeError),
            }
        },
        _ => Err(CodecError::UnsupportedType),
    }
}

/// Decodes the record at `pos` of the message `src`.
pub fn read_record_at(src: &[u8], pos: usize) -> (r: Result<(Record, usize), CodecError>)
    ensures
        match r {
            Ok((rec, end)) => spec_record_at(src@, pos as int) == Ok::<(RecordView, int), CodecError>((rec@, end as int)),
            Err(e) => spec_record_at(src@, pos as int) == Err::<(RecordView, int), CodecError>(e),
        },
{
    reveal(spec_record_at);
    let (name, at_type) = read_name_at(src, pos)?;
    let (qtype, at_class) = read_qtype_at(src, at_type)?;
    let (qclass, at_ttl) = read_qclass_at(src, at_class)?;
    let (ttl, at_len) = read_u32_at(src, at_ttl)?;
    let (rd_length, at_data) = read_u16_at(src, at_len)?;
    let (rdata, end) = read_rdata_at(src, at_data, qtype, rd_length)?;
    Ok((Record { name, qtype, qclass, ttl, rd_length, rdata }, end))
}

/// The payload bytes of `rec`.
fn rdata_bytes(rec: &Record) -> (r: Result<Vec<u8>, CodecError>)
    ensures
        match spec_rdata_bytes(rec.qtype, rec.rdata@) {
            Ok(b) => r is Ok && r->Ok_0@ == b,
            Err(e) => r == Err::<Vec<u8>, CodecError>(e),
        },
{
    let mut out: Vec<u8> = Vec::new();
    match (&rec.qtype, &rec.rdata) {
        (QType::A, RData::A(b)) => {
            push_bytes(&mut out, array_as_slice(b));
        },
        (QType::AAAA, RData::AAAA(b)) => {
            push_bytes(&mut out, array_as_slice(b));
        },
        (QType::CNAME, RData::CNAME(n)) => {
            encode_name(n.as_str(), &mut out)?;
        },
        (QType::TXT, RData::TXT(s)) => {
            push_bytes(&mut out, s.as_str().as_bytes());
        },
        _ => {
            return Err(CodecError::UnsupportedType);
        },
    }
    assert(out@ =~= Seq::<u8>::empty() + out@);
    Ok(out)
}

/// Appends the encoding of `rec` to `out`.
pub fn write_record(rec: &Record, out: &mut Vec<u8>) -> (r: Result<(), CodecError>)
    ensures
        match spec_record_bytes(rec@) {
            Ok(b) => r is Ok && final(out)@ == old(out)@ + b,
            Err(e) => r == Err::<(), CodecError>(e),
        },
{
    reveal(spec_record_bytes);
    let mut name: Vec<u8> = Vec::new();
    encode_name(rec.name.as_str(), &mut name)?;
    let payload = rdata_bytes(rec)?;
    if payload.len() != rec.rd_length as usize {
        return Err(CodecError::InvalidLabelLength);
    }
    push_bytes(out, name.as_slice());
    push_u16(out, rec.qtype.code());
    push_u16(out, rec.qclass.code());
    push_u32(out, rec.ttl);
    push_u16(out, rec.rd_length);
    push_bytes(out, payload.as_slice());
    proof {
        let nb = spec_encode_name(rec.name@)->Ok_0;
        assert(name@ =~= nb);
        assert(out@ =~= old(out)@ + (nb + u16_bytes(rec.qtype.spec_code()) + u16_bytes(rec.qclass.spec_code())
            + u32_bytes(rec.ttl) + u16_bytes(rec.rd_length) + payload@));
    }
    Ok(())
}

impl Serialize for Record {
    open spec fn spec_serialize(&self) -> Result<Seq<u8>, CodecError> {
        spec_record_bytes(self@)
    }

    fn serialize(&self) -> (r: Result<Vec<u8>, CodecError>) {
        let mut out: Vec<u8> = Vec::new();
        write_record(self, &mut out)?;
        assert(out@ =~= Seq::<u8>::empty() + out@);
        Ok(out)
    }
}

impl DeSerialize for Record {
    open spec fn spec_deserialize(src: Seq<u8>, pos: int) -> Result<(RecordView, int), CodecError> {
        spec_record_at(src, pos)
    }

    fn deserialize<'a>(buffer: &mut Buffer<'a>) -> (r: Result<(Buffer<'a>, Record), CodecError>) {
        let pos = buffer.position();
        let (rec, end) = read_record_at(buffer.source, pos)?;
        proof {
            lemma_record_end(buffer.source@, pos as int);
        }
        buffer.advance_to(end);
        Ok((*buffer, rec))
    }
}

/// The payload that decoding an encoded one gives: a canonical name in
/// normal form.
pub open spec fn normal_rdata(d: RDataView) -> RDataView {
    match d {
        RDataView::CNAME(n) => RDataView::CNAME(normal_name(n)),
        _ => d,
    }
}

/// The record that decoding an encoded `r` gives: its names in normal form.
pub open spec fn normal_record(r: RecordView) -> RecordView {
    RecordView { name: normal_name(r.name), rdata: normal_rdata(r.rdata), ..r }
}

/// Addresses hold as many bytes as their type says.
pub open spec fn sized_addresses(r: RecordView) -> bool {
    match r.rdata {
        RDataView::A(b) => b.len() == 4,
        RDataView::AAAA(b) => b.len() == 16,
        _ => true,
    }
}

/// Every record's addresses have their size.
pub proof fn lemma_record_sized(rec: Record)
    ensures
        sized_addresses(rec@),
{
}

/// Decoding an encoded record, wherever in a message it stands, gives it with
/// its names in normal form, and ends just past the encoding; the normal
/// form encodes to the same bytes.
pub proof fn lemma_decode_encoded_record(src: Seq<u8>, pos: int, r: RecordView)
    requires
        sized_addresses(r),
        spec_record_bytes(r) is Ok,
        0 <= pos,
        pos + spec_record_bytes(r)->Ok_0.len() <= src.len(),
        src.subrange(pos, pos + spec_record_bytes(r)->Ok_0.len()) == spec_record_bytes(r)->Ok_0,
    ensures
        spec_record_at(src, pos) == Ok::<(RecordView, int), CodecError>(
            (normal_record(r), pos + spec_record_bytes(r)->Ok_0.len()),
        ),
        spec_record_bytes(normal_record(r)) == spec_record_bytes(r),
        spec_record_bytes(r)->Ok_0.len() > 0,
{
    broadcast use vstd::utf8::encode_utf8_valid_utf8, vstd::utf8::encode_utf8_decode_utf8;

    reveal(spec_record_at);
    reveal(spec_record_bytes);
    let b = spec_record_bytes(r)->Ok_0;
    let nb = spec_encode_name(r.name)->Ok_0;
    let payload = spec_rdata_bytes(r.qtype, r.rdata)->Ok_0;
    let n = nb.len() as int;
    lemma_subrange_at(src, pos, b, 0, n);
    assert(b.subrange(0, n) =~= nb);
    lemma_decode_encoded_name(src, pos, r.name);
    lemma_normal_name(r.name);
    let at_type = pos + n;
    lemma_u16_round_trip(r.qtype.spec_code());
    lemma_u16_round_trip(r.qclass.spec_code());
    lemma_u32_round_trip(r.ttl);
    lemma_u16_round_trip(r.rd_length);
    lemma_qtype_code_round_trip(r.qtype);
    lemma_qclass_code_round_trip(r.qclass);
    assert forall|i: int| 0 <= i < 10 implies #[trigger] src[at_type + i] == b[n + i] by {
        assert(src[at_type + i] == src.subrange(pos, pos + b.len())[n + i]);
    }
    let tb = u16_bytes(r.qtype.spec_code());
    let cb = u16_bytes(r.qclass.spec_code());
    assert(b[n] == tb[0] && b[n + 1] == tb[1]);
    assert(b[n + 2] == cb[0] && b[n + 3] == cb[1]);
    assert(be16(src[at_type], src[at_type + 1]) == r.qtype.spec_code());
    assert(be16(src[at_type + 2], src[at_type + 3]) == r.qclass.spec_code());
    assert(spec_qtype_at(src, at_type) == Ok::<(QType, int), CodecError>((r.qtype, at_type + 2)));
    assert(spec_qclass_at(src, at_type + 2) == Ok::<(QClass, int), CodecError>((r.qclass, at_type + 4)));
    let lb = u32_bytes(r.ttl);
    let db = u16_bytes(r.rd_length);
    assert(b[n + 4] == lb[0] && b[n + 5] == lb[1] && b[n + 6] == lb[2] && b[n + 7] == lb[3]);
    assert(b[n + 8] == db[0] && b[n + 9] == db[1]);
    assert(be32(src[at_type + 4], src[at_type + 5], src[at_type + 6], src[at_type + 7]) == r.ttl);
    assert(be16(src[at_type + 8], src[at_type + 9]) == r.rd_length);
    assert(spec_u32_at(src, at_type + 4) == Ok::<(u32, int), CodecError>((r.ttl, at_type + 8)));
    assert(spec_u16_at(src, at_type + 8) == Ok::<(u16, int), CodecError>((r.rd_length, at_type + 10)));
    let at_data = at_type + 10;
    lemma_subrange_at(src, pos, b, n + 10, payload.len() as int);
    assert(b.subrange(n + 10, n + 10 + payload.len()) =~= payload);
    match r.rdata {
        RDataView::CNAME(cn) => {
            lemma_decode_encoded_name(src, at_data, cn);
            lemma_normal_name(cn);
        },
        _ => {},
    }
}

/// Putting a record's names in normal form does not change its encoding.
pub proof fn lemma_normal_record_bytes(r: RecordView)
    ensures
        spec_record_bytes(normal_record(r)) == spec_record_bytes(r),
{
    reveal(spec_record_bytes);
    lemma_normal_name(r.name);
    match r.rdata {
        RDataView::CNAME(cn) => {
            lemma_normal_name(cn);
        },
        _ => {},
    }
}

/// A decoded record ends after where it began and within the message.
pub proof fn lemma_record_end(src: Seq<u8>, pos: int)
    ensures
        spec_record_at(src, pos) is Ok ==> pos < spec_record_at(src, pos)->Ok_0.1 <= src.len(),
{
    reveal(spec_record_at);
    crate::name::lemma_name_end(src, pos);
    if spec_record_at(src, pos) is Ok {
        let at_data = spec_name_at(src, pos)->Ok_0.1 + 10;
        crate::name::lemma_name_end(src, at_data);
    }
}

} // verus!
