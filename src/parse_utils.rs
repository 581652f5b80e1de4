//! Readers over a byte slice: each takes the bytes from the start of the
//! slice and hands back the rest with the value read.
use vstd::prelude::*;
use vstd::slice::slice_subrange;
use vstd::utf8::{decode_utf8, valid_utf8};

use crate::name::{
    decode_labels, join_labels, join_tokens, ptr_target, read_ctrl_at, spec_ctrl_at, spec_labels, spec_name_at,
    CtrlByte,
};
use crate::tags::{read_qclass_at, read_qtype_at, spec_qclass_at, spec_qtype_at, QClass, QType};
use crate::wire::{read_bytes_at, read_u16_at, read_u32_at, spec_bytes_at, spec_u16_at, spec_u32_at, utf8_text, CodecError};

verus! {

/// How a reader over a slice relates to the reading `s` from its start: on
/// success the value, and the rest of the slice after what was read.
pub open spec fn reads_as<T>(buffer: &[u8], r: Result<(&[u8], T), CodecError>, s: Result<(T, int), CodecError>) -> bool {
    match s {
        Ok((v, end)) => r is Ok && r->Ok_0.1 == v && r->Ok_0.0@ == buffer@.subrange(end, buffer@.len() as int),
        Err(e) => r is Err && r->Err_0 == e,
    }
}

fn rest_after<'a>(buffer: &'a [u8], end: usize) -> (r: &'a [u8])
    requires
        end <= buffer@.len(),
    ensures
        r@ == buffer@.subrange(end as int, buffer@.len() as int),
{
    slice_subrange(buffer, end, buffer.len())
}

/// Whether `byte` starts a compression pointer: its two top bits are set.
pub fn is_ptr(byte: u8) -> (r: bool)
    ensures
        r == (byte >= 0xC0),
{
    assert((byte >> 6 == 3) == (byte >= 0xC0)) by (bit_vector);
    byte >> 6 == 3
}

/// The offset that the two-byte pointer at the start of `buffer` holds.
pub fn ptr_value<'a>(buffer: &'a [u8]) -> (r: Result<(&'a [u8], usize), CodecError>)
    ensures
        reads_as(
            buffer,
            r,
            if buffer@.len() < 2 {
                Err(CodecError::UnexpectedEof)
            } else {
                Ok((ptr_target(buffer@[0], buffer@[1]) as usize, 2))
            },
        ),
{
    if buffer.len() < 2 {
        return Err(CodecError::UnexpectedEof);
    }
    let value: usize = (buffer[0] % 64) as usize * 256 + buffer[1] as usize;
    Ok((rest_after(buffer, 2), value))
}

/// Reads a compression pointer at the start of `input`; refused when the
/// first byte does not have its two top bits set.
pub fn parse_ptr<'a>(input: &'a [u8]) -> (r: Result<(&'a [u8], CtrlByte), CodecError>)
    ensures
        reads_as(
            input,
            r,
            if input@.len() < 1 {
                Err(CodecError::UnexpectedEof)
            } else if input@[0] < 0xC0 {
                Err(CodecError::MalformedPointer)
            } else if input@.len() < 2 {
                Err(CodecError::UnexpectedEof)
            } else {
                Ok((CtrlByte::Ptr(ptr_target(input@[0], input@[1])), 2))
            },
        ),
{
    if input.len() < 1 {
        return Err(CodecError::UnexpectedEof);
    }
    if !is_ptr(input[0]) {
        return Err(CodecError::MalformedPointer);
    }
    let (ctrl, end) = read_ctrl_at(input, 0)?;
    Ok((rest_after(input, end), ctrl))
}

/// Reads the control field at the start of `buffer`.
pub fn resolve_next<'a>(buffer: &'a [u8]) -> (r: Result<(&'a [u8], CtrlByte), CodecError>)
    ensures
        reads_as(buffer, r, spec_ctrl_at(buffer@, 0)),
{
    let (ctrl, end) = read_ctrl_at(buffer, 0)?;
    Ok((rest_after(buffer, end), ctrl))
}

/// Takes `length` bytes from the start of `buffer` as UTF-8 text.
pub fn take_token<'a>(buffer: &'a [u8], length: usize) -> (r: Result<(&'a [u8], &'a str), CodecError>)
    ensures
        length > buffer@.len() ==> r == Err::<(&[u8], &str), CodecError>(CodecError::UnexpectedEof),
        length <= buffer@.len() ==> {
            let b = buffer@.subrange(0, length as int);
            &&& r is Ok <==> valid_utf8(b)
            &&& r is Err ==> r->Err_0 == CodecError::Utf8DecodeError
            &&& r is Ok ==> r->Ok_0.1@ == decode_utf8(b) && r->Ok_0.0@ == buffer@.subrange(
                length as int,
                buffer@.len() as int,
            )
        },
{
    let (b, end) = read_bytes_at(buffer, 0, length)?;
    match utf8_text(b) {
        Some(text) => Ok((rest_after(buffer, end), text)),
        None => Err(CodecError::Utf8DecodeError),
    }
}

/// Decodes the name at the start of `buffer`, which is read as a whole
/// message of its own: a compression pointer there has nothing earlier to
/// point to and is refused.
pub fn parse_name<'a>(buffer: &'a [u8]) -> (r: Result<(&'a [u8], String), CodecError>)
    ensures
        match spec_name_at(buffer@, 0) {
            Ok((name, end)) => r is Ok && r->Ok_0.1@ == name && r->Ok_0.0@ == buffer@.subrange(end, buffer@.len() as int),
            Err(e) => r is Err && r->Err_0 == e,
        },
{
    let (name, end) = crate::name::read_name_at(buffer, 0)?;
    proof {
        crate::name::lemma_name_end(buffer@, 0);
    }
    Ok((rest_after(buffer, end), name))
}

/// Decodes the name at the start of `buffer`, a suffix of the message
/// `source` against which pointers are resolved. The labels read are
/// appended to `tokens`; the name returned joins all of `tokens` with dots.
/// The rest handed back starts just past the name's own bytes, whatever a
/// pointer made it read elsewhere.
pub fn parse_names<'a>(buffer: &'a [u8], source: &'a [u8], tokens: &mut Vec<String>) -> (r: Result<
    (&'a [u8], String),
    CodecError,
>)
    requires
        buffer@.len() <= source@.len(),
        source@.subrange(source@.len() - buffer@.len(), source@.len() as int) == buffer@,
    ensures
        ({
            let pos = source@.len() - buffer@.len();
            match spec_labels(source@, pos as nat, pos) {
                Ok((ls, end)) => {
                    &&& r is Ok
                    &&& final(tokens).deep_view() == old(tokens).deep_view() + ls
                    &&& r->Ok_0.1@ == join_labels(final(tokens).deep_view())
                    &&& r->Ok_0.0@ == source@.subrange(end, source@.len() as int)
                },
                Err(e) => r is Err && r->Err_0 == e,
            }
        }),
{
    let pos = source.len() - buffer.len();
    let end = decode_labels(source, pos, pos, tokens)?;
    proof {
        crate::name::lemma_labels_end(source@, pos as nat, pos as int);
    }
    let name = join_tokens(tokens);
    let rest = rest_after(buffer, end - pos);
    assert(rest@ =~= source@.subrange(end as int, source@.len() as int));
    Ok((rest, name))
}

/// Reads a type tag at the start of `buffer`.
pub fn parse_qtype<'a>(buffer: &'a [u8]) -> (r: Result<(&'a [u8], QType), CodecError>)
    ensures
        reads_as(buffer, r, spec_qtype_at(buffer@, 0)),
{
    let (t, end) = read_qtype_at(buffer, 0)?;
    Ok((rest_after(buffer, end), t))
}

/// Reads a class tag at the start of `buffer`.
pub fn parse_qclass<'a>(buffer: &'a [u8]) -> (r: Result<(&'a [u8], QClass), CodecError>)
    ensures
        reads_as(buffer, r, spec_qclass_at(buffer@, 0)),
{
    let (c, end) = read_qclass_at(buffer, 0)?;
    Ok((rest_after(buffer, end), c))
}

/// Reads a record's 16-bit data length at the start of `buffer`.
pub fn parse_rdlength<'a>(buffer: &'a [u8]) -> (r: Result<(&'a [u8], u16), CodecError>)
    ensures
        reads_as(buffer, r, spec_u16_at(buffer@, 0)),
{
    let (v, end) = read_u16_at(buffer, 0)?;
    Ok((rest_after(buffer, end), v))
}

/// Reads a record's time to live, in seconds, at the start of `buffer`.
pub fn parse_ttl<'a>(buffer: &'a [u8]) -> (r: Result<(&'a [u8], u32), CodecError>)
    ensures
        reads_as(buffer, r, spec_u32_at(buffer@, 0)),
{
    let (v, end) = read_u32_at(buffer, 0)?;
    Ok((rest_after(buffer, end), v))
}

/// Reads the four bytes of an IPv4 address at the start of `buffer`.
pub fn parse_ipv4<'a>(buffer: &'a [u8]) -> (r: Result<(&'a [u8], [u8; 4]), CodecError>)
    ensures
        match spec_bytes_at(buffer@, 0, 4) {
            Ok((b, end)) => r is Ok && r->Ok_0.1@ == b && r->Ok_0.0@ == buffer@.subrange(end, buffer@.len() as int),
            Err(e) => r is Err && r->Err_0 == e,
        },
{
    let (b, end) = read_bytes_at(buffer, 0, 4)?;
    let a: [u8; 4] = [b[0], b[1], b[2], b[3]];
    assert(a@ =~= b@);
    Ok((rest_after(buffer, end), a))
}

/// Reads the sixteen bytes of an IPv6 address at the start of `buffer`.
pub fn parse_ipv6<'a>(buffer: &'a [u8]) -> (r: Result<(&'a [u8], [u8; 16]), CodecError>)
    ensures
        match spec_bytes_at(buffer@, 0, 16) {
            Ok((b, end)) => r is Ok && r->Ok_0.1@ == b && r->Ok_0.0@ == buffer@.subrange(end, buffer@.len() as int),
            Err(e) => r is Err && r->Err_0 == e,
        },
{
    let (b, end) = read_bytes_at(buffer, 0, 16)?;
    let a: [u8; 16] = [
        b[0], b[1], b[2], b[3], b[4], b[5], b[6], b[7],
        b[8], b[9], b[10], b[11], b[12], b[13], b[14], b[15],
    ];
    assert(a@ =~= b@);
    Ok((rest_after(buffer, end), a))
}

} // verus!
