//! The numeric type and class tags of questions and records.
use vstd::prelude::*;

use crate::wire::{read_u16_at, spec_u16_at, widen, CodecError};

verus! {

/// Resource record types.
#[allow(non_camel_case_types, clippy::upper_case_acronyms)]
#[derive(Debug, Clone, Copy, PartialEq, Eq, Structural)]
pub enum QType {
    /// a host address
    A,
    /// an authoritative name server
    NS,
    /// a mail destination (obsolete, use MX)
    MD,
    /// a mail forwarder (obsolete, use MX)
    MF,
    /// the canonical name for an alias
    CNAME,
    /// marks the start of a zone of authority
    SOA,
    /// a mailbox domain name (experimental)
    MB,
    /// a mail group member (experimental)
    MG,
    /// a mail rename domain name (experimental)
    MR,
    /// a null record (experimental)
    NULL,
    /// a well known service description
    WKS,
    /// a domain name pointer
    PTR,
    /// host information
    HINFO,
    /// mailbox or mail list information
    MINFO,
    /// mail exchange
    MX,
    /// text strings
    TXT,
    /// an IPv6 address
    AAAA,
    /// a request for a transfer of an entire zone
    AXFR,
    /// a request for mailbox-related records
    MAILB,
    /// a request for mail agent records (obsolete)
    MAILA,
    /// a request for all records
    STAR,
}

/// Record classes.
#[allow(clippy::upper_case_acronyms)]
#[derive(Debug, Clone, Copy, PartialEq, Eq, Structural)]
pub enum QClass {
    /// the Internet
    IN,
    /// the CSNET class (obsolete)
    CS,
    /// the CHAOS class
    CH,
    /// Hesiod
    HS,
    /// any class
    STAR,
}

impl QType {
    /// The tag's value on the wire.
    pub open spec fn spec_code(self) -> u16 {
        match self {
            QType::A => 1,
            QType::NS => 2,
            QType::MD => 3,
            QType::MF => 4,
            QType::CNAME => 5,
            QType::SOA => 6,
            QType::MB => 7,
            QType::MG => 8,
            QType::MR => 9,
            QType::NULL => 10,
            QType::WKS => 11,
            QType::PTR => 12,
            QType::HINFO => 13,
            QType::MINFO => 14,
            QType::MX => 15,
            QType::TXT => 16,
            QType::AAAA => 28,
            QType::AXFR => 252,
            QType::MAILB => 253,
            QType::MAILA => 254,
            QType::STAR => 255,
        }
    }

    /// The type whose wire value is `code`, if there is one.
    pub open spec fn spec_from_code(code: u16) -> Option<QType> {
        if code == 1 { Some(QType::A) }
        else if code == 2 { Some(QType::NS) }
        else if code == 3 { Some(QType::MD) }
        else if code == 4 { Some(QType::MF) }
        else if code == 5 { Some(QType::CNAME) }
        else if code == 6 { Some(QType::SOA) }
        else if code == 7 { Some(QType::MB) }
        else if code == 8 { Some(QType::MG) }
        else if code == 9 { Some(QType::MR) }
        else if code == 10 { Some(QType::NULL) }
        else if code == 11 { Some(QType::WKS) }
        else if code == 12 { Some(QType::PTR) }
        else if code == 13 { Some(QType::HINFO) }
        else if code == 14 { Some(QType::MINFO) }
        else if code == 15 { Some(QType::MX) }
        else if code == 16 { Some(QType::TXT) }
        else if code == 28 { Some(QType::AAAA) }
        else if code == 252 { Some(QType::AXFR) }
        else if code == 253 { Some(QType::MAILB) }
        else if code == 254 { Some(QType::MAILA) }
        else if code == 255 { Some(QType::STAR) }
        else { None }
    }

    /// The types that a question may be encoded with; the obsolete,
    /// experimental and transfer types are refused.
    pub open spec fn encodable(self) -> bool {
        match self {
            QType::A | QType::NS | QType::CNAME | QType::SOA | QType::MX | QType::TXT | QType::AAAA => true,
            _ => false,
        }
    }

    pub fn code(&self) -> (r: u16)
        ensures
            r == self.spec_code(),
    {
        match self {
            QType::A => 1,
            QType::NS => 2,
            QType::MD => 3,
            QType::MF => 4,
            QType::CNAME => 5,
            QType::SOA => 6,
            QType::MB => 7,
            QType::MG => 8,
            QType::MR => 9,
            QType::NULL => 10,
            QType::WKS => 11,
            QType::PTR => 12,
            QType::HINFO => 13,
            QType::MINFO => 14,
            QType::MX => 15,
            QType::TXT => 16,
            QType::AAAA => 28,
            QType::AXFR => 252,
            QType::MAILB => 253,
            QType::MAILA => 254,
            QType::STAR => 255,
        }
    }

    pub fn from_code(code: u16) -> (r: Option<QType>)
        ensures
            r == QType::spec_from_code(code),
    {
        match code {
            1 => Some(QType::A),
            2 => Some(QType::NS),
            3 => Some(QType::MD),
            4 => Some(QType::MF),
            5 => Some(QType::CNAME),
            6 => Some(QType::SOA),
            7 => Some(QType::MB),
            8 => Some(QType::MG),
            9 => Some(QType::MR),
            10 => Some(QType::NULL),
            11 => Some(QType::WKS),
            12 => Some(QType::PTR),
            13 => Some(QType::HINFO),
            14 => Some(QType::MINFO),
            15 => Some(QType::MX),
            16 => Some(QType::TXT),
            28 => Some(QType::AAAA),
            252 => Some(QType::AXFR),
            253 => Some(QType::MAILB),
            254 => Some(QType::MAILA),
            255 => Some(QType::STAR),
            _ => None,
        }
    }

    pub fn is_encodable(&self) -> (r: bool)
        ensures
            r == self.encodable(),
    {
        match self {
            QType::A | QType::NS | QType::CNAME | QType::SOA | QType::MX | QType::TXT | QType::AAAA => true,
            _ => false,
        }
    }

    /// The mnemonic of the type.
    pub fn name(&self) -> (r: &'static str) {
        match self {
            QType::A => "A",
            QType::NS => "NS",
            QType::MD => "MD",
            QType::MF => "MF",
            QType::CNAME => "CNAME",
            QType::SOA => "SOA",
            QType::MB => "MB",
            QType::MG => "MG",
            QType::MR => "MR",
            QType::NULL => "NULL",
            QType::WKS => "WKS",
            QType::PTR => "PTR",
            QType::HINFO => "HINFO",
            QType::MINFO => "MINFO",
            QType::MX => "MX",
            QType::TXT => "TXT",
            QType::AAAA => "AAAA",
            QType::AXFR => "AXFR",
            QType::MAILB => "MAILB",
            QType::MAILA => "MAILA",
            QType::STAR => "STAR",
        }
    }
}

impl QClass {
    /// The tag's value on the wire.
    pub open spec fn spec_code(self) -> u16 {
        match self {
            QClass::IN => 1,
            QClass::CS => 2,
            QClass::CH => 3,
            QClass::HS => 4,
            QClass::STAR => 255,
        }
    }

    /// The class whose wire value is `code`, if there is one.
    pub open spec fn spec_from_code(code: u16) -> Option<QClass> {
        if code == 1 { Some(QClass::IN) }
        else if code == 2 { Some(QClass::CS) }
        else if code == 3 { Some(QClass::CH) }
        else if code == 4 { Some(QClass::HS) }
        else if code == 255 { Some(QClass::STAR) }
        else { None }
    }

    pub fn code(&self) -> (r: u16)
        ensures
            r == self.spec_code(),
    {
        match self {
            QClass::IN => 1,
            QClass::CS => 2,
            QClass::CH => 3,
            QClass::HS => 4,
            QClass::STAR => 255,
        }
    }

    pub fn from_code(code: u16) -> (r: Option<QClass>)
        ensures
            r == QClass::spec_from_code(code),
    {
        match code {
            1 => Some(QClass::IN),
            2 => Some(QClass::CS),
            3 => Some(QClass::CH),
            4 => Some(QClass::HS),
            255 => Some(QClass::STAR),
            _ => None,
        }
    }

    /// The mnemonic of the class.
    pub fn name(&self) -> (r: &'static str) {
        match self {
            QClass::IN => "IN",
            QClass::CS => "CS",
            QClass::CH => "CH",
            QClass::HS => "HS",
            QClass::STAR => "STAR",
        }
    }
}

/// Reading a type tag at `pos`.
pub open spec fn spec_qtype_at(src: Seq<u8>, pos: int) -> Result<(QType, int), CodecError> {
    match spec_u16_at(src, pos) {
        Ok((code, end)) => match QType::spec_from_code(code) {
            Some(t) => Ok((t, end)),
            None => Err(CodecError::UnsupportedType),
        },
        Err(e) => Err(e),
    }
}

/// Reading a class tag at `pos`.
pub open spec fn spec_qclass_at(src: Seq<u8>, pos: int) -> Result<(QClass, int), CodecError> {
    match spec_u16_at(src, pos) {
        Ok((code, end)) => match QClass::spec_from_code(code) {
            Some(c) => Ok((c, end)),
            None => Err(CodecError::UnsupportedClass),
        },
        Err(e) => Err(e),
    }
}

pub fn read_qtype_at(src: &[u8], pos: usize) -> (r: Result<(QType, usize), CodecError>)
    ensures
        widen(r) == spec_qtype_at(src@, pos as int),
{
    let (code, end) = read_u16_at(src, pos)?;
    match QType::from_code(code) {
        Some(t) => Ok((t, end)),
        None => Err(CodecError::UnsupportedType),
    }
}

pub fn read_qclass_at(src: &[u8], pos: usize) -> (r: Result<(QClass, usize), CodecError>)
    ensures
        widen(r) == spec_qclass_at(src@, pos as int),
{
    let (code, end) = read_u16_at(src, pos)?;
    match QClass::from_code(code) {
        Some(c) => Ok((c, end)),
        None => Err(CodecError::UnsupportedClass),
    }
}

/// Decoding a tag gives back the type that was encoded.
pub proof fn lemma_qtype_code_round_trip(t: QType)
    ensures
        QType::spec_from_code(t.spec_code()) == Some(t),
{
}

/// Decoding a tag gives back the class that was encoded.
pub proof fn lemma_qclass_code_round_trip(c: QClass)
    ensures
        QClass::spec_from_code(c.spec_code()) == Some(c),
{
}

} // verus!
