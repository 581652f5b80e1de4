//! One entry of the question section: a name, a type and a class.
use vstd::prelude::*;

use crate::name::{
    encode_name, labels_fit, labels_of, lemma_decode_encoded_name, lemma_normal_name, normal_name, plain_name,
    read_name_at, spec_encode_name, spec_name_at,
};
use crate::tags::{
    lemma_qclass_code_round_trip, lemma_qtype_code_round_trip, read_qclass_at, read_qtype_at, spec_qclass_at,
    spec_qtype_at, QClass, QType,
};
use crate::wire::{lemma_u16_round_trip, push_u16, u16_bytes, Buffer, CodecError, DeSerialize, Serialize};

verus! {

#[derive(Debug, Clone, PartialEq, Eq)]
pub struct Question {
    pub qname: String,
    pub qtype: QType,
    pub qclass: QClass,
}

/// What a question holds, with its name as characters.
pub ghost struct QuestionView {
    pub qname: Seq<char>,
    pub qtype: QType,
    pub qclass: QClass,
}

impl View for Question {
    type V = QuestionView;

    open spec fn view(&self) -> QuestionView {
        QuestionView { qname: self.qname@, qtype: self.qtype, qclass: self.qclass }
    }
}

impl Question {
    pub fn new(name: &str, qtype: QType, qclass: QClass) -> (r: Question)
        ensures
            r@ == (QuestionView { qname: name@, qtype, qclass }),
    {
        Question { qname: name.to_owned(), qtype, qclass }
    }
}

/// Encoding a question: its name, then type and class as 16-bit values.
/// Refused when a label is too long or the type is not one that questions
/// may carry.
pub open spec fn spec_question_bytes(q: QuestionView) -> Result<Seq<u8>, CodecError> {
    match spec_encode_name(q.qname) {
        Err(e) => Err(e),
        Ok(name) => if q.qtype.encodable() {
            Ok(name + u16_bytes(q.qtype.spec_code()) + u16_bytes(q.qclass.spec_code()))
        } else {
            Err(CodecError::UnsupportedType)
        },
    }
}

/// Decoding the question at `pos`: name, type, class.
pub open spec fn spec_question_at(src: Seq<u8>, pos: int) -> Result<(QuestionView, int), CodecError> {
    match spec_name_at(src, pos) {
        Err(e) => Err(e),
        Ok((qname, at_type)) => match spec_qtype_at(src, at_type) {
            Err(e) => Err(e),
            Ok((qtype, at_class)) => match spec_qclass_at(src, at_class) {
                Err(e) => Err(e),
                Ok((qclass, end)) => Ok((QuestionView { qname, qtype, qclass }, end)),
            },
        },
    }
}

/// Appends the encoding of `q` to `out`.
pub fn write_question(q: &Question, out: &mut Vec<u8>) -> (r: Result<(), CodecError>)
    ensures
        match spec_question_bytes(q@) {
            Ok(b) => r is Ok && final(out)@ == old(out)@ + b,
            Err(e) => r == Err::<(), CodecError>(e),
        },
{
    encode_name(q.qname.as_str(), out)?;
    if !q.qtype.is_encodable() {
        return Err(CodecError::UnsupportedType);
    }
    let ghost mid = out@;
    push_u16(out, q.qtype.code());
    push_u16(out, q.qclass.code());
    proof {
        let name = spec_encode_name(q.qname@)->Ok_0;
        assert(out@ =~= old(out)@ + (name + u16_bytes(q.qtype.spec_code()) + u16_bytes(q.qclass.spec_code())));
    }
    Ok(())
}

/// Decodes the question at `pos` of the message `src`.
pub fn read_question_at(src: &[u8], pos: usize) -> (r: Result<(Question, usize), CodecError>)
    ensures
        match r {
            Ok((q, end)) => spec_question_at(src@, pos as int) == Ok::<(QuestionView, int), CodecError>((q@, end as int)),
            Err(e) => spec_question_at(src@, pos as int) == Err::<(QuestionView, int), CodecError>(e),
        },
{
    let (qname, at_type) = read_name_at(src, pos)?;
    let (qtype, at_class) = read_qtype_at(src, at_type)?;
    let (qclass, end) = read_qclass_at(src, at_class)?;
    Ok((Question { qname, qtype, qclass }, end))
}

impl Serialize for Question {
    open spec fn spec_serialize(&self) -> Result<Seq<u8>, CodecError> {
        spec_question_bytes(self@)
    }

    fn serialize(&self) -> (r: Result<Vec<u8>, CodecError>) {
        let mut out: Vec<u8> = Vec::new();
        write_question(self, &mut out)?;
        proof {
            assert(out@ =~= Seq::<u8>::empty() + out@);
        }
        Ok(out)
    }
}

impl DeSerialize for Question {
    open spec fn spec_deserialize(src: Seq<u8>, pos: int) -> Result<(QuestionView, int), CodecError> {
        spec_question_at(src, pos)
    }

    fn deserialize<'a>(buffer: &mut Buffer<'a>) -> (r: Result<(Buffer<'a>, Question), CodecError>) {
        let pos = buffer.position();
        let (q, end) = read_question_at(buffer.source, pos)?;
        proof {
            crate::name::lemma_name_end(buffer.source@, pos as int);
        }
        buffer.advance_to(end);
        Ok((*buffer, q))
    }
}

/// The question that decoding an encoded `q` gives: its name in normal form.
pub open spec fn normal_question(q: QuestionView) -> QuestionView {
    QuestionView { qname: normal_name(q.qname), ..q }
}

/// Putting a question's name in normal form does not change its encoding.
pub proof fn lemma_normal_question_bytes(q: QuestionView)
    ensures
        spec_question_bytes(normal_question(q)) == spec_question_bytes(q),
{
    lemma_normal_name(q.qname);
}

/// Decoding an encoded question, wherever in a message it stands, gives it
/// with its name in normal form, and ends just past the encoding; the normal
/// form encodes to the same bytes.
pub proof fn lemma_decode_encoded_question(src: Seq<u8>, pos: int, q: QuestionView)
    requires
        spec_question_bytes(q) is Ok,
        0 <= pos,
        pos + spec_question_bytes(q)->Ok_0.len() <= src.len(),
        src.subrange(pos, pos + spec_question_bytes(q)->Ok_0.len()) == spec_question_bytes(q)->Ok_0,
    ensures
        spec_question_at(src, pos) == Ok::<(QuestionView, int), CodecError>(
            (normal_question(q), pos + spec_question_bytes(q)->Ok_0.len()),
        ),
        spec_question_bytes(normal_question(q)) == spec_question_bytes(q),
{
    let b = spec_question_bytes(q)->Ok_0;
    let nb = spec_encode_name(q.qname)->Ok_0;
    let at_type = pos + nb.len();
    assert forall|i: int| 0 <= i < nb.len() implies #[trigger] src.subrange(pos, at_type)[i] == nb[i] by {
        assert(src[pos + i] == src.subrange(pos, pos + b.len())[i]);
        assert(b[i] == nb[i]);
    }
    assert(src.subrange(pos, at_type) =~= nb);
    lemma_decode_encoded_name(src, pos, q.qname);
    lemma_normal_name(q.qname);
    lemma_u16_round_trip(q.qtype.spec_code());
    lemma_u16_round_trip(q.qclass.spec_code());
    lemma_qtype_code_round_trip(q.qtype);
    lemma_qclass_code_round_trip(q.qclass);
    assert(src[at_type] == b[nb.len() as int]);
    assert(src[at_type + 1] == b[nb.len() as int + 1]);
    assert(src[at_type + 2] == b[nb.len() as int + 2]);
    assert(src[at_type + 3] == b[nb.len() as int + 3]);
}

/// Encoding a question whose name has no empty label, whose labels fit in 63
/// bytes and whose type may be sent, then decoding the bytes, gives the same
/// question back.
pub proof fn lemma_question_round_trip(q: QuestionView)
    requires
        q.qname.len() <= 255,
        plain_name(q.qname),
        labels_fit(labels_of(q.qname)),
        q.qtype.encodable(),
    ensures
        spec_question_bytes(q) is Ok,
        spec_question_at(spec_question_bytes(q)->Ok_0, 0) == Ok::<(QuestionView, int), CodecError>(
            (q, spec_question_bytes(q)->Ok_0.len() as int),
        ),
{
    let b = spec_question_bytes(q)->Ok_0;
    assert(b.subrange(0, b.len() as int) =~= b);
    lemma_decode_encoded_question(b, 0, q);
    lemma_normal_name(q.qname);
}

} // verus!
