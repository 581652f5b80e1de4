//! A whole message: header, one question and the answer records.
use vstd::prelude::*;

use crate::header::{lemma_decode_encoded_header, read_header_at, spec_header_at, spec_header_bytes, write_header, Header};
use crate::question::{
    lemma_decode_encoded_question, normal_question, read_question_at, spec_question_at, spec_question_bytes,
    write_question, Question, QuestionView,
};
use crate::record::{
    lemma_decode_encoded_record, lemma_normal_record_bytes, lemma_record_end, lemma_record_sized, normal_record, read_record_at, sized_addresses,
    spec_record_at, spec_record_bytes, write_record, Record, RecordView,
};
use crate::tags::{QClass, QType};
use crate::wire::{lemma_subrange_at, Buffer, CodecError, DeSerialize, Serialize};

verus! {

#[derive(Debug, Clone)]
pub struct Message {
    pub header: Header,
    pub question: Question,
    /// Answer records, in wire order.
    pub records: Vec<Record>,
}

/// What a message holds.
pub ghost struct MessageView {
    pub header: Header,
    pub question: QuestionView,
    pub records: Seq<RecordView>,
}

impl View for Message {
    type V = MessageView;

    open spec fn view(&self) -> MessageView {
        MessageView {
            header: self.header,
            question: self.question@,
            records: self.records@.map_values(|r: Record| r@),
        }
    }
}

/// Puts `acc` in front of the records of a successful read.
pub open spec fn prepend_records(
    acc: Seq<RecordView>,
    r: Result<(Seq<RecordView>, int), CodecError>,
) -> Result<(Seq<RecordView>, int), CodecError> {
    match r {
        Ok((rs, end)) => Ok((acc + rs, end)),
        Err(e) => Err(e),
    }
}

/// Decoding `n` records in a row from `pos`. Running out of message where a
/// record should start means the count announced more than was sent.
pub open spec fn spec_records_at(src: Seq<u8>, pos: int, n: nat) -> Result<(Seq<RecordView>, int), CodecError>
    decreases n,
{
    if n == 0 {
        Ok((seq![], pos))
    } else if pos >= src.len() {
        Err(CodecError::SectionCountMismatch)
    } else {
        match spec_record_at(src, pos) {
            Err(e) => Err(e),
            Ok((r, next)) => prepend_records(seq![r], spec_records_at(src, next, (n - 1) as nat)),
        }
    }
}

/// Decoding the message at `pos`: header, question, then as many records as
/// the header's answer count says.
pub open spec fn spec_message_at(src: Seq<u8>, pos: int) -> Result<(MessageView, int), CodecError> {
    match spec_header_at(src, pos) {
        Err(e) => Err(e),
        Ok((header, at_question)) => match spec_question_at(src, at_question) {
            Err(e) => Err(e),
            Ok((question, at_records)) => match spec_records_at(src, at_records, header.an_count as nat) {
                Err(e) => Err(e),
                Ok((records, end)) => Ok((MessageView { header, question, records }, end)),
            },
        },
    }
}

/// Encoding records one after another; the first that is refused decides.
pub open spec fn spec_records_bytes(rs: Seq<RecordView>) -> Result<Seq<u8>, CodecError>
    decreases rs.len(),
{
    if rs.len() == 0 {
        Ok(seq![])
    } else {
        match spec_records_bytes(rs.drop_last()) {
            Err(e) => Err(e),
            Ok(b) => match spec_record_bytes(rs.last()) {
                Err(e) => Err(e),
                Ok(rb) => Ok(b + rb),
            },
        }
    }
}

/// Encoding a message: header, question, records. Refused when the answer
/// count is not the number of records, or when a part is refused.
pub open spec fn spec_message_bytes(m: MessageView) -> Result<Seq<u8>, CodecError> {
    if m.header.an_count != m.records.len() {
        Err(CodecError::SectionCountMismatch)
    } else {
        match spec_question_bytes(m.question) {
            Err(e) => Err(e),
            Ok(qb) => match spec_records_bytes(m.records) {
                Err(e) => Err(e),
                Ok(rb) => Ok(spec_header_bytes(m.header) + qb + rb),
            },
        }
    }
}

impl Message {
    /// A query for the address record of `name`.
    pub fn single(name: &str) -> (r: Message)
        ensures
            r@ == (MessageView {
                header: Header::request_spec(),
                question: QuestionView { qname: name@, qtype: QType::A, qclass: QClass::IN },
                records: seq![],
            }),
    {
        let m = Message {
            header: Header::request(),
            question: Question::new(name, QType::A, QClass::IN),
            records: Vec::new(),
        };
        assert(m@.records =~= seq![]);
        m
    }

    /// A query for the text records of `name`.
    pub fn txt(name: &str) -> (r: Message)
        ensures
            r@ == (MessageView {
                header: Header::request_spec(),
                question: QuestionView { qname: name@, qtype: QType::TXT, qclass: QClass::IN },
                records: seq![],
            }),
    {
        let m = Message {
            header: Header::request(),
            question: Question::new(name, QType::TXT, QClass::IN),
            records: Vec::new(),
        };
        assert(m@.records =~= seq![]);
        m
    }
}

proof fn lemma_records_step(
    src: Seq<u8>,
    pos: int,
    n: nat,
    acc: Seq<RecordView>,
    r: RecordView,
    next: int,
)
    requires
        n > 0,
        pos < src.len(),
        spec_record_at(src, pos) == Ok::<(RecordView, int), CodecError>((r, next)),
    ensures
        prepend_records(acc, spec_records_at(src, pos, n))
            == prepend_records(acc + seq![r], spec_records_at(src, next, (n - 1) as nat)),
{
    let rest = spec_records_at(src, next, (n - 1) as nat);
    if rest is Ok {
        assert(acc + (seq![r] + rest->Ok_0.0) =~= acc + seq![r] + rest->Ok_0.0);
    }
}

proof fn lemma_records_bytes_step(views: Seq<RecordView>, i: int)
    requires
        0 <= i < views.len(),
    ensures
        spec_records_bytes(views.subrange(0, i + 1)) == match spec_records_bytes(views.subrange(0, i)) {
            Err(e) => Err(e),
            Ok(b) => match spec_record_bytes(views[i]) {
                Err(e) => Err(e),
                Ok(rb) => Ok(b + rb),
            },
        },
{
    assert(views.subrange(0, i + 1).drop_last() =~= views.subrange(0, i));
}

/// A record that is refused makes every longer run of records refused.
proof fn lemma_records_bytes_err(views: Seq<RecordView>, i: int)
    requires
        0 <= i <= views.len(),
        spec_records_bytes(views.subrange(0, i)) is Err,
    ensures
        spec_records_bytes(views) == spec_records_bytes(views.subrange(0, i)),
    decreases views.len() - i,
{
    if i == views.len() {
        assert(views.subrange(0, i) =~= views);
    } else {
        lemma_records_bytes_step(views, i);
        lemma_records_bytes_err(views, i + 1);
    }
}

/// Decodes the message at `pos` of `src`.
pub fn read_message_at(src: &[u8], pos: usize) -> (r: Result<(Message, usize), CodecError>)
    ensures
        match r {
            Ok((m, end)) => spec_message_at(src@, pos as int) == Ok::<(MessageView, int), CodecError>((m@, end as int)),
            Err(e) => spec_message_at(src@, pos as int) == Err::<(MessageView, int), CodecError>(e),
        },
{
    let (header, at_question) = read_header_at(src, pos)?;
    let (question, at_records) = read_question_at(src, at_question)?;
    let mut records: Vec<Record> = Vec::new();
    let mut p = at_records;
    let mut i: u16 = 0;
    while i < header.an_count
        invariant
            i <= header.an_count,
            spec_header_at(src@, pos as int) == Ok::<(Header, int), CodecError>((header, at_question as int)),
            spec_question_at(src@, at_question as int) == Ok::<(QuestionView, int), CodecError>((question@, at_records as int)),
            spec_records_at(src@, at_records as int, header.an_count as nat) == prepend_records(
                records@.map_values(|r: Record| r@),
                spec_records_at(src@, p as int, (header.an_count - i) as nat),
            ),
        decreases header.an_count - i,
    {
        if p >= src.len() {
            return Err(CodecError::SectionCountMismatch);
        }
        let (rec, end) = match read_record_at(src, p) {
            Ok(x) => x,
            Err(e) => {
                assert(spec_records_at(src@, p as int, (header.an_count - i) as nat) == Err::<(Seq<RecordView>, int), CodecError>(e));
                return Err(e);
            },
        };
        let ghost before = records@.map_values(|r: Record| r@);
        records.push(rec);
        proof {
            lemma_records_step(src@, p as int, (header.an_count - i) as nat, before, rec@, end as int);
            assert(records@.map_values(|r: Record| r@) =~= before + seq![rec@]);
        }
        p = end;
        i = i + 1;
    }
    proof {
        assert(records@.map_values(|r: Record| r@) + seq![] =~= records@.map_values(|r: Record| r@));
    }
    Ok((Message { header, question, records }, p))
}

/// Appends the encoding of `m` to `out`.
pub fn write_message(m: &Message, out: &mut Vec<u8>) -> (r: Result<(), CodecError>)
    ensures
        match spec_message_bytes(m@) {
            Ok(b) => r is Ok && final(out)@ == old(out)@ + b,
            Err(e) => r == Err::<(), CodecError>(e),
        },
{
    if m.header.an_count as usize != m.records.len() {
        return Err(CodecError::SectionCountMismatch);
    }
    let mut body: Vec<u8> = Vec::new();
    write_question(&m.question, &mut body)?;
    let ghost qb = body@;
    let mut i: usize = 0;
    let ghost views = m@.records;
    proof {
        assert(views.subrange(0, 0) =~= seq![]);
        assert(qb =~= qb + Seq::<u8>::empty());
    }
    while i < m.records.len()
        invariant
            i <= m.records@.len(),
            m.header.an_count == m.records@.len(),
            spec_question_bytes(m.question@) == Ok::<Seq<u8>, CodecError>(qb),
            views == m@.records,
            spec_records_bytes(views.subrange(0, i as int)) is Ok,
            body@ == qb + spec_records_bytes(views.subrange(0, i as int))->Ok_0,
            forall|k: int| 0 <= k < i ==> spec_record_bytes(#[trigger] views[k]) is Ok,
        decreases m.records@.len() - i,
    {
        match write_record(&m.records[i], &mut body) {
            Ok(()) => {},
            Err(e) => {
                proof {
                    assert(views[i as int] == m.records@[i as int]@);
                    lemma_records_bytes_step(views, i as int);
                    lemma_records_bytes_err(views, i + 1);
                }
                return Err(e);
            },
        }
        proof {
            assert(views[i as int] == m.records@[i as int]@);
            lemma_records_bytes_step(views, i as int);
        }
        i = i + 1;
    }
    proof {
        assert(views.subrange(0, m.records@.len() as int) =~= views);
    }
    let ghost before = out@;
    write_header(&m.header, out);
    push_all(out, &body);
    proof {
        assert(out@ =~= before + (spec_header_bytes(m.header) + qb + spec_records_bytes(views)->Ok_0));
    }
    Ok(())
}

fn push_all(out: &mut Vec<u8>, bytes: &Vec<u8>)
    ensures
        final(out)@ == old(out)@ + bytes@,
{
    crate::wire::push_bytes(out, bytes.as_slice());
}

impl Serialize for Message {
    open spec fn spec_serialize(&self) -> Result<Seq<u8>, CodecError> {
        spec_message_bytes(self@)
    }

    fn serialize(&self) -> (r: Result<Vec<u8>, CodecError>) {
        let mut out: Vec<u8> = Vec::new();
        write_message(self, &mut out)?;
        assert(out@ =~= Seq::<u8>::empty() + out@);
        Ok(out)
    }
}

/// A decoded run of records ends at or after where it began and within the
/// message.
pub proof fn lemma_records_end(src: Seq<u8>, pos: int, n: nat)
    requires
        0 <= pos <= src.len(),
    ensures
        spec_records_at(src, pos, n) is Ok ==> pos <= spec_records_at(src, pos, n)->Ok_0.1 <= src.len(),
    decreases n,
{
    if n > 0 && pos < src.len() {
        lemma_record_end(src, pos);
        if spec_record_at(src, pos) is Ok {
            lemma_records_end(src, spec_record_at(src, pos)->Ok_0.1, (n - 1) as nat);
        }
    }
}

/// The message that decoding an encoded `m` gives: reserved header bits
/// zero, names in normal form.
pub open spec fn normal_message(m: MessageView) -> MessageView {
    MessageView {
        header: Header { z: 0, ..m.header },
        question: normal_question(m.question),
        records: m.records.map_values(|r: RecordView| normal_record(r)),
    }
}

/// Records that encode one by one to the same bytes encode together to the
/// same bytes.
proof fn lemma_records_bytes_same(rs: Seq<RecordView>, ts: Seq<RecordView>)
    requires
        rs.len() == ts.len(),
        forall|k: int| 0 <= k < rs.len() ==> spec_record_bytes(#[trigger] ts[k]) == spec_record_bytes(rs[k]),
    ensures
        spec_records_bytes(ts) == spec_records_bytes(rs),
    decreases rs.len(),
{
    if rs.len() > 0 {
        assert forall|k: int| 0 <= k < rs.drop_last().len() implies spec_record_bytes(#[trigger] ts.drop_last()[k])
            == spec_record_bytes(rs.drop_last()[k]) by {
            assert(ts.drop_last()[k] == ts[k]);
            assert(rs.drop_last()[k] == rs[k]);
        }
        lemma_records_bytes_same(rs.drop_last(), ts.drop_last());
        assert(ts.last() == ts[ts.len() - 1]);
    }
}

/// The encoding of a run of records is that of its first record followed by
/// that of the rest.
proof fn lemma_records_bytes_front(rs: Seq<RecordView>)
    requires
        rs.len() > 0,
        spec_records_bytes(rs) is Ok,
    ensures
        spec_record_bytes(rs[0]) is Ok,
        spec_records_bytes(rs.drop_first()) is Ok,
        spec_records_bytes(rs)->Ok_0 == spec_record_bytes(rs[0])->Ok_0 + spec_records_bytes(rs.drop_first())->Ok_0,
    decreases rs.len(),
{
    let init = rs.drop_last();
    if rs.len() == 1 {
        assert(rs.drop_first() =~= Seq::<RecordView>::empty());
        assert(rs.last() == rs[0]);
        assert(spec_records_bytes(init) == Ok::<Seq<u8>, CodecError>(seq![]));
        assert(spec_records_bytes(rs)->Ok_0 =~= spec_record_bytes(rs[0])->Ok_0 + Seq::<u8>::empty());
    } else {
        lemma_records_bytes_front(init);
        assert(init[0] == rs[0]);
        assert(rs.drop_first().drop_last() =~= init.drop_first());
        assert(rs.drop_first().last() == rs.last());
        assert(spec_records_bytes(rs)->Ok_0 =~= spec_record_bytes(rs[0])->Ok_0 + spec_records_bytes(rs.drop_first())->Ok_0);
    }
}

/// Decoding encoded records gives them with their names in normal form, and
/// the normal forms encode to the same bytes.
proof fn lemma_decode_encoded_records(src: Seq<u8>, pos: int, rs: Seq<RecordView>)
    requires
        forall|k: int| 0 <= k < rs.len() ==> sized_addresses(#[trigger] rs[k]),
        spec_records_bytes(rs) is Ok,
        0 <= pos,
        pos + spec_records_bytes(rs)->Ok_0.len() <= src.len(),
        src.subrange(pos, pos + spec_records_bytes(rs)->Ok_0.len()) == spec_records_bytes(rs)->Ok_0,
    ensures
        spec_records_at(src, pos, rs.len()) == Ok::<(Seq<RecordView>, int), CodecError>(
            (rs.map_values(|r: RecordView| normal_record(r)), pos + spec_records_bytes(rs)->Ok_0.len()),
        ),
    decreases rs.len(),
{
    if rs.len() == 0 {
        assert(rs.map_values(|r: RecordView| normal_record(r)) =~= seq![]);
    } else {
        lemma_records_bytes_front(rs);
        let b = spec_records_bytes(rs)->Ok_0;
        let rb = spec_record_bytes(rs[0])->Ok_0;
        let rest = rs.drop_first();
        let tb = spec_records_bytes(rest)->Ok_0;
        lemma_subrange_at(src, pos, b, 0, rb.len() as int);
        assert(b.subrange(0, rb.len() as int) =~= rb);
        lemma_decode_encoded_record(src, pos, rs[0]);
        lemma_subrange_at(src, pos, b, rb.len() as int, tb.len() as int);
        assert(b.subrange(rb.len() as int, rb.len() + tb.len() as int) =~= tb);
        assert forall|k: int| 0 <= k < rest.len() implies sized_addresses(#[trigger] rest[k]) by {
            assert(rest[k] == rs[k + 1]);
        }
        lemma_decode_encoded_records(src, pos + rb.len(), rest);
        assert(seq![normal_record(rs[0])] + rest.map_values(|r: RecordView| normal_record(r))
            =~= rs.map_values(|r: RecordView| normal_record(r)));
    }
}

/// Putting a message in normal form does not change its encoding.
proof fn lemma_normal_message_bytes(v: MessageView)
    ensures
        spec_message_bytes(normal_message(v)) == spec_message_bytes(v),
{
    let n = normal_message(v);
    assert forall|k: int| 0 <= k < v.records.len() implies spec_record_bytes(#[trigger] n.records[k])
        == spec_record_bytes(v.records[k]) by {
        assert(n.records[k] == normal_record(v.records[k]));
        lemma_normal_record_bytes(v.records[k]);
    }
    lemma_records_bytes_same(v.records, n.records);
    crate::question::lemma_normal_question_bytes(v.question);
    assert(spec_header_bytes(n.header) == spec_header_bytes(v.header));
}

/// Decoding the encoding of a message gives it in normal form.
proof fn lemma_decode_encoded_message(m: Message)
    requires
        spec_message_bytes(m@) is Ok,
    ensures
        spec_message_at(spec_message_bytes(m@)->Ok_0, 0) == Ok::<(MessageView, int), CodecError>(
            (normal_message(m@), spec_message_bytes(m@)->Ok_0.len() as int),
        ),
{
    let v = m@;
    let b = spec_message_bytes(v)->Ok_0;
    let hb = spec_header_bytes(v.header);
    let qb = spec_question_bytes(v.question)->Ok_0;
    let rsb = spec_records_bytes(v.records)->Ok_0;
    assert(b == hb + qb + rsb);
    assert(b.subrange(0, 12) =~= hb);
    lemma_decode_encoded_header(b, 0, v.header);
    assert(b.subrange(12, 12 + qb.len() as int) =~= qb);
    lemma_decode_encoded_question(b, 12, v.question);
    let at_records: int = 12 + qb.len() as int;
    assert(b.subrange(at_records, at_records + rsb.len() as int) =~= rsb);
    assert forall|k: int| 0 <= k < v.records.len() implies sized_addresses(#[trigger] v.records[k]) by {
        assert(v.records[k] == m.records@[k]@);
        lemma_record_sized(m.records@[k]);
    }
    lemma_decode_encoded_records(b, at_records, v.records);
}

/// Decoding a message that this encoder produced and encoding the result
/// again gives back exactly the same bytes.
pub proof fn lemma_reencode_identity(m: Message)
    requires
        spec_message_bytes(m@) is Ok,
    ensures
        spec_message_at(spec_message_bytes(m@)->Ok_0, 0) is Ok,
        spec_message_bytes(spec_message_at(spec_message_bytes(m@)->Ok_0, 0)->Ok_0.0) == spec_message_bytes(m@),
{
    lemma_decode_encoded_message(m);
    lemma_normal_message_bytes(m@);
}

impl DeSerialize for Message {
    open spec fn spec_deserialize(src: Seq<u8>, pos: int) -> Result<(MessageView, int), CodecError> {
        spec_message_at(src, pos)
    }

    fn deserialize<'a>(buffer: &mut Buffer<'a>) -> (r: Result<(Buffer<'a>, Message), CodecError>) {
        let pos = buffer.position();
        let (m, end) = read_message_at(buffer.source, pos)?;
        proof {
            let src = buffer.source@;
            let at_question = pos + 12;
            crate::name::lemma_name_end(src, at_question);
            let at_records = spec_question_at(src, at_question)->Ok_0.1;
            lemma_records_end(src, at_records, m.header.an_count as nat);
        }
        buffer.advance_to(end);
        Ok((*buffer, m))
    }
}

} // verus!
