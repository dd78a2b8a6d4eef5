//! Reading a datagram into a [`Message`] and writing a message back out.

use vstd::prelude::*;
use vstd::slice::slice_subrange;
use vstd::slice::slice_to_vec;
use crate::message::questions_of;
use crate::message::records_of;
use crate::message::Header;
use crate::message::Message;
use crate::message::MessageView;
use crate::message::Question;
use crate::message::QuestionView;
use crate::message::Record;
use crate::message::RecordView;
use crate::name::name_at;
use crate::name::name_bytes;
use crate::name::read_name;
use crate::name::valid_name;
use crate::name::write_name;
use crate::round_trip::lemma_round_trip;
use crate::wire::be16;
use crate::wire::be16_bytes;
use crate::wire::be32;
use crate::wire::be32_bytes;
use crate::wire::push_u16;
use crate::wire::push_u32;
use crate::wire::read_u16;
use crate::wire::read_u32;
use crate::wire::CodecError;
use crate::wire::HEADER_SIZE;
use crate::wire::MAX_PACKET_SIZE;
use crate::wire::MAX_POINTER_CHASES;

verus! {

/// The question that starts at `pos`, and the position behind it.
pub open spec fn question_at(buf: Seq<u8>, pos: int) -> Result<(QuestionView, int), CodecError> {
    match name_at(buf, pos, MAX_POINTER_CHASES as nat) {
        Err(e) => Err(e),
        Ok((name, p)) => if p + 4 > buf.len() {
            Err(CodecError::Truncated)
        } else {
            Ok((QuestionView { name, qtype: be16(buf, p), qclass: be16(buf, p + 2) }, p + 4))
        },
    }
}

/// The record that starts at `pos`, and the position behind it.
pub open spec fn record_at(buf: Seq<u8>, pos: int) -> Result<(RecordView, int), CodecError> {
    match name_at(buf, pos, MAX_POINTER_CHASES as nat) {
        Err(e) => Err(e),
        Ok((name, p)) => if p + 10 > buf.len() {
            Err(CodecError::Truncated)
        } else if p + 10 + be16(buf, p + 8) > buf.len() {
            Err(CodecError::Truncated)
        } else {
            Ok(
                (
                    RecordView {
                        name,
                        rtype: be16(buf, p),
                        class: be16(buf, p + 2),
                        ttl: be32(buf, p + 4),
                        rdata: buf.subrange(p + 10, p + 10 + be16(buf, p + 8)),
                    },
                    p + 10 + be16(buf, p + 8),
                ),
            )
        },
    }
}

/// The first `count` questions from `pos` on, and the position behind them.
pub open spec fn questions_at(buf: Seq<u8>, pos: int, count: nat) -> Result<
    (Seq<QuestionView>, int),
    CodecError,
>
    decreases count,
{
    if count == 0 {
        Ok((Seq::empty(), pos))
    } else {
        match questions_at(buf, pos, (count - 1) as nat) {
            Err(e) => Err(e),
            Ok((before, p)) => match question_at(buf, p) {
                Err(e) => Err(e),
                Ok((q, end)) => Ok((before.push(q), end)),
            },
        }
    }
}

/// The first `count` records from `pos` on, and the position behind them.
pub open spec fn records_at(buf: Seq<u8>, pos: int, count: nat) -> Result<
    (Seq<RecordView>, int),
    CodecError,
>
    decreases count,
{
    if count == 0 {
        Ok((Seq::empty(), pos))
    } else {
        match records_at(buf, pos, (count - 1) as nat) {
            Err(e) => Err(e),
            Ok((before, p)) => match record_at(buf, p) {
                Err(e) => Err(e),
                Ok((r, end)) => Ok((before.push(r), end)),
            },
        }
    }
}

/// The header stored in the first twelve bytes.
pub open spec fn header_at(buf: Seq<u8>) -> Header {
    Header {
        id: be16(buf, 0),
        flags: be16(buf, 2),
        question_count: be16(buf, 4),
        answer_count: be16(buf, 6),
        authority_count: be16(buf, 8),
        additional_count: be16(buf, 10),
    }
}

/// What a datagram decodes to.
///
/// A datagram larger than the packet buffer is a `BufferOverflow`; one that
/// ends inside the header, a name, a fixed field or record data is
/// `Truncated`. The header announces how many questions and answers follow;
/// exactly that many are read, and whatever comes after them is left alone.
pub open spec fn decoded(buf: Seq<u8>) -> Result<MessageView, CodecError> {
    if buf.len() > MAX_PACKET_SIZE {
        Err(CodecError::BufferOverflow)
    } else if buf.len() < HEADER_SIZE {
        Err(CodecError::Truncated)
    } else {
        match questions_at(buf, HEADER_SIZE as int, header_at(buf).question_count as nat) {
            Err(e) => Err(e),
            Ok((questions, p)) => match records_at(buf, p, header_at(buf).answer_count as nat) {
                Err(e) => Err(e),
                Ok((answers, _)) => Ok(MessageView { header: header_at(buf), questions, answers }),
            },
        }
    }
}

/// The wire form of one question.
pub open spec fn question_bytes(q: QuestionView) -> Seq<u8> {
    name_bytes(q.name) + be16_bytes(q.qtype as int) + be16_bytes(q.qclass as int)
}

/// The wire form of one record.
pub open spec fn record_bytes(r: RecordView) -> Seq<u8> {
    name_bytes(r.name) + be16_bytes(r.rtype as int) + be16_bytes(r.class as int) + be32_bytes(
        r.ttl as int,
    ) + be16_bytes(r.rdata.len() as int) + r.rdata
}

/// The wire form of a run of questions.
pub open spec fn questions_bytes(questions: Seq<QuestionView>) -> Seq<u8>
    decreases questions.len(),
{
    if questions.len() == 0 {
        Seq::empty()
    } else {
        questions_bytes(questions.drop_last()) + question_bytes(questions.last())
    }
}

/// The wire form of a run of records.
pub open spec fn records_bytes(records: Seq<RecordView>) -> Seq<u8>
    decreases records.len(),
{
    if records.len() == 0 {
        Seq::empty()
    } else {
        records_bytes(records.drop_last()) + record_bytes(records.last())
    }
}

/// The wire form of a header with the given id, flags and entry counts; the
/// authority and additional counts are zero.
pub open spec fn header_bytes(id: u16, flags: u16, questions: int, answers: int) -> Seq<u8> {
    be16_bytes(id as int) + be16_bytes(flags as int) + be16_bytes(questions) + be16_bytes(answers)
        + be16_bytes(0) + be16_bytes(0)
}

/// What a message encodes to: a header whose counts are taken from the
/// entries themselves, then the questions, then the answers, with every name
/// written out in full.
pub open spec fn encoded(m: MessageView) -> Seq<u8> {
    header_bytes(m.header.id, m.header.flags, m.questions.len() as int, m.answers.len() as int)
        + questions_bytes(m.questions) + records_bytes(m.answers)
}

/// Once reading the questions has failed, asking for more of them fails the
/// same way.
pub proof fn lemma_questions_error_stays(buf: Seq<u8>, pos: int, got: nat, count: nat)
    requires
        got <= count,
        questions_at(buf, pos, got) is Err,
    ensures
        questions_at(buf, pos, count) == questions_at(buf, pos, got),
    decreases count,
{
    if got < count {
        lemma_questions_error_stays(buf, pos, got, (count - 1) as nat);
    }
}

/// Once reading the records has failed, asking for more of them fails the
/// same way.
pub proof fn lemma_records_error_stays(buf: Seq<u8>, pos: int, got: nat, count: nat)
    requires
        got <= count,
        records_at(buf, pos, got) is Err,
    ensures
        records_at(buf, pos, count) == records_at(buf, pos, got),
    decreases count,
{
    if got < count {
        lemma_records_error_stays(buf, pos, got, (count - 1) as nat);
    }
}

/// Reading `count` questions gives `count` questions.
pub proof fn lemma_questions_count(buf: Seq<u8>, pos: int, count: nat)
    ensures
        questions_at(buf, pos, count) matches Ok((qs, _)) ==> qs.len() == count,
    decreases count,
{
    if count > 0 {
        lemma_questions_count(buf, pos, (count - 1) as nat);
    }
}

/// Reading `count` records gives `count` records.
pub proof fn lemma_records_count(buf: Seq<u8>, pos: int, count: nat)
    ensures
        records_at(buf, pos, count) matches Ok((rs, _)) ==> rs.len() == count,
    decreases count,
{
    if count > 0 {
        lemma_records_count(buf, pos, (count - 1) as nat);
    }
}

/// A name takes at least one byte on the wire.
pub proof fn lemma_name_bytes_nonempty(labels: Seq<Seq<u8>>)
    ensures
        name_bytes(labels).len() >= 1,
    decreases labels.len(),
{
    if labels.len() > 0 {
        lemma_name_bytes_nonempty(labels.drop_first());
    }
}

/// A leading part of a run of questions is no longer on the wire than the
/// whole run, and every question takes at least five bytes.
pub proof fn lemma_questions_bytes_grow(questions: Seq<QuestionView>, upto: int)
    requires
        0 <= upto <= questions.len(),
    ensures
        questions_bytes(questions.take(upto)).len() <= questions_bytes(questions).len(),
        questions_bytes(questions).len() >= 5 * questions.len(),
    decreases questions.len(),
{
    if questions.len() == 0 {
        assert(questions.take(upto) =~= questions);
    } else {
        let init = questions.drop_last();
        lemma_name_bytes_nonempty(questions.last().name);
        if upto == questions.len() {
            assert(questions.take(upto) =~= questions);
            lemma_questions_bytes_grow(init, 0);
        } else {
            assert(init.take(upto) =~= questions.take(upto));
            lemma_questions_bytes_grow(init, upto);
        }
    }
}

/// A leading part of a run of records is no longer on the wire than the
/// whole run, and every record takes at least eleven bytes.
pub proof fn lemma_records_bytes_grow(records: Seq<RecordView>, upto: int)
    requires
        0 <= upto <= records.len(),
    ensures
        records_bytes(records.take(upto)).len() <= records_bytes(records).len(),
        records_bytes(records).len() >= 11 * records.len(),
    decreases records.len(),
{
    if records.len() == 0 {
        assert(records.take(upto) =~= records);
    } else {
        let init = records.drop_last();
        lemma_name_bytes_nonempty(records.last().name);
        if upto == records.len() {
            assert(records.take(upto) =~= records);
            lemma_records_bytes_grow(init, 0);
        } else {
            assert(init.take(upto) =~= records.take(upto));
            lemma_records_bytes_grow(init, upto);
        }
    }
}

/// Reads the question that starts at `pos`.
fn read_question(buf: &[u8], pos: usize) -> (r: Result<(Question, usize), CodecError>)
    ensures
        match r {
            Ok((q, end)) => question_at(buf@, pos as int) == Ok::<(QuestionView, int), CodecError>(
                (q@, end as int),
            ),
            Err(e) => question_at(buf@, pos as int) == Err::<(QuestionView, int), CodecError>(e),
        },
{
    let (name, p) = match read_name(buf, pos) {
        Ok(found) => found,
        Err(e) => {
            return Err(e);
        },
    };
    if p > buf.len() || buf.len() - p < 4 {
        return Err(CodecError::Truncated);
    }
    let qtype = read_u16(buf, p);
    let qclass = read_u16(buf, p + 2);
    Ok((Question { name, qtype, qclass }, p + 4))
}

/// Reads the record that starts at `pos`.
fn read_record(buf: &[u8], pos: usize) -> (r: Result<(Record, usize), CodecError>)
    ensures
        match r {
            Ok((rec, end)) => record_at(buf@, pos as int) == Ok::<(RecordView, int), CodecError>(
                (rec@, end as int),
            ),
            Err(e) => record_at(buf@, pos as int) == Err::<(RecordView, int), CodecError>(e),
        },
{
    let (name, p) = match read_name(buf, pos) {
        Ok(found) => found,
        Err(e) => {
            return Err(e);
        },
    };
    if p > buf.len() || buf.len() - p < 10 {
        return Err(CodecError::Truncated);
    }
    let rtype = read_u16(buf, p);
    let class = read_u16(buf, p + 2);
    let ttl = read_u32(buf, p + 4);
    let len = read_u16(buf, p + 8) as usize;
    if buf.len() - p - 10 < len {
        return Err(CodecError::Truncated);
    }
    let rdata = slice_to_vec(slice_subrange(buf, p + 10, p + 10 + len));
    Ok((Record { name, rtype, class, ttl, rdata }, p + 10 + len))
}

/// Reads `count` questions from `start` on.
fn read_questions(buf: &[u8], start: usize, count: u16) -> (r: Result<
    (Vec<Question>, usize),
    CodecError,
>)
    ensures
        match r {
            Ok((qs, end)) => questions_at(buf@, start as int, count as nat) == Ok::<
                (Seq<QuestionView>, int),
                CodecError,
            >((questions_of(qs@), end as int)),
            Err(e) => questions_at(buf@, start as int, count as nat) == Err::<
                (Seq<QuestionView>, int),
                CodecError,
            >(e),
        },
{
    let mut questions: Vec<Question> = Vec::new();
    let mut pos: usize = start;
    let mut i: u16 = 0;
    assert(questions_of(questions@) =~= Seq::<QuestionView>::empty());
    while i < count
        invariant
            i <= count,
            questions_at(buf@, start as int, i as nat) == Ok::<(Seq<QuestionView>, int), CodecError>(
                (questions_of(questions@), pos as int),
            ),
        decreases count - i,
    {
        match read_question(buf, pos) {
            Err(e) => {
                proof {
                    lemma_questions_error_stays(buf@, start as int, (i + 1) as nat, count as nat);
                }
                return Err(e);
            },
            Ok((q, end)) => {
                assert(questions_of(questions@.push(q)) =~= questions_of(questions@).push(q@));
                questions.push(q);
                pos = end;
                i += 1;
            },
        }
    }
    Ok((questions, pos))
}

/// Reads `count` records from `start` on.
fn read_records(buf: &[u8], start: usize, count: u16) -> (r: Result<
    (Vec<Record>, usize),
    CodecError,
>)
    ensures
        match r {
            Ok((rs, end)) => records_at(buf@, start as int, count as nat) == Ok::<
                (Seq<RecordView>, int),
                CodecError,
            >((records_of(rs@), end as int)),
            Err(e) => records_at(buf@, start as int, count as nat) == Err::<
                (Seq<RecordView>, int),
                CodecError,
            >(e),
        },
{
    let mut records: Vec<Record> = Vec::new();
    let mut pos: usize = start;
    let mut i: u16 = 0;
    assert(records_of(records@) =~= Seq::<RecordView>::empty());
    while i < count
        invariant
            i <= count,
            records_at(buf@, start as int, i as nat) == Ok::<(Seq<RecordView>, int), CodecError>(
                (records_of(records@), pos as int),
            ),
        decreases count - i,
    {
        match read_record(buf, pos) {
            Err(e) => {
                proof {
                    lemma_records_error_stays(buf@, start as int, (i + 1) as nat, count as nat);
                }
                return Err(e);
            },
            Ok((rec, end)) => {
                assert(records_of(records@.push(rec)) =~= records_of(records@).push(rec@));
                records.push(rec);
                pos = end;
                i += 1;
            },
        }
    }
    Ok((records, pos))
}

/// Decodes a datagram.
///
/// Succeeds exactly on the datagrams that [`decoded`] accepts, with the
/// message it describes; the header counts of a decoded message equal the
/// number of questions and answers it carries.
pub fn decode(bytes: &[u8]) -> (r: Result<Message, CodecError>)
    ensures
        match r {
            Ok(m) => decoded(bytes@) == Ok::<MessageView, CodecError>(m@)
                && m.header.question_count == m.questions.len()
                && m.header.answer_count == m.answers.len(),
            Err(e) => decoded(bytes@) == Err::<MessageView, CodecError>(e),
        },
{
    if bytes.len() > MAX_PACKET_SIZE {
        return Err(CodecError::BufferOverflow);
    }
    if bytes.len() < HEADER_SIZE {
        return Err(CodecError::Truncated);
    }
    let header = Header {
        id: read_u16(bytes, 0),
        flags: read_u16(bytes, 2),
        question_count: read_u16(bytes, 4),
        answer_count: read_u16(bytes, 6),
        authority_count: read_u16(bytes, 8),
        additional_count: read_u16(bytes, 10),
    };
    let (questions, pos) = match read_questions(bytes, HEADER_SIZE, header.question_count) {
        Ok(found) => found,
        Err(e) => {
            return Err(e);
        },
    };
    let (answers, _) = match read_records(bytes, pos, header.answer_count) {
        Ok(found) => found,
        Err(e) => {
            return Err(e);
        },
    };
    proof {
        lemma_questions_count(bytes@, HEADER_SIZE as int, header.question_count as nat);
        lemma_records_count(bytes@, pos as int, header.answer_count as nat);
    }
    Ok(Message { header, questions, answers })
}

/// Appends the wire form of `q`.
fn write_question(out: &mut Vec<u8>, q: &Question)
    ensures
        final(out)@ == old(out)@ + question_bytes(q@),
        valid_name(q@.name),
{
    write_name(out, &q.name);
    push_u16(out, q.qtype);
    push_u16(out, q.qclass);
    assert(out@ =~= old(out)@ + question_bytes(q@));
}

/// Appends the wire form of `rec`.
fn write_record(out: &mut Vec<u8>, rec: &Record)
    requires
        rec.rdata.len() <= 65535,
    ensures
        final(out)@ == old(out)@ + record_bytes(rec@),
        valid_name(rec@.name),
{
    write_name(out, &rec.name);
    push_u16(out, rec.rtype);
    push_u16(out, rec.class);
    push_u32(out, rec.ttl);
    push_u16(out, rec.rdata.len() as u16);
    out.extend_from_slice(rec.rdata.as_slice());
    assert(out@ =~= old(out)@ + record_bytes(rec@));
}

/// Encodes a message.
///
/// The header counts are taken from the entries, not from the header handed
/// in. Fails with `BufferOverflow`, and only with it, exactly when the wire
/// form is larger than the packet buffer. What it produces decodes to the
/// message again, with the counts set from the entries.
pub fn encode(message: &Message) -> (r: Result<Vec<u8>, CodecError>)
    ensures
        match r {
            Ok(bytes) => bytes@ == encoded(message@) && bytes@.len() <= MAX_PACKET_SIZE
                && decoded(bytes@) == Ok::<MessageView, CodecError>(message@.with_counts()),
            Err(e) => e == CodecError::BufferOverflow && encoded(message@).len() > MAX_PACKET_SIZE,
        },
{
    let nq = message.questions.len();
    let na = message.answers.len();
    let ghost qs = questions_of(message.questions@);
    let ghost rs = records_of(message.answers@);
    if nq > MAX_PACKET_SIZE || na > MAX_PACKET_SIZE {
        proof {
            lemma_questions_bytes_grow(qs, 0);
            lemma_records_bytes_grow(rs, 0);
        }
        return Err(CodecError::BufferOverflow);
    }
    let mut out: Vec<u8> = Vec::new();
    push_u16(&mut out, message.header.id);
    push_u16(&mut out, message.header.flags);
    push_u16(&mut out, nq as u16);
    push_u16(&mut out, na as u16);
    push_u16(&mut out, 0);
    push_u16(&mut out, 0);
    let ghost head = header_bytes(message.header.id, message.header.flags, nq as int, na as int);
    assert(out@ =~= head);
    let mut i: usize = 0;
    while i < nq
        invariant
            i <= nq,
            nq == message.questions.len(),
            qs == questions_of(message.questions@),
            head.len() == 12,
            out@ == head + questions_bytes(qs.take(i as int)),
            out@.len() <= MAX_PACKET_SIZE,
            forall|k: int| 0 <= k < i ==> valid_name((#[trigger] qs[k]).name),
        decreases nq - i,
    {
        proof {
            let upto = qs.take(i as int + 1);
            assert(upto.drop_last() =~= qs.take(i as int));
            assert(upto.last() == message.questions@[i as int]@);
        }
        write_question(&mut out, &message.questions[i]);
        assert(out@ =~= head + questions_bytes(qs.take(i as int + 1)));
        if out.len() > MAX_PACKET_SIZE {
            proof {
                lemma_questions_bytes_grow(qs, i as int + 1);
            }
            return Err(CodecError::BufferOverflow);
        }
        i += 1;
    }
    assert(qs.take(nq as int) =~= qs);
    let mut j: usize = 0;
    while j < na
        invariant
            j <= na,
            encoded(message@) == head + questions_bytes(qs) + records_bytes(rs),
            na == message.answers.len(),
            rs == records_of(message.answers@),
            out@ == head + questions_bytes(qs) + records_bytes(rs.take(j as int)),
            out@.len() <= MAX_PACKET_SIZE,
            forall|k: int| 0 <= k < j ==> valid_name((#[trigger] rs[k]).name),
        decreases na - j,
    {
        let rec = &message.answers[j];
        proof {
            let upto = rs.take(j as int + 1);
            assert(upto.drop_last() =~= rs.take(j as int));
            assert(upto.last() == rec@);
            lemma_records_bytes_grow(rs, j as int + 1);
        }
        if rec.rdata.len() > MAX_PACKET_SIZE {
            proof {
                let upto = rs.take(j as int + 1);
                assert(records_bytes(upto).len() >= record_bytes(rec@).len());
                assert(record_bytes(rec@).len() >= rec.rdata@.len());
            }
            return Err(CodecError::BufferOverflow);
        }
        write_record(&mut out, rec);
        assert(out@ =~= head + questions_bytes(qs) + records_bytes(rs.take(j as int + 1)));
        if out.len() > MAX_PACKET_SIZE {
            return Err(CodecError::BufferOverflow);
        }
        j += 1;
    }
    assert(rs.take(na as int) =~= rs);
    proof {
        lemma_round_trip(message@);
    }
    Ok(out)
}

} // verus!
