//! Laws of the codec: what was written reads back unchanged, and reading a
//! name stays inside the buffer and ends, whatever the bytes are.

use vstd::prelude::*;
use crate::codec::decoded;
use crate::codec::encoded;
use crate::codec::header_at;
use crate::codec::header_bytes;
use crate::codec::lemma_name_bytes_nonempty;
use crate::codec::lemma_questions_bytes_grow;
use crate::codec::lemma_records_bytes_grow;
use crate::codec::question_at;
use crate::codec::question_bytes;
use crate::codec::questions_at;
use crate::codec::questions_bytes;
use crate::codec::record_at;
use crate::codec::record_bytes;
use crate::codec::records_at;
use crate::codec::records_bytes;
use crate::message::MessageView;
use crate::message::QuestionView;
use crate::message::RecordView;
use crate::name::name_at;
use crate::name::name_bytes;
use crate::name::valid_label;
use crate::name::valid_name;
use crate::wire::be16_bytes;
use crate::wire::be32_bytes;
use crate::wire::lemma_be16_round_trip;
use crate::wire::lemma_be32_round_trip;
use crate::wire::CodecError;
use crate::wire::HEADER_SIZE;
use crate::wire::MAX_PACKET_SIZE;
use crate::wire::MAX_POINTER_CHASES;

verus! {

/// A valid name that stands written in full at `pos` is read back as itself,
/// and reading ends right behind it, whatever the pointer budget.
pub proof fn lemma_name_round_trip(buf: Seq<u8>, pos: int, labels: Seq<Seq<u8>>, budget: nat)
    requires
        valid_name(labels),
        0 <= pos,
        pos + name_bytes(labels).len() <= buf.len(),
        buf.subrange(pos, pos + name_bytes(labels).len()) == name_bytes(labels),
    ensures
        name_at(buf, pos, budget) == Ok::<(Seq<Seq<u8>>, int), CodecError>(
            (labels, pos + name_bytes(labels).len()),
        ),
    decreases labels.len(),
{
    let enc = name_bytes(labels);
    let window = buf.subrange(pos, pos + enc.len());
    lemma_name_bytes_nonempty(labels);
    assert(buf[pos] == window[0]);
    if labels.len() == 0 {
        assert(labels =~= Seq::<Seq<u8>>::empty());
    } else {
        let first = labels[0];
        let rest = labels.drop_first();
        let n = first.len() as int;
        assert(valid_label(labels[0]));
        assert(enc[0] == n as u8);
        assert(enc.len() == 1 + n + name_bytes(rest).len());
        assert forall|k: int| 0 <= k < n implies buf[pos + 1 + k] == first[k] by {
            assert(buf[pos + 1 + k] == window[1 + k]);
        }
        assert(buf.subrange(pos + 1, pos + 1 + n) =~= first);
        assert forall|k: int| 0 <= k < name_bytes(rest).len() implies buf[pos + 1 + n + k]
            == name_bytes(rest)[k] by {
            assert(buf[pos + 1 + n + k] == window[1 + n + k]);
        }
        assert(buf.subrange(pos + 1 + n, pos + 1 + n + name_bytes(rest).len()) =~= name_bytes(
            rest,
        ));
        assert forall|i: int| 0 <= i < rest.len() implies valid_label(#[trigger] rest[i]) by {
            assert(rest[i] == labels[i + 1]);
        }
        lemma_name_round_trip(buf, pos + 1 + n, rest, budget);
        assert(seq![first] + rest =~= labels);
        assert(buf[pos] as int == n);
    }
}

/// A question with a valid name that stands written at `pos` is read back as
/// itself.
pub proof fn lemma_question_round_trip(buf: Seq<u8>, pos: int, q: QuestionView)
    requires
        valid_name(q.name),
        0 <= pos,
        pos + question_bytes(q).len() <= buf.len(),
        buf.subrange(pos, pos + question_bytes(q).len()) == question_bytes(q),
    ensures
        question_at(buf, pos) == Ok::<(QuestionView, int), CodecError>(
            (q, pos + question_bytes(q).len()),
        ),
{
    let enc = question_bytes(q);
    let window = buf.subrange(pos, pos + enc.len());
    let n = name_bytes(q.name).len() as int;
    let p = pos + n;
    assert forall|k: int| 0 <= k < enc.len() implies buf[pos + k] == enc[k] by {
        assert(buf[pos + k] == window[k]);
    }
    assert(buf.subrange(pos, pos + n) =~= name_bytes(q.name));
    lemma_name_round_trip(buf, pos, q.name, MAX_POINTER_CHASES as nat);
    assert(buf.subrange(p, p + 2) =~= be16_bytes(q.qtype as int)) by {
        assert(buf[p] == enc[n]);
        assert(buf[p + 1] == enc[n + 1]);
    }
    assert(buf.subrange(p + 2, p + 4) =~= be16_bytes(q.qclass as int)) by {
        assert(buf[p + 2] == enc[n + 2]);
        assert(buf[p + 3] == enc[n + 3]);
    }
    lemma_be16_round_trip(buf, p, q.qtype as int);
    lemma_be16_round_trip(buf, p + 2, q.qclass as int);
}

/// A record with a valid name and at most 65535 bytes of data that stands
/// written at `pos` is read back as itself.
pub proof fn lemma_record_round_trip(buf: Seq<u8>, pos: int, r: RecordView)
    requires
        valid_name(r.name),
        r.rdata.len() <= 65535,
        0 <= pos,
        pos + record_bytes(r).len() <= buf.len(),
        buf.subrange(pos, pos + record_bytes(r).len()) == record_bytes(r),
    ensures
        record_at(buf, pos) == Ok::<(RecordView, int), CodecError>(
            (r, pos + record_bytes(r).len()),
        ),
{
    let enc = record_bytes(r);
    let window = buf.subrange(pos, pos + enc.len());
    let n = name_bytes(r.name).len() as int;
    let p = pos + n;
    let d = r.rdata.len() as int;
    assert forall|k: int| 0 <= k < enc.len() implies buf[pos + k] == enc[k] by {
        assert(buf[pos + k] == window[k]);
    }
    assert(buf.subrange(pos, pos + n) =~= name_bytes(r.name));
    lemma_name_round_trip(buf, pos, r.name, MAX_POINTER_CHASES as nat);
    assert(buf.subrange(p, p + 2) =~= be16_bytes(r.rtype as int)) by {
        assert(buf[p] == enc[n]);
        assert(buf[p + 1] == enc[n + 1]);
    }
    assert(buf.subrange(p + 2, p + 4) =~= be16_bytes(r.class as int)) by {
        assert(buf[p + 2] == enc[n + 2]);
        assert(buf[p + 3] == enc[n + 3]);
    }
    assert(buf.subrange(p + 4, p + 8) =~= be32_bytes(r.ttl as int)) by {
        assert(buf[p + 4] == enc[n + 4]);
        assert(buf[p + 5] == enc[n + 5]);
        assert(buf[p + 6] == enc[n + 6]);
        assert(buf[p + 7] == enc[n + 7]);
    }
    assert(buf.subrange(p + 8, p + 10) =~= be16_bytes(d)) by {
        assert(buf[p + 8] == enc[n + 8]);
        assert(buf[p + 9] == enc[n + 9]);
    }
    lemma_be16_round_trip(buf, p, r.rtype as int);
    lemma_be16_round_trip(buf, p + 2, r.class as int);
    lemma_be32_round_trip(buf, p + 4, r.ttl as int);
    lemma_be16_round_trip(buf, p + 8, d);
    assert forall|k: int| 0 <= k < d implies buf[p + 10 + k] == r.rdata[k] by {
        assert(buf[p + 10 + k] == enc[n + 10 + k]);
    }
    assert(buf.subrange(p + 10, p + 10 + d) =~= r.rdata);
}

/// A run of questions with valid names that stands written at `pos` is read
/// back as itself.
pub proof fn lemma_questions_round_trip(buf: Seq<u8>, pos: int, qs: Seq<QuestionView>)
    requires
        forall|i: int| 0 <= i < qs.len() ==> valid_name((#[trigger] qs[i]).name),
        0 <= pos,
        pos + questions_bytes(qs).len() <= buf.len(),
        buf.subrange(pos, pos + questions_bytes(qs).len()) == questions_bytes(qs),
    ensures
        questions_at(buf, pos, qs.len()) == Ok::<(Seq<QuestionView>, int), CodecError>(
            (qs, pos + questions_bytes(qs).len()),
        ),
    decreases qs.len(),
{
    if qs.len() == 0 {
        assert(qs =~= Seq::<QuestionView>::empty());
    } else {
        let init = qs.drop_last();
        let last = qs.last();
        let enc = questions_bytes(qs);
        let window = buf.subrange(pos, pos + enc.len());
        let n = questions_bytes(init).len() as int;
        assert forall|k: int| 0 <= k < enc.len() implies buf[pos + k] == enc[k] by {
            assert(buf[pos + k] == window[k]);
        }
        assert(buf.subrange(pos, pos + n) =~= questions_bytes(init));
        assert forall|i: int| 0 <= i < init.len() implies valid_name((#[trigger] init[i]).name) by {
            assert(init[i] == qs[i]);
        }
        lemma_questions_round_trip(buf, pos, init);
        assert forall|k: int| 0 <= k < question_bytes(last).len() implies buf[pos + n + k]
            == question_bytes(last)[k] by {
            assert(buf[pos + n + k] == enc[n + k]);
        }
        assert(buf.subrange(pos + n, pos + n + question_bytes(last).len()) =~= question_bytes(
            last,
        ));
        assert(valid_name(qs[qs.len() - 1].name));
        lemma_question_round_trip(buf, pos + n, last);
        assert(init.push(last) =~= qs);
    }
}

/// A run of records with valid names, no more than 65535 bytes long on the
/// wire, that stands written at `pos` is read back as itself.
pub proof fn lemma_records_round_trip(buf: Seq<u8>, pos: int, rs: Seq<RecordView>)
    requires
        forall|i: int| 0 <= i < rs.len() ==> valid_name((#[trigger] rs[i]).name),
        records_bytes(rs).len() <= 65535,
        0 <= pos,
        pos + records_bytes(rs).len() <= buf.len(),
        buf.subrange(pos, pos + records_bytes(rs).len()) == records_bytes(rs),
    ensures
        records_at(buf, pos, rs.len()) == Ok::<(Seq<RecordView>, int), CodecError>(
            (rs, pos + records_bytes(rs).len()),
        ),
    decreases rs.len(),
{
    if rs.len() == 0 {
        assert(rs =~= Seq::<RecordView>::empty());
    } else {
        let init = rs.drop_last();
        let last = rs.last();
        let enc = records_bytes(rs);
        let window = buf.subrange(pos, pos + enc.len());
        let n = records_bytes(init).len() as int;
        assert forall|k: int| 0 <= k < enc.len() implies buf[pos + k] == enc[k] by {
            assert(buf[pos + k] == window[k]);
        }
        assert(buf.subrange(pos, pos + n) =~= records_bytes(init));
        assert forall|i: int| 0 <= i < init.len() implies valid_name((#[trigger] init[i]).name) by {
            assert(init[i] == rs[i]);
        }
        lemma_records_round_trip(buf, pos, init);
        assert forall|k: int| 0 <= k < record_bytes(last).len() implies buf[pos + n + k]
            == record_bytes(last)[k] by {
            assert(buf[pos + n + k] == enc[n + k]);
        }
        assert(buf.subrange(pos + n, pos + n + record_bytes(last).len()) =~= record_bytes(last));
        assert(valid_name(rs[rs.len() - 1].name));
        assert(record_bytes(last).len() >= last.rdata.len());
        lemma_record_round_trip(buf, pos + n, last);
        assert(init.push(last) =~= rs);
    }
}

/// Decoding what encoding produced gives the message back.
///
/// For every message whose names are valid and whose wire form fits the
/// packet buffer, decoding the wire form succeeds and yields the same id,
/// flags, questions and answers, with the header counts set from the entries.
/// A message whose counts already agree with its entries comes back equal.
pub proof fn lemma_round_trip(m: MessageView)
    requires
        m.names_valid(),
        encoded(m).len() <= MAX_PACKET_SIZE,
    ensures
        decoded(encoded(m)) == Ok::<MessageView, CodecError>(m.with_counts()),
        m.counts_agree() ==> decoded(encoded(m)) == Ok::<MessageView, CodecError>(m),
{
    let buf = encoded(m);
    let nq = m.questions.len() as int;
    let na = m.answers.len() as int;
    let head = header_bytes(m.header.id, m.header.flags, nq, na);
    let qb = questions_bytes(m.questions);
    let rb = records_bytes(m.answers);
    lemma_questions_bytes_grow(m.questions, 0);
    lemma_records_bytes_grow(m.answers, 0);
    assert(head.len() == HEADER_SIZE);
    assert(buf.len() == 12 + qb.len() + rb.len());
    assert forall|k: int| 0 <= k < 12 implies buf[k] == head[k] by {}
    assert(buf.subrange(0, 2) =~= be16_bytes(m.header.id as int));
    assert(buf.subrange(2, 4) =~= be16_bytes(m.header.flags as int));
    assert(buf.subrange(4, 6) =~= be16_bytes(nq));
    assert(buf.subrange(6, 8) =~= be16_bytes(na));
    assert(buf.subrange(8, 10) =~= be16_bytes(0));
    assert(buf.subrange(10, 12) =~= be16_bytes(0));
    lemma_be16_round_trip(buf, 0, m.header.id as int);
    lemma_be16_round_trip(buf, 2, m.header.flags as int);
    lemma_be16_round_trip(buf, 4, nq);
    lemma_be16_round_trip(buf, 6, na);
    lemma_be16_round_trip(buf, 8, 0);
    lemma_be16_round_trip(buf, 10, 0);
    assert(header_at(buf) == m.with_counts().header);
    let after_questions = 12 + qb.len() as int;
    assert(buf.subrange(12, after_questions) =~= qb);
    lemma_questions_round_trip(buf, 12, m.questions);
    assert(buf.subrange(after_questions, after_questions + rb.len() as int) =~= rb);
    lemma_records_round_trip(buf, after_questions, m.answers);
    if m.counts_agree() {
        assert(m.with_counts().header == m.header);
    }
}

/// A compression pointer that does not point strictly backwards is refused,
/// whatever else the buffer holds: in particular one that points at itself.
pub proof fn lemma_pointer_must_go_back(buf: Seq<u8>, pos: int, budget: nat)
    requires
        0 <= pos,
        pos + 2 <= buf.len(),
        buf[pos] >= 192,
        (buf[pos] - 192) * 256 + buf[pos + 1] >= pos,
    ensures
        name_at(buf, pos, budget) == Err::<(Seq<Seq<u8>>, int), CodecError>(
            CodecError::MalformedCompression,
        ),
{
}

/// Reading a name is bounded on every input. When it succeeds, the position
/// it ends at lies inside the buffer and behind the start, every label is
/// valid, and the name has no more labels than the buffer could hold once per
/// pointer followed.
pub proof fn lemma_name_read_bounded(buf: Seq<u8>, pos: int, budget: nat)
    ensures
        name_at(buf, pos, budget) matches Ok((labels, end)) ==> {
            &&& 0 <= pos < end <= buf.len()
            &&& valid_name(labels)
            &&& labels.len() <= budget * buf.len() + (buf.len() - pos)
        },
    decreases budget, buf.len() - pos,
{
    if 0 <= pos < buf.len() {
        let b = buf[pos] as int;
        if b == 0 {
            assert(budget * buf.len() >= 0) by (nonlinear_arith)
                requires
                    budget >= 0,
                    buf.len() >= 0,
            ;
        } else if b <= 63 {
            if pos + 1 + b <= buf.len() {
                lemma_name_read_bounded(buf, pos + 1 + b, budget);
                match name_at(buf, pos + 1 + b, budget) {
                    Ok((rest, end)) => {
                        let label = buf.subrange(pos + 1, pos + 1 + b);
                        let labels = seq![label] + rest;
                        assert forall|i: int| 0 <= i < labels.len() implies valid_label(
                            #[trigger] labels[i],
                        ) by {
                            if i > 0 {
                                assert(labels[i] == rest[i - 1]);
                            }
                        }
                    },
                    Err(_) => {},
                }
            }
        } else if b >= 192 {
            if pos + 2 <= buf.len() {
                let target = (b - 192) * 256 + buf[pos + 1] as int;
                if target < pos && budget > 0 {
                    lemma_name_read_bounded(buf, target, (budget - 1) as nat);
                    assert((budget - 1) * buf.len() + buf.len() == budget * buf.len())
                        by (nonlinear_arith);
                }
            }
        }
    }
}

} // verus!
