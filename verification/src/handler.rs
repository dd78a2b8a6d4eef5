//! What to do with one datagram: decode it, classify each question, and
//! prepare for each either a reply or a hand-over to the upstream mirror.
//!
//! Nothing here sends: the caller carries the steps out, and every step
//! names the peer that the datagram came from as the one to answer.

use vstd::prelude::*;
use vstd::slice::slice_to_vec;
use crate::codec::decode;
use crate::codec::decoded;
use crate::codec::encode;
use crate::codec::encoded;
use crate::config::Config;
use crate::message::questions_of;
use crate::message::Header;
use crate::message::Message;
use crate::message::MessageView;
use crate::message::Question;
use crate::message::QuestionView;
use crate::message::Record;
use crate::message::RecordView;
use crate::message::ANSWER_FLAGS;
use crate::message::REFUSAL_FLAGS;
use crate::mirror::transaction_id;
use crate::mirror::ResolveError;
use crate::rules::classify;
use crate::rules::outcome;
use crate::rules::rules_of;
use crate::rules::Action;
use crate::rules::ActionView;
use crate::rules::Rule;
use crate::rules::RuleView;
use crate::session::PeerAddr;
use crate::wire::be16_bytes;
use crate::wire::lemma_be16_round_trip;
use crate::wire::CodecError;
use crate::wire::MAX_PACKET_SIZE;

verus! {

/// A datagram as it came off the socket.
#[derive(Debug, PartialEq, Eq)]
pub struct RawDatagram {
    pub from: PeerAddr,
    pub bytes: Vec<u8>,
}

/// A datagram to be sent.
#[derive(Debug, PartialEq, Eq)]
pub struct Outbound {
    pub to: PeerAddr,
    pub bytes: Vec<u8>,
}

/// One thing to do for one question of a datagram.
#[derive(Debug, PartialEq, Eq)]
pub enum Step {
    /// Send this reply.
    Reply(Outbound),
    /// Resolve `query` upstream and relay what comes back to `reply_to`.
    Forward { reply_to: PeerAddr, query: Vec<u8> },
}

/// Model of a [`Step`].
pub ghost enum StepView {
    Reply { to: PeerAddr, bytes: Seq<u8> },
    Forward { reply_to: PeerAddr, query: Seq<u8> },
}

impl View for Step {
    type V = StepView;

    open spec fn view(&self) -> StepView {
        match self {
            Step::Reply(out) => StepView::Reply { to: out.to, bytes: out.bytes@ },
            Step::Forward { reply_to, query } => StepView::Forward {
                reply_to: *reply_to,
                query: query@,
            },
        }
    }
}

impl StepView {
    /// The peer that the step's result is sent to.
    pub open spec fn destination(self) -> PeerAddr {
        match self {
            StepView::Reply { to, .. } => to,
            StepView::Forward { reply_to, .. } => reply_to,
        }
    }
}

/// The models of a run of steps.
pub open spec fn steps_of(steps: Seq<Step>) -> Seq<StepView> {
    steps.map_values(|s: Step| s@)
}

/// The reply that answers `question` with `record`, under the query's id.
pub open spec fn answer_message(id: u16, question: QuestionView, record: RecordView) -> MessageView {
    MessageView {
        header: Header {
            id,
            flags: ANSWER_FLAGS,
            question_count: 1,
            answer_count: 1,
            authority_count: 0,
            additional_count: 0,
        },
        questions: seq![question],
        answers: seq![record],
    }
}

/// The reply that refuses `question`, under the query's id: no answers.
pub open spec fn refusal_message(id: u16, question: QuestionView) -> MessageView {
    MessageView {
        header: Header {
            id,
            flags: REFUSAL_FLAGS,
            question_count: 1,
            answer_count: 0,
            authority_count: 0,
            additional_count: 0,
        },
        questions: seq![question],
        answers: Seq::empty(),
    }
}

/// The step that sends `message` to `to`, if its wire form fits a packet.
pub open spec fn reply_step(to: PeerAddr, message: MessageView) -> Result<StepView, CodecError> {
    if encoded(message).len() > MAX_PACKET_SIZE {
        Err(CodecError::BufferOverflow)
    } else {
        Ok(StepView::Reply { to, bytes: encoded(message) })
    }
}

/// The step for one question of the datagram `query` that came from `from`.
pub open spec fn step_for(
    rules: Seq<RuleView>,
    mirroring: bool,
    from: PeerAddr,
    query: Seq<u8>,
    id: u16,
    question: QuestionView,
) -> Result<StepView, CodecError> {
    match outcome(rules, mirroring, question) {
        ActionView::Answer(record) => reply_step(from, answer_message(id, question, record)),
        ActionView::Refuse => reply_step(from, refusal_message(id, question)),
        ActionView::Forward => Ok(StepView::Forward { reply_to: from, query }),
    }
}

/// The steps for a run of questions, in their order; the first reply that
/// does not fit a packet fails the whole run.
pub open spec fn steps_for(
    rules: Seq<RuleView>,
    mirroring: bool,
    from: PeerAddr,
    query: Seq<u8>,
    id: u16,
    questions: Seq<QuestionView>,
) -> Result<Seq<StepView>, CodecError>
    decreases questions.len(),
{
    if questions.len() == 0 {
        Ok(Seq::empty())
    } else {
        match steps_for(rules, mirroring, from, query, id, questions.drop_last()) {
            Err(e) => Err(e),
            Ok(before) => match step_for(rules, mirroring, from, query, id, questions.last()) {
                Err(e) => Err(e),
                Ok(step) => Ok(before.push(step)),
            },
        }
    }
}

/// What is done with the datagram `query` that came from `from`.
///
/// A datagram that does not decode is dropped with the codec's error. One
/// that does yields one step per question: a reply with the matched record,
/// a refusal, or a hand-over of the untouched datagram to the mirror. If a
/// reply cannot be encoded, the datagram is dropped as a whole.
pub open spec fn planned(rules: Seq<RuleView>, mirroring: bool, from: PeerAddr, query: Seq<u8>) -> Result<
    Seq<StepView>,
    CodecError,
> {
    match decoded(query) {
        Err(e) => Err(e),
        Ok(message) => steps_for(rules, mirroring, from, query, message.header.id, message.questions),
    }
}

/// Once a leading part of the questions has failed, the whole run fails the
/// same way.
pub proof fn lemma_steps_error_stays(
    rules: Seq<RuleView>,
    mirroring: bool,
    from: PeerAddr,
    query: Seq<u8>,
    id: u16,
    questions: Seq<QuestionView>,
    upto: int,
)
    requires
        0 <= upto <= questions.len(),
        steps_for(rules, mirroring, from, query, id, questions.take(upto)) is Err,
    ensures
        steps_for(rules, mirroring, from, query, id, questions) == steps_for(
            rules,
            mirroring,
            from,
            query,
            id,
            questions.take(upto),
        ),
    decreases questions.len(),
{
    if upto == questions.len() {
        assert(questions.take(upto) =~= questions);
    } else {
        assert(questions.drop_last().take(upto) =~= questions.take(upto));
        lemma_steps_error_stays(rules, mirroring, from, query, id, questions.drop_last(), upto);
    }
}

/// The steps for one question more are the steps so far and the step for
/// that question.
pub proof fn lemma_steps_extend(
    rules: Seq<RuleView>,
    mirroring: bool,
    from: PeerAddr,
    query: Seq<u8>,
    id: u16,
    questions: Seq<QuestionView>,
    upto: int,
)
    requires
        0 <= upto < questions.len(),
    ensures
        steps_for(rules, mirroring, from, query, id, questions.take(upto + 1)) == (match steps_for(
            rules,
            mirroring,
            from,
            query,
            id,
            questions.take(upto),
        ) {
            Err(e) => Err(e),
            Ok(before) => match step_for(rules, mirroring, from, query, id, questions[upto]) {
                Err(e) => Err(e),
                Ok(step) => Ok(before.push(step)),
            },
        }),
{
    let more = questions.take(upto + 1);
    assert(more.drop_last() =~= questions.take(upto));
    assert(more.last() == questions[upto]);
}

fn answer_reply(id: u16, question: &Question, record: Record) -> (message: Message)
    ensures
        message@ == answer_message(id, question@, record@),
{
    let mut questions: Vec<Question> = Vec::new();
    questions.push(question.duplicate());
    let mut answers: Vec<Record> = Vec::new();
    answers.push(record);
    let message = Message {
        header: Header {
            id,
            flags: ANSWER_FLAGS,
            question_count: 1,
            answer_count: 1,
            authority_count: 0,
            additional_count: 0,
        },
        questions,
        answers,
    };
    assert(message@.questions =~= seq![question@]);
    assert(message@.answers =~= seq![record@]);
    message
}

fn refusal_reply(id: u16, question: &Question) -> (message: Message)
    ensures
        message@ == refusal_message(id, question@),
{
    let mut questions: Vec<Question> = Vec::new();
    questions.push(question.duplicate());
    let answers: Vec<Record> = Vec::new();
    let message = Message {
        header: Header {
            id,
            flags: REFUSAL_FLAGS,
            question_count: 1,
            answer_count: 0,
            authority_count: 0,
            additional_count: 0,
        },
        questions,
        answers,
    };
    assert(message@.questions =~= seq![question@]);
    assert(message@.answers =~= Seq::<RecordView>::empty());
    message
}

fn send_back(to: PeerAddr, message: &Message) -> (r: Result<Step, CodecError>)
    ensures
        match r {
            Ok(step) => reply_step(to, message@) == Ok::<StepView, CodecError>(step@),
            Err(e) => reply_step(to, message@) == Err::<StepView, CodecError>(e),
        },
{
    match encode(message) {
        Ok(bytes) => Ok(Step::Reply(Outbound { to, bytes })),
        Err(e) => Err(e),
    }
}

/// Decides what to do about one question of `datagram`.
fn plan_question(
    rules: &[Rule],
    mirroring: bool,
    datagram: &RawDatagram,
    id: u16,
    question: &Question,
) -> (r: Result<Step, CodecError>)
    ensures
        match r {
            Ok(step) => step_for(
                rules_of(rules@),
                mirroring,
                datagram.from,
                datagram.bytes@,
                id,
                question@,
            ) == Ok::<StepView, CodecError>(step@),
            Err(e) => step_for(
                rules_of(rules@),
                mirroring,
                datagram.from,
                datagram.bytes@,
                id,
                question@,
            ) == Err::<StepView, CodecError>(e),
        },
{
    match classify(rules, mirroring, question) {
        Action::Answer(record) => {
            let reply = answer_reply(id, question, record);
            send_back(datagram.from, &reply)
        },
        Action::Refuse => {
            let reply = refusal_reply(id, question);
            send_back(datagram.from, &reply)
        },
        Action::Forward => Ok(
            Step::Forward {
                reply_to: datagram.from,
                query: slice_to_vec(datagram.bytes.as_slice()),
            },
        ),
    }
}

/// Decides what to do with one datagram.
///
/// Returns the steps that [`planned`] describes, one per question and each
/// addressed to the sender of the datagram, or the codec error for which the
/// datagram is dropped without a reply.
pub fn handle_request(config: &Config, rules: &[Rule], datagram: &RawDatagram) -> (r: Result<
    Vec<Step>,
    CodecError,
>)
    ensures
        match r {
            Ok(steps) => planned(
                rules_of(rules@),
                config.mirroring(),
                datagram.from,
                datagram.bytes@,
            ) == Ok::<Seq<StepView>, CodecError>(steps_of(steps@)),
            Err(e) => planned(rules_of(rules@), config.mirroring(), datagram.from, datagram.bytes@)
                == Err::<Seq<StepView>, CodecError>(e),
        },
{
    let message = match decode(datagram.bytes.as_slice()) {
        Ok(m) => m,
        Err(e) => {
            return Err(e);
        },
    };
    let mirroring = config.mirror_enabled();
    let from = datagram.from;
    let id = message.header.id;
    let n = message.questions.len();
    let ghost all = rules_of(rules@);
    let ghost qs = questions_of(message.questions@);
    let mut steps: Vec<Step> = Vec::new();
    let mut i: usize = 0;
    assert(steps_of(steps@) =~= Seq::<StepView>::empty());
    assert(qs.take(0) =~= Seq::<QuestionView>::empty());
    while i < n
        invariant
            i <= n,
            n == message.questions.len(),
            all == rules_of(rules@),
            qs == questions_of(message.questions@),
            from == datagram.from,
            id == message.header.id,
            mirroring == config.mirroring(),
            decoded(datagram.bytes@) == Ok::<MessageView, CodecError>(message@),
            steps_for(all, mirroring, from, datagram.bytes@, id, qs.take(i as int)) == Ok::<
                Seq<StepView>,
                CodecError,
            >(steps_of(steps@)),
        decreases n - i,
    {
        let question = &message.questions[i];
        proof {
            assert(qs[i as int] == question@);
            lemma_steps_extend(all, mirroring, from, datagram.bytes@, id, qs, i as int);
        }
        let made = plan_question(rules, mirroring, datagram, id, question);
        match made {
            Err(e) => {
                proof {
                    lemma_steps_error_stays(
                        all,
                        mirroring,
                        from,
                        datagram.bytes@,
                        id,
                        qs,
                        i as int + 1,
                    );
                }
                return Err(e);
            },
            Ok(step) => {
                assert(steps_of(steps@.push(step)) =~= steps_of(steps@).push(step@));
                steps.push(step);
            },
        }
        i += 1;
    }
    assert(qs.take(n as int) =~= qs);
    Ok(steps)
}

/// What becomes of a hand-over once the mirror has been asked: a reply is
/// relayed to the peer byte for byte; a failure means no reply at all.
pub fn relay(reply_to: PeerAddr, resolved: Result<Vec<u8>, ResolveError>) -> (out: Option<Outbound>)
    ensures
        match resolved {
            Ok(bytes) => out matches Some(o) && o.to == reply_to && o.bytes@ == bytes@,
            Err(_) => out is None,
        },
{
    match resolved {
        Ok(bytes) => Some(Outbound { to: reply_to, bytes }),
        Err(_) => None,
    }
}

/// The steps of a run of questions are as many as the questions, and each is
/// addressed to the sender.
pub proof fn lemma_steps_return_to_sender(
    rules: Seq<RuleView>,
    mirroring: bool,
    from: PeerAddr,
    query: Seq<u8>,
    id: u16,
    questions: Seq<QuestionView>,
)
    ensures
        steps_for(rules, mirroring, from, query, id, questions) matches Ok(steps) ==> {
            &&& steps.len() == questions.len()
            &&& forall|i: int| 0 <= i < steps.len() ==> (#[trigger] steps[i]).destination() == from
        },
    decreases questions.len(),
{
    if questions.len() > 0 {
        lemma_steps_return_to_sender(rules, mirroring, from, query, id, questions.drop_last());
    }
}

/// No cross-delivery: whatever rules and bytes are involved, every step that
/// a datagram gives rise to is addressed to the peer it came from. Of two
/// datagrams from different peers, handled in any order, none therefore
/// yields anything for the other's peer.
pub proof fn lemma_no_cross_delivery(
    rules: Seq<RuleView>,
    mirroring: bool,
    from: PeerAddr,
    query: Seq<u8>,
    other: PeerAddr,
)
    requires
        other != from,
    ensures
        planned(rules, mirroring, from, query) matches Ok(steps) ==> forall|i: int|
            0 <= i < steps.len() ==> (#[trigger] steps[i]).destination() == from
                && steps[i].destination() != other,
{
    match decoded(query) {
        Ok(message) => {
            lemma_steps_return_to_sender(
                rules,
                mirroring,
                from,
                query,
                message.header.id,
                message.questions,
            );
        },
        Err(_) => {},
    }
}

/// The wire form of a message opens with its transaction id.
pub proof fn lemma_encoded_id(message: MessageView)
    ensures
        transaction_id(encoded(message)) == Some(message.header.id),
{
    let buf = encoded(message);
    assert(buf.subrange(0, 2) =~= be16_bytes(message.header.id as int));
    lemma_be16_round_trip(buf, 0, message.header.id as int);
}

/// Every step carries the query's transaction id: a reply opens with it, and
/// a hand-over passes the datagram on byte for byte.
pub proof fn lemma_steps_keep_id(
    rules: Seq<RuleView>,
    mirroring: bool,
    from: PeerAddr,
    query: Seq<u8>,
    id: u16,
    questions: Seq<QuestionView>,
)
    ensures
        steps_for(rules, mirroring, from, query, id, questions) matches Ok(steps) ==> forall|i: int|
            0 <= i < steps.len() ==> match #[trigger] steps[i] {
                StepView::Reply { bytes, .. } => transaction_id(bytes) == Some(id),
                StepView::Forward { query: passed, .. } => passed == query,
            },
    decreases questions.len(),
{
    if questions.len() > 0 {
        lemma_steps_keep_id(rules, mirroring, from, query, id, questions.drop_last());
        match outcome(rules, mirroring, questions.last()) {
            ActionView::Answer(record) => {
                lemma_encoded_id(answer_message(id, questions.last(), record));
            },
            ActionView::Refuse => {
                lemma_encoded_id(refusal_message(id, questions.last()));
            },
            ActionView::Forward => {},
        }
    }
}

/// The transaction id of a datagram is copied into every reply to it.
pub proof fn lemma_replies_keep_id(
    rules: Seq<RuleView>,
    mirroring: bool,
    from: PeerAddr,
    query: Seq<u8>,
)
    ensures
        planned(rules, mirroring, from, query) matches Ok(steps) ==> forall|i: int|
            0 <= i < steps.len() ==> match #[trigger] steps[i] {
                StepView::Reply { bytes, .. } => transaction_id(bytes) == transaction_id(query),
                StepView::Forward { query: passed, .. } => passed == query,
            },
{
    match decoded(query) {
        Ok(message) => {
            lemma_steps_keep_id(rules, mirroring, from, query, message.header.id, message.questions);
        },
        Err(_) => {},
    }
}

} // verus!
