//! The structured form of a DNS message and its mathematical model.

use vstd::prelude::*;
use crate::name::valid_name;
use crate::name::Name;

verus! {

/// Flags of a reply that answers: the response bit, no error.
pub const ANSWER_FLAGS: u16 = 0x8000;

/// Flags of a reply that refuses: the response bit and the code REFUSED.
pub const REFUSAL_FLAGS: u16 = 0x8005;

/// The twelve-byte header that opens a message.
#[derive(Clone, Copy, Debug, PartialEq, Eq, Structural)]
pub struct Header {
    /// Transaction id, copied from a query into its reply.
    pub id: u16,
    pub flags: u16,
    pub question_count: u16,
    pub answer_count: u16,
    pub authority_count: u16,
    pub additional_count: u16,
}

/// What is being asked: a name, a record type and a class.
#[derive(Debug, PartialEq, Eq)]
pub struct Question {
    pub name: Name,
    pub qtype: u16,
    pub qclass: u16,
}

/// Model of a [`Question`].
pub ghost struct QuestionView {
    pub name: Seq<Seq<u8>>,
    pub qtype: u16,
    pub qclass: u16,
}

/// A resource record.
#[derive(Debug, PartialEq, Eq)]
pub struct Record {
    pub name: Name,
    pub rtype: u16,
    pub class: u16,
    pub ttl: u32,
    pub rdata: Vec<u8>,
}

/// Model of a [`Record`].
pub ghost struct RecordView {
    pub name: Seq<Seq<u8>>,
    pub rtype: u16,
    pub class: u16,
    pub ttl: u32,
    pub rdata: Seq<u8>,
}

/// A decoded DNS message: header, questions and answers, in wire order.
#[derive(Debug, PartialEq, Eq)]
pub struct Message {
    pub header: Header,
    pub questions: Vec<Question>,
    pub answers: Vec<Record>,
}

/// Model of a [`Message`].
pub ghost struct MessageView {
    pub header: Header,
    pub questions: Seq<QuestionView>,
    pub answers: Seq<RecordView>,
}

impl View for Question {
    type V = QuestionView;

    open spec fn view(&self) -> QuestionView {
        QuestionView { name: self.name@, qtype: self.qtype, qclass: self.qclass }
    }
}

impl View for Record {
    type V = RecordView;

    open spec fn view(&self) -> RecordView {
        RecordView {
            name: self.name@,
            rtype: self.rtype,
            class: self.class,
            ttl: self.ttl,
            rdata: self.rdata@,
        }
    }
}

/// The models of a run of questions.
pub open spec fn questions_of(questions: Seq<Question>) -> Seq<QuestionView> {
    questions.map_values(|q: Question| q@)
}

/// The models of a run of records.
pub open spec fn records_of(records: Seq<Record>) -> Seq<RecordView> {
    records.map_values(|r: Record| r@)
}

impl View for Message {
    type V = MessageView;

    open spec fn view(&self) -> MessageView {
        MessageView {
            header: self.header,
            questions: questions_of(self.questions@),
            answers: records_of(self.answers@),
        }
    }
}

impl MessageView {
    /// Every name in the message is valid.
    pub open spec fn names_valid(self) -> bool {
        &&& forall|i: int|
            0 <= i < self.questions.len() ==> valid_name((#[trigger] self.questions[i]).name)
        &&& forall|i: int|
            0 <= i < self.answers.len() ==> valid_name((#[trigger] self.answers[i]).name)
    }

    /// The header's counts say what the message holds: as many questions and
    /// answers as there are, and nothing in the sections it does not carry.
    pub open spec fn counts_agree(self) -> bool {
        &&& self.header.question_count == self.questions.len()
        &&& self.header.answer_count == self.answers.len()
        &&& self.header.authority_count == 0
        &&& self.header.additional_count == 0
    }

    /// The message with its header counts set from what it holds. Meant for
    /// messages with at most 65535 questions and answers.
    pub open spec fn with_counts(self) -> MessageView {
        MessageView {
            header: Header {
                id: self.header.id,
                flags: self.header.flags,
                question_count: self.questions.len() as u16,
                answer_count: self.answers.len() as u16,
                authority_count: 0,
                additional_count: 0,
            },
            questions: self.questions,
            answers: self.answers,
        }
    }
}

impl Question {
    /// A copy of the question.
    pub fn duplicate(&self) -> (copy: Question)
        ensures
            copy@ == self@,
    {
        Question { name: self.name.duplicate(), qtype: self.qtype, qclass: self.qclass }
    }
}

impl Record {
    /// A copy of the record.
    pub fn duplicate(&self) -> (copy: Record)
        ensures
            copy@ == self@,
    {
        Record {
            name: self.name.duplicate(),
            rtype: self.rtype,
            class: self.class,
            ttl: self.ttl,
            rdata: vstd::slice::slice_to_vec(self.rdata.as_slice()),
        }
    }
}

} // verus!
