//! The rule engine: an ordered list of rules, each a matcher on the name and
//! type of a question with an action, consulted first to last.

use vstd::prelude::*;
use vstd::slice::slice_to_vec;
use crate::message::Question;
use crate::message::QuestionView;
use crate::message::Record;
use crate::message::RecordView;
use crate::name::dotted;

verus! {

/// An answer record still lacking the name it will be given.
#[derive(Debug, PartialEq, Eq)]
pub struct RecordTemplate {
    pub rtype: u16,
    pub class: u16,
    pub ttl: u32,
    pub rdata: Vec<u8>,
}

/// Model of a [`RecordTemplate`].
pub ghost struct RecordTemplateView {
    pub rtype: u16,
    pub class: u16,
    pub ttl: u32,
    pub rdata: Seq<u8>,
}

/// What a rule asks for once it matches.
#[derive(Debug, PartialEq, Eq)]
pub enum RuleAction {
    Answer(RecordTemplate),
    Refuse,
    Forward,
}

/// Model of a [`RuleAction`].
pub ghost enum RuleActionView {
    Answer(RecordTemplateView),
    Refuse,
    Forward,
}

/// One rule: a name pattern as text, a query type, and an action.
///
/// The pattern is either a name (`example.com`) or a wildcard (`*.example.com`).
#[derive(Debug, PartialEq, Eq)]
pub struct Rule {
    pub pattern: Vec<u8>,
    pub qtype: u16,
    pub action: RuleAction,
}

/// Model of a [`Rule`].
pub ghost struct RuleView {
    pub pattern: Seq<u8>,
    pub qtype: u16,
    pub action: RuleActionView,
}

/// What is to be done with a question.
#[derive(Debug, PartialEq, Eq)]
pub enum Action {
    /// Reply with this record.
    Answer(Record),
    /// Reply with a refusal.
    Refuse,
    /// Pass the query to the upstream mirror.
    Forward,
}

/// Model of an [`Action`].
pub ghost enum ActionView {
    Answer(RecordView),
    Refuse,
    Forward,
}

impl View for RecordTemplate {
    type V = RecordTemplateView;

    open spec fn view(&self) -> RecordTemplateView {
        RecordTemplateView {
            rtype: self.rtype,
            class: self.class,
            ttl: self.ttl,
            rdata: self.rdata@,
        }
    }
}

impl View for RuleAction {
    type V = RuleActionView;

    open spec fn view(&self) -> RuleActionView {
        match self {
            RuleAction::Answer(t) => RuleActionView::Answer(t@),
            RuleAction::Refuse => RuleActionView::Refuse,
            RuleAction::Forward => RuleActionView::Forward,
        }
    }
}

impl View for Rule {
    type V = RuleView;

    open spec fn view(&self) -> RuleView {
        RuleView { pattern: self.pattern@, qtype: self.qtype, action: self.action@ }
    }
}

impl View for Action {
    type V = ActionView;

    open spec fn view(&self) -> ActionView {
        match self {
            Action::Answer(r) => ActionView::Answer(r@),
            Action::Refuse => ActionView::Refuse,
            Action::Forward => ActionView::Forward,
        }
    }
}

/// The models of a run of rules.
pub open spec fn rules_of(rules: Seq<Rule>) -> Seq<RuleView> {
    rules.map_values(|r: Rule| r@)
}

/// An ASCII capital turned into its small letter; any other byte unchanged.
pub open spec fn lower(b: u8) -> u8 {
    if 65 <= b <= 90 {
        (b + 32) as u8
    } else {
        b
    }
}

/// `text` with every ASCII capital folded to its small letter.
pub open spec fn folded(text: Seq<u8>) -> Seq<u8> {
    text.map_values(|b: u8| lower(b))
}

/// A pattern is a wildcard when it opens with `*.`.
pub open spec fn is_wildcard(pattern: Seq<u8>) -> bool {
    pattern.len() >= 2 && pattern[0] == 42 && pattern[1] == 46
}

/// `text` ends with `suffix`.
pub open spec fn ends_with(text: Seq<u8>, suffix: Seq<u8>) -> bool {
    suffix.len() <= text.len() && text.subrange(text.len() - suffix.len(), text.len() as int) == suffix
}

/// Whether `pattern` accepts the name whose text form is `name`, without
/// regard to the case of ASCII letters.
///
/// A wildcard `*.base` accepts every name that ends with `.base`, hence not
/// `base` itself. Any other pattern accepts the name equal to it.
pub open spec fn pattern_matches(pattern: Seq<u8>, name: Seq<u8>) -> bool {
    if is_wildcard(pattern) {
        ends_with(folded(name), folded(pattern.subrange(1, pattern.len() as int)))
    } else {
        folded(name) == folded(pattern)
    }
}

/// Whether `rule` accepts `question`: the types are equal and the pattern
/// matches the name.
pub open spec fn rule_accepts(rule: RuleView, question: QuestionView) -> bool {
    rule.qtype == question.qtype && pattern_matches(rule.pattern, dotted(question.name))
}

/// The action a matching rule yields for `question`: its template becomes a
/// record under the name that was asked for.
pub open spec fn applied(action: RuleActionView, question: QuestionView) -> ActionView {
    match action {
        RuleActionView::Answer(t) => ActionView::Answer(
            RecordView {
                name: question.name,
                rtype: t.rtype,
                class: t.class,
                ttl: t.ttl,
                rdata: t.rdata,
            },
        ),
        RuleActionView::Refuse => ActionView::Refuse,
        RuleActionView::Forward => ActionView::Forward,
    }
}

/// What is done when no rule matches.
pub open spec fn unmatched(mirroring: bool) -> ActionView {
    if mirroring {
        ActionView::Forward
    } else {
        ActionView::Refuse
    }
}

/// The action for `question` under `rules`: that of the first rule, in the
/// order given, that accepts the question; with none, the query goes upstream
/// if mirroring is on and is refused if not.
pub open spec fn outcome(rules: Seq<RuleView>, mirroring: bool, question: QuestionView) -> ActionView
    decreases rules.len(),
{
    if rules.len() == 0 {
        unmatched(mirroring)
    } else if rule_accepts(rules[0], question) {
        applied(rules[0].action, question)
    } else {
        outcome(rules.drop_first(), mirroring, question)
    }
}

/// Folds one byte.
pub fn to_lower(b: u8) -> (l: u8)
    ensures
        l == lower(b),
{
    if 65 <= b && b <= 90 {
        b + 32
    } else {
        b
    }
}

/// Whether `pattern` accepts the name with text form `name`.
pub fn text_matches(pattern: &[u8], name: &[u8]) -> (accepted: bool)
    ensures
        accepted == pattern_matches(pattern@, name@),
{
    let pl = pattern.len();
    let nl = name.len();
    if pl >= 2 && pattern[0] == 42u8 && pattern[1] == 46u8 {
        let sl = pl - 1;
        if sl > nl {
            return false;
        }
        let ghost suffix = folded(pattern@.subrange(1, pl as int));
        let ghost tail = folded(name@).subrange(nl - sl, nl as int);
        let mut k: usize = 0;
        while k < sl
            invariant
                k <= sl,
                is_wildcard(pattern@),
                sl == pl - 1,
                sl <= nl,
                pl == pattern.len(),
                nl == name.len(),
                suffix == folded(pattern@.subrange(1, pl as int)),
                tail == folded(name@).subrange(nl - sl, nl as int),
                forall|j: int| 0 <= j < k ==> tail[j] == suffix[j],
            decreases sl - k,
        {
            if to_lower(name[nl - sl + k]) != to_lower(pattern[1 + k]) {
                assert(tail[k as int] != suffix[k as int]);
                return false;
            }
            k += 1;
        }
        assert(tail =~= suffix);
        true
    } else {
        if pl != nl {
            assert(folded(name@).len() != folded(pattern@).len());
            return false;
        }
        let mut k: usize = 0;
        while k < pl
            invariant
                k <= pl,
                !is_wildcard(pattern@),
                pl == nl,
                pl == pattern.len(),
                nl == name.len(),
                forall|j: int| 0 <= j < k ==> folded(name@)[j] == folded(pattern@)[j],
            decreases pl - k,
        {
            if to_lower(name[k]) != to_lower(pattern[k]) {
                assert(folded(name@)[k as int] != folded(pattern@)[k as int]);
                return false;
            }
            k += 1;
        }
        assert(folded(name@) =~= folded(pattern@));
        true
    }
}

impl Rule {
    /// Whether this rule accepts `question`.
    pub fn accepts(&self, question: &Question) -> (accepted: bool)
        ensures
            accepted == rule_accepts(self@, question@),
    {
        if self.qtype != question.qtype {
            return false;
        }
        let text = question.name.to_dotted();
        text_matches(self.pattern.as_slice(), text.as_slice())
    }

    /// The action this rule yields for `question`.
    pub fn apply(&self, question: &Question) -> (action: Action)
        ensures
            action@ == applied(self@.action, question@),
    {
        match &self.action {
            RuleAction::Answer(t) => Action::Answer(
                Record {
                    name: question.name.duplicate(),
                    rtype: t.rtype,
                    class: t.class,
                    ttl: t.ttl,
                    rdata: slice_to_vec(t.rdata.as_slice()),
                },
            ),
            RuleAction::Refuse => Action::Refuse,
            RuleAction::Forward => Action::Forward,
        }
    }
}

/// Decides what to do with `question`.
///
/// The rules are tried in the order given and the first that accepts the
/// question decides. With none, the answer is `Forward` if `mirroring` is on
/// and `Refuse` if not.
pub fn classify(rules: &[Rule], mirroring: bool, question: &Question) -> (action: Action)
    ensures
        action@ == outcome(rules_of(rules@), mirroring, question@),
{
    let n = rules.len();
    let ghost all = rules_of(rules@);
    let mut i: usize = 0;
    assert(all.skip(0) =~= all);
    while i < n
        invariant
            i <= n,
            n == rules.len(),
            all == rules_of(rules@),
            outcome(all, mirroring, question@) == outcome(all.skip(i as int), mirroring, question@),
        decreases n - i,
    {
        let rule = &rules[i];
        proof {
            let rest = all.skip(i as int);
            assert(rest[0] == rule@);
            assert(rest.drop_first() =~= all.skip(i as int + 1));
        }
        if rule.accepts(question) {
            return rule.apply(question);
        }
        i += 1;
    }
    assert(all.skip(n as int).len() == 0);
    if mirroring {
        Action::Forward
    } else {
        Action::Refuse
    }
}

/// First match wins: a rule that accepts the question, with no rule before
/// it that does, decides the outcome, whatever follows it.
pub proof fn lemma_first_match_wins(
    rules: Seq<RuleView>,
    mirroring: bool,
    question: QuestionView,
    index: int,
)
    requires
        0 <= index < rules.len(),
        rule_accepts(rules[index], question),
        forall|j: int| 0 <= j < index ==> !rule_accepts(#[trigger] rules[j], question),
    ensures
        outcome(rules, mirroring, question) == applied(rules[index].action, question),
    decreases index,
{
    if index > 0 {
        let rest = rules.drop_first();
        assert(!rule_accepts(rules[0], question));
        assert forall|j: int| 0 <= j < index - 1 implies !rule_accepts(
            #[trigger] rest[j],
            question,
        ) by {
            assert(rest[j] == rules[j + 1]);
        }
        assert(rest[index - 1] == rules[index]);
        lemma_first_match_wins(rest, mirroring, question, index - 1);
    }
}

/// With no rule accepting the question, the outcome is `Forward` when
/// mirroring is on and `Refuse` when it is off.
pub proof fn lemma_no_match(rules: Seq<RuleView>, mirroring: bool, question: QuestionView)
    requires
        forall|j: int| 0 <= j < rules.len() ==> !rule_accepts(#[trigger] rules[j], question),
    ensures
        mirroring ==> outcome(rules, mirroring, question) == ActionView::Forward,
        !mirroring ==> outcome(rules, mirroring, question) == ActionView::Refuse,
    decreases rules.len(),
{
    if rules.len() > 0 {
        let rest = rules.drop_first();
        assert(!rule_accepts(rules[0], question));
        assert forall|j: int| 0 <= j < rest.len() implies !rule_accepts(
            #[trigger] rest[j],
            question,
        ) by {
            assert(rest[j] == rules[j + 1]);
        }
        lemma_no_match(rest, mirroring, question);
    }
}

/// Order matters: of two rules that both accept the question, the one that
/// stands first decides.
pub proof fn lemma_order_decides(
    first: RuleView,
    second: RuleView,
    mirroring: bool,
    question: QuestionView,
)
    requires
        rule_accepts(first, question),
        rule_accepts(second, question),
    ensures
        outcome(seq![first, second], mirroring, question) == applied(first.action, question),
        outcome(seq![second, first], mirroring, question) == applied(second.action, question),
{
}

/// A wildcard pattern never accepts its own base name: `*.base` does not
/// match `base`.
pub proof fn lemma_wildcard_rejects_base(pattern: Seq<u8>)
    requires
        is_wildcard(pattern),
    ensures
        !pattern_matches(pattern, pattern.subrange(2, pattern.len() as int)),
{
}

} // verus!
