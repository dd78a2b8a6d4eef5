use mindns::message::Question;
use mindns::message::Record;
use mindns::name::Name;
use mindns::rules::classify;
use mindns::rules::text_matches;
use mindns::rules::to_lower;
use mindns::rules::Action;
use mindns::rules::RecordTemplate;
use mindns::rules::Rule;
use mindns::rules::RuleAction;

fn dns_name(text: &str) -> Name {
    Name::from_labels(text.split('.').map(|l| l.as_bytes().to_vec()).collect()).expect("valid")
}

fn ask(text: &str, qtype: u16) -> Question {
    Question { name: dns_name(text), qtype, qclass: 1 }
}

fn template() -> RecordTemplate {
    RecordTemplate { rtype: 1, class: 1, ttl: 300, rdata: vec![10, 0, 0, 1] }
}

fn rule(pattern: &str, qtype: u16, action: RuleAction) -> Rule {
    Rule { pattern: pattern.as_bytes().to_vec(), qtype, action }
}

#[test]
fn first_matching_rule_wins() {
    let rules = vec![
        rule("*.x.com", 1, RuleAction::Refuse),
        rule("a.x.com", 1, RuleAction::Answer(template())),
    ];
    assert_eq!(classify(&rules, true, &ask("a.x.com", 1)), Action::Refuse);
    assert_eq!(classify(&rules, false, &ask("a.x.com", 1)), Action::Refuse);
}

#[test]
fn order_of_rules_matters() {
    let rules = vec![
        rule("a.x.com", 1, RuleAction::Answer(template())),
        rule("*.x.com", 1, RuleAction::Refuse),
    ];
    let expected = Record {
        name: dns_name("a.x.com"),
        rtype: 1,
        class: 1,
        ttl: 300,
        rdata: vec![10, 0, 0, 1],
    };
    assert_eq!(classify(&rules, true, &ask("a.x.com", 1)), Action::Answer(expected));
    assert_eq!(classify(&rules, true, &ask("b.x.com", 1)), Action::Refuse);
}

#[test]
fn unmatched_query_follows_the_mirror_switch() {
    let rules = vec![rule("a.x.com", 1, RuleAction::Answer(template()))];
    assert_eq!(classify(&rules, false, &ask("other.org", 1)), Action::Refuse);
    assert_eq!(classify(&rules, true, &ask("other.org", 1)), Action::Forward);
    assert_eq!(classify(&[], false, &ask("a.x.com", 1)), Action::Refuse);
    assert_eq!(classify(&[], true, &ask("a.x.com", 1)), Action::Forward);
}

#[test]
fn rule_needs_the_same_query_type() {
    let rules = vec![rule("a.x.com", 1, RuleAction::Refuse)];
    assert_eq!(classify(&rules, true, &ask("a.x.com", 28)), Action::Forward);
    assert!(rules[0].accepts(&ask("a.x.com", 1)));
    assert!(!rules[0].accepts(&ask("a.x.com", 28)));
}

#[test]
fn explicit_forward_rule_forwards_without_mirroring() {
    let rules = vec![rule("*.lan", 1, RuleAction::Forward)];
    assert_eq!(classify(&rules, false, &ask("printer.lan", 1)), Action::Forward);
}

#[test]
fn answer_carries_the_name_that_was_asked() {
    let rules = vec![rule("*.X.com", 1, RuleAction::Answer(template()))];
    match classify(&rules, false, &ask("Deep.Er.x.COM", 1)) {
        Action::Answer(record) => {
            assert_eq!(record.name.to_dotted(), b"Deep.Er.x.COM".to_vec());
            assert_eq!(record.ttl, 300);
            assert_eq!(record.rdata, vec![10, 0, 0, 1]);
        },
        other => panic!("unexpected {:?}", other),
    }
    assert_eq!(rules[0].apply(&ask("q.x.com", 1)), Action::Answer(Record {
        name: dns_name("q.x.com"),
        rtype: 1,
        class: 1,
        ttl: 300,
        rdata: vec![10, 0, 0, 1],
    }));
}

#[test]
fn wildcard_matches_subdomains_only() {
    assert!(text_matches(b"*.example.com", b"a.example.com"));
    assert!(text_matches(b"*.example.com", b"a.b.example.com"));
    assert!(!text_matches(b"*.example.com", b"example.com"));
    assert!(!text_matches(b"*.example.com", b"badexample.com"));
    assert!(!text_matches(b"*.example.com", b"a.example.org"));
    assert!(!text_matches(b"*.example.com", b""));
}

#[test]
fn exact_pattern_matches_the_whole_name() {
    assert!(text_matches(b"example.com", b"example.com"));
    assert!(!text_matches(b"example.com", b"a.example.com"));
    assert!(!text_matches(b"example.com", b"example.co"));
    assert!(!text_matches(b"example.com", b"example.comm"));
    assert!(text_matches(b"", b""));
    assert!(!text_matches(b"*", b"a"));
    assert!(text_matches(b"*", b"*"));
}

#[test]
fn matching_ignores_letter_case() {
    assert!(text_matches(b"Example.COM", b"eXAMPLE.com"));
    assert!(text_matches(b"*.Example.COM", b"WWW.eXAMPLE.com"));
    assert!(!text_matches(b"ex-mple.com", b"ex_mple.com"));
    assert_eq!(to_lower(b'A'), b'a');
    assert_eq!(to_lower(b'Z'), b'z');
    assert_eq!(to_lower(b'a'), b'a');
    assert_eq!(to_lower(b'@'), b'@');
    assert_eq!(to_lower(b'['), b'[');
    assert_eq!(to_lower(0xc4), 0xc4);
}
