use mindns::codec::decode;
use mindns::config::Config;
use mindns::config::MirrorSettings;
use mindns::config::RulesSettings;
use mindns::config::ServerSettings;
use mindns::handler::handle_request;
use mindns::handler::relay;
use mindns::handler::RawDatagram;
use mindns::handler::Outbound;
use mindns::handler::Step;
use mindns::message::ANSWER_FLAGS;
use mindns::message::REFUSAL_FLAGS;
use mindns::mirror::ResolveError;
use mindns::rules::RecordTemplate;
use mindns::rules::Rule;
use mindns::rules::RuleAction;
use mindns::session::PeerAddr;
use mindns::wire::CodecError;

fn config(mirroring: Option<bool>) -> Config {
    Config {
        server: ServerSettings { port: 5353, bind: String::from("127.0.0.1") },
        mirror: mirroring.map(|enabled| MirrorSettings {
            enabled,
            primary: String::from("192.0.2.1:53"),
            secondary: None,
        }),
        rules: vec![RulesSettings { load_as: String::from("toml"), path: String::from("r.toml") }],
    }
}

fn rule(pattern: &str, action: RuleAction) -> Rule {
    Rule { pattern: pattern.as_bytes().to_vec(), qtype: 1, action }
}

fn answer() -> RuleAction {
    RuleAction::Answer(RecordTemplate { rtype: 1, class: 1, ttl: 300, rdata: vec![10, 0, 0, 1] })
}

const QUERY: [u8; 25] = [
    0x12, 0x34, 0x01, 0x00, 0x00, 0x01, 0x00, 0x00, 0x00, 0x00, 0x00, 0x00, 0x01, b'a', 0x01, b'x',
    0x03, b'c', b'o', b'm', 0x00, 0x00, 0x01, 0x00, 0x01,
];

const ALICE: PeerAddr = PeerAddr { ip: 0xffff_c000_0207, port: 40000 };

const BOB: PeerAddr = PeerAddr { ip: 0xffff_c000_0208, port: 40000 };

fn from(peer: PeerAddr, bytes: &[u8]) -> RawDatagram {
    RawDatagram { from: peer, bytes: bytes.to_vec() }
}

#[test]
fn matched_query_is_answered_with_the_record() {
    let rules = vec![rule("a.x.com", answer())];
    let steps = handle_request(&config(None), &rules, &from(ALICE, &QUERY)).expect("handled");
    let mut expected = vec![0x12, 0x34, 0x80, 0x00, 0x00, 0x01, 0x00, 0x01, 0, 0, 0, 0];
    expected.extend_from_slice(&QUERY[12..]);
    expected.extend_from_slice(&QUERY[12..21]);
    expected.extend_from_slice(&[0x00, 0x01, 0x00, 0x01, 0, 0, 0x01, 0x2c, 0x00, 0x04, 10, 0, 0, 1]);
    assert_eq!(steps, vec![Step::Reply(Outbound { to: ALICE, bytes: expected })]);
}

#[test]
fn answer_keeps_the_transaction_id_and_the_question() {
    let rules = vec![rule("*.x.com", answer())];
    let steps = handle_request(&config(None), &rules, &from(ALICE, &QUERY)).expect("handled");
    assert_eq!(steps.len(), 1);
    match &steps[0] {
        Step::Reply(out) => {
            assert_eq!(out.to, ALICE);
            let reply = decode(&out.bytes).expect("decodes");
            let query = decode(&QUERY).expect("decodes");
            assert_eq!(reply.header.id, 0x1234);
            assert_eq!(reply.header.flags, ANSWER_FLAGS);
            assert_eq!(reply.questions, query.questions);
            assert_eq!(reply.answers.len(), 1);
            assert_eq!(reply.answers[0].name, query.questions[0].name);
            assert_eq!(reply.answers[0].ttl, 300);
            assert_eq!(reply.answers[0].rdata, vec![10, 0, 0, 1]);
        },
        other => panic!("unexpected {:?}", other),
    }
}

#[test]
fn refused_query_gets_a_reply_without_answers() {
    let rules = vec![rule("*.x.com", RuleAction::Refuse), rule("a.x.com", answer())];
    let steps = handle_request(&config(Some(true)), &rules, &from(ALICE, &QUERY)).expect("handled");
    let mut expected = vec![0x12, 0x34, 0x80, 0x05, 0x00, 0x01, 0x00, 0x00, 0, 0, 0, 0];
    expected.extend_from_slice(&QUERY[12..]);
    assert_eq!(steps, vec![Step::Reply(Outbound { to: ALICE, bytes: expected.clone() })]);
    let reply = decode(&expected).expect("decodes");
    assert_eq!(reply.header.flags, REFUSAL_FLAGS);
    assert!(reply.answers.is_empty());
}

#[test]
fn unmatched_query_is_refused_without_a_mirror() {
    for cfg in [config(None), config(Some(false))] {
        let steps = handle_request(&cfg, &[], &from(ALICE, &QUERY)).expect("handled");
        assert_eq!(steps.len(), 1);
        match &steps[0] {
            Step::Reply(out) => {
                assert_eq!(&out.bytes[..4], &[0x12, 0x34, 0x80, 0x05]);
                assert_eq!(out.to, ALICE);
            },
            other => panic!("unexpected {:?}", other),
        }
    }
}

#[test]
fn unmatched_query_is_handed_to_the_mirror() {
    let steps = handle_request(&config(Some(true)), &[], &from(ALICE, &QUERY)).expect("handled");
    assert_eq!(steps, vec![Step::Forward { reply_to: ALICE, query: QUERY.to_vec() }]);
}

#[test]
fn undecodable_datagram_is_dropped() {
    let rules = vec![rule("a.x.com", answer())];
    let cfg = config(Some(true));
    assert_eq!(handle_request(&cfg, &rules, &from(ALICE, &QUERY[..20])), Err(CodecError::Truncated));
    assert_eq!(handle_request(&cfg, &rules, &from(ALICE, &[])), Err(CodecError::Truncated));
    assert_eq!(
        handle_request(&cfg, &rules, &from(ALICE, &[0u8; 600])),
        Err(CodecError::BufferOverflow)
    );
    let mut looping = QUERY[..12].to_vec();
    looping.extend_from_slice(&[0xc0, 0x0c, 0, 1, 0, 1]);
    assert_eq!(
        handle_request(&cfg, &rules, &from(ALICE, &looping)),
        Err(CodecError::MalformedCompression)
    );
}

#[test]
fn reply_that_does_not_fit_drops_the_datagram() {
    let big = RuleAction::Answer(RecordTemplate { rtype: 16, class: 1, ttl: 0, rdata: vec![0; 480] });
    let rules = vec![rule("a.x.com", big)];
    assert_eq!(
        handle_request(&config(None), &rules, &from(ALICE, &QUERY)),
        Err(CodecError::BufferOverflow)
    );
}

#[test]
fn datagram_without_questions_yields_nothing() {
    let steps =
        handle_request(&config(Some(true)), &[], &from(ALICE, &QUERY[..12].iter().map(|b| if *b == 1 { 0 } else { *b }).collect::<Vec<u8>>()))
            .expect("handled");
    assert!(steps.is_empty());
}

#[test]
fn each_question_gets_its_own_step() {
    let mut bytes = QUERY.to_vec();
    bytes[5] = 3;
    bytes.extend_from_slice(&[0x01, b'b', 0xc0, 0x0e, 0x00, 0x01, 0x00, 0x01]);
    bytes.extend_from_slice(&[0x03, b'o', b'r', b'g', 0x00, 0x00, 0x01, 0x00, 0x01]);
    let rules = vec![rule("a.x.com", answer()), rule("*.x.com", RuleAction::Refuse)];
    let steps = handle_request(&config(Some(true)), &rules, &from(BOB, &bytes)).expect("handled");
    assert_eq!(steps.len(), 3);
    match (&steps[0], &steps[1], &steps[2]) {
        (Step::Reply(first), Step::Reply(second), Step::Forward { reply_to, query }) => {
            assert_eq!(first.to, BOB);
            assert_eq!(&first.bytes[..8], &[0x12, 0x34, 0x80, 0x00, 0, 1, 0, 1]);
            assert_eq!(second.to, BOB);
            assert_eq!(&second.bytes[..8], &[0x12, 0x34, 0x80, 0x05, 0, 1, 0, 0]);
            assert_eq!(decode(&second.bytes).expect("decodes").questions[0].name.to_dotted(), b"b.x.com".to_vec());
            assert_eq!(*reply_to, BOB);
            assert_eq!(query, &bytes);
        },
        other => panic!("unexpected {:?}", other),
    }
}

#[test]
fn interleaved_peers_are_answered_at_their_own_address() {
    let rules = vec![rule("a.x.com", answer())];
    let cfg = config(Some(true));
    let mut other = QUERY.to_vec();
    other[0] = 0xaa;
    other[13] = b'z';
    let arrivals = vec![from(ALICE, &QUERY), from(BOB, &other), from(BOB, &QUERY), from(ALICE, &other)];
    for datagram in &arrivals {
        let steps = handle_request(&cfg, &rules, datagram).expect("handled");
        assert_eq!(steps.len(), 1);
        match &steps[0] {
            Step::Reply(out) => {
                assert_eq!(out.to, datagram.from);
                assert_eq!(&out.bytes[..2], &datagram.bytes[..2]);
            },
            Step::Forward { reply_to, query } => {
                assert_eq!(*reply_to, datagram.from);
                assert_eq!(query, &datagram.bytes);
            },
        }
    }
}

#[test]
fn relay_passes_the_upstream_bytes_on() {
    assert_eq!(
        relay(ALICE, Ok(vec![0x12, 0x34, 9, 9])),
        Some(Outbound { to: ALICE, bytes: vec![0x12, 0x34, 9, 9] })
    );
    assert_eq!(relay(ALICE, Err(ResolveError::UpstreamUnreachable)), None);
}

#[test]
fn mirroring_needs_a_section_that_is_switched_on() {
    assert!(!config(None).mirror_enabled());
    assert!(!config(Some(false)).mirror_enabled());
    assert!(config(Some(true)).mirror_enabled());
}
