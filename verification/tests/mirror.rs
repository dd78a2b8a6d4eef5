use mindns::config::MirrorSettings;
use mindns::mirror::deadline;
use mindns::mirror::read_transaction_id;
use mindns::mirror::Phase;
use mindns::mirror::Resolution;
use mindns::mirror::ResolveAction;
use mindns::mirror::ResolveError;
use mindns::mirror::ResolveEvent;
use mindns::mirror::Upstream;
use mindns::mirror::ATTEMPT_TIMEOUT_MILLIS;

fn mirror(enabled: bool, secondary: bool) -> Option<MirrorSettings> {
    Some(MirrorSettings {
        enabled,
        primary: String::from("192.0.2.1:53"),
        secondary: if secondary { Some(String::from("192.0.2.2:53")) } else { None },
    })
}

const QUERY: [u8; 4] = [0xbe, 0xef, 0x01, 0x00];

#[test]
fn resolution_starts_at_the_primary() {
    let (state, action) = Resolution::start(&QUERY, &mirror(true, true), 500, 1000);
    assert_eq!(action, ResolveAction::Send { to: Upstream::Primary, deadline: 1500 });
    assert_eq!(state, Resolution {
        phase: Phase::Waiting(Upstream::Primary),
        query_id: Some(0xbeef),
        has_secondary: true,
        timeout: 500,
        deadline: 1500,
    });
    assert!(!state.is_finished());
}

#[test]
fn resolution_fails_without_a_mirror() {
    let (state, action) = Resolution::start(&QUERY, &mirror(false, true), 500, 1000);
    assert_eq!(action, ResolveAction::Fail(ResolveError::UpstreamUnreachable));
    assert!(state.is_finished());
    let (state, action) = Resolution::start(&QUERY, &None, 500, 1000);
    assert_eq!(action, ResolveAction::Fail(ResolveError::UpstreamUnreachable));
    assert!(state.is_finished());
    assert_eq!(state.step(ResolveEvent::TimedOut, 2000).1, ResolveAction::Nothing);
}

#[test]
fn matching_reply_is_delivered_untouched() {
    let (state, _) = Resolution::start(&QUERY, &mirror(true, false), 500, 1000);
    let reply = vec![0xbe, 0xef, 0x81, 0x80, 1, 2, 3];
    let (state, action) = state.step(ResolveEvent::Reply(reply.clone()), 1100);
    assert_eq!(action, ResolveAction::Deliver(reply));
    assert!(state.is_finished());
    let (state, action) = state.step(ResolveEvent::Reply(vec![0xbe, 0xef]), 1200);
    assert_eq!(action, ResolveAction::Nothing);
    assert!(state.is_finished());
}

#[test]
fn reply_with_another_id_is_ignored() {
    let (state, _) = Resolution::start(&QUERY, &mirror(true, true), 500, 1000);
    let (after, action) = state.step(ResolveEvent::Reply(vec![0xbe, 0xee, 0x81, 0x80]), 1400);
    assert_eq!(action, ResolveAction::Wait { deadline: 1500 });
    assert_eq!(after, state);
    let (after, action) = after.step(ResolveEvent::Reply(vec![0xbe]), 1450);
    assert_eq!(action, ResolveAction::Wait { deadline: 1500 });
    assert_eq!(after, state);
    let (after, action) = after.step(ResolveEvent::Reply(vec![]), 1460);
    assert_eq!(action, ResolveAction::Wait { deadline: 1500 });
    assert_eq!(after, state);
    // the right one still gets through afterwards
    let (after, action) = after.step(ResolveEvent::Reply(vec![0xbe, 0xef]), 1470);
    assert_eq!(action, ResolveAction::Deliver(vec![0xbe, 0xef]));
    assert!(after.is_finished());
}

#[test]
fn timeout_fails_over_to_the_secondary_once() {
    let (state, _) = Resolution::start(&QUERY, &mirror(true, true), 500, 1000);
    let (state, action) = state.step(ResolveEvent::TimedOut, 1500);
    assert_eq!(action, ResolveAction::Send { to: Upstream::Secondary, deadline: 2000 });
    assert_eq!(state.phase, Phase::Waiting(Upstream::Secondary));
    assert_eq!(state.deadline, 2000);
    let (state, action) = state.step(ResolveEvent::TimedOut, 2000);
    assert_eq!(action, ResolveAction::Fail(ResolveError::UpstreamUnreachable));
    assert!(state.is_finished());
    let (state, action) = state.step(ResolveEvent::TimedOut, 2500);
    assert_eq!(action, ResolveAction::Nothing);
    assert!(state.is_finished());
}

#[test]
fn transport_failure_fails_over_like_a_timeout() {
    let (state, _) = Resolution::start(&QUERY, &mirror(true, true), 500, 1000);
    let (state, action) = state.step(ResolveEvent::TransportFailed, 1001);
    assert_eq!(action, ResolveAction::Send { to: Upstream::Secondary, deadline: 1501 });
    let (state, action) = state.step(ResolveEvent::Reply(vec![0xbe, 0xef, 9]), 1100);
    assert_eq!(action, ResolveAction::Deliver(vec![0xbe, 0xef, 9]));
    assert!(state.is_finished());
}

#[test]
fn no_secondary_means_unreachable_after_the_primary() {
    let (state, _) = Resolution::start(&QUERY, &mirror(true, false), 500, 1000);
    let (state, action) = state.step(ResolveEvent::TimedOut, 1500);
    assert_eq!(action, ResolveAction::Fail(ResolveError::UpstreamUnreachable));
    assert!(state.is_finished());
    let (state, _) = Resolution::start(&QUERY, &mirror(true, false), 500, 1000);
    let (state, action) = state.step(ResolveEvent::TransportFailed, 1000);
    assert_eq!(action, ResolveAction::Fail(ResolveError::UpstreamUnreachable));
    assert!(state.is_finished());
}

#[test]
fn query_without_an_id_is_never_answered() {
    let (state, action) = Resolution::start(&[0xbe], &mirror(true, false), 500, 1000);
    assert_eq!(action, ResolveAction::Send { to: Upstream::Primary, deadline: 1500 });
    assert_eq!(state.query_id, None);
    let (state, action) = state.step(ResolveEvent::Reply(vec![0xbe]), 1100);
    assert_eq!(action, ResolveAction::Wait { deadline: 1500 });
    let (_, action) = state.step(ResolveEvent::Reply(vec![0xbe, 0xef]), 1100);
    assert_eq!(action, ResolveAction::Wait { deadline: 1500 });
}

#[test]
fn transaction_id_is_the_first_two_bytes() {
    assert_eq!(read_transaction_id(&[0x12, 0x34, 0x56]), Some(0x1234));
    assert_eq!(read_transaction_id(&[0x00, 0x01]), Some(1));
    assert_eq!(read_transaction_id(&[0x12]), None);
    assert_eq!(read_transaction_id(&[]), None);
}

#[test]
fn deadline_stops_at_the_last_instant() {
    assert_eq!(deadline(1000, 500), 1500);
    assert_eq!(deadline(0, 0), 0);
    assert_eq!(deadline(u64::MAX - 5, 5), u64::MAX);
    assert_eq!(deadline(u64::MAX - 5, 6), u64::MAX);
    assert_eq!(deadline(u64::MAX, u64::MAX), u64::MAX);
}

#[test]
fn attempt_timeout_is_shorter_than_the_idle_timeout() {
    assert_eq!(ATTEMPT_TIMEOUT_MILLIS, 2000);
    let (_, action) = Resolution::start(&QUERY, &mirror(true, false), ATTEMPT_TIMEOUT_MILLIS, 0);
    assert_eq!(action, ResolveAction::Send { to: Upstream::Primary, deadline: 2000 });
}
