use mindns::session::has_expired;
use mindns::session::PeerAddr;
use mindns::session::PeerState;
use mindns::session::DEFAULT_IDLE_TIMEOUT_SECS;
use mindns::session::Routing;
use mindns::session::SessionInfo;
use mindns::session::SessionTable;

fn peer(n: u16) -> PeerAddr {
    PeerAddr { ip: 0xffff_c000_0200 + n as u128, port: 5000 + n }
}

fn info(opened_at: u64, last_active: u64, datagrams: u64) -> SessionInfo {
    SessionInfo { opened_at, last_active, datagrams }
}

#[test]
fn first_datagram_opens_a_session() {
    let mut table = SessionTable::new(20);
    assert_eq!(table.timeout(), 20);
    assert_eq!(table.session(peer(1)), None);
    assert_eq!(table.route(peer(1), 100), Routing::Opened);
    assert_eq!(table.session(peer(1)), Some(info(100, 100, 1)));
    assert_eq!(table.session(peer(2)), None);
}

#[test]
fn later_datagram_refreshes_the_session() {
    let mut table = SessionTable::new(20);
    table.route(peer(1), 100);
    assert_eq!(table.route(peer(1), 110), Routing::Resumed);
    assert_eq!(table.session(peer(1)), Some(info(100, 110, 2)));
    assert_eq!(table.route(peer(1), 129), Routing::Resumed);
    assert_eq!(table.session(peer(1)), Some(info(100, 129, 3)));
}

#[test]
fn silent_peer_is_evicted_at_the_timeout() {
    let mut table = SessionTable::new(20);
    table.route(peer(1), 100);
    assert!(table.is_live(peer(1), 119));
    assert!(table.sweep(119).is_empty());
    assert_eq!(table.session(peer(1)), Some(info(100, 100, 1)));
    assert!(!table.is_live(peer(1), 120));
    assert_eq!(table.sweep(120), vec![peer(1)]);
    assert_eq!(table.session(peer(1)), None);
    assert!(table.sweep(500).is_empty());
}

#[test]
fn datagram_after_eviction_starts_afresh() {
    let mut table = SessionTable::new(20);
    table.route(peer(1), 100);
    table.route(peer(1), 105);
    table.sweep(125);
    assert_eq!(table.route(peer(1), 126), Routing::Opened);
    assert_eq!(table.session(peer(1)), Some(info(126, 126, 1)));
}

#[test]
fn stale_session_is_not_resumed_without_a_sweep() {
    let mut table = SessionTable::new(20);
    table.route(peer(1), 100);
    table.route(peer(1), 101);
    assert_eq!(table.route(peer(1), 121), Routing::Reopened);
    assert_eq!(table.session(peer(1)), Some(info(121, 121, 1)));
}

#[test]
fn eviction_leaves_other_peers_alone() {
    let mut table = SessionTable::new(20);
    table.route(peer(1), 100);
    table.route(peer(2), 105);
    table.route(peer(3), 100);
    table.route(peer(2), 115);
    let mut gone = table.sweep(121);
    gone.sort_by_key(|p| p.port);
    assert_eq!(gone, vec![peer(1), peer(3)]);
    assert_eq!(table.session(peer(2)), Some(info(105, 115, 2)));
    assert_eq!(table.session(peer(1)), None);
    assert_eq!(table.session(peer(3)), None);
}

#[test]
fn interleaved_peers_keep_separate_sessions() {
    let mut table = SessionTable::new(20);
    assert_eq!(table.route(peer(1), 100), Routing::Opened);
    assert_eq!(table.route(peer(2), 101), Routing::Opened);
    assert_eq!(table.route(peer(1), 102), Routing::Resumed);
    assert_eq!(table.route(peer(2), 103), Routing::Resumed);
    assert_eq!(table.session(peer(1)), Some(info(100, 102, 2)));
    assert_eq!(table.session(peer(2)), Some(info(101, 103, 2)));
}

#[test]
fn same_address_other_port_is_another_peer() {
    let mut table = SessionTable::new(20);
    let a = PeerAddr { ip: 1, port: 53 };
    let b = PeerAddr { ip: 1, port: 54 };
    table.route(a, 10);
    assert_eq!(table.route(b, 11), Routing::Opened);
    assert_eq!(table.session(a), Some(info(10, 10, 1)));
}

#[test]
fn expiry_counts_from_the_last_datagram() {
    assert!(!has_expired(info(0, 100, 1), 20, 119));
    assert!(has_expired(info(0, 100, 1), 20, 120));
    assert!(has_expired(info(0, 100, 1), 20, u64::MAX));
    // a clock that stepped back makes nothing expire
    assert!(!has_expired(info(0, 100, 1), 20, 50));
    // with no timeout at all every session has run out at once
    assert!(has_expired(info(0, 100, 1), 0, 100));
}

#[test]
fn datagram_count_stops_at_its_maximum() {
    let mut table = SessionTable::new(u64::MAX);
    table.route(peer(1), 0);
    for t in 1..5 {
        table.route(peer(1), t);
    }
    assert_eq!(table.session(peer(1)), Some(info(0, 4, 5)));
}

#[test]
fn peer_goes_from_active_to_idle_to_evicted() {
    let mut table = SessionTable::new(DEFAULT_IDLE_TIMEOUT_SECS);
    assert_eq!(DEFAULT_IDLE_TIMEOUT_SECS, 20);
    assert_eq!(table.state(peer(1), 100), PeerState::Evicted);
    table.route(peer(1), 100);
    assert_eq!(table.state(peer(1), 100), PeerState::Active);
    assert_eq!(table.state(peer(1), 101), PeerState::Idle);
    assert_eq!(table.state(peer(1), 119), PeerState::Idle);
    assert_eq!(table.state(peer(1), 120), PeerState::Evicted);
    assert_eq!(table.state(peer(2), 101), PeerState::Evicted);
    table.route(peer(1), 130);
    assert_eq!(table.state(peer(1), 130), PeerState::Active);
    assert_eq!(table.session(peer(1)), Some(info(130, 130, 1)));
}
