//! Per-peer sessions: one entry per peer address, refreshed by each datagram
//! from that peer and removed once the peer has been silent for the idle
//! timeout.

use vstd::prelude::*;

verus! {

/// The idle timeout, in seconds, of a server that is given no other.
pub const DEFAULT_IDLE_TIMEOUT_SECS: u64 = 20;

/// The network address of a peer: an IP address as a 128-bit number (an IPv4
/// address in its IPv6-mapped form) and a UDP port.
#[derive(Clone, Copy, Debug, PartialEq, Eq, Hash, Structural)]
pub struct PeerAddr {
    pub ip: u128,
    pub port: u16,
}

/// What is kept about a peer.
#[derive(Clone, Copy, Debug, PartialEq, Eq, Structural)]
pub struct SessionInfo {
    /// When the session was created.
    pub opened_at: u64,
    /// When the last datagram of the peer arrived.
    pub last_active: u64,
    /// How many datagrams the session has seen.
    pub datagrams: u64,
}

/// What routing a datagram did to the table.
#[derive(Clone, Copy, Debug, PartialEq, Eq, Structural)]
pub enum Routing {
    /// The peer had no session; one was created.
    Opened,
    /// The peer's session was live; it was refreshed.
    Resumed,
    /// The peer's session had run out; it was discarded and a fresh one
    /// created.
    Reopened,
}

/// Where a peer stands at a given instant.
#[derive(Clone, Copy, Debug, PartialEq, Eq, Structural)]
pub enum PeerState {
    /// A datagram of the peer arrived at this very instant.
    Active,
    /// The peer has a session and has been silent for less than the timeout.
    Idle,
    /// The peer has no session, or one that has run out and will not be
    /// resumed.
    Evicted,
}

#[derive(Clone, Copy, Debug)]
struct Slot {
    peer: PeerAddr,
    info: SessionInfo,
}

/// The sessions of all peers. No peer has more than one.
#[derive(Debug)]
pub struct SessionTable {
    timeout: u64,
    slots: Vec<Slot>,
}

/// How long a session has been idle at `now`; zero if `now` lies before its
/// last activity.
pub open spec fn idle_for(info: SessionInfo, now: u64) -> int {
    if now >= info.last_active {
        now - info.last_active
    } else {
        0
    }
}

/// A session has run out once it has been idle for the timeout or longer.
pub open spec fn expired(info: SessionInfo, timeout: u64, now: u64) -> bool {
    idle_for(info, now) >= timeout
}

/// Where `peer` stands at `now`.
pub open spec fn state_at(
    table: Map<PeerAddr, SessionInfo>,
    timeout: u64,
    peer: PeerAddr,
    now: u64,
) -> PeerState {
    if !table.contains_key(peer) || expired(table[peer], timeout, now) {
        PeerState::Evicted
    } else if idle_for(table[peer], now) == 0 {
        PeerState::Active
    } else {
        PeerState::Idle
    }
}

/// A session created by a datagram that arrives at `now`.
pub open spec fn fresh(now: u64) -> SessionInfo {
    SessionInfo { opened_at: now, last_active: now, datagrams: 1 }
}

/// A live session after one more datagram at `now`.
pub open spec fn refreshed(info: SessionInfo, now: u64) -> SessionInfo {
    SessionInfo {
        opened_at: info.opened_at,
        last_active: now,
        datagrams: if info.datagrams == u64::MAX {
            u64::MAX
        } else {
            (info.datagrams + 1) as u64
        },
    }
}

/// What routing a datagram from `peer` at `now` reports.
pub open spec fn routing(
    table: Map<PeerAddr, SessionInfo>,
    timeout: u64,
    peer: PeerAddr,
    now: u64,
) -> Routing {
    if !table.contains_key(peer) {
        Routing::Opened
    } else if expired(table[peer], timeout, now) {
        Routing::Reopened
    } else {
        Routing::Resumed
    }
}

/// The session of `peer` after a datagram from it at `now`.
pub open spec fn routed(
    table: Map<PeerAddr, SessionInfo>,
    timeout: u64,
    peer: PeerAddr,
    now: u64,
) -> SessionInfo {
    if table.contains_key(peer) && !expired(table[peer], timeout, now) {
        refreshed(table[peer], now)
    } else {
        fresh(now)
    }
}

/// The table after a sweep at `now`: the sessions that have not run out, each
/// as it was.
pub open spec fn swept(table: Map<PeerAddr, SessionInfo>, timeout: u64, now: u64) -> Map<
    PeerAddr,
    SessionInfo,
> {
    Map::new(
        |p: PeerAddr| table.contains_key(p) && !expired(table[p], timeout, now),
        |p: PeerAddr| table[p],
    )
}

spec fn has_peer(slots: Seq<Slot>, peer: PeerAddr) -> bool {
    exists|i: int| 0 <= i < slots.len() && (#[trigger] slots[i]).peer == peer
}

spec fn slot_of(slots: Seq<Slot>, peer: PeerAddr) -> int {
    choose|i: int| 0 <= i < slots.len() && (#[trigger] slots[i]).peer == peer
}

spec fn distinct(slots: Seq<Slot>) -> bool {
    forall|i: int, j: int|
        0 <= i < j < slots.len() ==> (#[trigger] slots[i]).peer != (#[trigger] slots[j]).peer
}

spec fn table_of(slots: Seq<Slot>) -> Map<PeerAddr, SessionInfo> {
    Map::new(|p: PeerAddr| has_peer(slots, p), |p: PeerAddr| slots[slot_of(slots, p)].info)
}

/// `slot` is one of the first `upto` slots and has not run out.
spec fn stays(slots: Seq<Slot>, upto: int, timeout: u64, now: u64, slot: Slot) -> bool {
    exists|j: int|
        0 <= j < upto && #[trigger] slots[j] == slot && !expired(slots[j].info, timeout, now)
}

/// `peer` owns one of the first `upto` slots, and that slot has run out.
spec fn leaves(slots: Seq<Slot>, upto: int, timeout: u64, now: u64, peer: PeerAddr) -> bool {
    exists|j: int|
        0 <= j < upto && (#[trigger] slots[j]).peer == peer && expired(slots[j].info, timeout, now)
}

proof fn lemma_slot(slots: Seq<Slot>, i: int)
    requires
        distinct(slots),
        0 <= i < slots.len(),
    ensures
        has_peer(slots, slots[i].peer),
        slot_of(slots, slots[i].peer) == i,
        table_of(slots).contains_key(slots[i].peer),
        table_of(slots)[slots[i].peer] == slots[i].info,
{
    let j = slot_of(slots, slots[i].peer);
    assert(0 <= j < slots.len() && slots[j].peer == slots[i].peer);
    if j < i {
        assert(slots[j].peer != slots[i].peer);
    }
    if i < j {
        assert(slots[i].peer != slots[j].peer);
    }
}

proof fn lemma_absent(slots: Seq<Slot>, peer: PeerAddr)
    requires
        forall|i: int| 0 <= i < slots.len() ==> (#[trigger] slots[i]).peer != peer,
    ensures
        !has_peer(slots, peer),
        !table_of(slots).contains_key(peer),
{
}

proof fn lemma_pushed(slots: Seq<Slot>, slot: Slot)
    requires
        distinct(slots),
        !has_peer(slots, slot.peer),
    ensures
        distinct(slots.push(slot)),
        table_of(slots.push(slot)) == table_of(slots).insert(slot.peer, slot.info),
{
    let after = slots.push(slot);
    assert forall|i: int, j: int| 0 <= i < j < after.len() implies (#[trigger] after[i]).peer != (
    #[trigger] after[j]).peer by {
        if j < slots.len() {
            assert(slots[i].peer != slots[j].peer);
        } else {
            assert(after[i] == slots[i]);
        }
    }
    assert forall|p: PeerAddr| has_peer(after, p) <==> (has_peer(slots, p) || p == slot.peer) by {
        if has_peer(after, p) {
            let i = slot_of(after, p);
            if i < slots.len() {
                assert(slots[i].peer == p);
            }
        }
        if has_peer(slots, p) {
            let i = slot_of(slots, p);
            assert(after[i].peer == p);
        }
        if p == slot.peer {
            assert(after[slots.len() as int].peer == p);
        }
    }
    assert forall|p: PeerAddr| has_peer(after, p) implies #[trigger] table_of(after)[p]
        == table_of(slots).insert(slot.peer, slot.info)[p] by {
        if p == slot.peer {
            assert(after[slots.len() as int] == slot);
            lemma_slot(after, slots.len() as int);
        } else {
            let i = slot_of(slots, p);
            assert(after[i] == slots[i]);
            lemma_slot(after, i);
            lemma_slot(slots, i);
        }
    }
    assert(table_of(after) =~= table_of(slots).insert(slot.peer, slot.info));
}

proof fn lemma_replaced(slots: Seq<Slot>, at: int, slot: Slot)
    requires
        distinct(slots),
        0 <= at < slots.len(),
        slots[at].peer == slot.peer,
    ensures
        distinct(slots.update(at, slot)),
        table_of(slots.update(at, slot)) == table_of(slots).insert(slot.peer, slot.info),
{
    let after = slots.update(at, slot);
    assert forall|i: int, j: int| 0 <= i < j < after.len() implies (#[trigger] after[i]).peer != (
    #[trigger] after[j]).peer by {
        assert(slots[i].peer != slots[j].peer);
    }
    assert forall|p: PeerAddr| has_peer(after, p) <==> has_peer(slots, p) by {
        if has_peer(after, p) {
            let i = slot_of(after, p);
            assert(slots[i].peer == p);
        }
        if has_peer(slots, p) {
            let i = slot_of(slots, p);
            assert(after[i].peer == p);
        }
    }
    assert(has_peer(slots, slot.peer)) by {
        assert(slots[at].peer == slot.peer);
    }
    assert forall|p: PeerAddr| has_peer(after, p) implies #[trigger] table_of(after)[p]
        == table_of(slots).insert(slot.peer, slot.info)[p] by {
        let i = slot_of(slots, p);
        lemma_slot(slots, i);
        assert(after[i].peer == p);
        lemma_slot(after, i);
        if p == slot.peer {
            lemma_slot(slots, at);
        }
    }
    assert(table_of(after) =~= table_of(slots).insert(slot.peer, slot.info));
}

impl View for SessionTable {
    type V = Map<PeerAddr, SessionInfo>;

    closed spec fn view(&self) -> Map<PeerAddr, SessionInfo> {
        table_of(self.slots@)
    }
}

impl SessionTable {
    #[verifier::type_invariant]
    closed spec fn well_formed(&self) -> bool {
        distinct(self.slots@)
    }

    /// The idle timeout the table was made with.
    pub closed spec fn idle_timeout(&self) -> u64 {
        self.timeout
    }

    /// An empty table whose sessions run out after `timeout` of silence.
    pub fn new(timeout: u64) -> (table: SessionTable)
        ensures
            table@ == Map::<PeerAddr, SessionInfo>::empty(),
            table.idle_timeout() == timeout,
    {
        let slots: Vec<Slot> = Vec::new();
        assert(table_of(slots@) =~= Map::<PeerAddr, SessionInfo>::empty());
        SessionTable { timeout, slots }
    }

    /// The idle timeout.
    pub fn timeout(&self) -> (t: u64)
        ensures
            t == self.idle_timeout(),
    {
        self.timeout
    }

    fn find(&self, peer: PeerAddr) -> (found: Option<usize>)
        ensures
            match found {
                Some(i) => i < self.slots@.len() && self.slots@[i as int].peer == peer,
                None => forall|i: int|
                    0 <= i < self.slots@.len() ==> (#[trigger] self.slots@[i]).peer != peer,
            },
    {
        let n = self.slots.len();
        let mut i: usize = 0;
        while i < n
            invariant
                i <= n,
                n == self.slots@.len(),
                forall|j: int| 0 <= j < i ==> (#[trigger] self.slots@[j]).peer != peer,
            decreases n - i,
        {
            if self.slots[i].peer == peer {
                return Some(i);
            }
            i += 1;
        }
        None
    }

    /// The session of `peer`, if it has one.
    pub fn session(&self, peer: PeerAddr) -> (found: Option<SessionInfo>)
        ensures
            found == (if self@.contains_key(peer) {
                Some(self@[peer])
            } else {
                None
            }),
    {
        proof {
            use_type_invariant(self);
        }
        match self.find(peer) {
            Some(i) => {
                proof {
                    lemma_slot(self.slots@, i as int);
                }
                Some(self.slots[i].info)
            },
            None => {
                proof {
                    lemma_absent(self.slots@, peer);
                }
                None
            },
        }
    }

    /// Whether `peer` has a session that has not run out at `now`.
    pub fn is_live(&self, peer: PeerAddr, now: u64) -> (live: bool)
        ensures
            live == (self@.contains_key(peer) && !expired(self@[peer], self.idle_timeout(), now)),
    {
        match self.session(peer) {
            Some(info) => !has_expired(info, self.timeout, now),
            None => false,
        }
    }

    /// Where `peer` stands at `now`.
    pub fn state(&self, peer: PeerAddr, now: u64) -> (state: PeerState)
        ensures
            state == state_at(self@, self.idle_timeout(), peer, now),
    {
        match self.session(peer) {
            None => PeerState::Evicted,
            Some(info) => if has_expired(info, self.timeout, now) {
                PeerState::Evicted
            } else if now <= info.last_active {
                PeerState::Active
            } else {
                PeerState::Idle
            },
        }
    }

    /// Records a datagram that arrived from `peer` at `now`.
    ///
    /// A peer without a session gets one. A live session is refreshed. A
    /// session that has run out is not resumed: it is replaced by a fresh
    /// one. No other peer's session changes.
    pub fn route(&mut self, peer: PeerAddr, now: u64) -> (outcome: Routing)
        ensures
            final(self).idle_timeout() == old(self).idle_timeout(),
            outcome == routing(old(self)@, old(self).idle_timeout(), peer, now),
            final(self)@ == old(self)@.insert(
                peer,
                routed(old(self)@, old(self).idle_timeout(), peer, now),
            ),
    {
        proof {
            use_type_invariant(&*self);
        }
        match self.find(peer) {
            Some(i) => {
                let was = self.slots[i].info;
                proof {
                    lemma_slot(self.slots@, i as int);
                }
                let (info, outcome) = if has_expired(was, self.timeout, now) {
                    (SessionInfo { opened_at: now, last_active: now, datagrams: 1 }, Routing::Reopened)
                } else {
                    (
                        SessionInfo {
                            opened_at: was.opened_at,
                            last_active: now,
                            datagrams: if was.datagrams == u64::MAX {
                                u64::MAX
                            } else {
                                was.datagrams + 1
                            },
                        },
                        Routing::Resumed,
                    )
                };
                proof {
                    lemma_replaced(self.slots@, i as int, Slot { peer, info });
                }
                let mut slots: Vec<Slot> = Vec::new();
                core::mem::swap(&mut self.slots, &mut slots);
                slots.set(i, Slot { peer, info });
                self.slots = slots;
                outcome
            },
            None => {
                let info = SessionInfo { opened_at: now, last_active: now, datagrams: 1 };
                proof {
                    lemma_absent(self.slots@, peer);
                    lemma_pushed(self.slots@, Slot { peer, info });
                }
                let mut slots: Vec<Slot> = Vec::new();
                core::mem::swap(&mut self.slots, &mut slots);
                slots.push(Slot { peer, info });
                self.slots = slots;
                Routing::Opened
            },
        }
    }

    /// Removes every session that has run out at `now` and returns the peers
    /// they belonged to, each once. The sessions that stay are untouched.
    pub fn sweep(&mut self, now: u64) -> (evicted: Vec<PeerAddr>)
        ensures
            final(self).idle_timeout() == old(self).idle_timeout(),
            final(self)@ == swept(old(self)@, old(self).idle_timeout(), now),
            forall|p: PeerAddr|
                evicted@.contains(p) <==> old(self)@.contains_key(p) && expired(
                    old(self)@[p],
                    old(self).idle_timeout(),
                    now,
                ),
            evicted@.no_duplicates(),
    {
        proof {
            use_type_invariant(&*self);
        }
        let n = self.slots.len();
        let timeout = self.timeout;
        let mut kept: Vec<Slot> = Vec::new();
        let mut evicted: Vec<PeerAddr> = Vec::new();
        let mut i: usize = 0;
        while i < n
            invariant
                i <= n,
                n == self.slots@.len(),
                timeout == self.timeout,
                distinct(self.slots@),
                distinct(kept@),
                evicted@.no_duplicates(),
                forall|k: int|
                    0 <= k < kept@.len() ==> stays(self.slots@, i as int, timeout, now, #[trigger] kept@[k]),
                forall|k: int|
                    0 <= k < evicted@.len() ==> leaves(
                        self.slots@,
                        i as int,
                        timeout,
                        now,
                        #[trigger] evicted@[k],
                    ),
                forall|j: int|
                    0 <= j < i ==> if expired((#[trigger] self.slots@[j]).info, timeout, now) {
                        evicted@.contains(self.slots@[j].peer)
                    } else {
                        kept@.contains(self.slots@[j])
                    },
            decreases n - i,
        {
            let slot = self.slots[i];
            let ghost kept_before = kept@;
            let ghost evicted_before = evicted@;
            if has_expired(slot.info, timeout, now) {
                proof {
                    assert forall|k: int| 0 <= k < evicted_before.len() implies evicted_before[k]
                        != slot.peer by {
                        assert(leaves(self.slots@, i as int, timeout, now, evicted_before[k]));
                    }
                }
                evicted.push(slot.peer);
                assert(evicted@[evicted_before.len() as int] == slot.peer);
            } else {
                proof {
                    assert forall|k: int| 0 <= k < kept_before.len() implies (
                    #[trigger] kept_before[k]).peer != slot.peer by {
                        assert(stays(self.slots@, i as int, timeout, now, kept_before[k]));
                    }
                }
                kept.push(slot);
                assert(kept@[kept_before.len() as int] == slot);
                proof {
                    assert forall|a: int, b: int| 0 <= a < b < kept@.len() implies (
                    #[trigger] kept@[a]).peer != (#[trigger] kept@[b]).peer by {
                        if b < kept_before.len() {
                            assert(kept_before[a].peer != kept_before[b].peer);
                        } else {
                            assert(kept@[a] == kept_before[a]);
                        }
                    }
                }
            }
            proof {
                assert forall|k: int| 0 <= k < kept@.len() implies stays(
                    self.slots@,
                    i as int + 1,
                    timeout,
                    now,
                    #[trigger] kept@[k],
                ) by {
                    if k < kept_before.len() {
                        assert(kept@[k] == kept_before[k]);
                        assert(stays(self.slots@, i as int, timeout, now, kept_before[k]));
                        let j = choose|j: int|
                            0 <= j < i && #[trigger] self.slots@[j] == kept_before[k];
                        assert(0 <= j < i + 1 && self.slots@[j] == kept@[k]);
                    } else {
                        assert(self.slots@[i as int] == kept@[k]);
                    }
                }
                assert forall|k: int| 0 <= k < evicted@.len() implies leaves(
                    self.slots@,
                    i as int + 1,
                    timeout,
                    now,
                    #[trigger] evicted@[k],
                ) by {
                    if k < evicted_before.len() {
                        assert(evicted@[k] == evicted_before[k]);
                        assert(leaves(self.slots@, i as int, timeout, now, evicted_before[k]));
                        let j = choose|j: int|
                            0 <= j < i && (#[trigger] self.slots@[j]).peer == evicted_before[k]
                                && expired(self.slots@[j].info, timeout, now);
                        assert(0 <= j < i + 1 && self.slots@[j].peer == evicted@[k]);
                    } else {
                        assert(self.slots@[i as int].peer == evicted@[k]);
                    }
                }
                assert forall|j: int| 0 <= j < i + 1 implies if expired(
                    (#[trigger] self.slots@[j]).info,
                    timeout,
                    now,
                ) {
                    evicted@.contains(self.slots@[j].peer)
                } else {
                    kept@.contains(self.slots@[j])
                } by {
                    if j < i {
                        if expired(self.slots@[j].info, timeout, now) {
                            let k = choose|k: int|
                                0 <= k < evicted_before.len() && evicted_before[k]
                                    == self.slots@[j].peer;
                            assert(evicted@[k] == self.slots@[j].peer);
                        } else {
                            let k = choose|k: int|
                                0 <= k < kept_before.len() && kept_before[k] == self.slots@[j];
                            assert(kept@[k] == self.slots@[j]);
                        }
                    }
                }
            }
            i += 1;
        }
        proof {
            let before = self.slots@;
            let after = kept@;
            let target = swept(table_of(before), timeout, now);
            assert forall|p: PeerAddr| has_peer(after, p) <==> target.contains_key(p) by {
                if has_peer(after, p) {
                    let k = slot_of(after, p);
                    assert(stays(before, n as int, timeout, now, after[k]));
                    let j = choose|j: int|
                        0 <= j < n && #[trigger] before[j] == after[k] && !expired(
                            before[j].info,
                            timeout,
                            now,
                        );
                    lemma_slot(before, j);
                }
                if target.contains_key(p) {
                    let j = slot_of(before, p);
                    lemma_slot(before, j);
                    assert(after.contains(before[j]));
                    let k = choose|k: int| 0 <= k < after.len() && after[k] == before[j];
                    assert(after[k].peer == p);
                }
            }
            assert forall|p: PeerAddr| has_peer(after, p) implies #[trigger] table_of(after)[p]
                == target[p] by {
                let k = slot_of(after, p);
                lemma_slot(after, k);
                assert(stays(before, n as int, timeout, now, after[k]));
                let j = choose|j: int|
                    0 <= j < n && #[trigger] before[j] == after[k] && !expired(
                        before[j].info,
                        timeout,
                        now,
                    );
                lemma_slot(before, j);
            }
            assert(table_of(after) =~= target);
            assert forall|p: PeerAddr|
                evicted@.contains(p) <==> table_of(before).contains_key(p) && expired(
                    table_of(before)[p],
                    timeout,
                    now,
                ) by {
                if evicted@.contains(p) {
                    let k = choose|k: int| 0 <= k < evicted@.len() && evicted@[k] == p;
                    assert(leaves(before, n as int, timeout, now, evicted@[k]));
                    let j = choose|j: int|
                        0 <= j < n && (#[trigger] before[j]).peer == evicted@[k] && expired(
                            before[j].info,
                            timeout,
                            now,
                        );
                    lemma_slot(before, j);
                }
                if table_of(before).contains_key(p) && expired(table_of(before)[p], timeout, now) {
                    let j = slot_of(before, p);
                    lemma_slot(before, j);
                }
            }
        }
        self.slots = kept;
        evicted
    }
}

/// Whether a session has run out at `now`.
pub fn has_expired(info: SessionInfo, timeout: u64, now: u64) -> (out: bool)
    ensures
        out == expired(info, timeout, now),
{
    let idle = if now >= info.last_active {
        now - info.last_active
    } else {
        0
    };
    idle >= timeout
}

/// Eviction: a peer that has been silent for the idle timeout or longer has
/// no session after a sweep, and its next datagram opens a fresh one that
/// carries nothing over from the old. Even with no sweep in between, the old
/// session is not resumed. Sessions that have not run out stay as they were.
pub proof fn lemma_eviction(
    table: Map<PeerAddr, SessionInfo>,
    timeout: u64,
    peer: PeerAddr,
    now: u64,
    later: u64,
)
    requires
        table.contains_key(peer),
        expired(table[peer], timeout, now),
    ensures
        !swept(table, timeout, now).contains_key(peer),
        routing(swept(table, timeout, now), timeout, peer, later) == Routing::Opened,
        routed(swept(table, timeout, now), timeout, peer, later) == fresh(later),
        routing(table, timeout, peer, now) == Routing::Reopened,
        routed(table, timeout, peer, now) == fresh(now),
        forall|other: PeerAddr|
            table.contains_key(other) && !expired(table[other], timeout, now) ==> swept(
                table,
                timeout,
                now,
            ).contains_key(other) && swept(table, timeout, now)[other] == table[other],
{
}

/// A peer moves from active through idle to evicted and back only by a
/// datagram of its own: right after a datagram it is active (or, with a
/// timeout of zero, evicted at once); while it stays silent it is idle until
/// the timeout has passed, and evicted from then on.
pub proof fn lemma_peer_life(
    table: Map<PeerAddr, SessionInfo>,
    timeout: u64,
    peer: PeerAddr,
    now: u64,
    later: u64,
)
    requires
        now <= later,
        timeout > 0,
    ensures
        state_at(table.insert(peer, routed(table, timeout, peer, now)), timeout, peer, now)
            == PeerState::Active,
        now < later && later - now < timeout ==> state_at(
            table.insert(peer, routed(table, timeout, peer, now)),
            timeout,
            peer,
            later,
        ) == PeerState::Idle,
        later - now >= timeout ==> state_at(
            table.insert(peer, routed(table, timeout, peer, now)),
            timeout,
            peer,
            later,
        ) == PeerState::Evicted,
{
}

/// Peers do not disturb each other: a datagram from one peer leaves the
/// session of every other peer exactly as it was, present or absent.
pub proof fn lemma_peers_independent(
    table: Map<PeerAddr, SessionInfo>,
    timeout: u64,
    peer: PeerAddr,
    other: PeerAddr,
    now: u64,
)
    requires
        peer != other,
    ensures
        table.insert(peer, routed(table, timeout, peer, now)).contains_key(other)
            == table.contains_key(other),
        table.insert(peer, routed(table, timeout, peer, now))[other] == table[other],
{
}

} // verus!
