//! Upstream mirror resolution as a state machine.
//!
//! The caller owns the socket and the clock. It starts a resolution, carries
//! out the action it is handed, and reports what happened next (a datagram
//! came in, the deadline passed, the exchange failed) to get the following
//! action, until the resolution delivers a reply or fails.

use vstd::prelude::*;
use crate::config::mirror_on;
use crate::config::secondary_configured;
use crate::config::MirrorSettings;
use crate::wire::be16;
use crate::wire::read_u16;

verus! {

/// Time allowed for one upstream attempt, in milliseconds.
pub const ATTEMPT_TIMEOUT_MILLIS: u64 = 2000;

/// Which of the two upstream resolvers.
#[derive(Clone, Copy, Debug, PartialEq, Eq, Structural)]
pub enum Upstream {
    Primary,
    Secondary,
}

/// Why a resolution ended without a reply.
#[derive(Clone, Copy, Debug, PartialEq, Eq, Structural)]
pub enum ResolveError {
    /// No upstream resolver gave a matching reply in time.
    UpstreamUnreachable,
}

/// Where a resolution stands.
#[derive(Clone, Copy, Debug, PartialEq, Eq, Structural)]
pub enum Phase {
    /// One query is outstanding at this resolver.
    Waiting(Upstream),
    /// The resolution has delivered or failed; nothing is outstanding.
    Finished,
}

/// The state of one resolution.
#[derive(Clone, Copy, Debug, PartialEq, Eq)]
pub struct Resolution {
    pub phase: Phase,
    /// Transaction id of the query, if the query is long enough to have one.
    pub query_id: Option<u16>,
    /// Whether a secondary resolver is configured.
    pub has_secondary: bool,
    /// Time allowed for each attempt.
    pub timeout: u64,
    /// When the outstanding attempt runs out.
    pub deadline: u64,
}

/// What the caller reports to a resolution.
#[derive(Debug, PartialEq, Eq)]
pub enum ResolveEvent {
    /// A datagram arrived on the socket of the outstanding attempt.
    Reply(Vec<u8>),
    /// The deadline of the outstanding attempt passed.
    TimedOut,
    /// Sending or receiving failed.
    TransportFailed,
}

/// Model of a [`ResolveEvent`].
pub ghost enum ResolveEventView {
    Reply(Seq<u8>),
    TimedOut,
    TransportFailed,
}

/// What the caller is to do next.
#[derive(Debug, PartialEq, Eq)]
pub enum ResolveAction {
    /// Send the query bytes, unchanged, to this resolver and wait for a reply
    /// until the deadline.
    Send { to: Upstream, deadline: u64 },
    /// Keep waiting on the same attempt until the same deadline.
    Wait { deadline: u64 },
    /// The resolution succeeded: these are the reply's bytes, untouched.
    Deliver(Vec<u8>),
    /// The resolution failed.
    Fail(ResolveError),
    /// The resolution was over already; there is nothing to do.
    Nothing,
}

/// Model of a [`ResolveAction`].
pub ghost enum ResolveActionView {
    Send { to: Upstream, deadline: u64 },
    Wait { deadline: u64 },
    Deliver(Seq<u8>),
    Fail(ResolveError),
    Nothing,
}

impl View for ResolveEvent {
    type V = ResolveEventView;

    open spec fn view(&self) -> ResolveEventView {
        match self {
            ResolveEvent::Reply(bytes) => ResolveEventView::Reply(bytes@),
            ResolveEvent::TimedOut => ResolveEventView::TimedOut,
            ResolveEvent::TransportFailed => ResolveEventView::TransportFailed,
        }
    }
}

impl View for ResolveAction {
    type V = ResolveActionView;

    open spec fn view(&self) -> ResolveActionView {
        match self {
            ResolveAction::Send { to, deadline } => ResolveActionView::Send {
                to: *to,
                deadline: *deadline,
            },
            ResolveAction::Wait { deadline } => ResolveActionView::Wait { deadline: *deadline },
            ResolveAction::Deliver(bytes) => ResolveActionView::Deliver(bytes@),
            ResolveAction::Fail(e) => ResolveActionView::Fail(*e),
            ResolveAction::Nothing => ResolveActionView::Nothing,
        }
    }
}

/// The transaction id of a datagram: its first two bytes, if it has them.
pub open spec fn transaction_id(bytes: Seq<u8>) -> Option<u16> {
    if bytes.len() >= 2 {
        Some(be16(bytes, 0))
    } else {
        None
    }
}

/// Whether `reply` answers the query with id `query_id`: both carry a
/// transaction id and the two are equal.
pub open spec fn answers(query_id: Option<u16>, reply: Seq<u8>) -> bool {
    query_id is Some && transaction_id(reply) == query_id
}

/// The instant `timeout` after `now`, or the last instant there is.
pub open spec fn deadline_after(now: u64, timeout: u64) -> u64 {
    if now + timeout > u64::MAX {
        u64::MAX
    } else {
        (now + timeout) as u64
    }
}

/// How a resolution of `query` begins at time `now`.
///
/// Without a mirror that is switched on nothing is sent and the resolution
/// fails at once. Otherwise the query goes to the primary resolver.
pub open spec fn started(
    query: Seq<u8>,
    mirror: Option<MirrorSettings>,
    timeout: u64,
    now: u64,
) -> (Resolution, ResolveActionView) {
    if mirror_on(mirror) {
        (
            Resolution {
                phase: Phase::Waiting(Upstream::Primary),
                query_id: transaction_id(query),
                has_secondary: secondary_configured(mirror),
                timeout,
                deadline: deadline_after(now, timeout),
            },
            ResolveActionView::Send {
                to: Upstream::Primary,
                deadline: deadline_after(now, timeout),
            },
        )
    } else {
        (
            Resolution {
                phase: Phase::Finished,
                query_id: transaction_id(query),
                has_secondary: secondary_configured(mirror),
                timeout,
                deadline: now,
            },
            ResolveActionView::Fail(ResolveError::UpstreamUnreachable),
        )
    }
}

/// How a resolution moves on `event`, reported at time `now`.
///
/// While an attempt is outstanding: a reply with the query's transaction id
/// ends the resolution and is delivered; any other datagram changes nothing
/// and waiting goes on until the same deadline; a timeout or a transport
/// failure moves from the primary to the secondary where one is configured
/// and otherwise ends the resolution with `UpstreamUnreachable`.
pub open spec fn stepped(state: Resolution, event: ResolveEventView, now: u64) -> (
    Resolution,
    ResolveActionView,
) {
    match state.phase {
        Phase::Finished => (state, ResolveActionView::Nothing),
        Phase::Waiting(upstream) => match event {
            ResolveEventView::Reply(bytes) => if answers(state.query_id, bytes) {
                (Resolution { phase: Phase::Finished, ..state }, ResolveActionView::Deliver(bytes))
            } else {
                (state, ResolveActionView::Wait { deadline: state.deadline })
            },
            _ => if upstream == Upstream::Primary && state.has_secondary {
                (
                    Resolution {
                        phase: Phase::Waiting(Upstream::Secondary),
                        deadline: deadline_after(now, state.timeout),
                        ..state
                    },
                    ResolveActionView::Send {
                        to: Upstream::Secondary,
                        deadline: deadline_after(now, state.timeout),
                    },
                )
            } else {
                (
                    Resolution { phase: Phase::Finished, ..state },
                    ResolveActionView::Fail(ResolveError::UpstreamUnreachable),
                )
            },
        },
    }
}

/// How many further queries a resolution may still send.
pub open spec fn retries_left(state: Resolution) -> nat {
    if state.phase == Phase::Waiting(Upstream::Primary) && state.has_secondary {
        1
    } else {
        0
    }
}

/// How many queries a resolution sends while it is fed `events`, each with
/// the time it is reported at.
pub open spec fn sends_during(state: Resolution, events: Seq<(ResolveEventView, u64)>) -> nat
    decreases events.len(),
{
    if events.len() == 0 {
        0
    } else {
        let (next, action) = stepped(state, events[0].0, events[0].1);
        let sent: nat = if action is Send {
            1
        } else {
            0
        };
        sent + sends_during(next, events.drop_first())
    }
}

/// Reads the transaction id of a datagram.
pub fn read_transaction_id(bytes: &[u8]) -> (id: Option<u16>)
    ensures
        id == transaction_id(bytes@),
{
    if bytes.len() >= 2 {
        Some(read_u16(bytes, 0))
    } else {
        None
    }
}

/// Computes the deadline of an attempt that begins at `now`.
pub fn deadline(now: u64, timeout: u64) -> (at: u64)
    ensures
        at == deadline_after(now, timeout),
{
    if timeout > u64::MAX - now {
        u64::MAX
    } else {
        now + timeout
    }
}

impl Resolution {
    /// Begins the resolution of `query` at time `now`, allowing `timeout`
    /// for each attempt.
    pub fn start(query: &[u8], mirror: &Option<MirrorSettings>, timeout: u64, now: u64) -> (r: (
        Resolution,
        ResolveAction,
    ))
        ensures
            (r.0, r.1@) == started(query@, *mirror, timeout, now),
    {
        let query_id = read_transaction_id(query);
        let (enabled, has_secondary) = match mirror {
            Some(m) => (m.enabled, m.secondary.is_some()),
            None => (false, false),
        };
        if enabled {
            let until = deadline(now, timeout);
            (
                Resolution {
                    phase: Phase::Waiting(Upstream::Primary),
                    query_id,
                    has_secondary,
                    timeout,
                    deadline: until,
                },
                ResolveAction::Send { to: Upstream::Primary, deadline: until },
            )
        } else {
            (
                Resolution { phase: Phase::Finished, query_id, has_secondary, timeout, deadline: now },
                ResolveAction::Fail(ResolveError::UpstreamUnreachable),
            )
        }
    }

    /// Moves the resolution on `event`, reported at time `now`.
    pub fn step(self, event: ResolveEvent, now: u64) -> (r: (Resolution, ResolveAction))
        ensures
            (r.0, r.1@) == stepped(self, event@, now),
    {
        match self.phase {
            Phase::Finished => (self, ResolveAction::Nothing),
            Phase::Waiting(upstream) => match event {
                ResolveEvent::Reply(bytes) => {
                    let reply_id = read_transaction_id(bytes.as_slice());
                    let matching = match (self.query_id, reply_id) {
                        (Some(asked), Some(got)) => asked == got,
                        _ => false,
                    };
                    if matching {
                        (
                            Resolution {
                                phase: Phase::Finished,
                                query_id: self.query_id,
                                has_secondary: self.has_secondary,
                                timeout: self.timeout,
                                deadline: self.deadline,
                            },
                            ResolveAction::Deliver(bytes),
                        )
                    } else {
                        (self, ResolveAction::Wait { deadline: self.deadline })
                    }
                },
                _ => {
                    let on_primary = match upstream {
                        Upstream::Primary => true,
                        Upstream::Secondary => false,
                    };
                    if on_primary && self.has_secondary {
                        let until = deadline(now, self.timeout);
                        (
                            Resolution {
                                phase: Phase::Waiting(Upstream::Secondary),
                                query_id: self.query_id,
                                has_secondary: self.has_secondary,
                                timeout: self.timeout,
                                deadline: until,
                            },
                            ResolveAction::Send { to: Upstream::Secondary, deadline: until },
                        )
                    } else {
                        (
                            Resolution {
                                phase: Phase::Finished,
                                query_id: self.query_id,
                                has_secondary: self.has_secondary,
                                timeout: self.timeout,
                                deadline: self.deadline,
                            },
                            ResolveAction::Fail(ResolveError::UpstreamUnreachable),
                        )
                    }
                },
            },
        }
    }

    /// Whether the resolution is over.
    pub fn is_finished(&self) -> (over: bool)
        ensures
            over == (self.phase == Phase::Finished),
    {
        match self.phase {
            Phase::Finished => true,
            Phase::Waiting(_) => false,
        }
    }
}

/// Failover: with mirroring on and a secondary configured, a primary that
/// does not reply in time (or fails) is followed by one query to the
/// secondary; when the secondary does not reply either, the resolution fails
/// with `UpstreamUnreachable` and is over.
pub proof fn lemma_failover(
    query: Seq<u8>,
    mirror: Option<MirrorSettings>,
    timeout: u64,
    now: u64,
    first: ResolveEventView,
    at_first: u64,
    second: ResolveEventView,
    at_second: u64,
)
    requires
        mirror_on(mirror),
        secondary_configured(mirror),
        !(first is Reply),
        !(second is Reply),
    ensures
        started(query, mirror, timeout, now).1 == (ResolveActionView::Send {
            to: Upstream::Primary,
            deadline: deadline_after(now, timeout),
        }),
        stepped(started(query, mirror, timeout, now).0, first, at_first).1 == (
        ResolveActionView::Send {
            to: Upstream::Secondary,
            deadline: deadline_after(at_first, timeout),
        }),
        stepped(
            stepped(started(query, mirror, timeout, now).0, first, at_first).0,
            second,
            at_second,
        ).1 == ResolveActionView::Fail(ResolveError::UpstreamUnreachable),
        stepped(
            stepped(started(query, mirror, timeout, now).0, first, at_first).0,
            second,
            at_second,
        ).0.phase == Phase::Finished,
{
}

/// Without a secondary, a primary that does not reply in time (or fails)
/// ends the resolution with `UpstreamUnreachable`.
pub proof fn lemma_no_secondary(
    query: Seq<u8>,
    mirror: Option<MirrorSettings>,
    timeout: u64,
    now: u64,
    event: ResolveEventView,
    at: u64,
)
    requires
        mirror_on(mirror),
        !secondary_configured(mirror),
        !(event is Reply),
    ensures
        stepped(started(query, mirror, timeout, now).0, event, at).1 == ResolveActionView::Fail(
            ResolveError::UpstreamUnreachable,
        ),
        stepped(started(query, mirror, timeout, now).0, event, at).0.phase == Phase::Finished,
{
}

/// Whatever is reported to a resolution, and in whatever order, it sends no
/// more queries than it has retries left: after its start, at most one, and
/// that one to the secondary.
pub proof fn lemma_sends_bounded(state: Resolution, events: Seq<(ResolveEventView, u64)>)
    ensures
        sends_during(state, events) <= retries_left(state),
    decreases events.len(),
{
    if events.len() > 0 {
        let (next, action) = stepped(state, events[0].0, events[0].1);
        lemma_sends_bounded(next, events.drop_first());
    }
}

/// Every query a resolution sends after its start goes to the secondary, and
/// only while the primary attempt is the outstanding one.
pub proof fn lemma_retry_goes_to_secondary(state: Resolution, event: ResolveEventView, now: u64)
    ensures
        stepped(state, event, now).1 matches ResolveActionView::Send { to, .. } ==> to
            == Upstream::Secondary && state.phase == Phase::Waiting(Upstream::Primary)
            && stepped(state, event, now).0.phase == Phase::Waiting(Upstream::Secondary),
{
}

/// A datagram whose transaction id is not the query's is ignored: the state
/// stays as it was, deadline included, and nothing is delivered.
pub proof fn lemma_stale_reply_ignored(state: Resolution, reply: Seq<u8>, now: u64)
    requires
        state.phase is Waiting,
        !answers(state.query_id, reply),
    ensures
        stepped(state, ResolveEventView::Reply(reply), now) == (
            state,
            ResolveActionView::Wait { deadline: state.deadline },
        ),
{
}

/// What is delivered is always the very datagram that was reported, and its
/// transaction id is the query's.
pub proof fn lemma_delivery_matches(state: Resolution, event: ResolveEventView, now: u64)
    ensures
        stepped(state, event, now).1 matches ResolveActionView::Deliver(bytes) ==> event
            == ResolveEventView::Reply(bytes) && answers(state.query_id, bytes)
            && stepped(state, event, now).0.phase == Phase::Finished,
{
}

} // verus!
