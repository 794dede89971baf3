//! The client's hole-punch run: which candidate endpoints to try, and how the
//! two racing connectors decide, through one shared flag, when to stop.
use crate::codec::{
    decode_peer_message, decode_spec, lemma_split_nonempty, split_spec, CodecError,
};
use vstd::prelude::*;

verus! {

/// The candidate endpoints of the first entry of a peer-list message: the
/// peer's observed (public) endpoint and its reported (private) one.
pub fn punch_targets(message: &str) -> (r: Result<(String, String), CodecError>)
    ensures
        match decode_spec(message@) {
            Some(pairs) => r is Ok && pairs.len() > 0 && (r->Ok_0.0@, r->Ok_0.1@) == pairs[0],
            None => r == Err::<(String, String), CodecError>(CodecError::MalformedPeerList),
        },
{
    proof {
        lemma_split_nonempty(message@, ',');
    }
    match decode_peer_message(message) {
        Err(e) => Err(e),
        Ok(pairs) => {
            assert(decode_spec(message@)->0.len() == split_spec(message@, ',').len());
            assert(pairs@.len() > 0);
            let public = pairs[0].0.clone();
            let private = pairs[0].1.clone();
            Ok((public, private))
        },
    }
}

/// Which candidate endpoint a connector targets.
#[derive(Debug, Clone, Copy, PartialEq, Eq, Structural)]
pub enum Side {
    Public,
    Private,
}

/// Where one connector stands.
#[derive(Debug, Clone, Copy, PartialEq, Eq, Structural)]
pub enum ConnectorPhase {
    /// Trying to connect, one attempt after another.
    Connecting,
    /// Connected; reading until the peer closes.
    Draining,
    /// Finished: it yielded, gave up, or its connection closed.
    Done,
}

/// What a connector reports to the session.
#[derive(Debug, Clone, Copy, PartialEq, Eq, Structural)]
pub enum ConnectorEvent {
    /// Ready to decide on the next step (after the start-up delay).
    Ready,
    /// A connection attempt failed.
    ConnectFailed,
    /// A connection attempt completed its handshake.
    Connected,
    /// A read on the connection returned bytes, or failed.
    ReadMore,
    /// The peer closed the connection.
    PeerClosed,
}

/// What the session tells a connector to do next.
#[derive(Debug, Clone, Copy, PartialEq, Eq, Structural)]
pub enum ConnectorAction {
    /// Bind the shared local port and try to connect to the candidate.
    Attempt,
    /// Read from the established connection.
    Read,
    /// Stop: the other connector won, the attempts ran out, or the
    /// connection closed.
    Stop,
}

/// One hole-punch run: the shared `established` flag, set once by the first
/// connector that completes a handshake, and where each connector stands.
#[derive(Debug, Clone, Copy, PartialEq, Eq, Structural)]
pub struct PunchSession {
    pub established: bool,
    pub winner: Option<Side>,
    pub public: ConnectorPhase,
    pub private: ConnectorPhase,
    pub public_attempts: u64,
    pub private_attempts: u64,
    /// Attempts allowed to each connector; `None` retries without end.
    pub max_attempts: Option<u64>,
}

pub open spec fn phase_of(s: PunchSession, side: Side) -> ConnectorPhase {
    match side {
        Side::Public => s.public,
        Side::Private => s.private,
    }
}

pub open spec fn attempts_of(s: PunchSession, side: Side) -> u64 {
    match side {
        Side::Public => s.public_attempts,
        Side::Private => s.private_attempts,
    }
}

pub open spec fn with_phase(s: PunchSession, side: Side, p: ConnectorPhase) -> PunchSession {
    match side {
        Side::Public => PunchSession { public: p, ..s },
        Side::Private => PunchSession { private: p, ..s },
    }
}

pub open spec fn with_attempts(s: PunchSession, side: Side, n: u64) -> PunchSession {
    match side {
        Side::Public => PunchSession { public_attempts: n, ..s },
        Side::Private => PunchSession { private_attempts: n, ..s },
    }
}

/// Whether `side` may make another attempt.
pub open spec fn may_attempt(s: PunchSession, side: Side) -> bool {
    match s.max_attempts {
        None => true,
        Some(m) => attempts_of(s, side) < m,
    }
}

/// The session after `side` reports `ev`, and what `side` does next.
pub open spec fn step(s: PunchSession, side: Side, ev: ConnectorEvent) -> (
    PunchSession,
    ConnectorAction,
) {
    match phase_of(s, side) {
        ConnectorPhase::Connecting => match ev {
            ConnectorEvent::Connected => (
                PunchSession {
                    established: true,
                    winner: if s.winner is None {
                        Some(side)
                    } else {
                        s.winner
                    },
                    ..with_phase(s, side, ConnectorPhase::Draining)
                },
                ConnectorAction::Read,
            ),
            _ => if s.established || !may_attempt(s, side) {
                (with_phase(s, side, ConnectorPhase::Done), ConnectorAction::Stop)
            } else {
                let counted = if s.max_attempts is Some {
                    with_attempts(s, side, (attempts_of(s, side) + 1) as u64)
                } else {
                    s
                };
                (counted, ConnectorAction::Attempt)
            },
        },
        ConnectorPhase::Draining => match ev {
            ConnectorEvent::PeerClosed => (
                with_phase(s, side, ConnectorPhase::Done),
                ConnectorAction::Stop,
            ),
            _ => (s, ConnectorAction::Read),
        },
        ConnectorPhase::Done => (s, ConnectorAction::Stop),
    }
}

impl PunchSession {
    /// A fresh run: nobody connected, both connectors about to try.
    pub fn new(max_attempts: Option<u64>) -> (r: PunchSession)
        ensures
            !r.established,
            r.winner is None,
            r.public == ConnectorPhase::Connecting,
            r.private == ConnectorPhase::Connecting,
            r.public_attempts == 0,
            r.private_attempts == 0,
            r.max_attempts == max_attempts,
    {
        PunchSession {
            established: false,
            winner: None,
            public: ConnectorPhase::Connecting,
            private: ConnectorPhase::Connecting,
            public_attempts: 0,
            private_attempts: 0,
            max_attempts,
        }
    }

    /// Takes `side`'s report and says what it does next.
    pub fn on_event(&mut self, side: Side, ev: ConnectorEvent) -> (a: ConnectorAction)
        ensures
            (*final(self), a) == step(*old(self), side, ev),
    {
        let phase = match side {
            Side::Public => self.public,
            Side::Private => self.private,
        };
        let attempts = match side {
            Side::Public => self.public_attempts,
            Side::Private => self.private_attempts,
        };
        match phase {
            ConnectorPhase::Connecting => {
                if ev == ConnectorEvent::Connected {
                    self.established = true;
                    if self.winner.is_none() {
                        self.winner = Some(side);
                    }
                    self.set_phase(side, ConnectorPhase::Draining);
                    ConnectorAction::Read
                } else {
                    let allowed = match self.max_attempts {
                        None => true,
                        Some(m) => attempts < m,
                    };
                    if self.established || !allowed {
                        self.set_phase(side, ConnectorPhase::Done);
                        ConnectorAction::Stop
                    } else {
                        if self.max_attempts.is_some() {
                            match side {
                                Side::Public => self.public_attempts = attempts + 1,
                                Side::Private => self.private_attempts = attempts + 1,
                            }
                        }
                        ConnectorAction::Attempt
                    }
                }
            },
            ConnectorPhase::Draining => {
                if ev == ConnectorEvent::PeerClosed {
                    self.set_phase(side, ConnectorPhase::Done);
                    ConnectorAction::Stop
                } else {
                    ConnectorAction::Read
                }
            },
            ConnectorPhase::Done => ConnectorAction::Stop,
        }
    }

    fn set_phase(&mut self, side: Side, p: ConnectorPhase)
        ensures
            *final(self) == with_phase(*old(self), side, p),
    {
        match side {
            Side::Public => self.public = p,
            Side::Private => self.private = p,
        }
    }
}

} // verus!

verus! {

/// Once set, the `established` flag stays set and the winner stays the same,
/// whatever either connector reports.
pub proof fn lemma_flag_never_reset(s: PunchSession, side: Side, ev: ConnectorEvent)
    requires
        s.established,
        s.winner is Some,
    ensures
        step(s, side, ev).0.established,
        step(s, side, ev).0.winner == s.winner,
{
}

/// The race where only the private candidate is reachable: while nobody has
/// connected, the public connector keeps retrying (within its attempts); when
/// the private connector completes its handshake it sets the flag and wins;
/// the public connector's next report then stops it.
pub proof fn lemma_private_win_stops_public(s: PunchSession, ev: ConnectorEvent)
    requires
        !s.established,
        s.winner is None,
        s.public == ConnectorPhase::Connecting,
        s.private == ConnectorPhase::Connecting,
        ev != ConnectorEvent::Connected,
    ensures
        may_attempt(s, Side::Public) ==> step(s, Side::Public, ev).1 == ConnectorAction::Attempt,
        ({
            let (s1, a1) = step(s, Side::Private, ConnectorEvent::Connected);
            let (s2, a2) = step(s1, Side::Public, ev);
            &&& a1 == ConnectorAction::Read
            &&& s1.established
            &&& s1.winner == Some(Side::Private)
            &&& a2 == ConnectorAction::Stop
            &&& s2.public == ConnectorPhase::Done
            &&& s2.private == ConnectorPhase::Draining
            &&& s2.winner == Some(Side::Private)
        }),
{
}

} // verus!
