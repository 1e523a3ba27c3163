use vstd::prelude::*;

verus! {

/// Why an inbound message was refused.
#[derive(Clone, Copy, Debug, PartialEq, Eq, Structural)]
pub enum SubscriptionError {
    /// No upstream peer is subscribed to.
    NoActiveSubscription,
    /// The message came from a peer other than the subscribed one.
    UnexpectedSender { peer: u64, expected: u64 },
}

/// The upstream peer the observer follows, and when it was last heard from.
#[derive(Clone, Copy, Debug, PartialEq, Eq, Structural)]
pub struct SubscriptionManager {
    pub active_peer: Option<u64>,
    pub last_message_ms: u64,
    pub max_silence_ms: u64,
}

/// A subscription is healthy while its peer has spoken within the allowed silence.
pub open spec fn subscription_healthy(m: SubscriptionManager, now_ms: u64) -> bool {
    m.active_peer.is_some() && (now_ms < m.last_message_ms || now_ms - m.last_message_ms
        <= m.max_silence_ms)
}

/// The manager after a health check at `now_ms`, and whether a new
/// subscription was made: an unhealthy one is replaced by the candidate
/// peer, or dropped when there is none.
pub open spec fn subscription_check(
    m: SubscriptionManager,
    now_ms: u64,
    candidate: Option<u64>,
) -> (SubscriptionManager, bool) {
    if subscription_healthy(m, now_ms) {
        (m, false)
    } else if candidate.is_some() {
        (SubscriptionManager { active_peer: candidate, last_message_ms: now_ms, ..m }, true)
    } else {
        (SubscriptionManager { active_peer: None, ..m }, false)
    }
}

impl SubscriptionManager {
    pub open spec fn new_spec(max_silence_ms: u64) -> SubscriptionManager {
        SubscriptionManager { active_peer: None, last_message_ms: 0, max_silence_ms }
    }

    /// No subscription yet.
    pub fn new(max_silence_ms: u64) -> (r: Self)
        ensures
            r == Self::new_spec(max_silence_ms),
    {
        SubscriptionManager { active_peer: None, last_message_ms: 0, max_silence_ms }
    }

    /// Accepts a message only from the subscribed peer.
    pub fn verify_message_sender(&self, peer: u64) -> (r: Result<(), SubscriptionError>)
        ensures
            r.is_ok() <==> self.active_peer == Some(peer),
            self.active_peer.is_none() ==> r == Err::<(), _>(
                SubscriptionError::NoActiveSubscription,
            ),
            self.active_peer.is_some() && self.active_peer != Some(peer) ==> r == Err::<(), _>(
                SubscriptionError::UnexpectedSender { peer, expected: self.active_peer.unwrap() },
            ),
    {
        match self.active_peer {
            None => Err(SubscriptionError::NoActiveSubscription),
            Some(expected) => {
                if expected == peer {
                    Ok(())
                } else {
                    Err(SubscriptionError::UnexpectedSender { peer, expected })
                }
            },
        }
    }

    /// Notes that the subscribed peer was heard from at `now_ms`.
    pub fn record_message(&mut self, now_ms: u64)
        ensures
            *final(self) == (SubscriptionManager { last_message_ms: now_ms, ..*old(self) }),
    {
        self.last_message_ms = now_ms;
    }

    pub fn is_healthy(&self, now_ms: u64) -> (r: bool)
        ensures
            r == subscription_healthy(*self, now_ms),
    {
        self.active_peer.is_some() && (now_ms < self.last_message_ms || now_ms
            - self.last_message_ms <= self.max_silence_ms)
    }

    /// Checks the active subscription and replaces it when it is unhealthy;
    /// returns whether a new subscription was made.
    pub fn check_and_manage_subscriptions(&mut self, now_ms: u64, candidate: Option<u64>) -> (r:
        bool)
        ensures
            (*final(self), r) == subscription_check(*old(self), now_ms, candidate),
    {
        if self.is_healthy(now_ms) {
            false
        } else if candidate.is_some() {
            self.active_peer = candidate;
            self.last_message_ms = now_ms;
            true
        } else {
            self.active_peer = None;
            false
        }
    }
}

} // verus!
