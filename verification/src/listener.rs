use vstd::prelude::*;

verus! {

/// The first and the largest pause, in milliseconds, after a failed accept.
pub const ACCEPT_BACKOFF_START_MS: u64 = 1;
pub const ACCEPT_BACKOFF_MAX_MS: u64 = 64;

/// The pause after a failed accept when the previous pause was `ms`: twice as
/// long, capped at `ACCEPT_BACKOFF_MAX_MS`.
pub fn next_backoff_ms(ms: u64) -> (r: u64)
    ensures
        r == if 2 * ms < ACCEPT_BACKOFF_MAX_MS {
            2 * ms
        } else {
            ACCEPT_BACKOFF_MAX_MS as int
        },
{
    if ms < ACCEPT_BACKOFF_MAX_MS / 2 {
        ms * 2
    } else {
        ACCEPT_BACKOFF_MAX_MS
    }
}

/// Keepalive bookkeeping of a session: whether a ping is out without a
/// frame having come back since.
pub struct PingTracker {
    awaiting_pong: bool,
}

impl PingTracker {
    pub closed spec fn awaiting(&self) -> bool {
        self.awaiting_pong
    }

    pub fn new() -> (t: PingTracker)
        ensures
            !t.awaiting(),
    {
        PingTracker { awaiting_pong: false }
    }

    /// Any valid frame from the peer resets pong tracking.
    pub fn on_frame(&mut self)
        ensures
            !final(self).awaiting(),
    {
        self.awaiting_pong = false;
    }

    /// The ping timer fired: returns whether to send a ping now, which is
    /// exactly when none is out (no double ping); afterwards one is out.
    pub fn on_tick(&mut self) -> (send_ping: bool)
        ensures
            send_ping == !old(self).awaiting(),
            final(self).awaiting(),
    {
        if self.awaiting_pong {
            return false;
        }
        self.awaiting_pong = true;
        true
    }
}

} // verus!
