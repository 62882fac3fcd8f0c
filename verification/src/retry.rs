//! Waiting for the history database when another process holds it open.
use vstd::prelude::*;

verus! {

/// How many times opening is retried.
pub const OPEN_ATTEMPTS: u32 = 100;

/// The first wait, in milliseconds.
pub const OPEN_WAIT_START_MS: u64 = 2;

/// The longest wait, in milliseconds.
pub const OPEN_WAIT_MAX_MS: u64 = 50;

/// Where a run of retries stands: how many were made, and how long to wait
/// before the next one.
pub struct RetryState {
    attempt: u32,
    wait_ms: u64,
}

impl RetryState {
    #[verifier::type_invariant]
    spec fn within_bounds(&self) -> bool {
        self.attempt <= OPEN_ATTEMPTS && OPEN_WAIT_START_MS <= self.wait_ms <= OPEN_WAIT_MAX_MS
    }

    /// The retries made so far.
    pub closed spec fn attempts(&self) -> u32 {
        self.attempt
    }

    /// The wait before the next retry.
    pub closed spec fn wait(&self) -> u64 {
        self.wait_ms
    }

    /// No retry made yet; the first wait is `OPEN_WAIT_START_MS`.
    pub fn start() -> (res: RetryState)
        ensures
            res.attempts() == 0,
            res.wait() == OPEN_WAIT_START_MS,
    {
        RetryState { attempt: 0, wait_ms: OPEN_WAIT_START_MS }
    }

    /// Retries made so far.
    pub fn attempt(&self) -> (res: u32)
        ensures
            res == self.attempts(),
            res <= OPEN_ATTEMPTS,
    {
        proof {
            use_type_invariant(self);
        }
        self.attempt
    }

    /// How long to sleep before the next retry, in milliseconds.
    pub fn wait_millis(&self) -> (res: u64)
        ensures
            res == self.wait(),
            OPEN_WAIT_START_MS <= res <= OPEN_WAIT_MAX_MS,
    {
        proof {
            use_type_invariant(self);
        }
        self.wait_ms
    }

    /// The database was busy: `None` when the retries are used up; otherwise
    /// the state after sleeping `wait()` and retrying, whose wait is doubled
    /// up to `OPEN_WAIT_MAX_MS`.
    pub fn after_busy(&self) -> (res: Option<RetryState>)
        ensures
            match res {
                Some(next) => {
                    &&& self.attempts() < OPEN_ATTEMPTS
                    &&& next.attempts() == self.attempts() + 1
                    &&& next.wait() == if 2 * self.wait() < OPEN_WAIT_MAX_MS {
                        2 * self.wait()
                    } else {
                        OPEN_WAIT_MAX_MS as int
                    }
                },
                None => self.attempts() >= OPEN_ATTEMPTS,
            },
    {
        proof {
            use_type_invariant(self);
        }
        if self.attempt < OPEN_ATTEMPTS {
            let doubled = self.wait_ms * 2;
            let next = if doubled < OPEN_WAIT_MAX_MS { doubled } else { OPEN_WAIT_MAX_MS };
            Some(RetryState { attempt: self.attempt + 1, wait_ms: next })
        } else {
            None
        }
    }
}

} // verus!
