//! The retry policy of an authenticated GET: what each attempt's outcome
//! leads to. Rate limiting (429), server errors (5xx) and transient
//! transport errors are retried with exponential backoff (1 s, 2 s, 4 s,
//! 8 s, capped at 30 s) up to four retries, five attempts in all; when the
//! fifth attempt fails too the request gives up. 401/403 means the key is
//! refused; any other status is reported with its body.
use vstd::prelude::*;

use crate::error::AppError;

verus! {

/// Retries made before giving up (the attempts are one more).
pub const MAX_RETRIES: usize = 4;

/// The first backoff, in milliseconds.
pub const BASE_BACKOFF_MS: u64 = 1000;

/// The backoff never grows past this, in milliseconds.
pub const MAX_BACKOFF_MS: u64 = 30_000;

/// What came back from one attempt.
#[derive(Debug, Clone, Copy, PartialEq, Eq, Structural)]
pub enum AttemptOutcome {
    /// A response with this HTTP status.
    Status(u16),
    /// A timeout or a failure to connect.
    Transient,
    /// Any other transport error.
    Failed,
}

/// What the caller does next.
#[derive(Debug, Clone)]
pub enum NextStep {
    /// Decode the body of the successful response.
    Deliver,
    /// Stop with this error.
    Fail(AppError),
    /// Stop with `AppError::Api` for this status and the response's body.
    ReportStatus(u16),
    /// Stop with the transport error.
    Propagate,
    /// Wait this many milliseconds, then try again.
    Retry(u64),
}

/// The state of a request across its attempts.
#[derive(Debug, Clone)]
pub struct RetryState {
    /// Attempts that ended in a retry.
    pub retries: usize,
    pub backoff_ms: u64,
    pub last_status: Option<u16>,
    pub last_was_rate_limit: bool,
}

/// The backoff after `n` retries: doubled each time from the base, capped.
pub open spec fn backoff_after(n: nat) -> int
    decreases n,
{
    if n == 0 {
        BASE_BACKOFF_MS as int
    } else {
        let b = 2 * backoff_after((n - 1) as nat);
        if b <= MAX_BACKOFF_MS {
            b
        } else {
            MAX_BACKOFF_MS as int
        }
    }
}

pub open spec fn is_success(status: u16) -> bool {
    200 <= status <= 299
}

pub open spec fn is_server_error(status: u16) -> bool {
    500 <= status <= 599
}

/// The outcome is retried: rate limited, a server error, or transient.
pub open spec fn retried(outcome: AttemptOutcome) -> bool {
    match outcome {
        AttemptOutcome::Status(s) => s == 429 || is_server_error(s),
        AttemptOutcome::Transient => true,
        AttemptOutcome::Failed => false,
    }
}

/// The error a request ends with once its attempts are used up.
pub open spec fn give_up_of(s: RetryState) -> AppError {
    if s.last_was_rate_limit {
        AppError::RateLimited
    } else {
        AppError::Unavailable(
            match s.last_status {
                Some(c) => c,
                None => 0,
            },
        )
    }
}

/// The state after a retried `outcome`: its status (none for a transport
/// error) and whether it was a 429 are remembered.
pub open spec fn noted(s: RetryState, outcome: AttemptOutcome) -> RetryState {
    RetryState {
        last_status: match outcome {
            AttemptOutcome::Status(c) => Some(c),
            _ => None,
        },
        last_was_rate_limit: outcome == AttemptOutcome::Status(429),
        ..s
    }
}

/// The state after a retried `outcome` while a retry remains: one more
/// retry counted, the backoff doubled up to the cap.
pub open spec fn after_retry(s: RetryState, outcome: AttemptOutcome) -> RetryState {
    RetryState {
        retries: (s.retries + 1) as usize,
        backoff_ms: backoff_after((s.retries + 1) as nat) as u64,
        ..noted(s, outcome)
    }
}

/// What `outcome` leads to in state `s`: a retried outcome waits the
/// current backoff while a retry remains, and gives up otherwise.
pub open spec fn step_of(outcome: AttemptOutcome, s: RetryState) -> NextStep {
    match outcome {
        AttemptOutcome::Status(c) => if is_success(c) {
            NextStep::Deliver
        } else if c == 401 || c == 403 {
            NextStep::Fail(AppError::Unauthorized)
        } else if !retried(outcome) {
            NextStep::ReportStatus(c)
        } else if s.retries < MAX_RETRIES {
            NextStep::Retry(s.backoff_ms)
        } else {
            NextStep::Fail(give_up_of(noted(s, outcome)))
        },
        AttemptOutcome::Transient => if s.retries < MAX_RETRIES {
            NextStep::Retry(s.backoff_ms)
        } else {
            NextStep::Fail(give_up_of(noted(s, outcome)))
        },
        AttemptOutcome::Failed => NextStep::Propagate,
    }
}

impl RetryState {
    /// The counters agree: the backoff is the one after this many retries.
    pub open spec fn wf(self) -> bool {
        &&& self.retries <= MAX_RETRIES
        &&& self.backoff_ms == backoff_after(self.retries as nat)
    }

    /// No attempt made yet.
    pub fn new() -> (r: Self)
        ensures
            r.wf(),
            r.retries == 0,
            r.last_status is None,
            !r.last_was_rate_limit,
    {
        RetryState { retries: 0, backoff_ms: BASE_BACKOFF_MS, last_status: None, last_was_rate_limit: false }
    }

    /// The error to end with once no attempt remains: rate limited when the
    /// last retry was for a 429, else unavailable with the last status seen
    /// (0 when the last retry had no response).
    pub fn give_up(&self) -> (r: AppError)
        ensures
            r == give_up_of(*self),
    {
        if self.last_was_rate_limit {
            AppError::RateLimited
        } else {
            AppError::Unavailable(
                match self.last_status {
                    Some(c) => c,
                    None => 0,
                },
            )
        }
    }

    /// Record the outcome of an attempt and say what follows. A retried
    /// outcome remembers its status (none for a transport error) and whether
    /// it was a 429; while a retry remains it counts one and doubles the
    /// backoff up to the cap, else the request gives up.
    pub fn record(&mut self, outcome: AttemptOutcome) -> (r: NextStep)
        requires
            old(self).wf(),
        ensures
            r == step_of(outcome, *old(self)),
            final(self).wf(),
            retried(outcome) && old(self).retries < MAX_RETRIES ==> *final(self) == after_retry(
                *old(self),
                outcome,
            ),
            retried(outcome) && old(self).retries == MAX_RETRIES ==> *final(self) == noted(
                *old(self),
                outcome,
            ),
            !retried(outcome) ==> *final(self) == *old(self),
    {
        let wait = self.backoff_ms;
        let doubled = if self.backoff_ms * 2 <= MAX_BACKOFF_MS {
            self.backoff_ms * 2
        } else {
            MAX_BACKOFF_MS
        };
        let is_retried = match outcome {
            AttemptOutcome::Status(s) => s == 429 || (500 <= s && s <= 599),
            AttemptOutcome::Transient => true,
            AttemptOutcome::Failed => false,
        };
        match outcome {
            AttemptOutcome::Status(s) => {
                if 200 <= s && s <= 299 {
                    return NextStep::Deliver;
                } else if s == 401 || s == 403 {
                    return NextStep::Fail(AppError::Unauthorized);
                } else if !is_retried {
                    return NextStep::ReportStatus(s);
                }
            },
            AttemptOutcome::Transient => {},
            AttemptOutcome::Failed => {
                return NextStep::Propagate;
            },
        }
        self.last_status = match outcome {
            AttemptOutcome::Status(s) => Some(s),
            _ => None,
        };
        self.last_was_rate_limit = outcome == AttemptOutcome::Status(429);
        if self.retries < MAX_RETRIES {
            self.retries = self.retries + 1;
            self.backoff_ms = doubled;
            NextStep::Retry(wait)
        } else {
            NextStep::Fail(self.give_up())
        }
    }
}

/// The waits before the four retries are 1 s, 2 s, 4 s and 8 s, 15 s in
/// all; the fifth failed attempt gives up without waiting.
pub proof fn lemma_backoff_schedule()
    ensures
        backoff_after(0) == 1000,
        backoff_after(1) == 2000,
        backoff_after(2) == 4000,
        backoff_after(3) == 8000,
        backoff_after(0) + backoff_after(1) + backoff_after(2) + backoff_after(3) == 15000,
{
    reveal_with_fuel(backoff_after, 4);
}

/// A request whose attempts keep being retried waits 1 s, 2 s, 4 s and
/// 8 s before its four retries, and gives up when the fifth attempt fails
/// too.
pub proof fn lemma_retry_run(s0: RetryState, o: Seq<AttemptOutcome>)
    requires
        s0.wf(),
        s0.retries == 0,
        o.len() == 5,
        forall|i: int| 0 <= i < 5 ==> retried(#[trigger] o[i]),
    ensures
        ({
            let s1 = after_retry(s0, o[0]);
            let s2 = after_retry(s1, o[1]);
            let s3 = after_retry(s2, o[2]);
            let s4 = after_retry(s3, o[3]);
            &&& step_of(o[0], s0) == NextStep::Retry(1000)
            &&& step_of(o[1], s1) == NextStep::Retry(2000)
            &&& step_of(o[2], s2) == NextStep::Retry(4000)
            &&& step_of(o[3], s3) == NextStep::Retry(8000)
            &&& s4.retries == MAX_RETRIES
            &&& step_of(o[4], s4) == NextStep::Fail(give_up_of(noted(s4, o[4])))
        }),
{
    reveal_with_fuel(backoff_after, 5);
    assert(retried(o[0]) && retried(o[1]) && retried(o[2]) && retried(o[3]) && retried(o[4]));
}

/// Once the backoff reaches the cap it stays there.
pub proof fn lemma_backoff_capped(n: nat)
    requires
        backoff_after(n) == MAX_BACKOFF_MS,
    ensures
        backoff_after(n + 1) == MAX_BACKOFF_MS,
{
}

} // verus!
