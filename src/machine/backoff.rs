use vstd::prelude::*;

verus! {

/// The number of retries used when the caller gives none.
pub const DEFAULT_RETRIES: i32 = 5;

/// Something that can block the calling thread for a while: the engine waits
/// through it between retries and in `Sleep` steps.
pub trait Clock {
    /// Blocks for `seconds` seconds.
    fn sleep(&mut self, seconds: u64);
}

/// A fallible operation on some data, which may be attempted several times.
pub trait Operation<T, E> {
    /// Makes one attempt.
    fn attempt(&mut self, data: &mut T) -> Result<(), E>;
}

/// The retry budget for an optional caller-supplied count: the caller's value
/// when there is one, however large, and the default otherwise.
pub open spec fn retry_budget(retries: Option<i32>) -> int {
    match retries {
        Some(n) => n as int,
        None => DEFAULT_RETRIES as int,
    }
}

/// Twice `d` seconds, held at the largest delay a `u64` can give.
pub open spec fn doubled(d: nat) -> nat {
    if 2 * d > u64::MAX {
        u64::MAX as nat
    } else {
        2 * d
    }
}

/// The delay before retry number `k` (from 0): one second, doubled after
/// every failed attempt.
pub open spec fn delay_before_retry(k: nat) -> nat
    decreases k,
{
    if k == 0 {
        1
    } else {
        doubled(delay_before_retry((k - 1) as nat))
    }
}

/// The retries a budget allows: a negative budget allows none.
pub open spec fn allowed(budget: int) -> int {
    if budget < 0 {
        0
    } else {
        budget
    }
}

/// What follows an attempt.
#[derive(Debug, PartialEq, Eq)]
pub enum Next {
    /// The attempt succeeded: its result is the result.
    Done,
    /// The attempt failed and is retried after waiting this many seconds.
    Retry(u64),
    /// The attempt failed and no retry is left: its result is the result.
    GiveUp,
}

/// The schedule of a backoff run: how many retries have been made, how many
/// are allowed, the delay before the next one, and how many attempts have
/// been made.
#[derive(Debug)]
pub struct Backoff {
    /// Retries allowed before the final attempt.
    pub max_retries: i32,
    /// Retries made so far.
    pub retries_done: i32,
    /// Seconds to wait before the next retry.
    pub delay: u64,
    /// Attempts reported so far.
    pub attempts: i64,
    /// Whether the run has ended.
    pub finished: bool,
}

impl Backoff {
    /// The schedule is consistent: the count of retries stays within the
    /// budget, the delay is the one owed after that many failures, and every
    /// attempt but a last one that ended the run was retried.
    pub open spec fn wf(&self) -> bool {
        &&& 0 <= self.retries_done <= allowed(self.max_retries as int)
        &&& self.delay as nat == delay_before_retry(self.retries_done as nat)
        &&& self.attempts == self.retries_done + (if self.finished { 1int } else { 0 })
    }

    /// A fresh schedule for the given optional retry count: the caller's
    /// value when there is one, however large, and five otherwise.
    pub fn new(retries: Option<i32>) -> (b: Backoff)
        ensures
            b.wf(),
            b.max_retries == retry_budget(retries),
            b.retries_done == 0,
            b.delay == 1,
            b.attempts == 0,
            !b.finished,
    {
        let max_retries: i32 = match retries {
            Some(n) => n,
            None => DEFAULT_RETRIES,
        };
        Backoff { max_retries, retries_done: 0, delay: 1, attempts: 0, finished: false }
    }

    /// Whether a failed attempt may still be retried.
    pub fn can_retry(&self) -> (r: bool)
        ensures
            r == (self.retries_done < self.max_retries),
    {
        self.retries_done < self.max_retries
    }

    /// Records the outcome of an attempt and decides what follows: a success
    /// ends the run; a failure is retried after the scheduled delay while
    /// retries are left, the delay doubling for the next one; otherwise the
    /// run ends with that failure.
    pub fn after_attempt(&mut self, succeeded: bool) -> (next: Next)
        requires
            old(self).wf(),
            !old(self).finished,
        ensures
            final(self).wf(),
            final(self).max_retries == old(self).max_retries,
            final(self).attempts == old(self).attempts + 1,
            succeeded ==> next == Next::Done && final(self).finished && final(self).retries_done
                == old(self).retries_done,
            !succeeded && old(self).retries_done < old(self).max_retries ==> {
                &&& next == Next::Retry(old(self).delay)
                &&& old(self).delay as nat == delay_before_retry(old(self).retries_done as nat)
                &&& !final(self).finished
                &&& final(self).retries_done == old(self).retries_done + 1
                &&& final(self).delay as nat == doubled(old(self).delay as nat)
            },
            !succeeded && old(self).retries_done >= old(self).max_retries ==> next == Next::GiveUp
                && final(self).finished && final(self).retries_done == old(self).retries_done,
    {
        if succeeded {
            self.finished = true;
            self.attempts = self.attempts + 1;
            Next::Done
        } else if self.retries_done < self.max_retries {
            let wait = self.delay;
            self.retries_done = self.retries_done + 1;
            self.attempts = self.attempts + 1;
            self.delay = if self.delay > u64::MAX / 2 {
                u64::MAX
            } else {
                self.delay * 2
            };
            Next::Retry(wait)
        } else {
            self.finished = true;
            self.attempts = self.attempts + 1;
            Next::GiveUp
        }
    }
}

/// Invokes `operation` until it succeeds or the schedule's retries are spent,
/// waiting on `clock` for the scheduled delay after each failure; once the
/// retries are spent, one final attempt decides the result. Each attempt is
/// reported to the schedule, which counts it.
pub fn run_with_backoff<T, E, O: Operation<T, E>, C: Clock>(
    operation: &mut O,
    data: &mut T,
    schedule: &mut Backoff,
    clock: &mut C,
) -> (r: Result<(), E>)
    requires
        old(schedule).wf(),
        old(schedule).retries_done == 0,
        !old(schedule).finished,
    ensures
        final(schedule).wf(),
        final(schedule).finished,
        final(schedule).max_retries == old(schedule).max_retries,
        final(schedule).attempts == final(schedule).retries_done + 1,
        r is Err ==> final(schedule).retries_done == allowed(old(schedule).max_retries as int),
        r is Ok ==> final(schedule).retries_done <= allowed(old(schedule).max_retries as int),
{
    loop
        invariant
            schedule.wf(),
            !schedule.finished,
            schedule.max_retries == old(schedule).max_retries,
        decreases allowed(schedule.max_retries as int) - schedule.retries_done,
    {
        let res = operation.attempt(data);
        let ok = res.is_ok();
        match schedule.after_attempt(ok) {
            Next::Done => {
                return res;
            },
            Next::Retry(wait) => {
                clock.sleep(wait);
            },
            Next::GiveUp => {
                return res;
            },
        }
    }
}

/// Retries `operation` with exponential backoff: at most `retries` retries
/// (five when none is given, and the caller's value however large), one
/// second before the first and twice as long before each next one, then one
/// final attempt whose result is returned. The schedule comes back with the
/// result: its `attempts` is how many times the operation ran.
pub fn exponential_backoff<T, E, O: Operation<T, E>, C: Clock>(
    operation: &mut O,
    data: &mut T,
    retries: Option<i32>,
    clock: &mut C,
) -> (r: (Result<(), E>, Backoff))
    ensures
        r.1.wf(),
        r.1.finished,
        r.1.max_retries == retry_budget(retries),
        r.1.attempts == r.1.retries_done + 1,
        r.0 is Err ==> r.1.retries_done == allowed(retry_budget(retries)),
        r.0 is Ok ==> r.1.retries_done <= allowed(retry_budget(retries)),
{
    let mut schedule = Backoff::new(retries);
    let r = run_with_backoff(operation, data, &mut schedule, clock);
    (r, schedule)
}

} // verus!
