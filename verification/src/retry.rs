//! Retry policies and the decision taken after each attempt.
use vstd::prelude::*;
use core::time::Duration;

verus! {

/// What to do between attempts.
#[derive(Clone, Copy, Debug, PartialEq, Eq)]
pub enum RetryDisposition {
    NoRetry,
    LinearDelay(Duration),
}

impl Default for RetryDisposition {
    fn default() -> (r: Self)
        ensures
            r is NoRetry,
    {
        RetryDisposition::NoRetry
    }
}

/// How often to retry, and how to wait in between.
#[derive(Clone, Copy, Debug, PartialEq, Eq)]
pub struct RetrySettings {
    /// Number of retries after the initial call.
    pub max_retries: usize,
    pub disposition: RetryDisposition,
}

impl Default for RetrySettings {
    fn default() -> (r: Self)
        ensures
            r.max_retries == 0,
            r.disposition is NoRetry,
    {
        RetrySettings { max_retries: 0, disposition: RetryDisposition::NoRetry }
    }
}

/// What follows an attempt.
#[derive(Clone, Copy, Debug, PartialEq, Eq)]
pub enum RetryStep {
    /// Return the attempt's result.
    Finish,
    /// Make another attempt at once.
    Retry,
    /// Sleep for the delay, then make another attempt.
    SleepThenRetry(Duration),
}

/// The step that follows an attempt.
pub open spec fn retry_step(settings: RetrySettings, retries_done: nat, wants_retry: bool) -> RetryStep {
    if retries_done >= settings.max_retries || !wants_retry {
        RetryStep::Finish
    } else {
        match settings.disposition {
            RetryDisposition::NoRetry => RetryStep::Retry,
            RetryDisposition::LinearDelay(d) => RetryStep::SleepThenRetry(d),
        }
    }
}

/// Every retry waits as the settings say, however many retries came before:
/// with a linear delay each retry sleeps for that delay first, and without
/// one each retry follows at once; the attempts finish exactly when the
/// retries are used up or the result asks for none.
pub proof fn lemma_every_retry_waits_the_same(settings: RetrySettings, retries_done: nat, wants_retry: bool)
    ensures
        (retry_step(settings, retries_done, wants_retry) is Finish) <==> (retries_done
            >= settings.max_retries || !wants_retry),
        !(retry_step(settings, retries_done, wants_retry) is Finish) ==> match settings.disposition {
            RetryDisposition::NoRetry => retry_step(settings, retries_done, wants_retry) == RetryStep::Retry,
            RetryDisposition::LinearDelay(d) => retry_step(settings, retries_done, wants_retry)
                == RetryStep::SleepThenRetry(d),
        },
{
}

/// The number of attempts made when the results of the attempts ask for a
/// retry as `wants` says, given that `done` retries were made before.
pub open spec fn attempts_from(settings: RetrySettings, wants: Seq<bool>, done: nat) -> nat
    decreases wants.len(),
{
    if wants.len() == 0 {
        0
    } else if retry_step(settings, done, wants[0]) is Finish {
        1
    } else {
        1 + attempts_from(settings, wants.drop_first(), done + 1)
    }
}

/// Attempts stop at the first result that asks for no retry, and never
/// number more than one plus the retries allowed.
pub proof fn lemma_attempts_are_bounded(settings: RetrySettings, wants: Seq<bool>, done: nat)
    requires
        done <= settings.max_retries,
    ensures
        attempts_from(settings, wants, done) <= settings.max_retries - done + 1,
        wants.len() > 0 && !wants[0] ==> attempts_from(settings, wants, done) == 1,
    decreases wants.len(),
{
    if wants.len() > 0 && !(retry_step(settings, done, wants[0]) is Finish) {
        lemma_attempts_are_bounded(settings, wants.drop_first(), done + 1);
    }
}

/// The step after an attempt, given how many retries were already made and
/// whether the attempt's result asks for a retry: finish when the retries
/// are used up or none is wanted, else retry, after the delay when the
/// settings give one.
pub fn next_retry_step(settings: RetrySettings, retries_done: usize, wants_retry: bool) -> (r: RetryStep)
    ensures
        r == retry_step(settings, retries_done as nat, wants_retry),
        (r is Finish) <==> (retries_done >= settings.max_retries || !wants_retry),
        !(r is Finish) && settings.disposition is NoRetry ==> r is Retry,
        !(r is Finish) ==> forall|d: Duration|
            settings.disposition == RetryDisposition::LinearDelay(d) ==> r == RetryStep::SleepThenRetry(d),
{
    if retries_done >= settings.max_retries || !wants_retry {
        return RetryStep::Finish;
    }
    match settings.disposition {
        RetryDisposition::NoRetry => RetryStep::Retry,
        RetryDisposition::LinearDelay(delay) => RetryStep::SleepThenRetry(delay),
    }
}

} // verus!
