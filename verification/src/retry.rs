//! Retrying a request with exponential backoff and jitter.
use vstd::prelude::*;

use crate::pause::{backoff, backoff_pause, law_backoff_in_milliseconds, Pause};

verus! {

/// What to do after an attempt.
#[derive(Debug)]
pub enum RetryStep<T, E> {
    /// Return the outcome.
    Return(Result<T, E>),
    /// Wait, then try again; `error` is what this attempt failed with.
    Retry { error: E, pause: Pause },
}

/// What to do after an attempt that came after `attempt` failed ones: a success is returned, and so is a
/// failure after which no retry is left. Otherwise the next attempt comes after a backoff.
pub open spec fn retry_step<T, E>(attempt: nat, outcome: Result<T, E>, max_retries: nat) -> RetryStep<T, E> {
    match outcome {
        Ok(value) => RetryStep::Return(Ok(value)),
        Err(error) => if attempt < max_retries {
            RetryStep::Retry { error, pause: backoff(attempt) }
        } else {
            RetryStep::Return(Err(error))
        },
    }
}

/// One turn of retrying an operation on some state: says what to do after the attempt that came out as
/// `outcome`. The state is the operation's own; what to do does not depend on it.
///
/// `attempt` counts the failed attempts that are retried. It starts at 0.
pub fn retry_with_backoff<T, E>(
    attempt: &mut usize,
    outcome: Result<T, E>,
    max_retries: usize,
) -> (step: RetryStep<T, E>)
    ensures
        step == retry_step(*old(attempt) as nat, outcome, max_retries as nat),
        *final(attempt) == if step is Retry { *old(attempt) + 1 } else { *old(attempt) as int },
        step matches RetryStep::Retry { pause, .. } ==> pause.wf(),
{
    match outcome {
        Ok(value) => RetryStep::Return(Ok(value)),
        Err(error) => {
            if *attempt < max_retries {
                let failures: usize = *attempt;
                *attempt = failures + 1;
                RetryStep::Retry { error, pause: backoff_pause(failures as u64) }
            } else {
                RetryStep::Return(Err(error))
            }
        },
    }
}

/// One turn of retrying an operation that has no state: see [`retry_with_backoff`].
pub fn retry_with_backoff_no_state<T, E>(
    attempt: &mut usize,
    outcome: Result<T, E>,
    max_retries: usize,
) -> (step: RetryStep<T, E>)
    ensures
        step == retry_step(*old(attempt) as nat, outcome, max_retries as nat),
        *final(attempt) == if step is Retry { *old(attempt) + 1 } else { *old(attempt) as int },
        step matches RetryStep::Retry { pause, .. } ==> pause.wf(),
{
    retry_with_backoff(attempt, outcome, max_retries)
}

/// What retrying an operation returns, and after how many attempts, if the attempts from `attempt` on come
/// out as `outcomes`. `None` if the outcomes do not suffice.
pub open spec fn retried<T, E>(outcomes: Seq<Result<T, E>>, attempt: nat, max_retries: nat) -> Option<
    (Result<T, E>, nat),
>
    decreases outcomes.len() - attempt,
{
    if attempt >= outcomes.len() {
        None
    } else {
        match retry_step(attempt, outcomes[attempt as int], max_retries) {
            RetryStep::Return(result) => Some((result, attempt + 1)),
            RetryStep::Retry { .. } => retried(outcomes, attempt + 1, max_retries),
        }
    }
}

/// Attempt `i` is the first that succeeds.
pub open spec fn first_success<T, E>(outcomes: Seq<Result<T, E>>, i: int) -> bool {
    &&& 0 <= i < outcomes.len()
    &&& outcomes[i] is Ok
    &&& forall|j: int| 0 <= j < i ==> (#[trigger] outcomes[j]) is Err
}

proof fn lemma_retried_from<T, E>(outcomes: Seq<Result<T, E>>, attempt: nat, max_retries: nat)
    requires
        attempt <= max_retries < outcomes.len(),
        forall|j: int| 0 <= j < attempt ==> (#[trigger] outcomes[j]) is Err,
    ensures
        retried(outcomes, attempt, max_retries) matches Some((result, attempts)) && {
            &&& attempt < attempts <= max_retries + 1
            &&& result == outcomes[attempts - 1]
            &&& if result is Ok {
                first_success(outcomes, attempts - 1)
            } else {
                &&& attempts == max_retries + 1
                &&& forall|j: int| 0 <= j <= max_retries ==> (#[trigger] outcomes[j]) is Err
            }
        },
    decreases max_retries - attempt,
{
    if outcomes[attempt as int] is Err && attempt < max_retries {
        lemma_retried_from(outcomes, attempt + 1, max_retries);
    }
}

/// Retrying makes at most one attempt more than there are retries. It returns the first success among
/// them, or, if there is none, the error of the last attempt.
pub proof fn law_retries_are_bounded<T, E>(outcomes: Seq<Result<T, E>>, max_retries: nat)
    requires
        max_retries < outcomes.len(),
    ensures
        retried(outcomes, 0, max_retries) matches Some((result, attempts)) && {
            &&& 0 < attempts <= max_retries + 1
            &&& result == outcomes[attempts - 1]
            &&& if result is Ok {
                first_success(outcomes, attempts - 1)
            } else {
                &&& attempts == max_retries + 1
                &&& forall|j: int| 0 <= j <= max_retries ==> (#[trigger] outcomes[j]) is Err
            }
        },
{
    lemma_retried_from(outcomes, 0, max_retries);
}

/// A success is returned at once. A failure is returned when no retry is left; otherwise the next attempt comes
/// after a pause of 200 ms at first, doubled with each failure up to 12.8 s, to which up to 199 ms are added.
pub proof fn law_retries_back_off<T, E>(attempt: nat, value: T, error: E, max_retries: nat)
    ensures
        retry_step::<T, E>(attempt, Ok(value), max_retries) == RetryStep::<T, E>::Return(Ok(value)),
        attempt >= max_retries ==> retry_step::<T, E>(attempt, Err(error), max_retries) == RetryStep::<
            T,
            E,
        >::Return(Err(error)),
        attempt < max_retries ==> {
            &&& retry_step::<T, E>(attempt, Err(error), max_retries) matches RetryStep::Retry {
                error: kept,
                pause,
            } && {
                &&& kept == error
                &&& pause.max_ms == pause.min_ms + 199
                &&& attempt == 0 ==> pause.min_ms == 200
                &&& attempt > 0 ==> (retry_step::<T, E>((attempt - 1) as nat, Err(error), max_retries)
                    matches RetryStep::Retry { pause: before, .. } && pause.min_ms == if before.min_ms
                    < 12_800 {
                    2 * before.min_ms
                } else {
                    12_800
                })
            }
        },
{
    law_backoff_in_milliseconds(attempt);
    if attempt > 0 {
        law_backoff_in_milliseconds((attempt - 1) as nat);
    }
}

} // verus!
