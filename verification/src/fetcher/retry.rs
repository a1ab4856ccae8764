//! Trying a segment again.
use crate::error::Error;
use crate::text::{all_digits, decimal, law_decimal_notation, to_decimal, value_of};
use vstd::arithmetic::power2::pow2;
use vstd::prelude::*;
use vstd::string::StringExecFns;

verus! {

/// The last attempt whose backoff can be counted in 64 bits.
pub const MAX_BACKOFF_ATTEMPT: usize = 56;

/// How long to wait after the failed attempt number `attempt`, counted from zero, in
/// milliseconds: a quarter of a second at first, and twice as long each time.
pub open spec fn backoff_ms(attempt: nat) -> nat {
    250 * pow2(attempt)
}

/// How long to wait after a failed attempt, in milliseconds.
pub fn backoff(attempt: usize) -> (res: u64)
    requires
        attempt <= MAX_BACKOFF_ATTEMPT,
    ensures
        res == backoff_ms(attempt as nat),
{
    proof {
        vstd::arithmetic::power2::lemma2_to64();
        vstd::arithmetic::power2::lemma2_to64_rest();
        lemma_pow2_grows(attempt as nat, 56);
    }
    let mut factor: u64 = 1;
    let mut i: usize = 0;
    while i < attempt
        invariant
            i <= attempt <= MAX_BACKOFF_ATTEMPT,
            factor == pow2(i as nat),
            pow2(56) == 0x100_0000_0000_0000,
        decreases attempt - i,
    {
        proof {
            vstd::arithmetic::power2::lemma_pow2_unfold((i + 1) as nat);
            lemma_pow2_grows((i + 1) as nat, 56);
        }
        factor = factor * 2;
        i = i + 1;
    }
    250 * factor
}

proof fn lemma_pow2_grows(a: nat, b: nat)
    requires
        a <= b,
    ensures
        pow2(a) <= pow2(b),
{
    if a < b {
        vstd::arithmetic::power2::lemma_pow2_strictly_increases(a, b);
    }
}

/// The attempts at one segment.
#[derive(Debug, Clone, Copy, PartialEq, Eq, Structural)]
pub struct RetryLoop {
    /// How many attempts have failed.
    pub attempt: usize,
    /// How many attempts there are.
    pub retry_attempts: usize,
}

/// The attempts at one segment after one of them has failed. The failure of the last one
/// ends them.
pub open spec fn after_failure(r: RetryLoop) -> RetryLoop {
    RetryLoop { attempt: (r.attempt + 1) as usize, ..r }
}

/// What is said of a segment that so many attempts did not bring.
pub open spec fn exhausted_text(retry_attempts: nat) -> Seq<char> {
    "Failed to download segment after "@ + decimal(retry_attempts) + " attempts"@
}

impl RetryLoop {
    /// The attempts at a segment of which none was made yet.
    pub fn new(retry_attempts: usize) -> (res: Self)
        ensures
            res.attempt == 0,
            res.retry_attempts == retry_attempts,
    {
        RetryLoop { attempt: 0, retry_attempts }
    }

    /// Whether a further attempt may be made.
    pub fn may_try(&self) -> (res: bool)
        ensures
            res == (self.attempt < self.retry_attempts),
    {
        self.attempt < self.retry_attempts
    }

    /// Notes that an attempt has failed. Gives how long to wait before the next one, in
    /// milliseconds, or `None` if that was the last.
    pub fn failed(&mut self) -> (res: Option<u64>)
        requires
            old(self).attempt < old(self).retry_attempts,
            old(self).attempt + 1 < old(self).retry_attempts ==> old(self).attempt
                <= MAX_BACKOFF_ATTEMPT,
        ensures
            *final(self) == after_failure(*old(self)),
            if old(self).attempt + 1 < old(self).retry_attempts {
                res matches Some(ms) && ms == backoff_ms(old(self).attempt as nat)
            } else {
                res is None
            },
    {
        let attempt = self.attempt;
        self.attempt = attempt + 1;
        if attempt < self.retry_attempts - 1 {
            Some(backoff(attempt))
        } else {
            None
        }
    }

    /// What is to be said when no attempt may be made and none has given an error.
    pub fn exhausted(&self) -> (res: Error)
        ensures
            res matches Error::Unknown(text) && text@ == exhausted_text(
                self.retry_attempts as nat,
            ),
    {
        let mut text = "Failed to download segment after ".to_string();
        text.append(to_decimal(self.retry_attempts as u64).as_str());
        text.append(" attempts");
        Error::Unknown(text)
    }
}

/// The attempts at one segment after so many of them have failed.
pub open spec fn after_failures(r: RetryLoop, failures: nat) -> RetryLoop
    decreases failures,
{
    if failures == 0 {
        r
    } else {
        after_failure(after_failures(r, (failures - 1) as nat))
    }
}

/// A segment is tried as often as was asked for, and no more: after `failures` failed
/// attempts a further one may be made if and only if there were fewer than that.
pub proof fn law_attempts_are_counted(r: RetryLoop, failures: nat)
    requires
        r.attempt == 0,
        failures <= r.retry_attempts,
    ensures
        after_failures(r, failures).attempt == failures,
        after_failures(r, failures).retry_attempts == r.retry_attempts,
        after_failures(r, failures).attempt < r.retry_attempts <==> failures < r.retry_attempts,
    decreases failures,
{
    if failures > 0 {
        law_attempts_are_counted(r, (failures - 1) as nat);
    }
}

/// The wait doubles from one failure to the next.
pub proof fn law_backoff_doubles(attempt: nat)
    ensures
        backoff_ms(0) == 250,
        backoff_ms(attempt + 1) == 2 * backoff_ms(attempt),
{
    vstd::arithmetic::power2::lemma2_to64();
    vstd::arithmetic::power2::lemma_pow2_unfold(attempt + 1);
}

/// How long all waits up to `failures` failures take, in milliseconds.
pub open spec fn total_wait_ms(failures: nat) -> nat
    decreases failures,
{
    if failures == 0 {
        0
    } else {
        total_wait_ms((failures - 1) as nat) + backoff_ms((failures - 1) as nat)
    }
}

/// All waits before an attempt together are a quarter of a second shorter than the wait
/// after it.
pub proof fn law_total_wait(failures: nat)
    ensures
        total_wait_ms(failures) + 250 == backoff_ms(failures),
    decreases failures,
{
    law_backoff_doubles(0);
    if failures > 0 {
        law_total_wait((failures - 1) as nat);
        law_backoff_doubles((failures - 1) as nat);
    }
}

/// What is said of a segment that was given up names the number of attempts.
pub proof fn law_exhausted_text(retry_attempts: nat)
    ensures
        ({
            let text = exhausted_text(retry_attempts);
            &&& text.len() > 42
            &&& text.take(33) == "Failed to download segment after "@
            &&& text.skip(text.len() - 9) == " attempts"@
            &&& all_digits(text.subrange(33, text.len() - 9))
            &&& value_of(text.subrange(33, text.len() - 9)) == retry_attempts
        }),
{
    let text = exhausted_text(retry_attempts);
    law_decimal_notation(retry_attempts);
    reveal_strlit("Failed to download segment after ");
    reveal_strlit(" attempts");
    assert(text.take(33) =~= "Failed to download segment after "@);
    assert(text.skip(text.len() - 9) =~= " attempts"@);
    assert(text.subrange(33, text.len() - 9) =~= decimal(retry_attempts));
}

} // verus!
