use vstd::prelude::*;

use crate::error::ProtoErrorKind;

verus! {

/// How the wait between two attempts grows.
#[derive(Clone, Copy, Debug, PartialEq, Eq, Structural)]
pub enum DelayPolicy {
    /// The same delay before every retry.
    Fixed,
    /// The delay doubles with every retry, saturating at the largest `u64`.
    Exponential,
}

/// The configuration of a retry wrapper.
#[derive(Clone, Copy, Debug, PartialEq, Eq, Structural)]
pub struct RetryPolicy {
    /// How many times a query is sent at most, the first time included.
    pub max_attempts: u32,
    /// The delay before the first retry, in milliseconds.
    pub base_delay_ms: u64,
    pub delay: DelayPolicy,
    /// Whether a truncated datagram response is retried (over a stream
    /// transport, at the surrounding resolver's choice) rather than returned.
    pub retry_truncated: bool,
}

/// How one attempt ended.
#[derive(Clone, Copy, Debug, PartialEq, Eq, Structural)]
pub enum Outcome {
    /// A well-formed response, whatever its response code.
    Response { truncated: bool },
    /// The attempt failed.
    Failure(ProtoErrorKind),
}

/// What the wrapper does next.
#[derive(Clone, Copy, Debug, PartialEq, Eq, Structural)]
pub enum RetryAction {
    /// Wait this long, then send again under a fresh transaction ID.
    Resend { delay_ms: u64 },
    /// Hand the outcome of the last attempt to the caller.
    Return,
}

/// `base` doubled `k` times, saturating at the largest `u64`.
pub open spec fn doubled(base: u64, k: nat) -> u64
    decreases k,
{
    if k == 0 {
        base
    } else if doubled(base, (k - 1) as nat) > u64::MAX / 2 {
        u64::MAX
    } else {
        (doubled(base, (k - 1) as nat) * 2) as u64
    }
}

/// The wait before the retry that follows attempt number `attempts`.
pub open spec fn backoff(p: RetryPolicy, attempts: nat) -> u64 {
    match p.delay {
        DelayPolicy::Fixed => p.base_delay_ms,
        DelayPolicy::Exponential => doubled(p.base_delay_ms, if attempts == 0 { 0 } else { (attempts - 1) as nat }),
    }
}

/// Timeouts and transport failures are retried, and truncated responses
/// where the policy says so; any other response is authoritative.
pub open spec fn retryable(p: RetryPolicy, o: Outcome) -> bool {
    match o {
        Outcome::Response { truncated } => truncated && p.retry_truncated,
        Outcome::Failure(k) => k.spec_is_retryable(),
    }
}

/// After `attempts` sends ended in `o`: retry while the budget lasts.
pub open spec fn decide_spec(p: RetryPolicy, attempts: nat, o: Outcome) -> RetryAction {
    if retryable(p, o) && attempts < p.max_attempts {
        RetryAction::Resend { delay_ms: backoff(p, attempts) }
    } else {
        RetryAction::Return
    }
}

/// The state of one query under a retry wrapper: its policy and the
/// transaction IDs it has been sent under, one per attempt.
pub struct RetryState {
    policy: RetryPolicy,
    used_ids: Vec<u16>,
}

pub open spec fn distinct(s: Seq<u16>) -> bool {
    forall|i: int, j: int| 0 <= i < s.len() && 0 <= j < s.len() && i != j ==> s[i] != s[j]
}

impl RetryState {
    pub closed spec fn spec_policy(&self) -> RetryPolicy {
        self.policy
    }

    /// The IDs used so far, in the order of the attempts.
    pub closed spec fn spec_ids(&self) -> Seq<u16> {
        self.used_ids@
    }

    /// No ID serves two attempts, and there were no more attempts than the
    /// policy allows.
    pub open spec fn wf(&self) -> bool {
        distinct(self.spec_ids()) && self.spec_ids().len() <= self.spec_policy().max_attempts
    }

    pub fn new(policy: RetryPolicy) -> (r: RetryState)
        ensures
            r.wf(),
            r.spec_policy() == policy,
            r.spec_ids() == Seq::<u16>::empty(),
    {
        RetryState { policy, used_ids: Vec::new() }
    }

    /// The IDs used so far; a fresh one is allocated avoiding them, so that
    /// no attempt can be answered by a stale response to another.
    pub fn used_ids(&self) -> (r: &Vec<u16>)
        ensures
            r@ == self.spec_ids(),
    {
        &self.used_ids
    }

    pub fn attempts(&self) -> (r: usize)
        ensures
            r == self.spec_ids().len(),
    {
        self.used_ids.len()
    }

    /// Whether the budget allows one more send.
    pub fn can_send(&self) -> (r: bool)
        ensures
            r == (self.spec_ids().len() < self.spec_policy().max_attempts),
    {
        self.used_ids.len() < self.policy.max_attempts as usize
    }

    /// Records a send under `id`, which no earlier attempt used.
    pub fn record_send(&mut self, id: u16)
        requires
            old(self).wf(),
            old(self).spec_ids().len() < old(self).spec_policy().max_attempts,
            !old(self).spec_ids().contains(id),
        ensures
            final(self).wf(),
            final(self).spec_policy() == old(self).spec_policy(),
            final(self).spec_ids() == old(self).spec_ids().push(id),
    {
        self.used_ids.push(id);
        proof {
            assert forall|i: int, j: int|
                0 <= i < self.used_ids@.len() && 0 <= j < self.used_ids@.len() && i != j implies self.used_ids@[i]
                != self.used_ids@[j] by {
                if i == self.used_ids@.len() - 1 {
                    assert(old(self).spec_ids()[j] == self.used_ids@[j]);
                } else if j == self.used_ids@.len() - 1 {
                    assert(old(self).spec_ids()[i] == self.used_ids@[i]);
                }
            }
        }
    }

    /// What to do after the latest attempt ended in `o`.
    pub fn decide(&self, o: &Outcome) -> (r: RetryAction)
        ensures
            r == decide_spec(self.spec_policy(), self.spec_ids().len(), *o),
    {
        let retry = match o {
            Outcome::Response { truncated } => *truncated && self.policy.retry_truncated,
            Outcome::Failure(k) => k.is_retryable(),
        };
        if retry && self.used_ids.len() < self.policy.max_attempts as usize {
            RetryAction::Resend { delay_ms: self.delay_after(self.used_ids.len()) }
        } else {
            RetryAction::Return
        }
    }

    fn delay_after(&self, attempts: usize) -> (r: u64)
        ensures
            r == backoff(self.policy, attempts as nat),
    {
        match self.policy.delay {
            DelayPolicy::Fixed => self.policy.base_delay_ms,
            DelayPolicy::Exponential => {
                let k: usize = if attempts == 0 { 0 } else { attempts - 1 };
                let mut d: u64 = self.policy.base_delay_ms;
                let mut i: usize = 0;
                while i < k
                    invariant
                        i <= k,
                        d == doubled(self.policy.base_delay_ms, i as nat),
                    decreases k - i,
                {
                    d = if d > u64::MAX / 2 { u64::MAX } else { d * 2 };
                    i = i + 1;
                }
                d
            },
        }
    }
}

/// Against an inner handle that always times out, a wrapper allowed `m`
/// attempts resends after each of the first `m - 1` and returns the timeout
/// after the `m`-th: exactly `m` sends, each under its own ID.
pub proof fn lemma_retry_bound(s: RetryState, m: u32)
    requires
        s.wf(),
        s.spec_policy().max_attempts == m,
        m >= 1,
    ensures
        forall|a: nat|
            a < m ==> #[trigger] decide_spec(s.spec_policy(), a, Outcome::Failure(ProtoErrorKind::Timeout))
                is Resend,
        decide_spec(s.spec_policy(), m as nat, Outcome::Failure(ProtoErrorKind::Timeout))
            is Return,
        distinct(s.spec_ids()),
        s.spec_ids().len() <= m,
{
}

/// A well-formed response is never retried unless it is truncated and the
/// policy retries truncation: its response code, error or not, is the answer.
pub proof fn lemma_response_not_retried(p: RetryPolicy, attempts: nat, truncated: bool)
    requires
        !(truncated && p.retry_truncated),
    ensures
        decide_spec(p, attempts, Outcome::Response { truncated }) is Return,
{
}

} // verus!
