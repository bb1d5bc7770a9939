//! Decisions of the scan and delivery workers: when to look again, what to do
//! with a due notification, and how a webhook outcome is recorded.
use vstd::prelude::*;
use crate::discord::Delivery;
use crate::model::{PlannedNotification, Show};
use crate::store::DeliveryState;

verus! {

/// Worker health, reported by the API.
#[derive(Clone, Copy, Debug, PartialEq, Eq, Structural)]
pub struct Health {
    pub last_scan_at: Option<i64>,
    pub last_scan_succeeded: bool,
    pub last_delivery_at: Option<i64>,
}

impl Health {
    /// Nothing scanned or delivered yet.
    pub fn new() -> (h: Health)
        ensures
            h == (Health { last_scan_at: None, last_scan_succeeded: false, last_delivery_at: None }),
    {
        Health { last_scan_at: None, last_scan_succeeded: false, last_delivery_at: None }
    }
}

/// `x` limited to the range of `i64`.
pub open spec fn clamp_i64(x: int) -> i64 {
    if x < i64::MIN {
        i64::MIN
    } else if x > i64::MAX {
        i64::MAX
    } else {
        x as i64
    }
}

fn saturate(x: i128) -> (r: i64)
    ensures
        r == clamp_i64(x as int),
{
    if x < -9223372036854775808i128 {
        i64::MIN
    } else if x > 9223372036854775807i128 {
        i64::MAX
    } else {
        x as i64
    }
}

/// Longest sleep of the delivery worker: wall time is rechecked at least this often.
pub const MAX_WAIT_MS: u64 = 30000;

/// What the delivery worker does next.
#[derive(Clone, Copy, Debug, PartialEq, Eq, Structural)]
pub enum DuePlan {
    /// Sleep this many milliseconds, then look again.
    Wait { ms: u64 },
    /// The notification is due: verify it against Sonarr and deliver it.
    Verify,
}

/// Milliseconds until `due_at` (seconds) from `now_ms`, saturating.
pub open spec fn remaining_ms(due_at: i64, now_ms: i64) -> i64 {
    clamp_i64(clamp_i64(due_at * 1000) - now_ms)
}

/// The next step for the notification due at `due_at` (if any) at `now_ms`:
/// with nothing stored, wait the longest sleep; before the due time, wait until
/// it but never longer than the longest sleep; otherwise verify and deliver.
pub open spec fn spec_due_plan(next_due_at: Option<i64>, now_ms: i64) -> DuePlan {
    match next_due_at {
        None => DuePlan::Wait { ms: MAX_WAIT_MS },
        Some(due_at) => if remaining_ms(due_at, now_ms) > 0 {
            DuePlan::Wait {
                ms: if remaining_ms(due_at, now_ms) < MAX_WAIT_MS {
                    remaining_ms(due_at, now_ms) as u64
                } else {
                    MAX_WAIT_MS
                },
            }
        } else {
            DuePlan::Verify
        },
    }
}

/// Decides the next delivery step; a notification is never sent before its time.
pub fn due_plan(next_due_at: Option<i64>, now_ms: i64) -> (p: DuePlan)
    ensures
        p == spec_due_plan(next_due_at, now_ms),
{
    match next_due_at {
        None => DuePlan::Wait { ms: MAX_WAIT_MS },
        Some(due_at) => {
            let due_ms = saturate((due_at as i128) * 1000);
            let remaining = saturate((due_ms as i128) - (now_ms as i128));
            if remaining > 0 {
                let ms: u64 = if (remaining as u64) < MAX_WAIT_MS {
                    remaining as u64
                } else {
                    MAX_WAIT_MS
                };
                DuePlan::Wait { ms }
            } else {
                DuePlan::Verify
            }
        },
    }
}

/// Seconds a notification is postponed when Sonarr cannot confirm it.
pub const VERIFY_RETRY_SECONDS: i64 = 60;

/// When a notification that Sonarr could not confirm is tried again.
pub fn verification_retry_at(now: i64) -> (t: i64)
    requires
        now <= i64::MAX - VERIFY_RETRY_SECONDS,
    ensures
        t == now + VERIFY_RETRY_SECONDS,
{
    now + VERIFY_RETRY_SECONDS
}

/// Position of the plan with key `key` in a fresh plan, if it is still planned.
pub fn find_plan(plans: &Vec<PlannedNotification>, key: &String) -> (r: Option<usize>)
    ensures
        match r {
            Some(i) => i < plans@.len() && plans@[i as int].key@ == key@ && forall|j: int|
                0 <= j < i ==> (#[trigger] plans@[j]).key@ != key@,
            None => forall|j: int| 0 <= j < plans@.len() ==> (#[trigger] plans@[j]).key@ != key@,
        },
{
    for i in 0..plans.len()
        invariant
            forall|j: int| 0 <= j < i ==> (#[trigger] plans@[j]).key@ != key@,
    {
        if plans[i].key == *key {
            return Some(i);
        }
    }
    None
}

/// What is recorded after a webhook request.
#[derive(Clone, Copy, Debug, PartialEq, Eq, Structural)]
pub enum OutcomeAction {
    /// Finish the reservation in this state.
    Record(DeliveryState),
    /// Release the reservation; the webhook waits until `retry_at`.
    Release { retry_at: i64 },
    /// Disable the webhook and release the reservation for after its repair.
    DisableAndRelease { retry_at: i64 },
}

/// `n` reinterpreted as a signed 64-bit number (`as i64`).
pub open spec fn as_signed(n: u64) -> int {
    if n <= i64::MAX {
        n as int
    } else {
        n - 0x1_0000_0000_0000_0000
    }
}

/// The record of a webhook outcome at `finished`: success, refusal and
/// uncertainty finish the reservation (an uncertain delivery is never retried);
/// a rate limit or a failed connection releases it until the wait is over; a
/// revoked webhook disables delivery and releases it.
pub open spec fn spec_outcome_action(delivery: Delivery, finished: i64) -> OutcomeAction {
    match delivery {
        Delivery::Sent => OutcomeAction::Record(DeliveryState::Sent),
        Delivery::RateLimited { retry_seconds } => OutcomeAction::Release {
            retry_at: clamp_i64(finished + as_signed(retry_seconds)),
        },
        Delivery::Retryable { retry_seconds } => OutcomeAction::Release {
            retry_at: clamp_i64(finished + as_signed(retry_seconds)),
        },
        Delivery::Disabled => OutcomeAction::DisableAndRelease { retry_at: finished },
        Delivery::Rejected => OutcomeAction::Record(DeliveryState::Failed),
        Delivery::Uncertain => OutcomeAction::Record(DeliveryState::Uncertain),
    }
}

fn retry_time(finished: i64, retry_seconds: u64) -> (t: i64)
    ensures
        t == clamp_i64(finished + as_signed(retry_seconds)),
{
    let wait: i128 = if retry_seconds <= 9223372036854775807u64 {
        retry_seconds as i128
    } else {
        (retry_seconds as i128) - 18446744073709551616i128
    };
    saturate((finished as i128) + wait)
}

/// Decides what to record after a webhook request that ended at `finished`.
pub fn outcome_action(delivery: Delivery, finished: i64) -> (a: OutcomeAction)
    ensures
        a == spec_outcome_action(delivery, finished),
{
    match delivery {
        Delivery::Sent => OutcomeAction::Record(DeliveryState::Sent),
        Delivery::RateLimited { retry_seconds } => OutcomeAction::Release {
            retry_at: retry_time(finished, retry_seconds),
        },
        Delivery::Retryable { retry_seconds } => OutcomeAction::Release {
            retry_at: retry_time(finished, retry_seconds),
        },
        Delivery::Disabled => OutcomeAction::DisableAndRelease { retry_at: finished },
        Delivery::Rejected => OutcomeAction::Record(DeliveryState::Failed),
        Delivery::Uncertain => OutcomeAction::Record(DeliveryState::Uncertain),
    }
}

/// The scan worker's failure count and wait (seconds) after a scan: the normal
/// interval after success; after failures an exponential backoff from five
/// seconds, doubling up to eight times, never beyond the interval.
pub open spec fn spec_scan_backoff(succeeded: bool, failures: u32, interval: u64) -> (u32, u64) {
    if succeeded {
        (0, interval)
    } else {
        let f: u32 = if failures == u32::MAX { u32::MAX } else { (failures + 1) as u32 };
        let shift: u64 = if f < 8 { f as u64 } else { 8 };
        let backoff: u64 = (5 * vstd::arithmetic::power2::pow2(shift as nat)) as u64;
        (f, if backoff < interval { backoff } else { interval })
    }
}

/// Decides the scan worker's next wait.
pub fn scan_backoff(succeeded: bool, failures: u32, interval: u64) -> (r: (u32, u64))
    ensures
        r == spec_scan_backoff(succeeded, failures, interval),
{
    if succeeded {
        return (0, interval);
    }
    let f = failures.saturating_add(1);
    let shift: u64 = if f < 8 {
        f as u64
    } else {
        8
    };
    let mut backoff: u64 = 5;
    let mut k: u64 = 0;
    proof {
        vstd::arithmetic::power2::lemma2_to64();
    }
    while k < shift
        invariant
            k <= shift <= 8,
            backoff == 5 * vstd::arithmetic::power2::pow2(k as nat),
        decreases shift - k,
    {
        proof {
            vstd::arithmetic::power2::lemma_pow2_unfold((k + 1) as nat);
            vstd::arithmetic::power2::lemma_pow2_strictly_increases(k as nat, 8);
            vstd::arithmetic::power2::lemma2_to64();
        }
        backoff = backoff * 2;
        k = k + 1;
    }
    (f, if backoff < interval {
        backoff
    } else {
        interval
    })
}

/// Whether the show `id` is excluded from notifications.
pub fn is_excluded(shows: &[Show], id: i64) -> (r: bool)
    ensures
        r == exists|i: int| 0 <= i < shows@.len() && (#[trigger] shows@[i]).id == id && shows@[i].excluded,
{
    for i in 0..shows.len()
        invariant
            forall|j: int| 0 <= j < i ==> !((#[trigger] shows@[j]).id == id && shows@[j].excluded),
    {
        if shows[i].id == id && shows[i].excluded {
            assert(shows@[i as int].id == id);
            return true;
        }
    }
    false
}

} // verus!
