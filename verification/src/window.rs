//! The log of one counter: when its requests were admitted, in nanoseconds.

use std::collections::VecDeque;
use vstd::prelude::*;

verus! {

/// Nanoseconds in a second.
pub const NANOS: u128 = 1_000_000_000;

/// The nanoseconds from `t` to `now`, zero where `t` is still to come.
pub open spec fn elapsed(now: u128, t: u128) -> nat {
    if now >= t {
        (now - t) as nat
    } else {
        0
    }
}

/// Whether a request admitted at `t` has left the window that ends at `now`.
pub open spec fn expired(now: u128, t: u128, window_secs: u64) -> bool {
    elapsed(now, t) >= window_secs * NANOS
}

/// The log without the expired requests at its front.
pub open spec fn live(log: Seq<u128>, now: u128, window_secs: u64) -> Seq<u128>
    decreases log.len(),
{
    if log.len() > 0 && expired(now, log[0], window_secs) {
        live(log.skip(1), now, window_secs)
    } else {
        log
    }
}

/// Whether the rule admits one more request at `now`.
pub open spec fn has_room(log: Seq<u128>, now: u128, limit: u32, window_secs: u64) -> bool {
    live(log, now, window_secs).len() < limit
}

/// The log after a request at `now`: the expired requests are gone, and the new one
/// is recorded if and only if it is admitted.
pub open spec fn checked(log: Seq<u128>, now: u128, limit: u32, window_secs: u64) -> Seq<u128> {
    if has_room(log, now, limit, window_secs) {
        live(log, now, window_secs).push(now)
    } else {
        live(log, now, window_secs)
    }
}

/// Whole seconds until the oldest request of the log leaves the window; zero for an
/// empty log.
pub open spec fn reset_after(log: Seq<u128>, now: u128, window_secs: u64) -> nat {
    if log.len() == 0 {
        0
    } else {
        let passed = elapsed(now, log[0]) / (NANOS as nat);
        if passed >= window_secs {
            0
        } else {
            (window_secs - passed) as nat
        }
    }
}

/// What `count` requests leave of `limit`.
pub open spec fn remaining_of(limit: u32, count: nat) -> nat {
    if count >= limit {
        0
    } else {
        (limit - count) as nat
    }
}

/// Dropping the expired requests twice drops no more than once.
pub proof fn live_is_stable(log: Seq<u128>, now: u128, window_secs: u64)
    ensures
        live(live(log, now, window_secs), now, window_secs) == live(log, now, window_secs),
    decreases log.len(),
{
    if log.len() > 0 && expired(now, log[0], window_secs) {
        live_is_stable(log.skip(1), now, window_secs);
    }
}

fn is_expired(now: u128, t: u128, window_secs: u64) -> (gone: bool)
    ensures
        gone == expired(now, t, window_secs),
{
    let window: u128 = (window_secs as u128) * NANOS;
    if now >= t {
        now - t >= window
    } else {
        0 >= window
    }
}

/// Drops the expired requests at the front of the log.
pub fn drop_expired(log: &mut VecDeque<u128>, now: u128, window_secs: u64)
    ensures
        final(log)@ == live(old(log)@, now, window_secs),
{
    while log.len() > 0 && is_expired(now, log[0], window_secs)
        invariant
            live(log@, now, window_secs) == live(old(log)@, now, window_secs),
        decreases log@.len(),
    {
        let ghost before = log@;
        let _ = log.pop_front();
        proof {
            assert(log@ =~= before.skip(1));
        }
    }
}

/// Whole seconds until the oldest request of the log leaves the window.
pub fn reset_after_secs(log: &VecDeque<u128>, now: u128, window_secs: u64) -> (secs: u64)
    ensures
        secs as nat == reset_after(log@, now, window_secs),
        log@.len() == 0 ==> secs == 0,
        log@.len() > 0 && log@[0] <= now ==> {
            let age = now - log@[0];
            &&& age + secs * 1_000_000_000 >= window_secs * 1_000_000_000
            &&& secs > 0 ==> age + (secs - 1) * 1_000_000_000 < window_secs * 1_000_000_000
        },
{
    if log.len() == 0 {
        return 0;
    }
    let oldest: u128 = log[0];
    let passed: u128 = if now >= oldest {
        (now - oldest) / NANOS
    } else {
        0
    };
    if passed >= window_secs as u128 {
        0
    } else {
        (window_secs as u128 - passed) as u64
    }
}

/// What `count` requests leave of `limit`.
pub fn remaining_after(limit: u32, count: usize) -> (left: u32)
    ensures
        left as nat == remaining_of(limit, count as nat),
{
    if count as u64 >= limit as u64 {
        0
    } else {
        limit - count as u32
    }
}

/// Whether the log is in order of time and ends no later than `now`.
pub open spec fn in_order(log: Seq<u128>, now: u128) -> bool {
    &&& forall|i: int, j: int| 0 <= i <= j < log.len() ==> log[i] <= log[j]
    &&& forall|i: int| 0 <= i < log.len() ==> log[i] <= now
}

/// Dropping expired requests and recording a new one keep a log in order.
pub proof fn live_keeps_order(log: Seq<u128>, earlier: u128, now: u128, window_secs: u64)
    requires
        in_order(log, earlier),
        earlier <= now,
    ensures
        in_order(live(log, now, window_secs), now),
        in_order(live(log, now, window_secs).push(now), now),
    decreases log.len(),
{
    if log.len() > 0 && expired(now, log[0], window_secs) {
        live_keeps_order(log.skip(1), earlier, now, window_secs);
    }
}

} // verus!
