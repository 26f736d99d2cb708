//! What the log of one counter guarantees over time.

use crate::window;
use vstd::prelude::*;

verus! {

/// Whether the times never decrease.
pub open spec fn never_decreasing(times: Seq<u128>) -> bool {
    forall|i: int, j: int| 0 <= i <= j < times.len() ==> times[i] <= times[j]
}

/// The log after one check of the rule at each of the times, from an empty log.
pub open spec fn log_after(times: Seq<u128>, limit: u32, window_secs: u64) -> Seq<u128>
    decreases times.len(),
{
    if times.len() == 0 {
        Seq::empty()
    } else {
        window::checked(
            log_after(times.drop_last(), limit, window_secs),
            times.last(),
            limit,
            window_secs,
        )
    }
}

/// Whether the request at the position `i` is admitted.
pub open spec fn admits(times: Seq<u128>, i: int, limit: u32, window_secs: u64) -> bool {
    window::has_room(log_after(times.take(i), limit, window_secs), times[i], limit, window_secs)
}

/// The times at which a request is admitted.
pub open spec fn admitted(times: Seq<u128>, limit: u32, window_secs: u64) -> Seq<u128>
    decreases times.len(),
{
    if times.len() == 0 {
        Seq::empty()
    } else {
        let before = admitted(times.drop_last(), limit, window_secs);
        if window::has_room(
            log_after(times.drop_last(), limit, window_secs),
            times.last(),
            limit,
            window_secs,
        ) {
            before.push(times.last())
        } else {
            before
        }
    }
}

/// Whether every one of the first `n` times has expired at `now`.
spec fn first_expired(times: Seq<u128>, n: int, now: u128, window_secs: u64) -> bool {
    forall|i: int| 0 <= i < n ==> window::expired(now, #[trigger] times[i], window_secs)
}

proof fn live_is_suffix(log: Seq<u128>, now: u128, window_secs: u64) -> (k: int)
    ensures
        0 <= k <= log.len(),
        window::live(log, now, window_secs) == log.skip(k),
        first_expired(log, k, now, window_secs),
    decreases log.len(),
{
    if log.len() > 0 && window::expired(now, log[0], window_secs) {
        let k = live_is_suffix(log.skip(1), now, window_secs);
        assert(log.skip(1).skip(k) =~= log.skip(k + 1));
        assert forall|i: int| 0 <= i < k + 1 implies window::expired(
            now,
            #[trigger] log[i],
            window_secs,
        ) by {
            if i > 0 {
                assert(log[i] == log.skip(1)[i - 1]);
            }
        }
        k + 1
    } else {
        assert(log.skip(0) =~= log);
        0
    }
}

/// The log is what is left of the admitted times: a suffix, all before it expired.
proof fn log_is_recent(times: Seq<u128>, limit: u32, window_secs: u64) -> (k: int)
    requires
        never_decreasing(times),
    ensures
        ({
            let all = admitted(times, limit, window_secs);
            &&& 0 <= k <= all.len()
            &&& log_after(times, limit, window_secs) == all.skip(k)
            &&& times.len() > 0 ==> first_expired(all, k, times.last(), window_secs)
            &&& times.len() == 0 ==> k == 0
            &&& never_decreasing(all)
            &&& forall|i: int| 0 <= i < all.len() ==> all[i] <= times.last()
        }),
    decreases times.len(),
{
    let all = admitted(times, limit, window_secs);
    if times.len() == 0 {
        assert(all.skip(0) =~= all);
        0
    } else {
        let earlier = times.drop_last();
        let now = times.last();
        let k0 = log_is_recent(earlier, limit, window_secs);
        let before = admitted(earlier, limit, window_secs);
        let log = log_after(earlier, limit, window_secs);
        let d = live_is_suffix(log, now, window_secs);
        let k = k0 + d;
        assert(log.skip(d) =~= before.skip(k));
        assert(earlier.len() > 0 ==> earlier.last() <= now);
        assert forall|i: int| 0 <= i < k implies window::expired(
            now,
            #[trigger] before[i],
            window_secs,
        ) by {
            if i < k0 {
                assert(window::expired(earlier.last(), before[i], window_secs));
            } else {
                assert(before[i] == log[i - k0]);
            }
        }
        if window::has_room(log, now, limit, window_secs) {
            assert(all.skip(k) =~= before.skip(k).push(now));
            assert forall|i: int| 0 <= i < k implies window::expired(
                now,
                #[trigger] all[i],
                window_secs,
            ) by {
                assert(all[i] == before[i]);
            }
        }
        k
    }
}

/// The sliding window holds at all times: of any `limit + 1` admitted requests in a
/// row the last comes at least a whole window after the first, so that no window of
/// time ever holds more than `limit` of them.
pub proof fn window_never_holds_more_than_limit(times: Seq<u128>, limit: u32, window_secs: u64)
    requires
        never_decreasing(times),
    ensures
        forall|j: int|
            0 <= j && j + limit < admitted(times, limit, window_secs).len() ==> (
            #[trigger] admitted(times, limit, window_secs)[j + limit]) - admitted(
                times,
                limit,
                window_secs,
            )[j] >= window_secs * window::NANOS,
    decreases times.len(),
{
    let all = admitted(times, limit, window_secs);
    if times.len() > 0 {
        let earlier = times.drop_last();
        let now = times.last();
        let before = admitted(earlier, limit, window_secs);
        let log = log_after(earlier, limit, window_secs);
        window_never_holds_more_than_limit(earlier, limit, window_secs);
        assert forall|j: int| 0 <= j && j + limit < all.len() implies (
        #[trigger] all[j + limit]) - all[j] >= window_secs * window::NANOS by {
            if window::has_room(log, now, limit, window_secs) && j + limit == before.len() {
                let k0 = log_is_recent(earlier, limit, window_secs);
                let d = live_is_suffix(log, now, window_secs);
                assert(log.len() == before.len() - k0);
                assert(j < k0 + d);
                if j < k0 {
                    assert(window::expired(earlier.last(), before[j], window_secs));
                    assert(before[j] <= earlier.last());
                } else {
                    assert(before[j] == log[j - k0]);
                    assert(window::expired(now, log[j - k0], window_secs));
                }
                assert(before[j] <= now);
            } else {
                assert(before[j + limit] - before[j] >= window_secs * window::NANOS);
            }
        }
    }
}

/// Within one window exactly the first `limit` requests are admitted.
pub proof fn first_limit_requests_pass(times: Seq<u128>, i: int, limit: u32, window_secs: u64)
    requires
        never_decreasing(times),
        0 <= i < times.len(),
        times[i] - times[0] < window_secs * window::NANOS,
    ensures
        admits(times, i, limit, window_secs) == (i < limit),
{
    fills_up(times.take(i), limit, window_secs, times[0]);
    let log = log_after(times.take(i), limit, window_secs);
    if i > 0 {
        assert(times.take(i)[0] == times[0]);
    }
    nothing_expires(log, times[i], window_secs);
}

proof fn nothing_expires(log: Seq<u128>, now: u128, window_secs: u64)
    requires
        log.len() > 0 ==> !window::expired(now, log[0], window_secs),
    ensures
        window::live(log, now, window_secs) == log,
{
}

proof fn fills_up(times: Seq<u128>, limit: u32, window_secs: u64, first: u128)
    requires
        never_decreasing(times),
        times.len() > 0 ==> first == times[0] && times.last() - first < window_secs
            * window::NANOS,
    ensures
        ({
            let log = log_after(times, limit, window_secs);
            &&& log.len() == if times.len() <= limit {
                times.len()
            } else {
                limit as nat
            }
            &&& log.len() > 0 ==> log[0] == first
        }),
    decreases times.len(),
{
    if times.len() > 0 {
        let earlier = times.drop_last();
        if earlier.len() > 0 {
            assert(earlier[0] == times[0]);
            assert(earlier.last() <= times.last());
        }
        fills_up(earlier, limit, window_secs, first);
        let log = log_after(earlier, limit, window_secs);
        nothing_expires(log, times.last(), window_secs);
    }
}

/// Once a whole window has passed since its last request, a log is empty again.
pub proof fn window_passes(log: Seq<u128>, last: u128, now: u128, window_secs: u64)
    requires
        window::in_order(log, last),
        last + window_secs * window::NANOS <= now,
    ensures
        window::live(log, now, window_secs).len() == 0,
    decreases log.len(),
{
    if log.len() > 0 {
        assert(log[0] <= last);
        window_passes(log.skip(1), last, now, window_secs);
    }
}

/// For a log in order of time, dropping the expired requests at the front drops every
/// expired request: those are left that have not expired.
pub proof fn live_drops_exactly_the_expired(log: Seq<u128>, now: u128, window_secs: u64)
    requires
        window::in_order(log, now),
    ensures
        window::live(log, now, window_secs) == log.filter(
            |t: u128| !window::expired(now, t, window_secs),
        ),
    decreases log.len(),
{
    let keep = |t: u128| !window::expired(now, t, window_secs);
    if log.len() == 0 {
        reveal_with_fuel(Seq::filter, 1);
        assert(log.filter(keep) =~= log);
    } else {
        let first = seq![log[0]];
        let rest = log.skip(1);
        assert(log =~= first + rest);
        Seq::filter_distributes_over_add(first, rest, keep);
        reveal_with_fuel(Seq::filter, 2);
        assert(first.drop_last() =~= Seq::<u128>::empty());
        live_drops_exactly_the_expired(rest, now, window_secs);
        if window::expired(now, log[0], window_secs) {
            assert(first.filter(keep) =~= Seq::<u128>::empty());
            assert(log.filter(keep) =~= rest.filter(keep));
        } else {
            assert(first.filter(keep) =~= first);
            if rest.len() > 0 {
                assert(rest[0] == log[1]);
                all_live(rest, log[0], now, window_secs);
            }
            nothing_expires(rest, now, window_secs);
            assert(log.filter(keep) =~= log);
        }
    }
}

proof fn all_live(rest: Seq<u128>, first: u128, now: u128, window_secs: u64)
    requires
        rest.len() > 0,
        first <= rest[0],
        rest[0] <= now,
        !window::expired(now, first, window_secs),
    ensures
        !window::expired(now, rest[0], window_secs),
{
}

/// Dropping what has expired at one time and again at a later one is the same as
/// dropping at the later time alone.
pub proof fn expiry_composes(log: Seq<u128>, t1: u128, t2: u128, window_secs: u64)
    requires
        t1 <= t2,
    ensures
        window::live(window::live(log, t1, window_secs), t2, window_secs) == window::live(
            log,
            t2,
            window_secs,
        ),
    decreases log.len(),
{
    if log.len() > 0 && window::expired(t1, log[0], window_secs) {
        assert(window::expired(t2, log[0], window_secs));
        expiry_composes(log.skip(1), t1, t2, window_secs);
    }
}

/// A request that is refused uses no quota: what is left of the log is the same as
/// without it, now and at any later time.
pub proof fn refused_check_uses_no_quota(
    log: Seq<u128>,
    now: u128,
    later: u128,
    limit: u32,
    window_secs: u64,
)
    requires
        !window::has_room(log, now, limit, window_secs),
        now <= later,
    ensures
        window::live(window::checked(log, now, limit, window_secs), later, window_secs)
            == window::live(log, later, window_secs),
{
    expiry_composes(log, now, later, window_secs);
}

/// Dropping what has expired makes no log longer.
pub proof fn live_is_no_longer(log: Seq<u128>, now: u128, window_secs: u64)
    ensures
        window::live(log, now, window_secs).len() <= log.len(),
    decreases log.len(),
{
    if log.len() > 0 && window::expired(now, log[0], window_secs) {
        live_is_no_longer(log.skip(1), now, window_secs);
    }
}

/// The seconds that an event reports are enough to wait: when they have passed, a rule
/// that was used up has room again.
pub proof fn waiting_makes_room(
    log: Seq<u128>,
    now: u128,
    later: u128,
    limit: u32,
    window_secs: u64,
)
    requires
        window::in_order(log, now),
        limit > 0,
        window::live(log, now, window_secs).len() == limit,
        later >= now + window::reset_after(
            window::live(log, now, window_secs),
            now,
            window_secs,
        ) * window::NANOS,
    ensures
        window::has_room(log, later, limit, window_secs),
{
    let left = window::live(log, now, window_secs);
    window::live_keeps_order(log, now, now, window_secs);
    let oldest = left[0];
    let age = window::elapsed(now, oldest);
    let passed = age / (window::NANOS as nat);
    assert(oldest <= now);
    assert(passed * window::NANOS <= age);
    assert(window::expired(later, oldest, window_secs));
    live_is_no_longer(left.skip(1), later, window_secs);
    expiry_composes(log, now, later, window_secs);
}

/// What is left of a log does not start with an expired request.
pub proof fn live_first_is_not_expired(log: Seq<u128>, now: u128, window_secs: u64)
    ensures
        ({
            let left = window::live(log, now, window_secs);
            left.len() > 0 ==> !window::expired(now, left[0], window_secs)
        }),
    decreases log.len(),
{
    if log.len() > 0 && window::expired(now, log[0], window_secs) {
        live_first_is_not_expired(log.skip(1), now, window_secs);
    }
}

/// What is left of a log, whose times never decrease and are past, is its end: exactly
/// the requests that are younger than the window.
pub proof fn what_is_left_is_younger_than_the_window(log: Seq<u128>, now: u128, window_secs: u64)
    requires
        forall|i: int, j: int| 0 <= i <= j < log.len() ==> log[i] <= log[j],
        forall|i: int| 0 <= i < log.len() ==> log[i] <= now,
    ensures
        exists|k: int|
            {
                &&& 0 <= k <= log.len()
                &&& window::live(log, now, window_secs) == #[trigger] log.skip(k)
                &&& forall|i: int| 0 <= i < k ==> now - #[trigger] log[i] >= window_secs * 1_000_000_000
                &&& forall|i: int|
                    k <= i < log.len() ==> now - #[trigger] log[i] < window_secs * 1_000_000_000
            },
{
    let k = live_is_suffix(log, now, window_secs);
    live_first_is_not_expired(log, now, window_secs);
    assert(log.skip(k) == window::live(log, now, window_secs));
    assert forall|i: int| k <= i < log.len() implies now - #[trigger] log[i] < window_secs
        * 1_000_000_000 by {
        assert(log.skip(k)[0] == log[k]);
        assert(log[k] <= log[i]);
    }
    assert forall|i: int| 0 <= i < k implies now - #[trigger] log[i] >= window_secs
        * 1_000_000_000 by {
        assert(window::expired(now, log[i], window_secs));
    }
}

/// The seconds that are reported are the least that are enough: once they have passed,
/// the oldest request has left the window, and one whole second earlier it has not.
/// They are zero exactly if it has left already.
pub proof fn reset_is_the_least_wait(log: Seq<u128>, now: u128, window_secs: u64)
    requires
        log.len() > 0,
        log[0] <= now,
    ensures
        ({
            let wait = window::reset_after(log, now, window_secs);
            let age = now - log[0];
            &&& age + wait * 1_000_000_000 >= window_secs * 1_000_000_000
            &&& wait > 0 ==> age + (wait - 1) * 1_000_000_000 < window_secs * 1_000_000_000
            &&& wait == 0 <==> age >= window_secs * 1_000_000_000
        }),
{
}

/// An empty log has nothing to wait for.
pub proof fn an_empty_log_needs_no_wait(now: u128, window_secs: u64)
    ensures
        window::reset_after(Seq::empty(), now, window_secs) == 0,
{
}

/// What is used and what remains add up to the limit, as long as it is not exceeded;
/// nothing remains of a limit that is reached.
pub proof fn used_and_remaining_add_up(limit: u32, count: nat)
    ensures
        count <= limit ==> count + window::remaining_of(limit, count) == limit,
        count >= limit ==> window::remaining_of(limit, count) == 0,
{
}

/// A request whose time is still to come is as good as new: the wait is the whole window,
/// and it has left only a window of no length.
pub proof fn a_time_to_come_is_as_good_as_new(log: Seq<u128>, now: u128, window_secs: u64)
    requires
        log.len() > 0,
        log[0] > now,
    ensures
        window::reset_after(log, now, window_secs) == window_secs,
        window_secs > 0 ==> window::live(log, now, window_secs) == log,
{
}

} // verus!
