//! What the counters hold and report, told from the requests they have admitted.

use crate::counter_laws;
use crate::counter_laws::{Call, Reply};
use crate::counters;
use crate::counters::CounterKey;
use crate::window;
use crate::window_laws;
use vstd::prelude::*;

verus! {

// ---------------------------------------------------------------------------
// The requests that were admitted
// ---------------------------------------------------------------------------

/// How many of the times are less than `window_secs` before `now`.
pub open spec fn younger(times: Seq<u128>, now: u128, window_secs: u64) -> nat
    decreases times.len(),
{
    if times.len() == 0 {
        0
    } else {
        younger(times.drop_last(), now, window_secs) + if now - times.last() < window_secs
            * 1_000_000_000 {
            1nat
        } else {
            0nat
        }
    }
}

/// How many of `rules` are for the counter `key`, given the API key and the model.
pub open spec fn rules_of(
    api_key: Seq<char>,
    model: Seq<char>,
    rules: Seq<(u32, u64)>,
    key: CounterKey,
) -> nat
    decreases rules.len(),
{
    if rules.len() == 0 {
        0
    } else {
        rules_of(api_key, model, rules.skip(1), key) + if key.api_key == api_key && key.model
            == model && key.limit == rules[0].0 && key.window_secs == rules[0].1 {
            1nat
        } else {
            0nat
        }
    }
}

/// How often a call admits a request under the counter `key`, as its reply shows. Of a
/// call that checks rules together the reply does not show it: it admits the request
/// if under each of the rules fewer than the limit are younger than the window.
pub open spec fn admissions(
    state: Map<CounterKey, Seq<u128>>,
    now: u128,
    call: Call,
    key: CounterKey,
) -> nat {
    match (call, counter_laws::reply_to_call(state, now, call)) {
        (
            Call::Check { api_key, model, limit, window_secs },
            Reply::Check { passed, .. },
        ) => if passed && key.api_key == api_key && key.model == model && key.limit == limit
            && key.window_secs == window_secs {
            1
        } else {
            0
        },
        (Call::InTurn { api_key, model, rules }, Reply::InTurn { events, refused }) => {
            let passed = if refused is Some {
                events.len() - 1
            } else {
                events.len() as int
            };
            rules_of(api_key, model, rules.take(passed), key)
        },
        (Call::Together { api_key, model, rules }, _) => if forall|i: int|
            0 <= i < rules.len() ==> younger(
                counters::log_of(
                    state,
                    CounterKey {
                        api_key,
                        model,
                        limit: (#[trigger] rules[i]).0,
                        window_secs: rules[i].1,
                    },
                ),
                now,
                rules[i].1,
            ) < rules[i].0 {
            rules_of(api_key, model, rules, key)
        } else {
            0
        },
        _ => 0,
    }
}

/// The time `now`, `n` times over.
pub open spec fn times_over(now: u128, n: nat) -> Seq<u128> {
    Seq::new(n, |i: int| now)
}

/// The times at which a sequence of calls admits requests under the counter `key`.
pub open spec fn admitted_times(
    state: Map<CounterKey, Seq<u128>>,
    calls: Seq<(u128, Call)>,
    key: CounterKey,
) -> Seq<u128>
    decreases calls.len(),
{
    if calls.len() == 0 {
        Seq::empty()
    } else {
        let (now, call) = calls[0];
        times_over(now, admissions(state, now, call, key)) + admitted_times(
            counter_laws::after_call(state, now, call),
            calls.skip(1),
            key,
        )
    }
}

/// Whether the rules that calls check together are all different.
pub open spec fn all_rules_differ(calls: Seq<(u128, Call)>) -> bool {
    forall|i: int|
        0 <= i < calls.len() ==> ((#[trigger] calls[i]).1 matches Call::Together { rules, .. }
            ==> rules.no_duplicates())
}

// ---------------------------------------------------------------------------
// A log is what the window leaves of them
// ---------------------------------------------------------------------------

/// Whether the times never decrease and none is after `now`.
spec fn past(times: Seq<u128>, now: u128) -> bool {
    &&& forall|i: int, j: int| 0 <= i <= j < times.len() ==> times[i] <= times[j]
    &&& forall|i: int| 0 <= i < times.len() ==> times[i] <= now
}

/// Whether `log` is the end of `times`, and everything before it has left the window.
spec fn tracks(times: Seq<u128>, log: Seq<u128>, now: u128, window_secs: u64) -> bool {
    &&& past(times, now)
    &&& log.len() <= times.len()
    &&& log == times.skip(times.len() - log.len())
    &&& forall|i: int|
        0 <= i < times.len() - log.len() ==> now - #[trigger] times[i] >= window_secs
            * 1_000_000_000
}

/// Whether of any `limit + 1` times in a row the last comes a whole window after the
/// first.
pub open spec fn spaced(times: Seq<u128>, limit: u32, window_secs: u64) -> bool {
    forall|i: int, j: int|
        0 <= i && i + limit == j && j < times.len() ==> (#[trigger] times[j]) - (
        #[trigger] times[i]) >= window_secs * 1_000_000_000
}

proof fn younger_splits(a: Seq<u128>, b: Seq<u128>, now: u128, window_secs: u64)
    ensures
        younger(a + b, now, window_secs) == younger(a, now, window_secs) + younger(
            b,
            now,
            window_secs,
        ),
    decreases b.len(),
{
    if b.len() == 0 {
        assert(a + b =~= a);
    } else {
        assert((a + b).drop_last() =~= a + b.drop_last());
        younger_splits(a, b.drop_last(), now, window_secs);
    }
}

proof fn none_younger(times: Seq<u128>, now: u128, window_secs: u64)
    requires
        forall|i: int|
            0 <= i < times.len() ==> now - #[trigger] times[i] >= window_secs * 1_000_000_000,
    ensures
        younger(times, now, window_secs) == 0,
    decreases times.len(),
{
    if times.len() > 0 {
        let rest = times.drop_last();
        assert forall|i: int| 0 <= i < rest.len() implies now - #[trigger] rest[i] >= window_secs
            * 1_000_000_000 by {
            assert(rest[i] == times[i]);
        }
        assert(now - times[times.len() - 1] >= window_secs * 1_000_000_000);
        none_younger(rest, now, window_secs);
    }
}

proof fn all_younger(times: Seq<u128>, now: u128, window_secs: u64)
    requires
        forall|i: int|
            0 <= i < times.len() ==> now - #[trigger] times[i] < window_secs * 1_000_000_000,
    ensures
        younger(times, now, window_secs) == times.len(),
    decreases times.len(),
{
    if times.len() > 0 {
        let rest = times.drop_last();
        assert forall|i: int| 0 <= i < rest.len() implies now - #[trigger] rest[i] < window_secs
            * 1_000_000_000 by {
            assert(rest[i] == times[i]);
        }
        assert(now - times[times.len() - 1] < window_secs * 1_000_000_000);
        all_younger(rest, now, window_secs);
    }
}

/// What is left of a log is as many as are younger than the window.
proof fn left_is_younger(log: Seq<u128>, now: u128, window_secs: u64)
    requires
        past(log, now),
    ensures
        window::live(log, now, window_secs).len() == younger(log, now, window_secs),
{
    window_laws::what_is_left_is_younger_than_the_window(log, now, window_secs);
    let k = choose|k: int|
        {
            &&& 0 <= k <= log.len()
            &&& window::live(log, now, window_secs) == #[trigger] log.skip(k)
            &&& forall|i: int| 0 <= i < k ==> now - #[trigger] log[i] >= window_secs * 1_000_000_000
            &&& forall|i: int|
                k <= i < log.len() ==> now - #[trigger] log[i] < window_secs * 1_000_000_000
        };
    let gone = log.take(k);
    let left = log.skip(k);
    assert(log =~= gone + left);
    younger_splits(gone, left, now, window_secs);
    none_younger(gone, now, window_secs);
    assert forall|i: int| 0 <= i < left.len() implies now - #[trigger] left[i] < window_secs
        * 1_000_000_000 by {
        assert(left[i] == log[k + i]);
    }
    all_younger(left, now, window_secs);
}

/// Dropping what has expired keeps track.
proof fn dropping_tracks(times: Seq<u128>, log: Seq<u128>, last: u128, now: u128, window_secs: u64)
    requires
        tracks(times, log, last, window_secs),
        last <= now,
    ensures
        tracks(times, window::live(log, now, window_secs), now, window_secs),
        window::live(log, now, window_secs).len() == younger(times, now, window_secs),
{
    let n = times.len() - log.len();
    assert forall|i: int, j: int| 0 <= i <= j < log.len() implies log[i] <= log[j] by {
        assert(log[i] == times[n + i] && log[j] == times[n + j]);
    }
    assert forall|i: int| 0 <= i < log.len() implies log[i] <= now by {
        assert(log[i] == times[n + i]);
    }
    window_laws::what_is_left_is_younger_than_the_window(log, now, window_secs);
    let k = choose|k: int|
        {
            &&& 0 <= k <= log.len()
            &&& window::live(log, now, window_secs) == #[trigger] log.skip(k)
            &&& forall|i: int| 0 <= i < k ==> now - #[trigger] log[i] >= window_secs * 1_000_000_000
            &&& forall|i: int|
                k <= i < log.len() ==> now - #[trigger] log[i] < window_secs * 1_000_000_000
        };
    let left = window::live(log, now, window_secs);
    assert(left =~= times.skip(n + k));
    assert forall|i: int| 0 <= i < times.len() - left.len() implies now - #[trigger] times[i]
        >= window_secs * 1_000_000_000 by {
        if i >= n {
            assert(times[i] == log[i - n]);
        } else {
            assert(last - times[i] >= window_secs * 1_000_000_000);
        }
    }
    let gone = times.take(n + k);
    assert(times =~= gone + left);
    younger_splits(gone, left, now, window_secs);
    assert forall|i: int| 0 <= i < gone.len() implies now - #[trigger] gone[i] >= window_secs
        * 1_000_000_000 by {
        assert(gone[i] == times[i]);
    }
    none_younger(gone, now, window_secs);
    assert forall|i: int| 0 <= i < left.len() implies now - #[trigger] left[i] < window_secs
        * 1_000_000_000 by {
        assert(left[i] == log[k + i]);
    }
    all_younger(left, now, window_secs);
}

/// Recording one more request keeps track, and keeps the times apart if there is room.
proof fn recording_tracks(times: Seq<u128>, log: Seq<u128>, now: u128, limit: u32, window_secs: u64)
    requires
        tracks(times, log, now, window_secs),
        spaced(times, limit, window_secs),
        log.len() < limit,
    ensures
        tracks(times.push(now), log.push(now), now, window_secs),
        spaced(times.push(now), limit, window_secs),
{
    let more = times.push(now);
    let n = times.len() - log.len();
    assert(log.push(now) =~= more.skip(n)) by {
        assert forall|i: int| 0 <= i < log.len() implies log[i] == #[trigger] more.skip(n)[i] by {
            assert(log[i] == times[n + i]);
        }
    }
    assert forall|i: int| 0 <= i < n implies now - #[trigger] more[i] >= window_secs
        * 1_000_000_000 by {
        assert(more[i] == times[i]);
    }
    assert forall|i: int, j: int| 0 <= i && i + limit == j && j < more.len() implies (
    #[trigger] more[j]) - (#[trigger] more[i]) >= window_secs * 1_000_000_000 by {
        if j < times.len() {
            assert(times[j] - times[i] >= window_secs * 1_000_000_000);
        } else {
            assert(i < n);
            assert(now - times[i] >= window_secs * 1_000_000_000);
        }
    }
}

/// One check keeps track.
proof fn check_tracks(times: Seq<u128>, log: Seq<u128>, last: u128, now: u128, limit: u32, window_secs: u64)
    requires
        tracks(times, log, last, window_secs),
        spaced(times, limit, window_secs),
        last <= now,
    ensures
        window::has_room(log, now, limit, window_secs) == (younger(times, now, window_secs)
            < limit),
        ({
            let n = if window::has_room(log, now, limit, window_secs) {
                1nat
            } else {
                0nat
            };
            let more = times + times_over(now, n);
            &&& tracks(more, window::checked(log, now, limit, window_secs), now, window_secs)
            &&& spaced(more, limit, window_secs)
        }),
{
    dropping_tracks(times, log, last, now, window_secs);
    let left = window::live(log, now, window_secs);
    if left.len() < limit {
        recording_tracks(times, left, now, limit, window_secs);
        assert(times + times_over(now, 1) =~= times.push(now));
    } else {
        assert(times + times_over(now, 0) =~= times);
    }
}

/// What is tracked at one time is tracked later.
proof fn tracked_later(times: Seq<u128>, log: Seq<u128>, last: u128, now: u128, window_secs: u64)
    requires
        tracks(times, log, last, window_secs),
        last <= now,
    ensures
        tracks(times, log, now, window_secs),
{
    assert forall|i: int| 0 <= i < times.len() - log.len() implies now - #[trigger] times[i]
        >= window_secs * 1_000_000_000 by {
        assert(last - times[i] >= window_secs * 1_000_000_000);
    }
}

proof fn turn_tracks(
    times: Seq<u128>,
    state: Map<CounterKey, Seq<u128>>,
    now: u128,
    api_key: Seq<char>,
    model: Seq<char>,
    rules: Seq<(u32, u64)>,
    key: CounterKey,
)
    requires
        tracks(times, counters::log_of(state, key), now, key.window_secs),
        spaced(times, key.limit, key.window_secs),
    ensures
        ({
            let call = Call::InTurn { api_key, model, rules };
            let more = times + times_over(now, admissions(state, now, call, key));
            let after = counters::check_in_turn(state, now, api_key, model, rules).state;
            &&& tracks(more, counters::log_of(after, key), now, key.window_secs)
            &&& spaced(more, key.limit, key.window_secs)
        }),
    decreases rules.len(),
{
    let call = Call::InTurn { api_key, model, rules };
    let whole = counters::check_in_turn(state, now, api_key, model, rules);
    if rules.len() == 0 {
        assert(rules.take(0) =~= rules);
        assert(times + times_over(now, 0) =~= times);
    } else {
        let (limit, window_secs) = rules[0];
        let first = counters::rule_key(api_key, model, rules[0]);
        let log = counters::log_of(state, first);
        let next = state.insert(first, window::checked(log, now, limit, window_secs));
        let rest = rules.skip(1);
        let room = window::has_room(log, now, limit, window_secs);
        let n = if room && first == key {
            1nat
        } else {
            0nat
        };
        let so_far = times + times_over(now, n);
        if first == key {
            check_tracks(times, log, now, now, limit, window_secs);
        } else {
            assert(so_far =~= times);
        }
        assert(counters::log_of(next, key) == if first == key {
            window::checked(log, now, limit, window_secs)
        } else {
            counters::log_of(state, key)
        });
        if room {
            turn_tracks(so_far, next, now, api_key, model, rest, key);
            let tail = counters::check_in_turn(next, now, api_key, model, rest);
            events_bound(next, now, api_key, model, rest);
            let passed = if tail.refused is Some {
                tail.events.len() - 1
            } else {
                tail.events.len() as int
            };
            assert(rules.take(passed + 1).skip(1) =~= rest.take(passed));
            assert(rules.take(passed + 1)[0] == rules[0]);
            let m = admissions(next, now, Call::InTurn { api_key, model, rules: rest }, key);
            assert(whole.events.len() == tail.events.len() + 1);
            assert(admissions(state, now, call, key) == n + m);
            assert(so_far + times_over(now, m) =~= times + times_over(now, n + m));
        } else {
            assert(whole.events.len() == 1);
            assert(rules.take(0) =~= Seq::<(u32, u64)>::empty());
            assert(admissions(state, now, call, key) == 0);
        }
    }
}

/// Checking in turn reports no more rules than there are, and at least the one that
/// refuses.
proof fn events_bound(
    state: Map<CounterKey, Seq<u128>>,
    now: u128,
    api_key: Seq<char>,
    model: Seq<char>,
    rules: Seq<(u32, u64)>,
)
    ensures
        ({
            let outcome = counters::check_in_turn(state, now, api_key, model, rules);
            &&& outcome.events.len() <= rules.len()
            &&& outcome.refused is Some ==> outcome.events.len() >= 1
            &&& outcome.refused is None ==> outcome.events.len() == rules.len()
        }),
    decreases rules.len(),
{
    if rules.len() > 0 {
        let key = counters::rule_key(api_key, model, rules[0]);
        let log = counters::log_of(state, key);
        events_bound(
            state.insert(key, window::checked(log, now, rules[0].0, rules[0].1)),
            now,
            api_key,
            model,
            rules.skip(1),
        );
    }
}

proof fn no_rule_no_admission(
    api_key: Seq<char>,
    model: Seq<char>,
    rules: Seq<(u32, u64)>,
    key: CounterKey,
)
    requires
        forall|i: int|
            0 <= i < rules.len() ==> counters::rule_key(api_key, model, #[trigger] rules[i]) != key,
    ensures
        rules_of(api_key, model, rules, key) == 0,
    decreases rules.len(),
{
    if rules.len() > 0 {
        let rest = rules.skip(1);
        assert forall|i: int| 0 <= i < rest.len() implies counters::rule_key(
            api_key,
            model,
            #[trigger] rest[i],
        ) != key by {
            assert(rest[i] == rules[i + 1]);
        }
        no_rule_no_admission(api_key, model, rest, key);
        assert(counters::rule_key(api_key, model, rules[0]) != key);
    }
}

proof fn one_rule_one_admission(
    api_key: Seq<char>,
    model: Seq<char>,
    rules: Seq<(u32, u64)>,
    key: CounterKey,
    k: int,
)
    requires
        rules.no_duplicates(),
        0 <= k < rules.len(),
        counters::rule_key(api_key, model, rules[k]) == key,
    ensures
        rules_of(api_key, model, rules, key) == 1,
    decreases rules.len(),
{
    let rest = rules.skip(1);
    if k == 0 {
        assert forall|i: int| 0 <= i < rest.len() implies counters::rule_key(
            api_key,
            model,
            #[trigger] rest[i],
        ) != key by {
            assert(rest[i] == rules[i + 1]);
            assert(rules[i + 1] != rules[0]);
        }
        no_rule_no_admission(api_key, model, rest, key);
    } else {
        assert(rest[k - 1] == rules[k]);
        assert(rest.no_duplicates()) by {
            assert forall|i: int, j: int|
                0 <= i < rest.len() && 0 <= j < rest.len() && i != j implies rest[i] != rest[j] by {
                assert(rest[i] == rules[i + 1] && rest[j] == rules[j + 1]);
            }
        }
        one_rule_one_admission(api_key, model, rest, key, k - 1);
        assert(rules[0] != rules[k]);
    }
}

proof fn together_tracks(
    times: Seq<u128>,
    state: Map<CounterKey, Seq<u128>>,
    last: u128,
    now: u128,
    api_key: Seq<char>,
    model: Seq<char>,
    rules: Seq<(u32, u64)>,
    key: CounterKey,
)
    requires
        counters::all_in_order(state, last),
        tracks(times, counters::log_of(state, key), now, key.window_secs),
        spaced(times, key.limit, key.window_secs),
        last <= now,
        rules.no_duplicates(),
    ensures
        ({
            let call = Call::Together { api_key, model, rules };
            let more = times + times_over(now, admissions(state, now, call, key));
            let after = counters::checked_together(state, api_key, model, rules, now);
            &&& tracks(more, counters::log_of(after, key), now, key.window_secs)
            &&& spaced(more, key.limit, key.window_secs)
        }),
{
    let call = Call::Together { api_key, model, rules };
    let after = counters::checked_together(state, api_key, model, rules, now);
    let room = counters::all_have_room(state, api_key, model, rules, now);
    assert forall|i: int| 0 <= i < rules.len() implies counters::rule_live(
        state,
        api_key,
        model,
        #[trigger] rules[i],
        now,
    ).len() == younger(
        counters::log_of(
            state,
            CounterKey { api_key, model, limit: rules[i].0, window_secs: rules[i].1 },
        ),
        now,
        rules[i].1,
    ) by {
        let k = counters::rule_key(api_key, model, rules[i]);
        assert(past(counters::log_of(state, k), now)) by {
            if state.contains_key(k) {
                assert(window::in_order(state[k], last));
            }
        }
        left_is_younger(counters::log_of(state, k), now, rules[i].1);
    }
    let n = admissions(state, now, call, key);
    assert(n == if room {
        rules_of(api_key, model, rules, key)
    } else {
        0
    });
    let log = counters::log_of(state, key);
    assert(rules.take(0) =~= Seq::<(u32, u64)>::empty());
    assert(rules.take(rules.len() as int) =~= rules);
    if counters::is_rule_key(api_key, model, rules, key) {
        let k = choose|k: int|
            0 <= k < rules.len() && counters::rule_key(api_key, model, #[trigger] rules[k]) == key;
        one_rule_one_admission(api_key, model, rules, key, k);
        dropping_tracks(times, log, now, now, key.window_secs);
        let left = window::live(log, now, key.window_secs);
        if room {
            counter_laws::passed_together_records_once(state, api_key, model, rules, now, k);
            assert(counters::rule_live(state, api_key, model, rules[k], now).len() < rules[k].0);
            recording_tracks(times, left, now, key.limit, key.window_secs);
            assert(times + times_over(now, 1) =~= times.push(now));
        } else {
            assert(after[key] =~= left);
            assert(times + times_over(now, 0) =~= times);
        }
    } else {
        no_rule_no_admission(api_key, model, rules, key);
        assert(counters::log_of(after, key) == log);
        assert(times + times_over(now, 0) =~= times);
    }
}

/// A call keeps every log in order.
proof fn call_keeps_order(state: Map<CounterKey, Seq<u128>>, last: u128, now: u128, call: Call)
    requires
        counters::all_in_order(state, last),
        last <= now,
    ensures
        counters::all_in_order(counter_laws::after_call(state, now, call), now),
{
    match call {
        Call::Check { api_key, model, limit, window_secs } => {
            let key = counters::key_of(api_key, model, limit, window_secs);
            window::live_keeps_order(counters::log_of(state, key), last, now, window_secs);
        },
        Call::Together { api_key, model, rules } => {
            counters::together_keeps_order(state, last, now, api_key, model, rules);
        },
        Call::InTurn { api_key, model, rules } => {
            counters::turn_keeps_order(state, last, now, api_key, model, rules);
        },
        Call::Snapshot => {
            let after = counters::unexpired(state, now);
            assert forall|key: CounterKey| #[trigger] after.contains_key(key) implies window::in_order(
                after[key],
                now,
            ) by {
                assert(state.contains_key(key));
                window::live_keeps_order(state[key], last, now, key.window_secs);
            }
        },
    }
}

/// A call keeps track of the requests it admits.
proof fn call_tracks(
    times: Seq<u128>,
    state: Map<CounterKey, Seq<u128>>,
    last: u128,
    now: u128,
    call: Call,
    key: CounterKey,
)
    requires
        counters::all_in_order(state, last),
        tracks(times, counters::log_of(state, key), last, key.window_secs),
        spaced(times, key.limit, key.window_secs),
        last <= now,
        call matches Call::Together { rules, .. } ==> rules.no_duplicates(),
    ensures
        ({
            let more = times + times_over(now, admissions(state, now, call, key));
            let after = counter_laws::after_call(state, now, call);
            &&& tracks(more, counters::log_of(after, key), now, key.window_secs)
            &&& spaced(more, key.limit, key.window_secs)
            &&& counters::all_in_order(after, now)
        }),
{
    let log = counters::log_of(state, key);
    tracked_later(times, log, last, now, key.window_secs);
    call_keeps_order(state, last, now, call);
    let after = counter_laws::after_call(state, now, call);
    match call {
        Call::Check { api_key, model, limit, window_secs } => {
            let checked = counters::key_of(api_key, model, limit, window_secs);
            if checked == key {
                check_tracks(times, log, now, now, limit, window_secs);
            } else {
                assert(counters::log_of(after, key) == log);
                assert(times + times_over(now, 0) =~= times);
            }
        },
        Call::Together { api_key, model, rules } => {
            together_tracks(times, state, last, now, api_key, model, rules, key);
        },
        Call::InTurn { api_key, model, rules } => {
            turn_tracks(times, state, now, api_key, model, rules, key);
        },
        Call::Snapshot => {
            dropping_tracks(times, log, now, now, key.window_secs);
            let left = window::live(log, now, key.window_secs);
            assert(counters::log_of(after, key) =~= left) by {
                if !state.contains_key(key) {
                    assert(left =~= Seq::<u128>::empty());
                }
            }
            assert(times + times_over(now, 0) =~= times);
        },
    }
}

proof fn calls_track(
    times: Seq<u128>,
    state: Map<CounterKey, Seq<u128>>,
    last: u128,
    calls: Seq<(u128, Call)>,
    now: u128,
    key: CounterKey,
)
    requires
        counters::all_in_order(state, last),
        tracks(times, counters::log_of(state, key), last, key.window_secs),
        spaced(times, key.limit, key.window_secs),
        counter_laws::calls_follow(last, calls),
        all_rules_differ(calls),
        last <= now,
        forall|i: int| 0 <= i < calls.len() ==> (#[trigger] calls[i]).0 <= now,
    ensures
        ({
            let all = times + admitted_times(state, calls, key);
            let after = counter_laws::after_calls(state, calls);
            &&& tracks(all, counters::log_of(after, key), now, key.window_secs)
            &&& spaced(all, key.limit, key.window_secs)
            &&& counters::all_in_order(after, now)
        }),
    decreases calls.len(),
{
    if calls.len() == 0 {
        assert(times + admitted_times(state, calls, key) =~= times);
        tracked_later(times, counters::log_of(state, key), last, now, key.window_secs);
        assert forall|k: CounterKey| #[trigger] state.contains_key(k) implies window::in_order(
            state[k],
            now,
        ) by {
            assert(window::in_order(state[k], last));
        }
    } else {
        let (at, call) = calls[0];
        let rest = calls.skip(1);
        call_tracks(times, state, last, at, call, key);
        let first = times_over(at, admissions(state, at, call, key));
        let next = counter_laws::after_call(state, at, call);
        assert forall|i: int| 0 <= i < rest.len() implies at <= (#[trigger] rest[i]).0 by {
            assert(rest[i] == calls[i + 1]);
        }
        assert forall|i: int, j: int| 0 <= i <= j < rest.len() implies (#[trigger] rest[i]).0 <= (
        #[trigger] rest[j]).0 by {
            assert(rest[i] == calls[i + 1] && rest[j] == calls[j + 1]);
        }
        assert forall|i: int| 0 <= i < rest.len() implies (#[trigger] rest[i]).0 <= now by {
            assert(rest[i] == calls[i + 1]);
        }
        assert(all_rules_differ(rest)) by {
            assert forall|i: int| 0 <= i < rest.len() implies ((
            #[trigger] rest[i]).1 matches Call::Together { rules, .. } ==> rules.no_duplicates()) by {
                assert(rest[i] == calls[i + 1]);
            }
        }
        calls_track(times + first, next, at, rest, now, key);
        assert(times + first + admitted_times(next, rest, key) =~= times + admitted_times(
            state,
            calls,
            key,
        ));
    }
}

proof fn history_tracks(calls: Seq<(u128, Call)>, now: u128, key: CounterKey)
    requires
        counter_laws::calls_follow(0, calls),
        all_rules_differ(calls),
        forall|i: int| 0 <= i < calls.len() ==> (#[trigger] calls[i]).0 <= now,
    ensures
        ({
            let empty = Map::<CounterKey, Seq<u128>>::empty();
            let all = admitted_times(empty, calls, key);
            let after = counter_laws::after_calls(empty, calls);
            &&& tracks(all, counters::log_of(after, key), now, key.window_secs)
            &&& spaced(all, key.limit, key.window_secs)
            &&& counters::all_in_order(after, now)
        }),
{
    let empty = Map::<CounterKey, Seq<u128>>::empty();
    let none = Seq::<u128>::empty();
    assert(none.skip(0) =~= none);
    calls_track(none, empty, 0, calls, now, key);
    assert(none + admitted_times(empty, calls, key) =~= admitted_times(empty, calls, key));
}

// ---------------------------------------------------------------------------
// Laws
// ---------------------------------------------------------------------------

/// The sliding window holds for the limiter as a whole. Whatever calls are made, one
/// after another, from an empty limiter: of any `limit + 1` requests in a row that were
/// admitted under one API key, model and rule, the last comes at least a whole window
/// after the first.
pub proof fn no_window_holds_more_than_the_limit(calls: Seq<(u128, Call)>, key: CounterKey)
    requires
        counter_laws::calls_follow(0, calls),
        all_rules_differ(calls),
    ensures
        ({
            let times = admitted_times(Map::empty(), calls, key);
            forall|i: int|
                0 <= i && i + key.limit < times.len() ==> #[trigger] times[i + key.limit] - times[i]
                    >= key.window_secs * 1_000_000_000
        }),
{
    let now = if calls.len() == 0 {
        0u128
    } else {
        calls.last().0
    };
    history_tracks(calls, now, key);
}

/// A check is decided and reported by the requests that were admitted before, and by
/// nothing else: it passes exactly if fewer than the limit are younger than the window,
/// and the event counts these.
#[verifier::rlimit(40)]
pub proof fn history_decides_a_check(calls: Seq<(u128, Call)>, now: u128, key: CounterKey)
    requires
        counter_laws::calls_follow(0, calls),
        all_rules_differ(calls),
        forall|i: int| 0 <= i < calls.len() ==> (#[trigger] calls[i]).0 <= now,
    ensures
        ({
            let state = counter_laws::after_calls(Map::empty(), calls);
            let times = admitted_times(Map::empty(), calls, key);
            let used = younger(times, now, key.window_secs);
            let check = Call::Check {
                api_key: key.api_key,
                model: key.model,
                limit: key.limit,
                window_secs: key.window_secs,
            };
            &&& used <= key.limit
            &&& used <= times.len()
            &&& counter_laws::reply_to_call(state, now, check) matches Reply::Check { passed, event }
                && {
                &&& passed <==> used < key.limit
                &&& event.count == used
                &&& event.remaining == key.limit - used
                &&& event.api_key == key.api_key
                &&& event.model == key.model
                &&& event.rule_limit == key.limit
                &&& event.rule_window_secs == key.window_secs
                &&& event.owner == Seq::<char>::empty()
                &&& used > 0 ==> {
                    let age = now - times[times.len() - used];
                    &&& age + event.reset_after_secs * 1_000_000_000 >= key.window_secs
                        * 1_000_000_000
                    &&& age + (event.reset_after_secs - 1) * 1_000_000_000 < key.window_secs
                        * 1_000_000_000
                }
                &&& used == 0 && passed ==> event.reset_after_secs == key.window_secs
                &&& used == 0 && !passed ==> event.reset_after_secs == 0
            }
        }),
{
    history_tracks(calls, now, key);
    history_is_within_limit(calls, now, key);
    let state = counter_laws::after_calls(Map::empty(), calls);
    let times = admitted_times(Map::empty(), calls, key);
    let log = counters::log_of(state, key);
    dropping_tracks(times, log, now, now, key.window_secs);
    let left = window::live(log, now, key.window_secs);
    let used = younger(times, now, key.window_secs);
    assert(counters::key_of(key.api_key, key.model, key.limit, key.window_secs) == key);
    if used > 0 {
        assert(left[0] == times[times.len() - used]);
        window_laws::live_first_is_not_expired(log, now, key.window_secs);
        let after = window::checked(log, now, key.limit, key.window_secs);
        assert(after[0] == left[0]);
        window_laws::reset_is_the_least_wait(after, now, key.window_secs);
    } else {
        assert(left =~= Seq::<u128>::empty());
    }
}

/// No more than the limit are ever younger than the window.
proof fn history_is_within_limit(calls: Seq<(u128, Call)>, now: u128, key: CounterKey)
    requires
        counter_laws::calls_follow(0, calls),
        all_rules_differ(calls),
        forall|i: int| 0 <= i < calls.len() ==> (#[trigger] calls[i]).0 <= now,
    ensures
        ({
            let times = admitted_times(Map::empty(), calls, key);
            &&& younger(times, now, key.window_secs) <= key.limit
            &&& younger(times, now, key.window_secs) <= times.len()
        }),
{
    history_tracks(calls, now, key);
    let state = counter_laws::after_calls(Map::empty(), calls);
    let times = admitted_times(Map::empty(), calls, key);
    let log = counters::log_of(state, key);
    dropping_tracks(times, log, now, now, key.window_secs);
    window_laws::live_is_no_longer(log, now, key.window_secs);
    assert forall|i: int| 0 <= i < calls.len() implies counter_laws::rules_differ(
        (#[trigger] calls[i]).1,
    ) by {}
    counter_laws::counts_stay_within_limits(Map::empty(), calls);
    assert(state.contains_key(key) ==> state[key].len() <= key.limit);
}

/// A snapshot reports exactly the counters under which a request younger than the window
/// was admitted, and counts those requests; the seconds it reports are the least after
/// which the oldest of them leaves the window.
pub proof fn history_decides_a_snapshot(calls: Seq<(u128, Call)>, now: u128, key: CounterKey)
    requires
        counter_laws::calls_follow(0, calls),
        all_rules_differ(calls),
        forall|i: int| 0 <= i < calls.len() ==> (#[trigger] calls[i]).0 <= now,
    ensures
        ({
            let state = counter_laws::after_calls(Map::empty(), calls);
            let times = admitted_times(Map::empty(), calls, key);
            let used = younger(times, now, key.window_secs);
            counter_laws::reply_to_call(state, now, Call::Snapshot) matches Reply::Snapshot { events }
                && {
                &&& events.contains_key(key) <==> used > 0
                &&& used > 0 ==> {
                    let event = events[key];
                    let age = now - times[times.len() - used];
                    &&& event.count == used
                    &&& event.remaining == key.limit - used
                    &&& event.api_key == key.api_key
                    &&& event.model == key.model
                    &&& event.rule_limit == key.limit
                    &&& event.rule_window_secs == key.window_secs
                    &&& event.owner == Seq::<char>::empty()
                    &&& age + event.reset_after_secs * 1_000_000_000 >= key.window_secs
                        * 1_000_000_000
                    &&& age + (event.reset_after_secs - 1) * 1_000_000_000 < key.window_secs
                        * 1_000_000_000
                }
            }
        }),
{
    history_tracks(calls, now, key);
    history_is_within_limit(calls, now, key);
    let state = counter_laws::after_calls(Map::empty(), calls);
    let times = admitted_times(Map::empty(), calls, key);
    let log = counters::log_of(state, key);
    dropping_tracks(times, log, now, now, key.window_secs);
    let left = window::live(log, now, key.window_secs);
    let used = younger(times, now, key.window_secs);
    if used > 0 {
        assert(state.contains_key(key));
        assert(left[0] == times[times.len() - used]);
        window_laws::live_first_is_not_expired(log, now, key.window_secs);
        window_laws::reset_is_the_least_wait(left, now, key.window_secs);
    }
}

/// The checks of the rules, one after another at `now`.
pub open spec fn checks_of(
    api_key: Seq<char>,
    model: Seq<char>,
    rules: Seq<(u32, u64)>,
    now: u128,
) -> Seq<(u128, Call)> {
    Seq::new(
        rules.len(),
        |i: int|
            (now, Call::Check { api_key, model, limit: rules[i].0, window_secs: rules[i].1 }),
    )
}

/// Checking rules in turn is checking them one by one, up to the first check that does
/// not pass: it reports the same, leaves the same, and names the rule of that check.
pub proof fn in_turn_is_one_by_one(
    state: Map<CounterKey, Seq<u128>>,
    now: u128,
    api_key: Seq<char>,
    model: Seq<char>,
    rules: Seq<(u32, u64)>,
)
    ensures
        ({
            let call = Call::InTurn { api_key, model, rules };
            counter_laws::reply_to_call(state, now, call) matches Reply::InTurn { events, refused }
                && {
                let n = events.len();
                let checks = checks_of(api_key, model, rules.take(n as int), now);
                let one_by_one = counter_laws::replies(state, checks);
                &&& n <= rules.len()
                &&& one_by_one.len() == n
                &&& refused is None ==> n == rules.len()
                &&& refused matches Some(rule) ==> n > 0 && rule == rules[n - 1]
                &&& forall|i: int|
                    0 <= i < n ==> #[trigger] one_by_one[i] == (Reply::Check {
                        passed: !(refused is Some && i == n - 1),
                        event: events[i],
                    })
                &&& counter_laws::after_call(state, now, call) == counter_laws::after_calls(
                    state,
                    checks,
                )
            }
        }),
    decreases rules.len(),
{
    let whole = counters::check_in_turn(state, now, api_key, model, rules);
    events_bound(state, now, api_key, model, rules);
    let n = whole.events.len();
    let checks = checks_of(api_key, model, rules.take(n as int), now);
    if rules.len() > 0 {
        let (limit, window_secs) = rules[0];
        let key = counters::rule_key(api_key, model, rules[0]);
        let log = counters::log_of(state, key);
        let next = state.insert(key, window::checked(log, now, limit, window_secs));
        let rest = rules.skip(1);
        let check = Call::Check { api_key, model, limit, window_secs };
        assert(checks.len() == n && n > 0);
        assert(checks[0] == (now, check));
        assert(counter_laws::after_call(state, now, check) == next);
        if window::has_room(log, now, limit, window_secs) {
            in_turn_is_one_by_one(next, now, api_key, model, rest);
            let tail = counters::check_in_turn(next, now, api_key, model, rest);
            let m = tail.events.len();
            let later = checks_of(api_key, model, rest.take(m as int), now);
            assert(checks.skip(1) =~= later);
            let one_by_one = counter_laws::replies(state, checks);
            let others = counter_laws::replies(next, later);
            assert(one_by_one =~= seq![counter_laws::reply_to_call(state, now, check)] + others);
            assert forall|i: int| 0 <= i < n implies #[trigger] one_by_one[i] == (Reply::Check {
                passed: !(whole.refused is Some && i == n - 1),
                event: whole.events[i],
            }) by {
                if i > 0 {
                    assert(one_by_one[i] == others[i - 1]);
                    assert(whole.events[i] == tail.events[i - 1]);
                }
            }
            if let Some(rule) = whole.refused {
                assert(rest[m - 1] == rules[n - 1]);
            }
        } else {
            assert(checks.skip(1) =~= Seq::<(u128, Call)>::empty());
            reveal_with_fuel(counter_laws::replies, 2);
            reveal_with_fuel(counter_laws::after_calls, 2);
        }
    } else {
        assert(checks =~= Seq::<(u128, Call)>::empty());
    }
}

/// Different rules that are checked in turn: under each rule before the one that refuses
/// the counter holds what the window left and the new request, once; under the one that
/// refuses it holds what the window left; every other counter is as it was.
pub proof fn what_checking_in_turn_leaves(
    state: Map<CounterKey, Seq<u128>>,
    now: u128,
    api_key: Seq<char>,
    model: Seq<char>,
    rules: Seq<(u32, u64)>,
    key: CounterKey,
)
    requires
        rules.no_duplicates(),
    ensures
        ({
            let outcome = counters::check_in_turn(state, now, api_key, model, rules);
            let n = outcome.events.len();
            let left = window::live(counters::log_of(state, key), now, key.window_secs);
            &&& n <= rules.len()
            &&& forall|i: int|
                0 <= i < n && key == (CounterKey {
                    api_key,
                    model,
                    limit: (#[trigger] rules[i]).0,
                    window_secs: rules[i].1,
                }) ==> counters::log_of(outcome.state, key) == if outcome.refused is Some && i == n
                    - 1 {
                    left
                } else {
                    left.push(now)
                }
            &&& (forall|i: int|
                0 <= i < n ==> key != (CounterKey {
                    api_key,
                    model,
                    limit: (#[trigger] rules[i]).0,
                    window_secs: rules[i].1,
                })) ==> counters::log_of(outcome.state, key) == counters::log_of(state, key)
                && outcome.state.contains_key(key) == state.contains_key(key)
        }),
    decreases rules.len(),
{
    let outcome = counters::check_in_turn(state, now, api_key, model, rules);
    events_bound(state, now, api_key, model, rules);
    let n = outcome.events.len();
    if rules.len() > 0 {
        let (limit, window_secs) = rules[0];
        let first = counters::rule_key(api_key, model, rules[0]);
        let log = counters::log_of(state, first);
        let next = state.insert(first, window::checked(log, now, limit, window_secs));
        let rest = rules.skip(1);
        let room = window::has_room(log, now, limit, window_secs);
        if room {
            assert forall|i: int, j: int|
                0 <= i < rest.len() && 0 <= j < rest.len() && i != j implies rest[i] != rest[j] by {
                assert(rest[i] == rules[i + 1] && rest[j] == rules[j + 1]);
            }
            what_checking_in_turn_leaves(next, now, api_key, model, rest, key);
            let tail = counters::check_in_turn(next, now, api_key, model, rest);
            let m = tail.events.len();
            assert(n == m + 1);
            if key == first {
                assert forall|i: int| 0 <= i < m implies key != (CounterKey {
                    api_key,
                    model,
                    limit: (#[trigger] rest[i]).0,
                    window_secs: rest[i].1,
                }) by {
                    assert(rest[i] == rules[i + 1]);
                    assert(rules[i + 1] != rules[0]);
                }
                assert(counters::log_of(outcome.state, key) == counters::log_of(next, key));
                assert(rules[0] == (limit, window_secs));
                assert forall|i: int|
                    0 <= i < n && key == (CounterKey {
                        api_key,
                        model,
                        limit: (#[trigger] rules[i]).0,
                        window_secs: rules[i].1,
                    }) implies i == 0 by {
                    assert(rules[i] == rules[0]);
                }
            } else {
                assert forall|i: int|
                    0 <= i < n && key == (CounterKey {
                        api_key,
                        model,
                        limit: (#[trigger] rules[i]).0,
                        window_secs: rules[i].1,
                    }) implies i > 0 && rest[i - 1] == rules[i] by {}
                if forall|i: int|
                    0 <= i < n ==> key != (CounterKey {
                        api_key,
                        model,
                        limit: (#[trigger] rules[i]).0,
                        window_secs: rules[i].1,
                    }) {
                    assert forall|i: int| 0 <= i < m implies key != (CounterKey {
                        api_key,
                        model,
                        limit: (#[trigger] rest[i]).0,
                        window_secs: rest[i].1,
                    }) by {
                        assert(rest[i] == rules[i + 1]);
                    }
                }
                assert(counters::log_of(next, key) == counters::log_of(state, key));
                assert(next.contains_key(key) == state.contains_key(key));
            }
        } else {
            assert(n == 1);
            assert(rules[0] == (limit, window_secs));
        }
    }
}

/// Checking rules together admits the request exactly if each of the rules, checked
/// alone, would pass. Different rules that admit it are left, and reported, as if they
/// had been checked one by one, with the new request counted; rules that refuse it
/// report what they hold, and that nothing remains.
pub proof fn together_is_all_or_nothing(
    state: Map<CounterKey, Seq<u128>>,
    now: u128,
    api_key: Seq<char>,
    model: Seq<char>,
    rules: Seq<(u32, u64)>,
)
    requires
        rules.no_duplicates(),
    ensures
        ({
            let call = Call::Together { api_key, model, rules };
            let alone = |i: int|
                counter_laws::reply_to_call(
                    state,
                    now,
                    Call::Check { api_key, model, limit: rules[i].0, window_secs: rules[i].1 },
                );
            let all_pass = forall|i: int|
                0 <= i < rules.len() ==> (#[trigger] alone(i) matches Reply::Check { passed, .. }
                    && passed);
            counter_laws::reply_to_call(state, now, call) matches Reply::Together { events } && {
                &&& events.len() == rules.len()
                &&& forall|i: int|
                    0 <= i < rules.len() ==> (#[trigger] alone(i) matches Reply::Check { event, .. }
                        && {
                        &&& events[i].api_key == event.api_key
                        &&& events[i].model == event.model
                        &&& events[i].rule_limit == event.rule_limit
                        &&& events[i].rule_window_secs == event.rule_window_secs
                        &&& events[i].owner == event.owner
                        &&& all_pass ==> events[i].count == event.count + 1
                            && events[i].remaining == event.remaining - 1
                        &&& !all_pass ==> events[i].count == event.count && events[i].remaining == 0
                        &&& event.count > 0 ==> events[i].reset_after_secs == event.reset_after_secs
                        &&& event.count == 0 ==> events[i].reset_after_secs == 0
                    })
                &&& all_pass ==> counter_laws::after_call(state, now, call)
                    == counter_laws::after_calls(state, checks_of(api_key, model, rules, now))
            }
        }),
{
    let call = Call::Together { api_key, model, rules };
    let alone = |i: int|
        counter_laws::reply_to_call(
            state,
            now,
            Call::Check { api_key, model, limit: rules[i].0, window_secs: rules[i].1 },
        );
    let all_pass = forall|i: int|
        0 <= i < rules.len() ==> (#[trigger] alone(i) matches Reply::Check { passed, .. }
            && passed);
    let room = counters::all_have_room(state, api_key, model, rules, now);
    assert(room == all_pass) by {
        if room {
            assert forall|i: int| 0 <= i < rules.len() implies (
            #[trigger] alone(i) matches Reply::Check { passed, .. } && passed) by {
                assert(counters::rule_live(state, api_key, model, rules[i], now).len()
                    < rules[i].0);
            }
        }
        if all_pass {
            assert forall|i: int| 0 <= i < rules.len() implies counters::rule_live(
                state,
                api_key,
                model,
                #[trigger] rules[i],
                now,
            ).len() < rules[i].0 by {
                assert(alone(i) matches Reply::Check { passed, .. } && passed);
            }
        }
    }
    assert(rules.take(0) =~= Seq::<(u32, u64)>::empty());
    assert forall|i: int| 0 <= i < rules.len() implies (
    #[trigger] alone(i) matches Reply::Check { event, .. } && {
        let together = counters::together_event(state, api_key, model, rules, i, now);
        &&& together.owner == event.owner
        &&& all_pass ==> together.count == event.count + 1 && together.remaining == event.remaining
            - 1
        &&& !all_pass ==> together.count == event.count && together.remaining == 0
        &&& event.count > 0 ==> together.reset_after_secs == event.reset_after_secs
        &&& event.count == 0 ==> together.reset_after_secs == 0
    }) by {
        let key = counters::rule_key(api_key, model, rules[i]);
        let left = window::live(counters::log_of(state, key), now, rules[i].1);
        assert(counters::rule_live(state, api_key, model, rules[i], now) == left);
        if room {
            counter_laws::passed_together_records_once(state, api_key, model, rules, now, i);
            assert(left.len() < rules[i].0);
            assert(left.len() > 0 ==> left.push(now)[0] == left[0]);
        }
    }
    if all_pass {
        counter_laws::refused_by_the_first_full_rule(state, now, api_key, model, rules);
        let outcome = counters::check_in_turn(state, now, api_key, model, rules);
        in_turn_is_one_by_one(state, now, api_key, model, rules);
        events_bound(state, now, api_key, model, rules);
        assert(rules.take(rules.len() as int) =~= rules);
        let after = counters::checked_together(state, api_key, model, rules, now);
        assert forall|key: CounterKey| #[trigger] after.contains_key(key)
            == outcome.state.contains_key(key) && (after.contains_key(key) ==> after[key]
            == outcome.state[key]) by {
            what_checking_in_turn_leaves(state, now, api_key, model, rules, key);
            in_turn_holds_its_keys(state, now, api_key, model, rules);
            if counters::is_rule_key(api_key, model, rules, key) {
                let i = choose|i: int|
                    0 <= i < rules.len() && counters::rule_key(api_key, model, #[trigger] rules[i])
                        == key;
                counter_laws::passed_together_records_once(state, api_key, model, rules, now, i);
                assert(outcome.state.contains_key(key));
            } else {
                assert forall|i: int| 0 <= i < rules.len() implies key != (CounterKey {
                    api_key,
                    model,
                    limit: (#[trigger] rules[i]).0,
                    window_secs: rules[i].1,
                }) by {
                    assert(counters::rule_key(api_key, model, rules[i]) != key);
                }
            }
        }
        assert(after =~= outcome.state);
    }
}

/// Every rule that was checked in turn has a counter.
proof fn in_turn_holds_its_keys(
    state: Map<CounterKey, Seq<u128>>,
    now: u128,
    api_key: Seq<char>,
    model: Seq<char>,
    rules: Seq<(u32, u64)>,
)
    ensures
        ({
            let outcome = counters::check_in_turn(state, now, api_key, model, rules);
            &&& forall|i: int|
                0 <= i < outcome.events.len() && i < rules.len() ==> outcome.state.contains_key(
                    counters::rule_key(api_key, model, #[trigger] rules[i]),
                )
            &&& forall|key: CounterKey|
                state.contains_key(key) ==> #[trigger] outcome.state.contains_key(key)
        }),
    decreases rules.len(),
{
    if rules.len() > 0 {
        let (limit, window_secs) = rules[0];
        let first = counters::rule_key(api_key, model, rules[0]);
        let log = counters::log_of(state, first);
        let next = state.insert(first, window::checked(log, now, limit, window_secs));
        let rest = rules.skip(1);
        in_turn_holds_its_keys(next, now, api_key, model, rest);
        let outcome = counters::check_in_turn(state, now, api_key, model, rules);
        assert(next.contains_key(first));
        assert forall|i: int| 0 <= i < outcome.events.len() && i < rules.len() implies outcome.state.contains_key(
            counters::rule_key(api_key, model, #[trigger] rules[i]),
        ) by {
            if i > 0 {
                assert(rest[i - 1] == rules[i]);
            }
        }
    }
}

proof fn last_mention_apart(
    api_key: Seq<char>,
    model: Seq<char>,
    rules: Seq<(u32, u64)>,
    key: CounterKey,
)
    requires
        rules.len() > 0,
    ensures
        rules_of(api_key, model, rules, key) == rules_of(api_key, model, rules.drop_last(), key)
            + if key.api_key == api_key && key.model == model && key.limit == rules.last().0
            && key.window_secs == rules.last().1 {
            1nat
        } else {
            0nat
        },
    decreases rules.len(),
{
    let front = rules.drop_last();
    if front.len() > 0 {
        last_mention_apart(api_key, model, rules.skip(1), key);
        assert(rules.skip(1).drop_last() =~= front.skip(1));
        assert(rules.skip(1).last() == rules.last());
        assert(front[0] == rules[0]);
    } else {
        assert(rules.skip(1).len() == 0);
        assert(rules.last() == rules[0]);
        assert(rules_of(api_key, model, front, key) == 0);
        assert(rules_of(api_key, model, rules.skip(1), key) == 0);
    }
}

proof fn mentions_are_occurrences(
    api_key: Seq<char>,
    model: Seq<char>,
    rules: Seq<(u32, u64)>,
    key: CounterKey,
)
    ensures
        rules_of(api_key, model, rules, key) == if key.api_key == api_key && key.model == model {
            counters::occurrences(rules, (key.limit, key.window_secs))
        } else {
            0
        },
        rules_of(api_key, model, rules, key) > 0 <==> counters::is_rule_key(
            api_key,
            model,
            rules,
            key,
        ),
    decreases rules.len(),
{
    if rules.len() > 0 {
        let front = rules.drop_last();
        last_mention_apart(api_key, model, rules, key);
        mentions_are_occurrences(api_key, model, front, key);
        if counters::is_rule_key(api_key, model, front, key) {
            let i = choose|i: int|
                0 <= i < front.len() && counters::rule_key(api_key, model, #[trigger] front[i])
                    == key;
            assert(counters::rule_key(api_key, model, rules[i]) == key);
        }
        if counters::is_rule_key(api_key, model, rules, key) {
            let i = choose|i: int|
                0 <= i < rules.len() && counters::rule_key(api_key, model, #[trigger] rules[i])
                    == key;
            if i < front.len() {
                assert(counters::rule_key(api_key, model, front[i]) == key);
            }
        }
        if counters::rule_key(api_key, model, rules.last()) == key {
            assert(counters::rule_key(api_key, model, rules[rules.len() - 1]) == key);
        }
    }
}

/// Checking rules together, one of which may be given more than once: each counter of
/// the rules keeps its requests that are not expired, with the new one as often as its
/// rule is given if each rule alone has room, and without it otherwise. No other counter
/// changes. What is reported of a rule counts the mentions of it up to this one.
pub proof fn what_checking_together_leaves(
    state: Map<CounterKey, Seq<u128>>,
    now: u128,
    api_key: Seq<char>,
    model: Seq<char>,
    rules: Seq<(u32, u64)>,
    key: CounterKey,
)
    ensures
        ({
            let call = Call::Together { api_key, model, rules };
            let after = counter_laws::after_call(state, now, call);
            let left = window::live(counters::log_of(state, key), now, key.window_secs);
            let room = forall|i: int|
                0 <= i < rules.len() ==> window::live(
                    counters::log_of(
                        state,
                        (CounterKey {
                            api_key,
                            model,
                            limit: (#[trigger] rules[i]).0,
                            window_secs: rules[i].1,
                        }),
                    ),
                    now,
                    rules[i].1,
                ).len() < rules[i].0;
            let mentions = rules_of(api_key, model, rules, key);
            &&& mentions > 0 && room ==> counters::log_of(after, key) == left + times_over(
                now,
                mentions,
            )
            &&& mentions > 0 && !room ==> counters::log_of(after, key) == left
            &&& mentions == 0 ==> counters::log_of(after, key) == counters::log_of(state, key)
                && after.contains_key(key) == state.contains_key(key)
            &&& counter_laws::reply_to_call(state, now, call) matches Reply::Together { events } && {
                &&& events.len() == rules.len()
                &&& forall|i: int|
                    0 <= i < rules.len() && key == (CounterKey {
                        api_key,
                        model,
                        limit: (#[trigger] rules[i]).0,
                        window_secs: rules[i].1,
                    }) ==> events[i].count == left.len() + if room {
                        rules_of(api_key, model, rules.take(i + 1), key)
                    } else {
                        0
                    }
            }
        }),
{
    let n = rules.len() as int;
    let call = Call::Together { api_key, model, rules };
    let after = counter_laws::after_call(state, now, call);
    let left = window::live(counters::log_of(state, key), now, key.window_secs);
    let pair = (key.limit, key.window_secs);
    mentions_are_occurrences(api_key, model, rules, key);
    assert(rules.take(n) =~= rules);
    assert(rules.take(0).len() == 0);
    assert forall|i: int| 0 <= i < rules.len() implies counters::rule_live(
        state,
        api_key,
        model,
        #[trigger] rules[i],
        now,
    ) == window::live(
        counters::log_of(
            state,
            (CounterKey { api_key, model, limit: rules[i].0, window_secs: rules[i].1 }),
        ),
        now,
        rules[i].1,
    ) by {}
    let room = forall|i: int|
        0 <= i < rules.len() ==> window::live(
            counters::log_of(
                state,
                (CounterKey {
                    api_key,
                    model,
                    limit: (#[trigger] rules[i]).0,
                    window_secs: rules[i].1,
                }),
            ),
            now,
            rules[i].1,
        ).len() < rules[i].0;
    assert(room == counters::all_have_room(state, api_key, model, rules, now));
    if rules_of(api_key, model, rules, key) > 0 {
        let i = choose|i: int|
            0 <= i < rules.len() && counters::rule_key(api_key, model, #[trigger] rules[i]) == key;
        assert(rules[i] == pair);
        assert(counters::rule_live(state, api_key, model, pair, now) == left);
        assert(counters::rule_recorded(state, api_key, model, rules, n, pair, now) =~= left
            + times_over(now, rules_of(api_key, model, rules, key)));
        assert(counters::rule_recorded(state, api_key, model, rules, 0, pair, now) =~= left);
    }
    assert forall|i: int|
        0 <= i < rules.len() && key == (CounterKey {
            api_key,
            model,
            limit: (#[trigger] rules[i]).0,
            window_secs: rules[i].1,
        }) implies counters::together_event(state, api_key, model, rules, i, now).count
        == left.len() + if room {
        rules_of(api_key, model, rules.take(i + 1), key)
    } else {
        0
    } by {
        mentions_are_occurrences(api_key, model, rules.take(i + 1), key);
        assert(rules[i] == pair);
    }
}

} // verus!
