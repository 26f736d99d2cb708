//! What the counters guarantee across keys, rules and calls.

use crate::counters;
use crate::counters::CounterKey;
use crate::limiter::EventModel;
use crate::window;
use crate::window_laws;
use vstd::prelude::*;

verus! {

// ---------------------------------------------------------------------------
// Counters are kept apart
// ---------------------------------------------------------------------------

/// Two counters are the same only for the same API key, model, limit and window,
/// whatever characters the names hold.
pub proof fn keys_are_distinct(
    api_key_a: Seq<char>,
    model_a: Seq<char>,
    limit_a: u32,
    window_a: u64,
    api_key_b: Seq<char>,
    model_b: Seq<char>,
    limit_b: u32,
    window_b: u64,
)
    requires
        counters::key_of(api_key_a, model_a, limit_a, window_a) == counters::key_of(
            api_key_b,
            model_b,
            limit_b,
            window_b,
        ),
    ensures
        api_key_a == api_key_b,
        model_a == model_b,
        limit_a == limit_b,
        window_a == window_b,
{
}

/// A check touches no counter with another API key, model, limit or window.
pub proof fn checks_are_isolated(
    state: Map<CounterKey, Seq<u128>>,
    now: u128,
    key: CounterKey,
    other: CounterKey,
)
    requires
        key.api_key != other.api_key || key.model != other.model || key.limit != other.limit
            || key.window_secs != other.window_secs,
    ensures
        ({
            let call = Call::Check {
                api_key: key.api_key,
                model: key.model,
                limit: key.limit,
                window_secs: key.window_secs,
            };
            let after = after_call(state, now, call);
            &&& after.contains_key(other) == state.contains_key(other)
            &&& counters::log_of(after, other) == counters::log_of(state, other)
        }),
{
    assert(counters::key_of(key.api_key, key.model, key.limit, key.window_secs) != other);
}

/// Right after a request is admitted, a snapshot reports its counter, under the names
/// and the numbers it was checked with, and counts the request.
pub proof fn snapshot_reports_what_was_checked(
    state: Map<CounterKey, Seq<u128>>,
    now: u128,
    api_key: Seq<char>,
    model: Seq<char>,
    limit: u32,
    window_secs: u64,
)
    requires
        window_secs > 0,
        window::has_room(
            counters::log_of(state, counters::key_of(api_key, model, limit, window_secs)),
            now,
            limit,
            window_secs,
        ),
    ensures
        ({
            let key = counters::key_of(api_key, model, limit, window_secs);
            let log = counters::log_of(state, key);
            let used = window::live(log, now, window_secs).len() + 1;
            let after = after_call(state, now, Call::Check { api_key, model, limit, window_secs });
            let events = reported(after, now);
            &&& events.contains_key(key)
            &&& events[key].api_key == api_key
            &&& events[key].model == model
            &&& events[key].rule_limit == limit
            &&& events[key].rule_window_secs == window_secs
            &&& events[key].count == used
            &&& events[key].remaining == limit - used
        }),
{
    let key = counters::key_of(api_key, model, limit, window_secs);
    let log = counters::log_of(state, key);
    let left = window::live(log, now, window_secs);
    window::live_is_stable(log, now, window_secs);
    window_laws::live_first_is_not_expired(log, now, window_secs);
    let recorded = left.push(now);
    assert(!window::expired(now, recorded[0], window_secs));
    assert(window::live(recorded, now, window_secs) == recorded);
}

// ---------------------------------------------------------------------------
// Calls and what they return
// ---------------------------------------------------------------------------

/// A call of the limiter.
pub enum Call {
    /// One rule is checked.
    Check { api_key: Seq<char>, model: Seq<char>, limit: u32, window_secs: u64 },
    /// Rules are checked together.
    Together { api_key: Seq<char>, model: Seq<char>, rules: Seq<(u32, u64)> },
    /// Rules are checked in turn.
    InTurn { api_key: Seq<char>, model: Seq<char>, rules: Seq<(u32, u64)> },
    /// All counters are reported.
    Snapshot,
}

/// What a call returns.
#[verifier::ext_equal]
pub enum Reply {
    Check { passed: bool, event: EventModel },
    Together { events: Seq<EventModel> },
    InTurn { events: Seq<EventModel>, refused: Option<(u32, u64)> },
    Snapshot { events: Map<CounterKey, EventModel> },
}

/// What a snapshot reports of each counter.
pub open spec fn reported(state: Map<CounterKey, Seq<u128>>, now: u128) -> Map<
    CounterKey,
    EventModel,
> {
    let left = counters::unexpired(state, now);
    Map::new(
        |key: CounterKey| left.contains_key(key),
        |key: CounterKey| counters::snapshot_event(key, left[key], now),
    )
}

/// The counters after a call at `now`.
pub open spec fn after_call(state: Map<CounterKey, Seq<u128>>, now: u128, call: Call) -> Map<
    CounterKey,
    Seq<u128>,
> {
    match call {
        Call::Check { api_key, model, limit, window_secs } => {
            let key = counters::key_of(api_key, model, limit, window_secs);
            state.insert(
                key,
                window::checked(counters::log_of(state, key), now, limit, window_secs),
            )
        },
        Call::Together { api_key, model, rules } => counters::checked_together(
            state,
            api_key,
            model,
            rules,
            now,
        ),
        Call::InTurn { api_key, model, rules } => counters::check_in_turn(
            state,
            now,
            api_key,
            model,
            rules,
        ).state,
        Call::Snapshot => counters::unexpired(state, now),
    }
}

/// What a call at `now` returns.
pub open spec fn reply_to_call(state: Map<CounterKey, Seq<u128>>, now: u128, call: Call) -> Reply {
    match call {
        Call::Check { api_key, model, limit, window_secs } => {
            let log = counters::log_of(
                state,
                counters::key_of(api_key, model, limit, window_secs),
            );
            Reply::Check {
                passed: window::has_room(log, now, limit, window_secs),
                event: counters::check_event(log, now, api_key, model, limit, window_secs),
            }
        },
        Call::Together { api_key, model, rules } => Reply::Together {
            events: Seq::new(
                rules.len(),
                |i: int| counters::together_event(state, api_key, model, rules, i, now),
            ),
        },
        Call::InTurn { api_key, model, rules } => {
            let outcome = counters::check_in_turn(state, now, api_key, model, rules);
            Reply::InTurn { events: outcome.events, refused: outcome.refused }
        },
        Call::Snapshot => Reply::Snapshot { events: reported(state, now) },
    }
}

/// Whether the calls come one after another, none of them before `from`.
pub open spec fn calls_follow(from: u128, calls: Seq<(u128, Call)>) -> bool {
    &&& forall|i: int| 0 <= i < calls.len() ==> from <= (#[trigger] calls[i]).0
    &&& forall|i: int, j: int|
        0 <= i <= j < calls.len() ==> (#[trigger] calls[i]).0 <= (#[trigger] calls[j]).0
}

/// The counters after a sequence of calls.
pub open spec fn after_calls(
    state: Map<CounterKey, Seq<u128>>,
    calls: Seq<(u128, Call)>,
) -> Map<CounterKey, Seq<u128>>
    decreases calls.len(),
{
    if calls.len() == 0 {
        state
    } else {
        after_calls(after_call(state, calls[0].0, calls[0].1), calls.skip(1))
    }
}

/// What a sequence of calls returns.
pub open spec fn replies(state: Map<CounterKey, Seq<u128>>, calls: Seq<(u128, Call)>) -> Seq<Reply>
    decreases calls.len(),
{
    if calls.len() == 0 {
        Seq::empty()
    } else {
        seq![reply_to_call(state, calls[0].0, calls[0].1)] + replies(
            after_call(state, calls[0].0, calls[0].1),
            calls.skip(1),
        )
    }
}

// ---------------------------------------------------------------------------
// What changes no later result
// ---------------------------------------------------------------------------

/// Whether every counter holds the same unexpired requests in both states.
pub open spec fn alike(
    s: Map<CounterKey, Seq<u128>>,
    t: Map<CounterKey, Seq<u128>>,
    now: u128,
) -> bool {
    forall|key: CounterKey| #[trigger]
        window::live(counters::log_of(s, key), now, key.window_secs) == window::live(
            counters::log_of(t, key),
            now,
            key.window_secs,
        )
}

proof fn alike_later(
    s: Map<CounterKey, Seq<u128>>,
    t: Map<CounterKey, Seq<u128>>,
    now: u128,
    later: u128,
)
    requires
        alike(s, t, now),
        now <= later,
    ensures
        alike(s, t, later),
{
    assert forall|key: CounterKey| #[trigger]
        window::live(counters::log_of(s, key), later, key.window_secs) == window::live(
            counters::log_of(t, key),
            later,
            key.window_secs,
        ) by {
        window_laws::expiry_composes(counters::log_of(s, key), now, later, key.window_secs);
        window_laws::expiry_composes(counters::log_of(t, key), now, later, key.window_secs);
        assert(window::live(counters::log_of(s, key), now, key.window_secs) == window::live(
            counters::log_of(t, key),
            now,
            key.window_secs,
        ));
    }
}

/// States that agree in every log, but for one counter whose unexpired requests agree.
proof fn insert_alike(
    s: Map<CounterKey, Seq<u128>>,
    t: Map<CounterKey, Seq<u128>>,
    key: CounterKey,
    log: Seq<u128>,
    now: u128,
)
    requires
        alike(s, t, now),
    ensures
        alike(s.insert(key, log), t.insert(key, log), now),
{
    let a = s.insert(key, log);
    let b = t.insert(key, log);
    assert forall|k: CounterKey| #[trigger]
        window::live(counters::log_of(a, k), now, k.window_secs) == window::live(
            counters::log_of(b, k),
            now,
            k.window_secs,
        ) by {
        if k != key {
            assert(counters::log_of(a, k) == counters::log_of(s, k));
            assert(counters::log_of(b, k) == counters::log_of(t, k));
            assert(window::live(counters::log_of(s, k), now, k.window_secs) == window::live(
                counters::log_of(t, k),
                now,
                k.window_secs,
            ));
        }
    }
}

proof fn turn_keeps_alike(
    s: Map<CounterKey, Seq<u128>>,
    t: Map<CounterKey, Seq<u128>>,
    now: u128,
    api_key: Seq<char>,
    model: Seq<char>,
    rules: Seq<(u32, u64)>,
)
    requires
        alike(s, t, now),
    ensures
        ({
            let a = counters::check_in_turn(s, now, api_key, model, rules);
            let b = counters::check_in_turn(t, now, api_key, model, rules);
            &&& a.events == b.events
            &&& a.refused == b.refused
            &&& alike(a.state, b.state, now)
        }),
    decreases rules.len(),
{
    if rules.len() > 0 {
        let (limit, window_secs) = rules[0];
        let key = counters::rule_key(api_key, model, rules[0]);
        let log = counters::log_of(s, key);
        assert(window::live(log, now, key.window_secs) == window::live(
            counters::log_of(t, key),
            now,
            key.window_secs,
        ));
        let next = window::checked(log, now, limit, window_secs);
        insert_alike(s, t, key, next, now);
        if window::has_room(log, now, limit, window_secs) {
            turn_keeps_alike(
                s.insert(key, next),
                t.insert(key, next),
                now,
                api_key,
                model,
                rules.skip(1),
            );
        }
    }
}

proof fn together_keeps_alike(
    s: Map<CounterKey, Seq<u128>>,
    t: Map<CounterKey, Seq<u128>>,
    now: u128,
    api_key: Seq<char>,
    model: Seq<char>,
    rules: Seq<(u32, u64)>,
)
    requires
        alike(s, t, now),
    ensures
        forall|i: int|
            0 <= i < rules.len() ==> #[trigger] counters::together_event(
                s,
                api_key,
                model,
                rules,
                i,
                now,
            ) == counters::together_event(t, api_key, model, rules, i, now),
        alike(
            counters::checked_together(s, api_key, model, rules, now),
            counters::checked_together(t, api_key, model, rules, now),
            now,
        ),
{
    assert forall|rule: (u32, u64)| #[trigger]
        counters::rule_live(s, api_key, model, rule, now) == counters::rule_live(
            t,
            api_key,
            model,
            rule,
            now,
        ) by {
        let key = counters::rule_key(api_key, model, rule);
        assert(window::live(counters::log_of(s, key), now, key.window_secs) == window::live(
            counters::log_of(t, key),
            now,
            key.window_secs,
        ));
    }
    let room = counters::all_have_room(s, api_key, model, rules, now);
    assert(room == counters::all_have_room(t, api_key, model, rules, now)) by {
        assert forall|i: int| 0 <= i < rules.len() implies counters::rule_live(
            s,
            api_key,
            model,
            #[trigger] rules[i],
            now,
        ) == counters::rule_live(t, api_key, model, rules[i], now) by {}
    }
    let a = counters::checked_together(s, api_key, model, rules, now);
    let b = counters::checked_together(t, api_key, model, rules, now);
    assert forall|key: CounterKey| #[trigger]
        window::live(counters::log_of(a, key), now, key.window_secs) == window::live(
            counters::log_of(b, key),
            now,
            key.window_secs,
        ) by {
        if counters::is_rule_key(api_key, model, rules, key) {
            assert(counters::rule_live(s, api_key, model, (key.limit, key.window_secs), now)
                == counters::rule_live(t, api_key, model, (key.limit, key.window_secs), now));
            assert(a[key] == b[key]);
        } else {
            assert(counters::log_of(a, key) == counters::log_of(s, key));
            assert(counters::log_of(b, key) == counters::log_of(t, key));
            assert(window::live(counters::log_of(s, key), now, key.window_secs) == window::live(
                counters::log_of(t, key),
                now,
                key.window_secs,
            ));
        }
    }
}

proof fn snapshot_keeps_alike(
    s: Map<CounterKey, Seq<u128>>,
    t: Map<CounterKey, Seq<u128>>,
    now: u128,
)
    requires
        alike(s, t, now),
    ensures
        counters::unexpired(s, now) == counters::unexpired(t, now),
{
    let a = counters::unexpired(s, now);
    let b = counters::unexpired(t, now);
    assert forall|key: CounterKey| #[trigger] a.contains_key(key) == b.contains_key(key) && (
    a.contains_key(key) ==> a[key] == b[key]) by {
        assert(window::live(counters::log_of(s, key), now, key.window_secs) == window::live(
            counters::log_of(t, key),
            now,
            key.window_secs,
        ));
        assert(window::live(Seq::<u128>::empty(), now, key.window_secs) =~= Seq::<
            u128,
        >::empty());
    }
    assert(a =~= b);
}

/// A call returns the same in states that are alike, and leaves them alike.
proof fn call_keeps_alike(
    s: Map<CounterKey, Seq<u128>>,
    t: Map<CounterKey, Seq<u128>>,
    now: u128,
    call: Call,
)
    requires
        alike(s, t, now),
    ensures
        reply_to_call(s, now, call) == reply_to_call(t, now, call),
        alike(after_call(s, now, call), after_call(t, now, call), now),
{
    match call {
        Call::Check { api_key, model, limit, window_secs } => {
            let key = counters::key_of(api_key, model, limit, window_secs);
            let log = counters::log_of(s, key);
            assert(window::live(log, now, key.window_secs) == window::live(
                counters::log_of(t, key),
                now,
                key.window_secs,
            ));
            insert_alike(s, t, key, window::checked(log, now, limit, window_secs), now);
        },
        Call::Together { api_key, model, rules } => {
            together_keeps_alike(s, t, now, api_key, model, rules);
            assert(reply_to_call(s, now, call) =~= reply_to_call(t, now, call));
        },
        Call::InTurn { api_key, model, rules } => {
            turn_keeps_alike(s, t, now, api_key, model, rules);
        },
        Call::Snapshot => {
            snapshot_keeps_alike(s, t, now);
        },
    }
}

/// States that hold the same unexpired requests have the same future: every sequence of
/// calls returns the same from both.
pub proof fn alike_states_have_one_future(
    s: Map<CounterKey, Seq<u128>>,
    t: Map<CounterKey, Seq<u128>>,
    now: u128,
    calls: Seq<(u128, Call)>,
)
    requires
        alike(s, t, now),
        calls_follow(now, calls),
    ensures
        replies(s, calls) == replies(t, calls),
    decreases calls.len(),
{
    if calls.len() > 0 {
        let (at, call) = calls[0];
        let rest = calls.skip(1);
        alike_later(s, t, now, at);
        call_keeps_alike(s, t, at, call);
        assert forall|i: int| 0 <= i < rest.len() implies at <= (#[trigger] rest[i]).0 by {
            assert(rest[i] == calls[i + 1]);
        }
        assert forall|i: int, j: int| 0 <= i <= j < rest.len() implies (#[trigger] rest[i]).0 <= (
        #[trigger] rest[j]).0 by {
            assert(rest[i] == calls[i + 1] && rest[j] == calls[j + 1]);
        }
        alike_states_have_one_future(
            after_call(s, at, call),
            after_call(t, at, call),
            at,
            rest,
        );
    }
}

/// A check that is denied changes no later result of any call.
pub proof fn denied_check_changes_nothing_later(
    state: Map<CounterKey, Seq<u128>>,
    now: u128,
    key: CounterKey,
    calls: Seq<(u128, Call)>,
)
    requires
        !window::has_room(counters::log_of(state, key), now, key.limit, key.window_secs),
        calls_follow(now, calls),
    ensures
        ({
            let denied = Call::Check {
                api_key: key.api_key,
                model: key.model,
                limit: key.limit,
                window_secs: key.window_secs,
            };
            replies(after_call(state, now, denied), calls) == replies(state, calls)
        }),
{
    let log = counters::log_of(state, key);
    let after = state.insert(key, window::checked(log, now, key.limit, key.window_secs));
    assert(counters::key_of(key.api_key, key.model, key.limit, key.window_secs) == key);
    assert forall|k: CounterKey| #[trigger]
        window::live(counters::log_of(after, k), now, k.window_secs) == window::live(
            counters::log_of(state, k),
            now,
            k.window_secs,
        ) by {
        if k == key {
            window::live_is_stable(log, now, key.window_secs);
        } else {
            assert(counters::log_of(after, k) == counters::log_of(state, k));
        }
    }
    alike_states_have_one_future(after, state, now, calls);
}

/// Rules that are checked together and refused leave no trace: no later result of any
/// call changes.
pub proof fn refused_together_changes_nothing_later(
    state: Map<CounterKey, Seq<u128>>,
    now: u128,
    api_key: Seq<char>,
    model: Seq<char>,
    rules: Seq<(u32, u64)>,
    calls: Seq<(u128, Call)>,
)
    requires
        !counters::all_have_room(state, api_key, model, rules, now),
        calls_follow(now, calls),
    ensures
        replies(after_call(state, now, Call::Together { api_key, model, rules }), calls)
            == replies(state, calls),
{
    let after = counters::checked_together(state, api_key, model, rules, now);
    assert(rules.take(0) =~= Seq::<(u32, u64)>::empty());
    assert forall|k: CounterKey| #[trigger]
        window::live(counters::log_of(after, k), now, k.window_secs) == window::live(
            counters::log_of(state, k),
            now,
            k.window_secs,
        ) by {
        if counters::is_rule_key(api_key, model, rules, k) {
            assert(after[k] =~= window::live(counters::log_of(state, k), now, k.window_secs));
            window::live_is_stable(counters::log_of(state, k), now, k.window_secs);
        } else {
            assert(counters::log_of(after, k) == counters::log_of(state, k));
        }
    }
    alike_states_have_one_future(after, state, now, calls);
}

/// A snapshot changes no later result of any call.
pub proof fn snapshot_changes_nothing_later(
    state: Map<CounterKey, Seq<u128>>,
    now: u128,
    calls: Seq<(u128, Call)>,
)
    requires
        calls_follow(now, calls),
    ensures
        replies(after_call(state, now, Call::Snapshot), calls) == replies(state, calls),
{
    let after = counters::unexpired(state, now);
    assert forall|k: CounterKey| #[trigger]
        window::live(counters::log_of(after, k), now, k.window_secs) == window::live(
            counters::log_of(state, k),
            now,
            k.window_secs,
        ) by {
        let log = counters::log_of(state, k);
        window::live_is_stable(log, now, k.window_secs);
        if !after.contains_key(k) {
            assert(window::live(log, now, k.window_secs) =~= Seq::<u128>::empty());
            assert(window::live(Seq::<u128>::empty(), now, k.window_secs) =~= Seq::<
                u128,
            >::empty());
        }
    }
    alike_states_have_one_future(after, state, now, calls);
}

// ---------------------------------------------------------------------------
// No counter exceeds its limit
// ---------------------------------------------------------------------------

/// Whether every counter holds at most as many requests as its limit.
pub open spec fn within_limits(state: Map<CounterKey, Seq<u128>>) -> bool {
    forall|key: CounterKey| #[trigger] state.contains_key(key) ==> state[key].len() <= key.limit
}

/// Whether the rules that a call checks together are all different.
pub open spec fn rules_differ(call: Call) -> bool {
    call matches Call::Together { rules, .. } ==> rules.no_duplicates()
}

proof fn check_stays_within(
    state: Map<CounterKey, Seq<u128>>,
    now: u128,
    key: CounterKey,
)
    requires
        within_limits(state),
    ensures
        within_limits(
            state.insert(
                key,
                window::checked(counters::log_of(state, key), now, key.limit, key.window_secs),
            ),
        ),
{
    let log = counters::log_of(state, key);
    window_laws::live_is_no_longer(log, now, key.window_secs);
    assert(state.contains_key(key) ==> state[key].len() <= key.limit);
}

proof fn turn_stays_within(
    state: Map<CounterKey, Seq<u128>>,
    now: u128,
    api_key: Seq<char>,
    model: Seq<char>,
    rules: Seq<(u32, u64)>,
)
    requires
        within_limits(state),
    ensures
        within_limits(counters::check_in_turn(state, now, api_key, model, rules).state),
    decreases rules.len(),
{
    if rules.len() > 0 {
        let key = counters::rule_key(api_key, model, rules[0]);
        let log = counters::log_of(state, key);
        check_stays_within(state, now, key);
        turn_stays_within(
            state.insert(key, window::checked(log, now, key.limit, key.window_secs)),
            now,
            api_key,
            model,
            rules.skip(1),
        );
    }
}

proof fn call_stays_within(state: Map<CounterKey, Seq<u128>>, now: u128, call: Call)
    requires
        within_limits(state),
        rules_differ(call),
    ensures
        within_limits(after_call(state, now, call)),
{
    match call {
        Call::Check { api_key, model, limit, window_secs } => {
            check_stays_within(state, now, counters::key_of(api_key, model, limit, window_secs));
        },
        Call::Together { api_key, model, rules } => {
            let after = after_call(state, now, call);
            assert forall|key: CounterKey| #[trigger] after.contains_key(key) implies after[key].len()
                <= key.limit by {
                let log = counters::log_of(state, key);
                window_laws::live_is_no_longer(log, now, key.window_secs);
                assert(state.contains_key(key) ==> state[key].len() <= key.limit);
                if counters::is_rule_key(api_key, model, rules, key) {
                    let i = choose|i: int|
                        0 <= i < rules.len() && counters::rule_key(
                            api_key,
                            model,
                            #[trigger] rules[i],
                        ) == key;
                    assert(rules[i] == (key.limit, key.window_secs));
                    occurs_once(rules, rules.len() as int, rules[i]);
                    assert(rules.take(rules.len() as int) =~= rules);
                    assert(rules.take(0) =~= Seq::<(u32, u64)>::empty());
                }
            }
        },
        Call::InTurn { api_key, model, rules } => {
            turn_stays_within(state, now, api_key, model, rules);
        },
        Call::Snapshot => {
            let after = after_call(state, now, call);
            assert forall|key: CounterKey| #[trigger] after.contains_key(key) implies after[key].len()
                <= key.limit by {
                assert(state.contains_key(key));
                window_laws::live_is_no_longer(state[key], now, key.window_secs);
            }
        },
    }
}

/// No counter ever holds more requests than its limit, whatever calls are made, as long
/// as rules that are checked together are all different.
pub proof fn counts_stay_within_limits(
    state: Map<CounterKey, Seq<u128>>,
    calls: Seq<(u128, Call)>,
)
    requires
        within_limits(state),
        forall|i: int| 0 <= i < calls.len() ==> rules_differ((#[trigger] calls[i]).1),
    ensures
        within_limits(after_calls(state, calls)),
    decreases calls.len(),
{
    if calls.len() > 0 {
        let rest = calls.skip(1);
        call_stays_within(state, calls[0].0, calls[0].1);
        assert forall|i: int| 0 <= i < rest.len() implies rules_differ((#[trigger] rest[i]).1) by {
            assert(rest[i] == calls[i + 1]);
        }
        counts_stay_within_limits(after_call(state, calls[0].0, calls[0].1), rest);
    }
}

// ---------------------------------------------------------------------------
// Rules that are checked together or in turn
// ---------------------------------------------------------------------------

proof fn occurs_once(rules: Seq<(u32, u64)>, n: int, rule: (u32, u64))
    requires
        rules.no_duplicates(),
        0 <= n <= rules.len(),
    ensures
        counters::occurrences(rules.take(n), rule) == if exists|k: int|
            0 <= k < n && rules[k] == rule {
            1nat
        } else {
            0nat
        },
    decreases n,
{
    if n > 0 {
        occurs_once(rules, n - 1, rule);
        assert(rules.take(n).drop_last() =~= rules.take(n - 1));
        assert(rules.take(n).last() == rules[n - 1]);
        if rules[n - 1] == rule {
            assert forall|k: int| 0 <= k < n - 1 implies rules[k] != rule by {}
        } else {
            if exists|k: int| 0 <= k < n && rules[k] == rule {
                let k = choose|k: int| 0 <= k < n && rules[k] == rule;
                assert(k < n - 1);
            }
        }
    }
}

/// Different rules that are checked together and pass record the request once each, and
/// report it.
pub proof fn passed_together_records_once(
    before: Map<CounterKey, Seq<u128>>,
    api_key: Seq<char>,
    model: Seq<char>,
    rules: Seq<(u32, u64)>,
    now: u128,
    i: int,
)
    requires
        counters::all_have_room(before, api_key, model, rules, now),
        rules.no_duplicates(),
        0 <= i < rules.len(),
    ensures
        ({
            let after = counters::checked_together(before, api_key, model, rules, now);
            let key = counters::rule_key(api_key, model, rules[i]);
            let left = counters::rule_live(before, api_key, model, rules[i], now);
            &&& after.contains_key(key)
            &&& after[key] == left.push(now)
            &&& after[key].len() <= rules[i].0
            &&& counters::together_event(before, api_key, model, rules, i, now).count == left.len()
                + 1
        }),
{
    let n = rules.len() as int;
    let key = counters::rule_key(api_key, model, rules[i]);
    occurs_once(rules, n, rules[i]);
    occurs_once(rules, i + 1, rules[i]);
    assert(counters::is_rule_key(api_key, model, rules, key));
    assert(rules[i] == (key.limit, key.window_secs));
    assert(counters::rule_recorded(before, api_key, model, rules, n, rules[i], now)
        =~= counters::rule_live(before, api_key, model, rules[i], now).push(now));
    assert(counters::rule_live(before, api_key, model, rules[i], now).len() < rules[i].0);
}

/// A request that goes through different rules in turn is refused if and only if one
/// of them has no room, and the rule that refuses it is the first of those.
pub proof fn refused_by_the_first_full_rule(
    state: Map<CounterKey, Seq<u128>>,
    now: u128,
    api_key: Seq<char>,
    model: Seq<char>,
    rules: Seq<(u32, u64)>,
)
    requires
        rules.no_duplicates(),
    ensures
        ({
            let refused = counters::check_in_turn(state, now, api_key, model, rules).refused;
            &&& refused is None <==> counters::all_have_room(state, api_key, model, rules, now)
            &&& refused matches Some(rule) ==> exists|i: int|
                0 <= i < rules.len() && rules[i] == rule && counters::rule_live(
                    state,
                    api_key,
                    model,
                    rule,
                    now,
                ).len() >= rule.0 && counters::all_have_room(
                    state,
                    api_key,
                    model,
                    #[trigger] rules.take(i),
                    now,
                )
        }),
    decreases rules.len(),
{
    if rules.len() > 0 {
        let rule = rules[0];
        let key = counters::rule_key(api_key, model, rule);
        let log = counters::log_of(state, key);
        let next = state.insert(key, window::checked(log, now, rule.0, rule.1));
        let rest = rules.skip(1);
        assert forall|i: int| 0 <= i < rest.len() implies counters::rule_live(
            next,
            api_key,
            model,
            #[trigger] rest[i],
            now,
        ) == counters::rule_live(state, api_key, model, rest[i], now) by {
            assert(rest[i] == rules[i + 1]);
            if counters::rule_key(api_key, model, rest[i]) == key {
                assert(rules[0] == rules[i + 1]);
            }
        }
        if window::has_room(log, now, rule.0, rule.1) {
            assert(rest.no_duplicates());
            refused_by_the_first_full_rule(next, now, api_key, model, rest);
            let refused = counters::check_in_turn(next, now, api_key, model, rest).refused;
            assert(counters::all_have_room(next, api_key, model, rest, now)
                == counters::all_have_room(state, api_key, model, rules, now)) by {
                if counters::all_have_room(next, api_key, model, rest, now) {
                    assert forall|i: int| 0 <= i < rules.len() implies counters::rule_live(
                        state,
                        api_key,
                        model,
                        #[trigger] rules[i],
                        now,
                    ).len() < rules[i].0 by {
                        if i > 0 {
                            assert(rest[i - 1] == rules[i]);
                        }
                    }
                }
                if counters::all_have_room(state, api_key, model, rules, now) {
                    assert forall|i: int| 0 <= i < rest.len() implies counters::rule_live(
                        next,
                        api_key,
                        model,
                        #[trigger] rest[i],
                        now,
                    ).len() < rest[i].0 by {
                        assert(rest[i] == rules[i + 1]);
                    }
                }
            }
            if refused is Some {
                let full = refused->0;
                let i = choose|i: int|
                    0 <= i < rest.len() && rest[i] == full && counters::rule_live(
                        next,
                        api_key,
                        model,
                        full,
                        now,
                    ).len() >= full.0 && counters::all_have_room(
                        next,
                        api_key,
                        model,
                        #[trigger] rest.take(i),
                        now,
                    );
                let before = rules.take(i + 1);
                assert forall|k: int| 0 <= k < before.len() implies counters::rule_live(
                    state,
                    api_key,
                    model,
                    #[trigger] before[k],
                    now,
                ).len() < before[k].0 by {
                    if k > 0 {
                        assert(rest.take(i)[k - 1] == before[k]);
                        assert(rest[k - 1] == before[k]);
                    }
                }
                assert(rules[i + 1] == full);
                assert(counters::all_have_room(state, api_key, model, rules.take(i + 1), now));
            }
        } else {
            assert(counters::all_have_room(state, api_key, model, rules.take(0), now));
            assert(counters::rule_live(state, api_key, model, rules[0], now).len() >= rules[0].0);
        }
    }
}

/// The counters after one check of a rule at each of the times.
pub open spec fn checked_at_times(
    state: Map<CounterKey, Seq<u128>>,
    key: CounterKey,
    limit: u32,
    window_secs: u64,
    times: Seq<u128>,
) -> Map<CounterKey, Seq<u128>>
    decreases times.len(),
{
    if times.len() == 0 {
        state
    } else {
        let before = checked_at_times(state, key, limit, window_secs, times.drop_last());
        before.insert(
            key,
            window::checked(counters::log_of(before, key), times.last(), limit, window_secs),
        )
    }
}

/// A counter that starts empty holds what [`window_laws::log_after`] says, so whatever
/// is proved of one log holds of every counter.
pub proof fn counters_follow_the_window(
    state: Map<CounterKey, Seq<u128>>,
    key: CounterKey,
    limit: u32,
    window_secs: u64,
    times: Seq<u128>,
)
    requires
        !state.contains_key(key),
    ensures
        counters::log_of(checked_at_times(state, key, limit, window_secs, times), key)
            == window_laws::log_after(times, limit, window_secs),
    decreases times.len(),
{
    if times.len() > 0 {
        counters_follow_the_window(state, key, limit, window_secs, times.drop_last());
    }
}

} // verus!
