//! The counters: one log for each API key, model and rule.

use crate::limiter::{EventModel, RateLimitEvent};
use crate::text;
use crate::text::decimal;
use crate::window;
use crate::window::{drop_expired, remaining_after, reset_after_secs};
use std::collections::VecDeque;
use vstd::hash_map::StringHashMap;
use vstd::prelude::*;

verus! {

broadcast use vstd::string::group_string_axioms;

// ---------------------------------------------------------------------------
// What a counter counts
// ---------------------------------------------------------------------------

/// What a counter counts: the requests with an API key for a model, under a limit and
/// a window.
#[verifier::ext_equal]
pub struct CounterKey {
    pub api_key: Seq<char>,
    pub model: Seq<char>,
    pub limit: u32,
    pub window_secs: u64,
}

/// The counter for an API key, a model, a limit and a window.
pub open spec fn key_of(api_key: Seq<char>, model: Seq<char>, limit: u32, window_secs: u64) -> CounterKey {
    CounterKey { api_key, model, limit, window_secs }
}

/// The counters that hold an unexpired request, without their expired ones.
pub open spec fn unexpired(state: Map<CounterKey, Seq<u128>>, now: u128) -> Map<
    CounterKey,
    Seq<u128>,
> {
    Map::new(
        |key: CounterKey|
            state.contains_key(key) && window::live(state[key], now, key.window_secs).len() > 0,
        |key: CounterKey| window::live(state[key], now, key.window_secs),
    )
}

/// What a snapshot reports of the counter `key`.
pub open spec fn snapshot_event(key: CounterKey, log: Seq<u128>, now: u128) -> EventModel {
    EventModel {
        api_key: key.api_key,
        model: key.model,
        rule_limit: key.limit,
        rule_window_secs: key.window_secs,
        count: log.len(),
        remaining: window::remaining_of(key.limit, log.len()),
        reset_after_secs: window::reset_after(log, now, key.window_secs),
        owner: Seq::empty(),
    }
}

/// The text under which a counter is found: its numbers and the length of its API key,
/// each with a colon behind it, then the API key and the model.
spec fn index_text(key: CounterKey) -> Seq<char> {
    text::decimal_text(key.limit as nat) + seq![':'] + (text::decimal_text(key.window_secs as nat)
        + seq![':'] + (text::decimal_text(key.api_key.len()) + seq![':'] + (key.api_key
        + key.model)))
}

fn counter_text(api_key: &str, model: &str, limit: u32, window_secs: u64) -> (s: String)
    ensures
        s@ == index_text(key_of(api_key@, model@, limit, window_secs)),
{
    proof {
        reveal_strlit(":");
    }
    let mut s: String = decimal(limit as u64);
    s.append(":");
    s.append(decimal(window_secs).as_str());
    s.append(":");
    s.append(decimal(api_key.unicode_len() as u64).as_str());
    s.append(":");
    s.append(api_key);
    s.append(model);
    proof {
        assert(":"@ =~= seq![':']);
        assert(s@ =~= index_text(key_of(api_key@, model@, limit, window_secs)));
    }
    s
}

proof fn index_text_splits(key: CounterKey)
    ensures
        text::pieces(index_text(key), ':', 4) == seq![
            text::decimal_text(key.limit as nat),
            text::decimal_text(key.window_secs as nat),
            text::decimal_text(key.api_key.len()),
            key.api_key + key.model,
        ],
{
    let l = text::decimal_text(key.limit as nat);
    let w = text::decimal_text(key.window_secs as nat);
    let n = text::decimal_text(key.api_key.len());
    let names = key.api_key + key.model;
    text::decimal_reads_back(key.limit as nat);
    text::decimal_reads_back(key.window_secs as nat);
    text::decimal_reads_back(key.api_key.len());
    text::pieces_head(n, names, ':', 2);
    text::pieces_head(w, n + seq![':'] + names, ':', 3);
    text::pieces_head(l, w + seq![':'] + (n + seq![':'] + names), ':', 4);
    assert(text::pieces(names, ':', 1) =~= seq![names]);
    assert(text::pieces(index_text(key), ':', 4) =~= seq![l, w, n, names]);
}

/// Different counters are found under different texts.
proof fn index_text_tells_apart(a: CounterKey, b: CounterKey)
    requires
        index_text(a) == index_text(b),
    ensures
        a == b,
{
    index_text_splits(a);
    index_text_splits(b);
    let p = text::pieces(index_text(a), ':', 4);
    let q = text::pieces(index_text(b), ':', 4);
    assert(p[0] == q[0] && p[1] == q[1] && p[2] == q[2] && p[3] == q[3]);
    text::decimal_is_injective(a.limit as nat, b.limit as nat);
    text::decimal_is_injective(a.window_secs as nat, b.window_secs as nat);
    text::decimal_is_injective(a.api_key.len(), b.api_key.len());
    let n = a.api_key.len() as int;
    assert(a.api_key =~= (a.api_key + a.model).take(n));
    assert(b.api_key =~= (b.api_key + b.model).take(n));
    assert(a.model =~= (a.api_key + a.model).skip(n));
    assert(b.model =~= (b.api_key + b.model).skip(n));
}

// ---------------------------------------------------------------------------
// All counters
// ---------------------------------------------------------------------------

/// The log under `key`, empty where there is none.
pub open spec fn log_of(state: Map<CounterKey, Seq<u128>>, key: CounterKey) -> Seq<u128> {
    if state.contains_key(key) {
        state[key]
    } else {
        Seq::empty()
    }
}

/// What one check reports: the requests in the window before it, what they leave of
/// the limit, and when the oldest of them leaves.
pub open spec fn check_event(
    log: Seq<u128>,
    now: u128,
    api_key: Seq<char>,
    model: Seq<char>,
    limit: u32,
    window_secs: u64,
) -> EventModel {
    EventModel {
        api_key,
        model,
        rule_limit: limit,
        rule_window_secs: window_secs,
        count: window::live(log, now, window_secs).len(),
        remaining: window::remaining_of(limit, window::live(log, now, window_secs).len()),
        reset_after_secs: window::reset_after(window::checked(log, now, limit, window_secs), now, window_secs),
        owner: Seq::empty(),
    }
}

/// How often `rule` occurs in `rules`.
pub open spec fn occurrences(rules: Seq<(u32, u64)>, rule: (u32, u64)) -> nat
    decreases rules.len(),
{
    if rules.len() == 0 {
        0
    } else {
        occurrences(rules.drop_last(), rule) + if rules.last() == rule {
            1nat
        } else {
            0nat
        }
    }
}

/// The counter that `rule` has for this API key and model.
pub open spec fn rule_key(api_key: Seq<char>, model: Seq<char>, rule: (u32, u64)) -> CounterKey {
    key_of(api_key, model, rule.0, rule.1)
}

/// The unexpired log of `rule`.
pub open spec fn rule_live(
    state: Map<CounterKey, Seq<u128>>,
    api_key: Seq<char>,
    model: Seq<char>,
    rule: (u32, u64),
    now: u128,
) -> Seq<u128> {
    window::live(log_of(state, rule_key(api_key, model, rule)), now, rule.1)
}

/// Whether every rule admits one more request at `now`.
pub open spec fn all_have_room(
    state: Map<CounterKey, Seq<u128>>,
    api_key: Seq<char>,
    model: Seq<char>,
    rules: Seq<(u32, u64)>,
    now: u128,
) -> bool {
    forall|i: int|
        0 <= i < rules.len() ==> rule_live(state, api_key, model, #[trigger] rules[i], now).len()
            < rules[i].0
}

/// The log of `rule` once the first `n` of `rules` have recorded the request at
/// `now`.
pub open spec fn rule_recorded(
    state: Map<CounterKey, Seq<u128>>,
    api_key: Seq<char>,
    model: Seq<char>,
    rules: Seq<(u32, u64)>,
    n: int,
    rule: (u32, u64),
    now: u128,
) -> Seq<u128> {
    rule_live(state, api_key, model, rule, now) + Seq::new(
        occurrences(rules.take(n), rule),
        |k: int| now,
    )
}

/// Whether `key` belongs to one of `rules`.
pub open spec fn is_rule_key(
    api_key: Seq<char>,
    model: Seq<char>,
    rules: Seq<(u32, u64)>,
    key: CounterKey,
) -> bool {
    exists|i: int|
        0 <= i < rules.len() && rule_key(api_key, model, #[trigger] rules[i]) == key
}

/// The counters after all of `rules` were checked together at `now`: the counters of
/// the rules lose their expired requests, and record the new one if and only if all
/// of them had room; no other counter changes.
pub open spec fn checked_together(
    before: Map<CounterKey, Seq<u128>>,
    api_key: Seq<char>,
    model: Seq<char>,
    rules: Seq<(u32, u64)>,
    now: u128,
) -> Map<CounterKey, Seq<u128>> {
    let recorded = if all_have_room(before, api_key, model, rules, now) {
        rules.len() as int
    } else {
        0
    };
    Map::new(
        |key: CounterKey| before.contains_key(key) || is_rule_key(api_key, model, rules, key),
        |key: CounterKey|
            if is_rule_key(api_key, model, rules, key) {
                rule_recorded(
                    before,
                    api_key,
                    model,
                    rules,
                    recorded,
                    (key.limit, key.window_secs),
                    now,
                )
            } else {
                before[key]
            },
    )
}

/// What checking `rules` together reports of the rule at `i`: the requests in its
/// window, the new one among them if it was recorded.
pub open spec fn together_event(
    before: Map<CounterKey, Seq<u128>>,
    api_key: Seq<char>,
    model: Seq<char>,
    rules: Seq<(u32, u64)>,
    i: int,
    now: u128,
) -> EventModel {
    let all = all_have_room(before, api_key, model, rules, now);
    let count = rule_recorded(
        before,
        api_key,
        model,
        rules,
        if all {
            i + 1
        } else {
            0
        },
        rules[i],
        now,
    ).len();
    EventModel {
        api_key,
        model,
        rule_limit: rules[i].0,
        rule_window_secs: rules[i].1,
        count,
        remaining: if all {
            window::remaining_of(rules[i].0, count)
        } else {
            0
        },
        reset_after_secs: window::reset_after(
            rule_live(before, api_key, model, rules[i], now),
            now,
            rules[i].1,
        ),
        owner: Seq::empty(),
    }
}

/// The event that reports a rule before it is known whether all rules have room.
spec fn event_as_found(
    before: Map<CounterKey, Seq<u128>>,
    api_key: Seq<char>,
    model: Seq<char>,
    rules: Seq<(u32, u64)>,
    i: int,
    now: u128,
) -> EventModel {
    EventModel {
        count: rule_live(before, api_key, model, rules[i], now).len(),
        remaining: 0,
        ..together_event(before, api_key, model, rules, i, now)
    }
}

/// Whether nothing but the counters of `rules` has changed.
spec fn others_unchanged(
    before: Map<CounterKey, Seq<u128>>,
    after: Map<CounterKey, Seq<u128>>,
    api_key: Seq<char>,
    model: Seq<char>,
    rules: Seq<(u32, u64)>,
) -> bool {
    forall|key: CounterKey|
        !is_rule_key(api_key, model, rules, key) ==> (#[trigger] after.contains_key(key)
            == before.contains_key(key)) && log_of(after, key) == log_of(before, key)
}

/// Whether the counters of the first `n` rules have dropped what has expired.
spec fn purged_up_to(
    before: Map<CounterKey, Seq<u128>>,
    after: Map<CounterKey, Seq<u128>>,
    api_key: Seq<char>,
    model: Seq<char>,
    rules: Seq<(u32, u64)>,
    n: int,
    now: u128,
) -> bool {
    &&& forall|k: int|
        0 <= k < n ==> after.contains_key(rule_key(api_key, model, #[trigger] rules[k]))
            && after[rule_key(api_key, model, rules[k])] == rule_live(
            before,
            api_key,
            model,
            rules[k],
            now,
        )
    &&& others_unchanged(before, after, api_key, model, rules.take(n))
}

/// Whether the counters of all rules have dropped what has expired, and those of the
/// first `n` have recorded the request.
spec fn recorded_up_to(
    before: Map<CounterKey, Seq<u128>>,
    after: Map<CounterKey, Seq<u128>>,
    api_key: Seq<char>,
    model: Seq<char>,
    rules: Seq<(u32, u64)>,
    n: int,
    now: u128,
) -> bool {
    &&& forall|k: int|
        0 <= k < rules.len() ==> after.contains_key(rule_key(api_key, model, #[trigger] rules[k]))
            && after[rule_key(api_key, model, rules[k])] == rule_recorded(
            before,
            api_key,
            model,
            rules,
            n,
            rules[k],
            now,
        )
    &&& others_unchanged(before, after, api_key, model, rules)
}

/// Dropping what has expired for one more rule.
proof fn purge_one(
    before: Map<CounterKey, Seq<u128>>,
    start: Map<CounterKey, Seq<u128>>,
    a: Seq<char>,
    m: Seq<char>,
    rules: Seq<(u32, u64)>,
    i: int,
    now: u128,
)
    requires
        0 <= i < rules.len(),
        purged_up_to(before, start, a, m, rules, i, now),
    ensures
        ({
            let key = rule_key(a, m, rules[i]);
            let left = rule_live(before, a, m, rules[i], now);
            &&& window::live(log_of(start, key), now, rules[i].1) == left
            &&& purged_up_to(before, start.insert(key, left), a, m, rules, i + 1, now)
        }),
{
    let rule = rules[i];
    let key = rule_key(a, m, rule);
    let done = rules.take(i);
    let next = rules.take(i + 1);
    assert(next =~= done.push(rule));
    if is_rule_key(a, m, done, key) {
        let k = choose|k: int| 0 <= k < i && rule_key(a, m, #[trigger] done[k]) == key;
        assert(done[k] == rules[k]);
        assert(rules[k] == rule);
        window::live_is_stable(log_of(before, key), now, rule.1);
    } else {
        assert(start.contains_key(key) == before.contains_key(key));
    }
    let after = start.insert(key, rule_live(before, a, m, rule, now));
    assert forall|k: int| 0 <= k < i + 1 implies after.contains_key(
        rule_key(a, m, #[trigger] rules[k]),
    ) && after[rule_key(a, m, rules[k])] == rule_live(before, a, m, rules[k], now) by {
        if rule_key(a, m, rules[k]) == key {
        }
    }
    assert forall|other: CounterKey| !is_rule_key(a, m, next, other) implies (
    #[trigger] after.contains_key(other) == before.contains_key(other)) && log_of(after, other)
        == log_of(before, other) by {
        assert(next[i] == rule);
        assert(other != key);
        if is_rule_key(a, m, done, other) {
            let k = choose|k: int| 0 <= k < i && rule_key(a, m, #[trigger] done[k]) == other;
            assert(next[k] == done[k]);
        }
        assert(start.contains_key(other) == before.contains_key(other));
    }
}

/// All of the first `i + 1` rules have room if the first `i` have and the next has.
proof fn room_for_one_more(
    before: Map<CounterKey, Seq<u128>>,
    a: Seq<char>,
    m: Seq<char>,
    rules: Seq<(u32, u64)>,
    i: int,
    now: u128,
)
    requires
        0 <= i < rules.len(),
    ensures
        all_have_room(before, a, m, rules.take(i + 1), now) == (all_have_room(
            before,
            a,
            m,
            rules.take(i),
            now,
        ) && rule_live(before, a, m, rules[i], now).len() < rules[i].0),
{
    let done = rules.take(i);
    let next = rules.take(i + 1);
    assert(next[i] == rules[i]);
    if all_have_room(before, a, m, next, now) {
        assert forall|k: int| 0 <= k < done.len() implies rule_live(
            before,
            a,
            m,
            #[trigger] done[k],
            now,
        ).len() < done[k].0 by {
            assert(next[k] == done[k]);
        }
    }
    if all_have_room(before, a, m, done, now) && rule_live(before, a, m, rules[i], now).len()
        < rules[i].0 {
        assert forall|k: int| 0 <= k < next.len() implies rule_live(
            before,
            a,
            m,
            #[trigger] next[k],
            now,
        ).len() < next[k].0 by {
            if k < i {
                assert(done[k] == next[k]);
            }
        }
    }
}

/// Counters that have dropped what has expired have recorded nothing.
proof fn purged_is_recorded_up_to_none(
    before: Map<CounterKey, Seq<u128>>,
    after: Map<CounterKey, Seq<u128>>,
    a: Seq<char>,
    m: Seq<char>,
    rules: Seq<(u32, u64)>,
    now: u128,
)
    requires
        purged_up_to(before, after, a, m, rules, rules.len() as int, now),
    ensures
        recorded_up_to(before, after, a, m, rules, 0, now),
{
    assert(rules.take(rules.len() as int) =~= rules);
    assert(rules.take(0) =~= Seq::<(u32, u64)>::empty());
    assert forall|k: int| 0 <= k < rules.len() implies after[rule_key(a, m, #[trigger] rules[k])]
        == rule_recorded(before, a, m, rules, 0, rules[k], now) by {
        assert(rule_recorded(before, a, m, rules, 0, rules[k], now) =~= rule_live(
            before,
            a,
            m,
            rules[k],
            now,
        ));
    }
}

/// Recording the request for one more rule.
proof fn record_one(
    before: Map<CounterKey, Seq<u128>>,
    start: Map<CounterKey, Seq<u128>>,
    a: Seq<char>,
    m: Seq<char>,
    rules: Seq<(u32, u64)>,
    j: int,
    now: u128,
)
    requires
        0 <= j < rules.len(),
        recorded_up_to(before, start, a, m, rules, j, now),
    ensures
        ({
            let key = rule_key(a, m, rules[j]);
            recorded_up_to(
                before,
                start.insert(key, start[key].push(now)),
                a,
                m,
                rules,
                j + 1,
                now,
            )
        }),
{
    let rule = rules[j];
    let key = rule_key(a, m, rule);
    let done = rules.take(j);
    let next = rules.take(j + 1);
    let after = start.insert(key, start[key].push(now));
    assert(next.drop_last() =~= done);
    assert(next.last() == rule);
    assert forall|k: int| 0 <= k < rules.len() implies after.contains_key(
        rule_key(a, m, #[trigger] rules[k]),
    ) && after[rule_key(a, m, rules[k])] == rule_recorded(
        before,
        a,
        m,
        rules,
        j + 1,
        rules[k],
        now,
    ) by {
        let r = rules[k];
        if rule_key(a, m, r) == key {
            assert(r == rule);
            assert(occurrences(next, r) == occurrences(done, r) + 1);
            assert(rule_recorded(before, a, m, rules, j + 1, r, now) =~= rule_recorded(
                before,
                a,
                m,
                rules,
                j,
                r,
                now,
            ).push(now));
        } else {
            assert(r != rule);
            assert(occurrences(next, r) == occurrences(done, r));
        }
    }
    assert forall|other: CounterKey| !is_rule_key(a, m, rules, other) implies (
    #[trigger] after.contains_key(other) == before.contains_key(other)) && log_of(after, other)
        == log_of(before, other) by {
        assert(other != key) by {
            assert(rule_key(a, m, rules[j]) == key);
        }
        assert(start.contains_key(other) == before.contains_key(other));
    }
}

/// Counters that have recorded as much as they should are as checking `rules` together
/// leaves them.
proof fn recorded_is_together(
    before: Map<CounterKey, Seq<u128>>,
    after: Map<CounterKey, Seq<u128>>,
    a: Seq<char>,
    m: Seq<char>,
    rules: Seq<(u32, u64)>,
    n: int,
    now: u128,
)
    requires
        recorded_up_to(before, after, a, m, rules, n, now),
        n == if all_have_room(before, a, m, rules, now) {
            rules.len() as int
        } else {
            0
        },
    ensures
        after == checked_together(before, a, m, rules, now),
{
    let expected = checked_together(before, a, m, rules, now);
    assert forall|key: CounterKey| #[trigger] after.contains_key(key) == expected.contains_key(
        key,
    ) && (after.contains_key(key) ==> after[key] == expected[key]) by {
        if is_rule_key(a, m, rules, key) {
            let i = choose|i: int|
                0 <= i < rules.len() && rule_key(a, m, #[trigger] rules[i]) == key;
            assert(rules[i] == (key.limit, key.window_secs));
        } else {
            assert(after.contains_key(key) == before.contains_key(key));
            assert(log_of(after, key) == log_of(before, key));
        }
    }
    assert(after =~= expected);
}

struct Counter {
    api_key: String,
    model: String,
    limit: u32,
    window_secs: u64,
    log: VecDeque<u128>,
}

impl Counter {
    spec fn key(&self) -> CounterKey {
        key_of(self.api_key@, self.model@, self.limit, self.window_secs)
    }
}

spec fn counter_map(entries: Seq<Counter>) -> Map<CounterKey, Seq<u128>>
    decreases entries.len(),
{
    if entries.len() == 0 {
        Map::empty()
    } else {
        counter_map(entries.drop_last()).insert(entries.last().key(), entries.last().log@)
    }
}

spec fn distinct_keys(entries: Seq<Counter>) -> bool {
    forall|i: int, j: int|
        0 <= i < j < entries.len() ==> (#[trigger] entries[i]).key() != (
        #[trigger] entries[j]).key()
}

proof fn counter_map_holds(entries: Seq<Counter>)
    requires
        distinct_keys(entries),
    ensures
        forall|i: int|
            0 <= i < entries.len() ==> counter_map(entries).contains_key(
                (#[trigger] entries[i]).key(),
            ) && counter_map(entries)[entries[i].key()] == entries[i].log@,
        forall|k: CounterKey| #[trigger]
            counter_map(entries).contains_key(k) ==> exists|i: int|
                0 <= i < entries.len() && (#[trigger] entries[i]).key() == k,
    decreases entries.len(),
{
    if entries.len() > 0 {
        let rest = entries.drop_last();
        counter_map_holds(rest);
        assert forall|i: int| 0 <= i < entries.len() implies counter_map(entries).contains_key(
            (#[trigger] entries[i]).key(),
        ) && counter_map(entries)[entries[i].key()] == entries[i].log@ by {
            if i < rest.len() {
                assert(rest[i] == entries[i]);
                assert(entries[i].key() != entries[entries.len() - 1].key());
            }
        }
        assert forall|k: CounterKey| #[trigger] counter_map(entries).contains_key(k) implies exists|
            i: int,
        | 0 <= i < entries.len() && (#[trigger] entries[i]).key() == k by {
            if k == entries.last().key() {
                assert(entries[entries.len() - 1].key() == k);
            } else {
                assert(counter_map(rest).contains_key(k));
                let i = choose|i: int| 0 <= i < rest.len() && (#[trigger] rest[i]).key() == k;
                assert(entries[i].key() == k);
            }
        }
    }
}

proof fn counter_map_update(entries: Seq<Counter>, i: int, c: Counter)
    requires
        distinct_keys(entries),
        0 <= i < entries.len(),
        c.key() == entries[i].key(),
    ensures
        distinct_keys(entries.update(i, c)),
        counter_map(entries.update(i, c)) == counter_map(entries).insert(c.key(), c.log@),
    decreases entries.len(),
{
    let new = entries.update(i, c);
    assert forall|a: int, b: int| 0 <= a < b < new.len() implies (#[trigger] new[a]).key() != (
    #[trigger] new[b]).key() by {
        assert(entries[a].key() != entries[b].key());
    }
    if i == entries.len() - 1 {
        assert(new.drop_last() =~= entries.drop_last());
    } else {
        counter_map_update(entries.drop_last(), i, c);
        assert(new.drop_last() =~= entries.drop_last().update(i, c));
        assert(entries[i].key() != entries[entries.len() - 1].key());
        assert(new.last() == entries.last());
    }
    assert(counter_map(new) =~= counter_map(entries).insert(c.key(), c.log@));
}

/// Whether `places` says where each counter is.
spec fn indexed(entries: Seq<Counter>, places: Map<Seq<char>, usize>) -> bool {
    &&& forall|i: int|
        0 <= i < entries.len() ==> places.contains_key(index_text((#[trigger] entries[i]).key()))
            && places[index_text(entries[i].key())] == i
    &&& forall|t: Seq<char>| #[trigger]
        places.contains_key(t) ==> places[t] < entries.len() && index_text(
            entries[places[t] as int].key(),
        ) == t
}

proof fn indexed_are_distinct(entries: Seq<Counter>, places: Map<Seq<char>, usize>)
    requires
        indexed(entries, places),
    ensures
        distinct_keys(entries),
{
    assert forall|i: int, j: int| 0 <= i < j < entries.len() implies (
    #[trigger] entries[i]).key() != (#[trigger] entries[j]).key() by {
        assert(places[index_text(entries[i].key())] == i);
        assert(places[index_text(entries[j].key())] == j);
    }
}

/// One more counter, for what no other counts.
proof fn indexed_push(entries: Seq<Counter>, places: Map<Seq<char>, usize>, c: Counter, i: usize)
    requires
        indexed(entries, places),
        i == entries.len(),
        !places.contains_key(index_text(c.key())),
    ensures
        indexed(entries.push(c), places.insert(index_text(c.key()), i)),
{
    let more = entries.push(c);
    let after = places.insert(index_text(c.key()), i);
    assert forall|k: int| 0 <= k < more.len() implies after.contains_key(
        index_text((#[trigger] more[k]).key()),
    ) && after[index_text(more[k].key())] == k by {
        if k < entries.len() {
            assert(more[k] == entries[k]);
            assert(places.contains_key(index_text(entries[k].key())));
        }
    }
    assert forall|t: Seq<char>| #[trigger] after.contains_key(t) implies after[t] < more.len()
        && index_text(more[after[t] as int].key()) == t by {
        if t != index_text(c.key()) {
            assert(places.contains_key(t));
        }
    }
}

/// A counter that changes, and counts what it counted.
proof fn indexed_update(entries: Seq<Counter>, places: Map<Seq<char>, usize>, i: int, c: Counter)
    requires
        indexed(entries, places),
        0 <= i < entries.len(),
        c.key() == entries[i].key(),
    ensures
        indexed(entries.update(i, c), places),
{
    let new = entries.update(i, c);
    assert forall|k: int| 0 <= k < new.len() implies places.contains_key(
        index_text((#[trigger] new[k]).key()),
    ) && places[index_text(new[k].key())] == k by {
        assert(places[index_text(entries[k].key())] == k);
    }
}

/// The logs of all counters.
pub struct Counters {
    entries: Vec<Counter>,
    places: StringHashMap<usize>,
}

impl View for Counters {
    type V = Map<CounterKey, Seq<u128>>;

    closed spec fn view(&self) -> Map<CounterKey, Seq<u128>> {
        counter_map(self.entries@)
    }
}

impl Counters {
    /// No two counters count the same, and each is found under its text.
    pub closed spec fn wf(&self) -> bool {
        &&& indexed(self.entries@, self.places@)
        &&& distinct_keys(self.entries@)
    }

    /// What the counters count, in the order in which they are reported.
    pub closed spec fn order(&self) -> Seq<CounterKey> {
        self.entries@.map_values(|c: Counter| c.key())
    }

    /// No counters.
    pub fn new() -> (counters: Self)
        ensures
            counters.wf(),
            counters@ == Map::<CounterKey, Seq<u128>>::empty(),
    {
        Counters { entries: Vec::new(), places: StringHashMap::new() }
    }

    /// The place of a counter, which is made if it is missing.
    fn slot(&mut self, api_key: &str, model: &str, limit: u32, window_secs: u64) -> (i: usize)
        requires
            old(self).wf(),
        ensures
            final(self).wf(),
            i < final(self).entries@.len(),
            ({
                let key = key_of(api_key@, model@, limit, window_secs);
                let log = log_of(old(self)@, key);
                &&& final(self).entries@[i as int].key() == key
                &&& final(self).entries@[i as int].log@ == log
                &&& final(self)@ == old(self)@.insert(key, log)
            }),
    {
        let ghost key = key_of(api_key@, model@, limit, window_secs);
        let place: String = counter_text(api_key, model, limit, window_secs);
        match self.places.get(place.as_str()) {
            Some(i) => {
                proof {
                    counter_map_holds(self.entries@);
                    index_text_tells_apart(self.entries@[*i as int].key(), key);
                    assert(self@ =~= self@.insert(key, log_of(self@, key)));
                }
                *i
            },
            None => {
                let i: usize = self.entries.len();
                let ghost before = self.entries@;
                self.entries.push(
                    Counter {
                        api_key: api_key.to_owned(),
                        model: model.to_owned(),
                        limit,
                        window_secs,
                        log: VecDeque::new(),
                    },
                );
                self.places.insert(place, i);
                proof {
                    let new = self.entries@[i as int];
                    counter_map_holds(before);
                    assert(self.entries@ =~= before.push(new));
                    assert(self.entries@.drop_last() =~= before);
                    assert(new.log@ =~= Seq::<u128>::empty());
                    assert(new.key() == key);
                    indexed_push(before, old(self).places@, new, i);
                    indexed_are_distinct(self.entries@, self.places@);
                    assert(log_of(old(self)@, key) == Seq::<u128>::empty());
                }
                i
            },
        }
    }

    /// Drops what has expired at `now` from the counter at `i`.
    fn purge(&mut self, i: usize, now: u128, window_secs: u64)
        requires
            old(self).wf(),
            i < old(self).entries@.len(),
        ensures
            final(self).wf(),
            final(self).entries@.len() == old(self).entries@.len(),
            final(self).entries@[i as int].key() == old(self).entries@[i as int].key(),
            final(self).entries@[i as int].log@ == window::live(
                old(self).entries@[i as int].log@,
                now,
                window_secs,
            ),
            final(self)@ == old(self)@.insert(
                old(self).entries@[i as int].key(),
                window::live(old(self).entries@[i as int].log@, now, window_secs),
            ),
    {
        drop_expired(&mut self.entries[i].log, now, window_secs);
        proof {
            counter_map_update(old(self).entries@, i as int, self.entries@[i as int]);
            indexed_update(
                old(self).entries@,
                old(self).places@,
                i as int,
                self.entries@[i as int],
            );
            assert(self.entries@ =~= old(self).entries@.update(
                i as int,
                self.entries@[i as int],
            ));
        }
    }

    /// Records a request at `now` under the counter at `i`.
    fn record(&mut self, i: usize, now: u128)
        requires
            old(self).wf(),
            i < old(self).entries@.len(),
        ensures
            final(self).wf(),
            final(self).entries@.len() == old(self).entries@.len(),
            final(self).entries@[i as int].key() == old(self).entries@[i as int].key(),
            final(self).entries@[i as int].log@ == old(self).entries@[i as int].log@.push(now),
            final(self)@ == old(self)@.insert(
                old(self).entries@[i as int].key(),
                old(self).entries@[i as int].log@.push(now),
            ),
    {
        self.entries[i].log.push_back(now);
        proof {
            counter_map_update(old(self).entries@, i as int, self.entries@[i as int]);
            indexed_update(
                old(self).entries@,
                old(self).places@,
                i as int,
                self.entries@[i as int],
            );
            assert(self.entries@ =~= old(self).entries@.update(
                i as int,
                self.entries@[i as int],
            ));
        }
    }
}

impl Counters {
    /// Checks one rule at `now`. Returns whether the request is admitted, and the
    /// event that reports it.
    pub fn check_at(
        &mut self,
        now: u128,
        api_key: &str,
        model: &str,
        limit: u32,
        window_secs: u64,
    ) -> (r: (bool, RateLimitEvent))
        requires
            old(self).wf(),
        ensures
            final(self).wf(),
            ({
                let key = key_of(api_key@, model@, limit, window_secs);
                let log = log_of(old(self)@, key);
                &&& r.0 == window::has_room(log, now, limit, window_secs)
                &&& r.1@ == check_event(log, now, api_key@, model@, limit, window_secs)
                &&& final(self)@ == old(self)@.insert(key, window::checked(log, now, limit, window_secs))
            }),
    {
        let ghost key = key_of(api_key@, model@, limit, window_secs);
        let i: usize = self.slot(api_key, model, limit, window_secs);
        self.purge(i, now, window_secs);
        let count: usize = self.entries[i].log.len();
        let passed: bool = count < limit as usize;
        if passed {
            self.record(i, now);
        }
        let reset: u64 = reset_after_secs(&self.entries[i].log, now, window_secs);
        proof {
            let log = log_of(old(self)@, key);
            assert(self@ =~= old(self)@.insert(key, window::checked(log, now, limit, window_secs)));
        }
        (
            passed,
            RateLimitEvent {
                api_key: api_key.to_owned(),
                model: model.to_owned(),
                rule_limit: limit,
                rule_window_secs: window_secs,
                count,
                remaining: remaining_after(limit, count),
                reset_after_secs: reset,
                owner: String::new(),
            },
        )
    }

    /// Drops what has expired from the counters of `rules`. Returns whether all of them
    /// have room, and the events that report them as they stand.
    fn look_at(&mut self, now: u128, api_key: &str, model: &str, rules: &[(u32, u64)]) -> (r: (
        bool,
        Vec<RateLimitEvent>,
    ))
        requires
            old(self).wf(),
        ensures
            final(self).wf(),
            recorded_up_to(old(self)@, final(self)@, api_key@, model@, rules@, 0, now),
            r.0 == all_have_room(old(self)@, api_key@, model@, rules@, now),
            r.1@.len() == rules@.len(),
            forall|k: int|
                0 <= k < rules@.len() ==> (#[trigger] r.1@[k])@ == event_as_found(
                    old(self)@,
                    api_key@,
                    model@,
                    rules@,
                    k,
                    now,
                ),
    {
        let ghost before = self@;
        let ghost a = api_key@;
        let ghost m = model@;
        let mut events: Vec<RateLimitEvent> = Vec::new();
        let mut all_pass: bool = true;
        let mut i: usize = 0;
        while i < rules.len()
            invariant
                self.wf(),
                i <= rules@.len(),
                a == api_key@,
                m == model@,
                purged_up_to(before, self@, a, m, rules@, i as int, now),
                all_pass == all_have_room(before, a, m, rules@.take(i as int), now),
                events@.len() == i,
                forall|k: int|
                    0 <= k < i ==> (#[trigger] events@[k])@ == event_as_found(
                        before,
                        a,
                        m,
                        rules@,
                        k,
                        now,
                    ),
            decreases rules@.len() - i,
        {
            let limit: u32 = rules[i].0;
            let window_secs: u64 = rules[i].1;
            let ghost key = key_of(api_key@, model@, limit, window_secs);
            let ghost start = self@;
            let slot: usize = self.slot(api_key, model, limit, window_secs);
            self.purge(slot, now, window_secs);
            proof {
                assert(rules@[i as int] == (limit, window_secs));
                purge_one(before, start, a, m, rules@, i as int, now);
                assert(self@ =~= start.insert(
                    key,
                    rule_live(before, a, m, rules@[i as int], now),
                ));
                room_for_one_more(before, a, m, rules@, i as int, now);
            }
            let count: usize = self.entries[slot].log.len();
            if count >= limit as usize {
                all_pass = false;
            }
            let reset: u64 = reset_after_secs(&self.entries[slot].log, now, window_secs);
            let ghost listed = events@;
            events.push(
                RateLimitEvent {
                    api_key: api_key.to_owned(),
                    model: model.to_owned(),
                    rule_limit: limit,
                    rule_window_secs: window_secs,
                    count,
                    remaining: 0,
                    reset_after_secs: reset,
                    owner: String::new(),
                },
            );
            proof {
                assert forall|k: int| 0 <= k < i + 1 implies (#[trigger] events@[k])@
                    == event_as_found(before, a, m, rules@, k, now) by {
                    if k < i {
                        assert(events@[k] == listed[k]);
                    } else {
                        assert(events@[k]@.owner =~= Seq::<char>::empty());
                    }
                }
            }
            i += 1;
        }
        proof {
            assert(rules@.take(rules@.len() as int) =~= rules@);
            purged_is_recorded_up_to_none(before, self@, a, m, rules@, now);
        }
        (all_pass, events)
    }

    /// Records a request under each of `rules`, and brings the events up to date.
    fn record_all(
        &mut self,
        now: u128,
        api_key: &str,
        model: &str,
        rules: &[(u32, u64)],
        events: &mut Vec<RateLimitEvent>,
        Ghost(before): Ghost<Map<CounterKey, Seq<u128>>>,
    )
        requires
            old(self).wf(),
            all_have_room(before, api_key@, model@, rules@, now),
            recorded_up_to(before, old(self)@, api_key@, model@, rules@, 0, now),
            old(events)@.len() == rules@.len(),
            forall|k: int|
                0 <= k < rules@.len() ==> (#[trigger] old(events)@[k])@ == event_as_found(
                    before,
                    api_key@,
                    model@,
                    rules@,
                    k,
                    now,
                ),
        ensures
            final(self).wf(),
            recorded_up_to(
                before,
                final(self)@,
                api_key@,
                model@,
                rules@,
                rules@.len() as int,
                now,
            ),
            final(events)@.len() == rules@.len(),
            forall|k: int|
                0 <= k < rules@.len() ==> (#[trigger] final(events)@[k])@ == together_event(
                    before,
                    api_key@,
                    model@,
                    rules@,
                    k,
                    now,
                ),
    {
        let ghost a = api_key@;
        let ghost m = model@;
        let mut j: usize = 0;
        while j < rules.len()
            invariant
                self.wf(),
                j <= rules@.len(),
                a == api_key@,
                m == model@,
                all_have_room(before, a, m, rules@, now),
                recorded_up_to(before, self@, a, m, rules@, j as int, now),
                events@.len() == rules@.len(),
                forall|k: int|
                    0 <= k < j ==> (#[trigger] events@[k])@ == together_event(
                        before,
                        a,
                        m,
                        rules@,
                        k,
                        now,
                    ),
                forall|k: int|
                    j <= k < rules@.len() ==> (#[trigger] events@[k])@ == event_as_found(
                        before,
                        a,
                        m,
                        rules@,
                        k,
                        now,
                    ),
            decreases rules@.len() - j,
        {
            let limit: u32 = rules[j].0;
            let window_secs: u64 = rules[j].1;
            let ghost key = key_of(api_key@, model@, limit, window_secs);
            let ghost start = self@;
            let ghost listed = events@;
            proof {
                assert(rules@[j as int] == (limit, window_secs));
                assert(start.contains_key(rule_key(a, m, rules@[j as int])));
            }
            let slot: usize = self.slot(api_key, model, limit, window_secs);
            self.record(slot, now);
            let count: usize = self.entries[slot].log.len();
            events[j].count = count;
            events[j].remaining = remaining_after(limit, count);
            proof {
                record_one(before, start, a, m, rules@, j as int, now);
                assert(self@ =~= start.insert(key, start[key].push(now)));
                assert forall|k: int| 0 <= k < j + 1 implies (#[trigger] events@[k])@
                    == together_event(before, a, m, rules@, k, now) by {
                    if k < j {
                        assert(events@[k] == listed[k]);
                    } else {
                        assert(listed[k]@ == event_as_found(before, a, m, rules@, k, now));
                        assert(self@[rule_key(a, m, rules@[k])] == rule_recorded(
                            before,
                            a,
                            m,
                            rules@,
                            j + 1,
                            rules@[k],
                            now,
                        ));
                    }
                }
                assert forall|k: int| j + 1 <= k < rules@.len() implies (#[trigger] events@[k])@
                    == event_as_found(before, a, m, rules@, k, now) by {
                    assert(events@[k] == listed[k]);
                }
            }
            j += 1;
        }
    }

    /// Checks `rules` together at `now`: the request is recorded under all of them if
    /// all of them have room, and under none otherwise.
    pub fn check_all_at(
        &mut self,
        now: u128,
        api_key: &str,
        model: &str,
        rules: &[(u32, u64)],
    ) -> (events: Vec<RateLimitEvent>)
        requires
            old(self).wf(),
        ensures
            final(self).wf(),
            final(self)@ == checked_together(old(self)@, api_key@, model@, rules@, now),
            events@.len() == rules@.len(),
            forall|i: int|
                0 <= i < rules@.len() ==> (#[trigger] events@[i])@ == together_event(
                    old(self)@,
                    api_key@,
                    model@,
                    rules@,
                    i,
                    now,
                ),
    {
        let ghost before = self@;
        let (all_pass, mut events): (bool, Vec<RateLimitEvent>) = self.look_at(
            now,
            api_key,
            model,
            rules,
        );
        if all_pass {
            self.record_all(now, api_key, model, rules, &mut events, Ghost(before));
            proof {
                recorded_is_together(
                    before,
                    self@,
                    api_key@,
                    model@,
                    rules@,
                    rules@.len() as int,
                    now,
                );
            }
        } else {
            proof {
                assert(rules@.take(0) =~= Seq::<(u32, u64)>::empty());
                recorded_is_together(before, self@, api_key@, model@, rules@, 0, now);
            }
        }
        events
    }
}

/// What a snapshot reports of one counter.
fn report(counter: &Counter, now: u128) -> (event: RateLimitEvent)
    ensures
        event@ == snapshot_event(counter.key(), counter.log@, now),
{
    let count: usize = counter.log.len();
    RateLimitEvent {
        api_key: counter.api_key.clone(),
        model: counter.model.clone(),
        rule_limit: counter.limit,
        rule_window_secs: counter.window_secs,
        count,
        remaining: remaining_after(counter.limit, count),
        reset_after_secs: reset_after_secs(&counter.log, now, counter.window_secs),
        owner: String::new(),
    }
}

spec fn came_from(all: Seq<Counter>, n: int, c: Counter, now: u128) -> bool {
    &&& c.log@.len() > 0
    &&& exists|i: int|
        n <= i < all.len() && (#[trigger] all[i]).key() == c.key() && c.log@ == window::live(
            all[i].log@,
            now,
            c.window_secs,
        )
}

spec fn stays_in(kept: Seq<Counter>, c: Counter, now: u128) -> bool {
    exists|j: int|
        0 <= j < kept.len() && (#[trigger] kept[j]).key() == c.key() && kept[j].log@ == window::live(
            c.log@,
            now,
            c.window_secs,
        )
}

/// `kept` holds exactly the counters of `all`, from the one at `n` on, that are left
/// at `now`.
spec fn sifted(all: Seq<Counter>, n: int, kept: Seq<Counter>, now: u128) -> bool {
    &&& distinct_keys(kept)
    &&& forall|j: int| 0 <= j < kept.len() ==> came_from(all, n, #[trigger] kept[j], now)
    &&& forall|i: int|
        n <= i < all.len() && window::live(
            (#[trigger] all[i]).log@,
            now,
            all[i].window_secs,
        ).len() > 0 ==> stays_in(kept, all[i], now)
}

proof fn sift_drops(all: Seq<Counter>, n: int, kept: Seq<Counter>, now: u128)
    requires
        0 < n <= all.len(),
        sifted(all, n, kept, now),
        window::live(all[n - 1].log@, now, all[n - 1].window_secs).len() == 0,
    ensures
        sifted(all, n - 1, kept, now),
{
    assert forall|j: int| 0 <= j < kept.len() implies came_from(
        all,
        n - 1,
        #[trigger] kept[j],
        now,
    ) by {
        assert(came_from(all, n, kept[j], now));
    }
}

proof fn sift_keeps(all: Seq<Counter>, n: int, kept: Seq<Counter>, c: Counter, now: u128)
    requires
        distinct_keys(all),
        0 < n <= all.len(),
        sifted(all, n, kept, now),
        c.key() == all[n - 1].key(),
        c.log@ == window::live(all[n - 1].log@, now, c.window_secs),
        c.log@.len() > 0,
    ensures
        sifted(all, n - 1, kept.push(c), now),
{
    let more = kept.push(c);
    assert forall|a: int, b: int| 0 <= a < b < more.len() implies (#[trigger] more[a]).key() != (
    #[trigger] more[b]).key() by {
        if b == kept.len() {
            assert(came_from(all, n, kept[a], now));
            let i = choose|i: int| n <= i < all.len() && (#[trigger] all[i]).key() == kept[a].key();
            assert(all[n - 1].key() != all[i].key());
        } else {
            assert(kept[a].key() != kept[b].key());
        }
    }
    assert forall|j: int| 0 <= j < more.len() implies came_from(
        all,
        n - 1,
        #[trigger] more[j],
        now,
    ) by {
        if j < kept.len() {
            assert(came_from(all, n, kept[j], now));
        } else {
            assert(all[n - 1].key() == c.key());
        }
    }
    assert forall|i: int|
        n - 1 <= i < all.len() && window::live(
            (#[trigger] all[i]).log@,
            now,
            all[i].window_secs,
        ).len() > 0 implies stays_in(more, all[i], now) by {
        if i == n - 1 {
            assert(more[kept.len() as int].key() == all[i].key());
        } else {
            assert(stays_in(kept, all[i], now));
            let j = choose|j: int|
                0 <= j < kept.len() && (#[trigger] kept[j]).key() == all[i].key() && kept[j].log@
                    == window::live(all[i].log@, now, all[i].window_secs);
            assert(more[j] == kept[j]);
        }
    }
}

proof fn sifted_map(all: Seq<Counter>, kept: Seq<Counter>, now: u128)
    requires
        distinct_keys(all),
        sifted(all, 0, kept, now),
    ensures
        counter_map(kept) == unexpired(counter_map(all), now),
{
    counter_map_holds(all);
    counter_map_holds(kept);
    let before = counter_map(all);
    let after = counter_map(kept);
    assert forall|key: CounterKey| #[trigger] after.contains_key(key) implies unexpired(
        before,
        now,
    ).contains_key(key) && after[key] == unexpired(before, now)[key] by {
        let j = choose|j: int| 0 <= j < kept.len() && (#[trigger] kept[j]).key() == key;
        assert(came_from(all, 0, kept[j], now));
        let i = choose|i: int|
            0 <= i < all.len() && (#[trigger] all[i]).key() == kept[j].key() && kept[j].log@ == window::live(
                all[i].log@,
                now,
                kept[j].window_secs,
            );
        assert(before[all[i].key()] == all[i].log@);
        assert(after[kept[j].key()] == kept[j].log@);
    }
    assert forall|key: CounterKey| #[trigger]
        unexpired(before, now).contains_key(key) implies after.contains_key(key) by {
        assert(before.contains_key(key));
        let i = choose|i: int| 0 <= i < all.len() && (#[trigger] all[i]).key() == key;
        assert(before[all[i].key()] == all[i].log@);
        assert(stays_in(kept, all[i], now));
        let j = choose|j: int| 0 <= j < kept.len() && (#[trigger] kept[j]).key() == all[i].key();
        assert(after.contains_key(kept[j].key()));
    }
    assert(after =~= unexpired(before, now));
}

proof fn order_lists_keys(counters: Counters)
    requires
        counters.wf(),
    ensures
        counters.order().no_duplicates(),
        counters.order().to_set() == counters@.dom(),
        forall|i: int|
            0 <= i < counters.order().len() ==> #[trigger] counters.order()[i]
                == counters.entries@[i].key() && counters@[counters.order()[i]]
                == counters.entries@[i].log@,
{
    let entries = counters.entries@;
    let order = counters.order();
    counter_map_holds(entries);
    assert forall|i: int, j: int|
        0 <= i < order.len() && 0 <= j < order.len() && i != j implies order[i] != order[j] by {
        if i < j {
            assert(entries[i].key() != entries[j].key());
        } else {
            assert(entries[j].key() != entries[i].key());
        }
    }
    assert forall|key: CounterKey| #[trigger] order.to_set().contains(key)
        == counters@.dom().contains(key) by {
        if order.contains(key) {
            let i = choose|i: int| 0 <= i < order.len() && order[i] == key;
            assert(counters@.contains_key(entries[i].key()));
        }
        if counters@.contains_key(key) {
            let i = choose|i: int| 0 <= i < entries.len() && (#[trigger] entries[i]).key() == key;
            assert(order[i] == key);
        }
    }
    assert(order.to_set() =~= counters@.dom());
}

impl Counters {
    /// Drops what has expired at `now`, and reports every counter that is left.
    pub fn snapshot_at(&mut self, now: u128) -> (events: Vec<RateLimitEvent>)
        requires
            old(self).wf(),
        ensures
            final(self).wf(),
            final(self)@ == unexpired(old(self)@, now),
            final(self).order().no_duplicates(),
            final(self).order().to_set() == final(self)@.dom(),
            events@.len() == final(self).order().len(),
            forall|i: int|
                0 <= i < events@.len() ==> (#[trigger] events@[i])@ == snapshot_event(
                    final(self).order()[i],
                    final(self)@[final(self).order()[i]],
                    now,
                ),
    {
        let ghost all = self.entries@;
        let mut kept: Vec<Counter> = Vec::new();
        let mut places: StringHashMap<usize> = StringHashMap::new();
        let mut events: Vec<RateLimitEvent> = Vec::new();
        proof {
            assert(all.take(all.len() as int) =~= all);
        }
        while self.entries.len() > 0
            invariant
                distinct_keys(all),
                        self.entries@.len() <= all.len(),
                self.entries@ == all.take(self.entries@.len() as int),
                sifted(all, self.entries@.len() as int, kept@, now),
                indexed(kept@, places@),
                events@.len() == kept@.len(),
                forall|j: int|
                    0 <= j < events@.len() ==> (#[trigger] events@[j])@ == snapshot_event(
                        kept@[j].key(),
                        kept@[j].log@,
                        now,
                    ),
            decreases self.entries@.len(),
        {
            let ghost n = self.entries@.len() as int;
            let mut counter: Counter = self.entries.pop().unwrap();
            proof {
                assert(self.entries@ =~= all.take(n - 1));
                assert(counter == all[n - 1]);
            }
            drop_expired(&mut counter.log, now, counter.window_secs);
            if counter.log.len() > 0 {
                let place: usize = kept.len();
                proof {
                    sift_keeps(all, n, kept@, counter, now);
                    if places@.contains_key(index_text(counter.key())) {
                        let more = kept@.push(counter);
                        let p = places@[index_text(counter.key())] as int;
                        index_text_tells_apart(kept@[p].key(), counter.key());
                        assert(more[p].key() != more[place as int].key());
                    }
                    indexed_push(kept@, places@, counter, place);
                }
                events.push(report(&counter, now));
                let under: String = counter_text(
                    counter.api_key.as_str(),
                    counter.model.as_str(),
                    counter.limit,
                    counter.window_secs,
                );
                places.insert(under, place);
                kept.push(counter);
            } else {
                proof {
                    sift_drops(all, n, kept@, now);
                }
            }
        }
        self.entries = kept;
        self.places = places;
        proof {
            sifted_map(all, self.entries@, now);
            order_lists_keys(*self);
        }
        events
    }
}

// ---------------------------------------------------------------------------
// Rules one after another
// ---------------------------------------------------------------------------

/// The contents of a list of events.
pub open spec fn event_models(events: Seq<RateLimitEvent>) -> Seq<EventModel> {
    events.map_values(|e: RateLimitEvent| e@)
}

/// What checking rules one after another leads to.
#[verifier::ext_equal]
pub struct Outcome {
    /// The counters afterwards.
    pub state: Map<CounterKey, Seq<u128>>,
    /// One event for each rule that was checked.
    pub events: Seq<EventModel>,
    /// The rule that refused the request.
    pub refused: Option<(u32, u64)>,
}

/// Checks `rules` in order at `now`, up to the first that refuses.
pub open spec fn check_in_turn(
    state: Map<CounterKey, Seq<u128>>,
    now: u128,
    api_key: Seq<char>,
    model: Seq<char>,
    rules: Seq<(u32, u64)>,
) -> Outcome
    decreases rules.len(),
{
    if rules.len() == 0 {
        Outcome { state, events: Seq::empty(), refused: None }
    } else {
        let (limit, window_secs) = rules[0];
        let key = rule_key(api_key, model, rules[0]);
        let log = log_of(state, key);
        let next = state.insert(key, window::checked(log, now, limit, window_secs));
        let event = check_event(log, now, api_key, model, limit, window_secs);
        if window::has_room(log, now, limit, window_secs) {
            let rest = check_in_turn(next, now, api_key, model, rules.skip(1));
            Outcome {
                state: rest.state,
                events: seq![event] + rest.events,
                refused: rest.refused,
            }
        } else {
            Outcome { state: next, events: seq![event], refused: Some(rules[0]) }
        }
    }
}

impl Counters {
    /// Checks `rules` in order at `now`, up to the first that refuses the request.
    /// Returns the events, and the rule that refused.
    pub fn check_each_at(
        &mut self,
        now: u128,
        api_key: &str,
        model: &str,
        rules: &[(u32, u64)],
    ) -> (r: (Vec<RateLimitEvent>, Option<(u32, u64)>))
        requires
            old(self).wf(),
        ensures
            final(self).wf(),
            ({
                let outcome = check_in_turn(old(self)@, now, api_key@, model@, rules@);
                &&& final(self)@ == outcome.state
                &&& event_models(r.0@) == outcome.events
                &&& r.1 == outcome.refused
            }),
    {
        let ghost whole = check_in_turn(self@, now, api_key@, model@, rules@);
        let mut events: Vec<RateLimitEvent> = Vec::new();
        let mut i: usize = 0;
        proof {
            assert(rules@.skip(0) =~= rules@);
            assert(event_models(events@) + whole.events =~= whole.events);
        }
        while i < rules.len()
            invariant
                self.wf(),
                i <= rules@.len(),
                whole == check_in_turn(old(self)@, now, api_key@, model@, rules@),
                ({
                    let rest = check_in_turn(
                        self@,
                        now,
                        api_key@,
                        model@,
                        rules@.skip(i as int),
                    );
                    &&& rest.state == whole.state
                    &&& event_models(events@) + rest.events == whole.events
                    &&& rest.refused == whole.refused
                }),
            decreases rules@.len() - i,
        {
            let ghost rest = check_in_turn(self@, now, api_key@, model@, rules@.skip(i as int));
            let ghost listed = events@;
            let (passed, event): (bool, RateLimitEvent) = self.check_at(
                now,
                api_key,
                model,
                rules[i].0,
                rules[i].1,
            );
            events.push(event);
            proof {
                assert(rules@.skip(i as int)[0] == rules@[i as int]);
                assert(rules@.skip(i as int).skip(1) =~= rules@.skip(i + 1));
                assert(event_models(events@) =~= event_models(listed).push(event@));
            }
            if !passed {
                proof {
                    assert(event_models(events@) =~= event_models(listed) + rest.events);
                }
                return (events, Some((rules[i].0, rules[i].1)));
            }
            proof {
                let tail = check_in_turn(self@, now, api_key@, model@, rules@.skip(i + 1));
                assert(event_models(events@) + tail.events =~= event_models(listed)
                    + rest.events);
            }
            i += 1;
        }
        proof {
            assert(rules@.skip(i as int).len() == 0);
            assert(event_models(events@) =~= whole.events);
        }
        (events, None)
    }
}

/// Whether every log is in order of time and ends no later than `now`.
pub open spec fn all_in_order(state: Map<CounterKey, Seq<u128>>, now: u128) -> bool {
    forall|key: CounterKey| #[trigger] state.contains_key(key) ==> window::in_order(state[key], now)
}

pub proof fn turn_keeps_order(
    state: Map<CounterKey, Seq<u128>>,
    earlier: u128,
    now: u128,
    api_key: Seq<char>,
    model: Seq<char>,
    rules: Seq<(u32, u64)>,
)
    requires
        all_in_order(state, earlier),
        earlier <= now,
    ensures
        all_in_order(check_in_turn(state, now, api_key, model, rules).state, now),
    decreases rules.len(),
{
    if rules.len() > 0 {
        let (limit, window_secs) = rules[0];
        let key = rule_key(api_key, model, rules[0]);
        let log = log_of(state, key);
        let next = state.insert(key, window::checked(log, now, limit, window_secs));
        window::live_keeps_order(log, earlier, now, window_secs);
        assert(all_in_order(next, now));
        if window::has_room(log, now, limit, window_secs) {
            turn_keeps_order(next, now, now, api_key, model, rules.skip(1));
        }
    }
}

pub proof fn together_keeps_order(
    before: Map<CounterKey, Seq<u128>>,
    earlier: u128,
    now: u128,
    api_key: Seq<char>,
    model: Seq<char>,
    rules: Seq<(u32, u64)>,
)
    requires
        all_in_order(before, earlier),
        earlier <= now,
    ensures
        all_in_order(checked_together(before, api_key, model, rules, now), now),
{
    let after = checked_together(before, api_key, model, rules, now);
    assert forall|key: CounterKey| #[trigger] after.contains_key(key) implies window::in_order(
        after[key],
        now,
    ) by {
        if is_rule_key(api_key, model, rules, key) {
            window::live_keeps_order(log_of(before, key), earlier, now, key.window_secs);
        }
    }
}

} // verus!
