//! Which rules apply to a request, told from the lists and times of the configuration.

use crate::calendar;
use crate::config;
use crate::config::{Config, Rule, Ruleset};
use crate::proxy;
use crate::proxy_laws;
use crate::text;
use vstd::prelude::*;

verus! {

// ---------------------------------------------------------------------------
// Lists
// ---------------------------------------------------------------------------

/// A list of strings holds a text exactly if it stands at some position.
proof fn held_at_a_position(list: Seq<String>, t: Seq<char>)
    ensures
        text::texts(list).contains(t) <==> exists|i: int|
            0 <= i < list.len() && (#[trigger] list[i])@ == t,
{
    let all = text::texts(list);
    if all.contains(t) {
        let i = choose|i: int| 0 <= i < all.len() && all[i] == t;
        assert(list[i]@ == t);
    }
    if exists|i: int| 0 <= i < list.len() && (#[trigger] list[i])@ == t {
        let i = choose|i: int| 0 <= i < list.len() && (#[trigger] list[i])@ == t;
        assert(all[i] == t);
    }
}

/// A rule applies exactly if its list of models holds, at any position, the model or
/// `*`, its list of days holds the day, and the time lies in its window.
pub proof fn a_rule_applies_by_its_lists(
    rule: Rule,
    model: Seq<char>,
    day: Seq<char>,
    time: Seq<char>,
)
    ensures
        proxy::applies(rule, model, day, time) <==> {
            &&& exists|i: int|
                0 <= i < rule.models@.len() && ((#[trigger] rule.models@[i])@ == model
                    || rule.models@[i]@ == "*"@)
            &&& exists|i: int| 0 <= i < rule.days@.len() && (#[trigger] rule.days@[i])@ == day
            &&& config::in_range(time, rule.time_start@, rule.time_end@)
        },
{
    held_at_a_position(rule.models@, model);
    held_at_a_position(rule.models@, "*"@);
    held_at_a_position(rule.days@, day);
}

/// Whatever its position in the list, a model that a rule names is under the rule.
pub proof fn every_listed_model_is_under_the_rule(
    rule: Rule,
    i: int,
    d: int,
    time: Seq<char>,
)
    requires
        0 <= i < rule.models@.len(),
        0 <= d < rule.days@.len(),
        config::in_range(time, rule.time_start@, rule.time_end@),
    ensures
        proxy::applies(rule, rule.models@[i]@, rule.days@[d]@, time),
{
    a_rule_applies_by_its_lists(rule, rule.models@[i]@, rule.days@[d]@, time);
    assert(rule.models@[i]@ == rule.models@[i]@);
    assert(rule.days@[d]@ == rule.days@[d]@);
}

// ---------------------------------------------------------------------------
// Times
// ---------------------------------------------------------------------------

/// Texts that differ are in the order of the first characters in which they differ.
pub proof fn the_first_difference_decides(
    shared: Seq<char>,
    c: char,
    d: char,
    x: Seq<char>,
    y: Seq<char>,
)
    requires
        c != d,
    ensures
        text::text_lt(shared + seq![c] + x, shared + seq![d] + y) <==> (c as int) < (d as int),
    decreases shared.len(),
{
    let a = shared + seq![c] + x;
    let b = shared + seq![d] + y;
    if shared.len() > 0 {
        let rest = shared.skip(1);
        the_first_difference_decides(rest, c, d, x, y);
        assert(a.skip(1) =~= rest + seq![c] + x);
        assert(b.skip(1) =~= rest + seq![d] + y);
        assert(a[0] == b[0]);
    } else {
        assert(a[0] == c && b[0] == d);
    }
}

/// A text comes before every longer one that it starts.
pub proof fn the_shorter_comes_first(shared: Seq<char>, more: Seq<char>)
    ensures
        text::text_lt(shared, shared + more) <==> more.len() > 0,
        !text::text_lt(shared + more, shared),
    decreases shared.len(),
{
    let b = shared + more;
    if shared.len() > 0 {
        let rest = shared.skip(1);
        the_shorter_comes_first(rest, more);
        assert(b.skip(1) =~= rest + more);
        assert(b[0] == shared[0]);
    }
}

/// The minute of the day, for `local` seconds since the start of a day.
pub open spec fn minute_of(local: int) -> int {
    local % 86_400 / 60
}

proof fn digits_in_order(a: nat, b: nat)
    requires
        a < 10,
        b < 10,
    ensures
        (text::digit(a) as int) < (text::digit(b) as int) <==> a < b,
        text::digit(a) == text::digit(b) <==> a == b,
{
}

/// Four digits with a colon in the middle.
spec fn clock_text(a: nat, b: nat, c: nat, d: nat) -> Seq<char> {
    seq![text::digit(a), text::digit(b), ':', text::digit(c), text::digit(d)]
}

proof fn clock_digits_in_order(a: nat, b: nat, c: nat, d: nat, p: nat, q: nat, r: nat, u: nat)
    requires
        a < 10 && b < 10 && c < 10 && d < 10,
        p < 10 && q < 10 && r < 10 && u < 10,
    ensures
        text::text_lt(clock_text(a, b, c, d), clock_text(p, q, r, u)) <==> a < p || (a == p && (b
            < q || (b == q && (c < r || (c == r && d < u))))),
{
    let s = clock_text(a, b, c, d);
    let t = clock_text(p, q, r, u);
    digits_in_order(a, p);
    digits_in_order(b, q);
    digits_in_order(c, r);
    digits_in_order(d, u);
    if a != p {
        assert(Seq::<char>::empty() + seq![s[0]] + s.skip(1) =~= s);
        assert(Seq::<char>::empty() + seq![t[0]] + t.skip(1) =~= t);
        the_first_difference_decides(Seq::empty(), s[0], t[0], s.skip(1), t.skip(1));
    } else if b != q {
        assert(s.take(1) + seq![s[1]] + s.skip(2) =~= s);
        assert(s.take(1) + seq![t[1]] + t.skip(2) =~= t);
        the_first_difference_decides(s.take(1), s[1], t[1], s.skip(2), t.skip(2));
    } else if c != r {
        assert(s.take(3) + seq![s[3]] + s.skip(4) =~= s);
        assert(s.take(3) + seq![t[3]] + t.skip(4) =~= t);
        the_first_difference_decides(s.take(3), s[3], t[3], s.skip(4), t.skip(4));
    } else if d != u {
        assert(s.take(4) + seq![s[4]] + s.skip(5) =~= s);
        assert(s.take(4) + seq![t[4]] + t.skip(5) =~= t);
        the_first_difference_decides(s.take(4), s[4], t[4], s.skip(5), t.skip(5));
    } else {
        text::text_lt_irreflexive(s);
    }
}

/// The minute of a day from its hour and the minute of that.
proof fn minutes_by_hours(local: int)
    ensures
        local % 3_600 == local % 86_400 % 3_600,
        minute_of(local) == local % 86_400 / 3_600 * 60 + local % 3_600 / 60,
        0 <= local % 86_400 / 3_600 < 24,
        0 <= local % 3_600 / 60 < 60,
{
    let d = local % 86_400;
    vstd::arithmetic::div_mod::lemma_mod_mod(local, 3_600, 24);
    assert(3_600int * 24 == 86_400);
    let h = d / 3_600;
    let s = d % 3_600;
    assert(d == 3_600 * h + s);
    let m = s / 60;
    assert(60 * (60 * h + m) <= d < 60 * (60 * h + m) + 60);
}

proof fn minutes_by_digits(local: int) -> (r: (nat, nat, nat, nat))
    ensures
        r.0 < 10 && r.1 < 10 && r.2 < 6 && r.3 < 10,
        minute_of(local) == (r.0 * 10 + r.1) * 60 + r.2 * 10 + r.3,
        calendar::hour_and_minute(local) == clock_text(r.0, r.1, r.2, r.3),
        r.0 * 10 + r.1 < 24,
{
    let hour = local % 86_400 / 3_600;
    let minute = local % 3_600 / 60;
    let r = ((hour / 10) as nat, (hour % 10) as nat, (minute / 10) as nat, (minute % 10) as nat);
    minutes_by_hours(local);
    assert(calendar::hour_and_minute(local) =~= clock_text(r.0, r.1, r.2, r.3));
    r
}

proof fn clock_texts_in_order(a: int, b: int)
    ensures
        text::text_lt(calendar::hour_and_minute(a), calendar::hour_and_minute(b)) <==> minute_of(a)
            < minute_of(b),
{
    let p = minutes_by_digits(a);
    let q = minutes_by_digits(b);
    clock_digits_in_order(p.0, p.1, p.2, p.3, q.0, q.1, q.2, q.3);
}

/// A window is read by the minutes of the day: by day it runs from its start up to, not
/// counting, its end; overnight it runs from its start to midnight and from midnight up
/// to its end.
pub proof fn a_window_runs_by_the_minutes(time: int, start: int, end: int)
    ensures
        config::in_range(
            calendar::hour_and_minute(time),
            calendar::hour_and_minute(start),
            calendar::hour_and_minute(end),
        ) <==> if minute_of(start) < minute_of(end) {
            minute_of(start) <= minute_of(time) < minute_of(end)
        } else {
            minute_of(time) >= minute_of(start) || minute_of(time) < minute_of(end)
        },
{
    clock_texts_in_order(start, end);
    clock_texts_in_order(time, start);
    clock_texts_in_order(time, end);
}

/// Whatever its texts are, a window holds its start, and its end only if that is its
/// start as well.
pub proof fn a_window_holds_its_start(start: Seq<char>, end: Seq<char>)
    ensures
        config::in_range(start, start, end),
        config::in_range(end, start, end) <==> start == end,
{
    text::text_lt_irreflexive(start);
    text::text_lt_irreflexive(end);
    text::text_lt_total(start, end);
    if text::text_lt(start, end) && text::text_lt(end, start) {
        text::text_lt_transitive(start, end, start);
    }
}

// ---------------------------------------------------------------------------
// The rules of a key
// ---------------------------------------------------------------------------

/// The first ruleset of a name is the one that counts.
pub proof fn the_first_ruleset_of_a_name_counts(rulesets: Seq<Ruleset>, name: Seq<char>, r: int)
    requires
        0 <= r < rulesets.len(),
        rulesets[r].name@ == name,
        forall|q: int| 0 <= q < r ==> (#[trigger] rulesets[q]).name@ != name,
    ensures
        proxy::named_ruleset(rulesets, name) == Some(rulesets[r]),
    decreases r,
{
    if r > 0 {
        let rest = rulesets.skip(1);
        assert(rulesets[0].name@ != name);
        assert(rest[r - 1] == rulesets[r]);
        assert forall|q: int| 0 <= q < r - 1 implies (#[trigger] rest[q]).name@ != name by {
            assert(rest[q] == rulesets[q + 1]);
        }
        the_first_ruleset_of_a_name_counts(rest, name, r - 1);
    }
}

/// A key is under the ruleset of the first entry that lists it at any position.
pub proof fn a_listed_key_is_under_its_entry(config: Config, api_key: Seq<char>, e: int, k: int)
    requires
        0 <= e < config.api_keys@.len(),
        0 <= k < config.api_keys@[e].keys@.len(),
        config.api_keys@[e].keys@[k]@ == api_key,
        forall|d: int, j: int|
            0 <= d < e && 0 <= j < config.api_keys@[d].keys@.len() ==> (
            #[trigger] config.api_keys@[d].keys@[j])@ != api_key,
    ensures
        proxy::ruleset_of(config, api_key) == Some(config.api_keys@[e].ruleset@),
{
    held_at_a_position(config.api_keys@[e].keys@, api_key);
    assert forall|d: int| 0 <= d < e implies !text::texts(
        (#[trigger] config.api_keys@[d]).keys@,
    ).contains(api_key) by {
        held_at_a_position(config.api_keys@[d].keys@, api_key);
    }
    proxy_laws::first_entry_decides(config, api_key, e);
}

/// A key that no entry lists at any position is under the fallback, if there is one.
pub proof fn an_unlisted_key_is_under_the_fallback(config: Config, api_key: Seq<char>)
    requires
        forall|d: int, j: int|
            0 <= d < config.api_keys@.len() && 0 <= j < config.api_keys@[d].keys@.len() ==> (
            #[trigger] config.api_keys@[d].keys@[j])@ != api_key,
    ensures
        match config.fallback_ruleset {
            Some(name) => proxy::ruleset_of(config, api_key) == Some(name@),
            None => proxy::ruleset_of(config, api_key) is None,
        },
{
    assert forall|d: int| 0 <= d < config.api_keys@.len() implies !text::texts(
        (#[trigger] config.api_keys@[d]).keys@,
    ).contains(api_key) by {
        held_at_a_position(config.api_keys@[d].keys@, api_key);
    }
    proxy_laws::unlisted_key_takes_the_fallback(config, api_key);
}

/// Whether a rule names the model or all models, and the day, at any positions of its
/// lists, and the time is in its window.
pub open spec fn fits(rule: Rule, model: Seq<char>, day: Seq<char>, time: Seq<char>) -> bool {
    &&& exists|i: int|
        0 <= i < rule.models@.len() && ((#[trigger] rule.models@[i])@ == model
            || rule.models@[i]@ == "*"@)
    &&& exists|i: int| 0 <= i < rule.days@.len() && (#[trigger] rule.days@[i])@ == day
    &&& config::in_range(time, rule.time_start@, rule.time_end@)
}

/// Whether `at` holds, for each of `pairs`, the first position of a rule that fits and
/// has this limit and window.
pub open spec fn first_positions(
    rules: Seq<Rule>,
    model: Seq<char>,
    day: Seq<char>,
    time: Seq<char>,
    pairs: Seq<(u32, u64)>,
    at: Seq<int>,
) -> bool {
    &&& at.len() == pairs.len()
    &&& forall|k: int|
        0 <= k < at.len() ==> {
            &&& 0 <= #[trigger] at[k] < rules.len()
            &&& fits(rules[at[k]], model, day, time)
            &&& (rules[at[k]].limit, rules[at[k]].window_secs) == pairs[k]
        }
    &&& forall|k: int, j: int|
        0 <= k < at.len() && 0 <= j < at[k] && fits(#[trigger] rules[j], model, day, time) ==> (
        rules[j].limit, rules[j].window_secs) != #[trigger] pairs[k]
    &&& forall|k: int, l: int| 0 <= k < l < at.len() ==> #[trigger] at[k] < #[trigger] at[l]
}

proof fn applying_has_positions(
    rules: Seq<Rule>,
    model: Seq<char>,
    day: Seq<char>,
    time: Seq<char>,
) -> (at: Seq<int>)
    ensures
        first_positions(rules, model, day, time, proxy::applying(rules, model, day, time), at),
    decreases rules.len(),
{
    let out = proxy::applying(rules, model, day, time);
    if rules.len() == 0 {
        Seq::empty()
    } else {
        let rest = rules.drop_last();
        let last = rules.last();
        let n = rules.len() - 1;
        let before = proxy::applying(rest, model, day, time);
        let at = applying_has_positions(rest, model, day, time);
        a_rule_applies_by_its_lists(last, model, day, time);
        assert forall|j: int| 0 <= j < n implies rest[j] == #[trigger] rules[j] by {}
        let pair = (last.limit, last.window_secs);
        if proxy::applies(last, model, day, time) && !before.contains(pair) {
            let more = at.push(n);
            assert(out == before.push(pair));
            assert forall|k: int, j: int|
                0 <= k < more.len() && 0 <= j < more[k] && fits(
                    #[trigger] rules[j],
                    model,
                    day,
                    time,
                ) implies (rules[j].limit, rules[j].window_secs) != #[trigger] out[k] by {
                assert(rest[j] == rules[j]);
                if k < at.len() {
                    assert(out[k] == before[k]);
                } else {
                    let p = (rules[j].limit, rules[j].window_secs);
                    a_rule_applies_by_its_lists(rules[j], model, day, time);
                    proxy_laws::exactly_the_applying_rules_are_checked(
                        rest,
                        model,
                        day,
                        time,
                        p.0,
                        p.1,
                    );
                    assert(proxy::applies(rest[j], model, day, time));
                    assert(before.contains(p));
                }
            }
            assert forall|k: int| 0 <= k < more.len() implies {
                &&& 0 <= #[trigger] more[k] < rules.len()
                &&& fits(rules[more[k]], model, day, time)
                &&& (rules[more[k]].limit, rules[more[k]].window_secs) == out[k]
            } by {
                if k < at.len() {
                    assert(more[k] == at[k]);
                    assert(rest[at[k]] == rules[at[k]]);
                }
            }
            assert forall|k: int, l: int| 0 <= k < l < more.len() implies #[trigger] more[k]
                < #[trigger] more[l] by {
                assert(more[k] == at[k]);
                if l < at.len() {
                    assert(more[l] == at[l]);
                }
            }
            more
        } else {
            assert(out == before);
            assert forall|k: int, j: int|
                0 <= k < at.len() && 0 <= j < at[k] && fits(
                    #[trigger] rules[j],
                    model,
                    day,
                    time,
                ) implies (rules[j].limit, rules[j].window_secs) != #[trigger] out[k] by {
                assert(rest[j] == rules[j]);
            }
            assert forall|k: int| 0 <= k < at.len() implies {
                &&& 0 <= #[trigger] at[k] < rules.len()
                &&& fits(rules[at[k]], model, day, time)
                &&& (rules[at[k]].limit, rules[at[k]].window_secs) == out[k]
            } by {
                assert(rest[at[k]] == rules[at[k]]);
            }
            at
        }
    }
}

/// The rules that are checked are those of the first ruleset of the name that fit: each
/// limit and window of a rule that fits is checked, once, at the place of the first such
/// rule, and nothing else is.
pub proof fn the_fitting_rules_are_checked_in_order(
    config: Config,
    name: Seq<char>,
    model: Seq<char>,
    day: Seq<char>,
    time: Seq<char>,
    r: int,
)
    requires
        0 <= r < config.rulesets@.len(),
        config.rulesets@[r].name@ == name,
        forall|q: int| 0 <= q < r ==> (#[trigger] config.rulesets@[q]).name@ != name,
    ensures
        ({
            let rules = config.rulesets@[r].rules@;
            let pairs = proxy::rules_for(config, name, model, day, time);
            &&& exists|at: Seq<int>| first_positions(rules, model, day, time, pairs, at)
            &&& forall|i: int|
                0 <= i < rules.len() && fits(#[trigger] rules[i], model, day, time)
                    ==> pairs.contains((rules[i].limit, rules[i].window_secs))
            &&& pairs.no_duplicates()
        }),
{
    let rules = config.rulesets@[r].rules@;
    the_first_ruleset_of_a_name_counts(config.rulesets@, name, r);
    let at = applying_has_positions(rules, model, day, time);
    proxy::applying_once(rules, model, day, time);
    assert forall|i: int|
        0 <= i < rules.len() && fits(#[trigger] rules[i], model, day, time) implies proxy::rules_for(
        config,
        name,
        model,
        day,
        time,
    ).contains((rules[i].limit, rules[i].window_secs)) by {
        a_rule_applies_by_its_lists(rules[i], model, day, time);
        proxy_laws::exactly_the_applying_rules_are_checked(
            rules,
            model,
            day,
            time,
            rules[i].limit,
            rules[i].window_secs,
        );
    }
}

/// A window whose start is before its end holds exactly its start and what lies between
/// its start and its end.
pub proof fn a_window_runs_from_its_start_to_its_end(
    time: Seq<char>,
    start: Seq<char>,
    end: Seq<char>,
)
    requires
        text::text_lt(start, end),
    ensures
        config::in_range(time, start, end) <==> (time == start || text::text_lt(start, time))
            && text::text_lt(time, end),
{
    text::text_lt_total(time, start);
    text::text_lt_irreflexive(start);
    if text::text_lt(time, start) && text::text_lt(start, time) {
        text::text_lt_transitive(time, start, time);
        text::text_lt_irreflexive(time);
    }
}

} // verus!
