//! What holds of every decision of the proxy.

use crate::config;
use crate::config::{ApiKeyEntry, Config, Rule, Ruleset};
use crate::counter_laws;
use crate::counters;
use crate::counters::CounterKey;
use crate::proxy;
use crate::proxy::{Asked, Incoming, Verdict};
use crate::routing;
use crate::text;
use vstd::prelude::*;

verus! {

/// Two rules that apply to one request overlap, so no clash goes without a warning:
/// whatever the model, the day and the time are.
pub proof fn rules_that_apply_together_overlap(
    a: Rule,
    b: Rule,
    model: Seq<char>,
    day: Seq<char>,
    time: Seq<char>,
)
    requires
        proxy::applies(a, model, day, time),
        proxy::applies(b, model, day, time),
    ensures
        config::overlap(a, b),
        config::overlap(b, a),
{
    config::shared_time_means_shared_start(
        time,
        a.time_start@,
        a.time_end@,
        b.time_start@,
        b.time_end@,
    );
    assert(text::texts(a.days@).contains(day) && text::texts(b.days@).contains(day));
    if !config::for_all_models(a) && !config::for_all_models(b) {
        assert(text::texts(a.models@).contains(model) && text::texts(b.models@).contains(model));
    }
}

/// A key is under the ruleset of the first entry that lists it.
pub proof fn first_entry_decides(config: Config, api_key: Seq<char>, i: int)
    requires
        0 <= i < config.api_keys@.len(),
        text::texts(config.api_keys@[i].keys@).contains(api_key),
        forall|j: int|
            0 <= j < i ==> !text::texts((#[trigger] config.api_keys@[j]).keys@).contains(api_key),
    ensures
        proxy::ruleset_of(config, api_key) == Some(config.api_keys@[i].ruleset@),
{
    first_listed(config.api_keys@, api_key, i);
}

proof fn first_listed(entries: Seq<ApiKeyEntry>, api_key: Seq<char>, i: int)
    requires
        0 <= i < entries.len(),
        text::texts(entries[i].keys@).contains(api_key),
        forall|j: int|
            0 <= j < i ==> !text::texts((#[trigger] entries[j]).keys@).contains(api_key),
    ensures
        proxy::listed_ruleset(entries, api_key) == Some(entries[i].ruleset@),
    decreases i,
{
    if i > 0 {
        let rest = entries.skip(1);
        assert(!text::texts(entries[0].keys@).contains(api_key));
        assert(rest[i - 1] == entries[i]);
        assert forall|j: int| 0 <= j < i - 1 implies !text::texts(
            (#[trigger] rest[j]).keys@,
        ).contains(api_key) by {
            assert(rest[j] == entries[j + 1]);
        }
        first_listed(rest, api_key, i - 1);
    }
}

/// A key that no entry lists is under the fallback, and without one under nothing.
pub proof fn unlisted_key_takes_the_fallback(config: Config, api_key: Seq<char>)
    requires
        forall|j: int|
            0 <= j < config.api_keys@.len() ==> !text::texts(
                (#[trigger] config.api_keys@[j]).keys@,
            ).contains(api_key),
    ensures
        proxy::ruleset_of(config, api_key) == text::text_in(config.fallback_ruleset),
{
    none_listed(config.api_keys@, api_key);
}

proof fn none_listed(entries: Seq<ApiKeyEntry>, api_key: Seq<char>)
    requires
        forall|j: int|
            0 <= j < entries.len() ==> !text::texts((#[trigger] entries[j]).keys@).contains(
                api_key,
            ),
    ensures
        proxy::listed_ruleset(entries, api_key) is None,
    decreases entries.len(),
{
    if entries.len() > 0 {
        let rest = entries.skip(1);
        assert(!text::texts(entries[0].keys@).contains(api_key));
        assert forall|j: int| 0 <= j < rest.len() implies !text::texts(
            (#[trigger] rest[j]).keys@,
        ).contains(api_key) by {
            assert(rest[j] == entries[j + 1]);
        }
        none_listed(rest, api_key);
    }
}

/// What [`proxy::listed_ruleset`] finds is the ruleset of some entry.
proof fn listed_by_an_entry(entries: Seq<ApiKeyEntry>, api_key: Seq<char>)
    ensures
        proxy::listed_ruleset(entries, api_key) matches Some(name) ==> exists|i: int|
            0 <= i < entries.len() && (#[trigger] entries[i]).ruleset@ == name,
    decreases entries.len(),
{
    if entries.len() > 0 {
        if text::texts(entries[0].keys@).contains(api_key) {
            assert(entries[0].ruleset@ == proxy::listed_ruleset(entries, api_key)->0);
        } else {
            let rest = entries.skip(1);
            listed_by_an_entry(rest, api_key);
            if let Some(name) = proxy::listed_ruleset(rest, api_key) {
                let i = choose|i: int|
                    0 <= i < rest.len() && (#[trigger] rest[i]).ruleset@ == name;
                assert(entries[i + 1].ruleset@ == name);
            }
        }
    }
}

/// A ruleset that is defined is found by its name.
proof fn defined_is_found(rulesets: Seq<Ruleset>, name: Seq<char>, i: int)
    requires
        0 <= i < rulesets.len(),
        rulesets[i].name@ == name,
    ensures
        proxy::named_ruleset(rulesets, name) matches Some(rs) && rs.name@ == name,
    decreases rulesets.len(),
{
    if rulesets[0].name@ != name {
        let rest = rulesets.skip(1);
        assert(rest[i - 1] == rulesets[i]);
        defined_is_found(rest, name, i - 1);
    }
}

/// Under a valid configuration, the ruleset that a key is under is there: no key goes
/// unchecked for want of its rules.
pub proof fn valid_config_has_the_rules_of_every_key(config: Config, api_key: Seq<char>)
    requires
        config::config_fault(config) is None,
    ensures
        proxy::ruleset_of(config, api_key) matches Some(name) ==> {
            proxy::named_ruleset(config.rulesets@, name) matches Some(rs) && rs.name@ == name
        },
{
    config::valid_config_is_sound(config);
    listed_by_an_entry(config.api_keys@, api_key);
    if let Some(name) = proxy::ruleset_of(config, api_key) {
        assert(config::defines(config, name)) by {
            if let Some(listed) = proxy::listed_ruleset(config.api_keys@, api_key) {
                let i = choose|i: int|
                    0 <= i < config.api_keys@.len() && (#[trigger] config.api_keys@[i]).ruleset@
                        == listed;
                assert(config::defines(config, config.api_keys@[i].ruleset@));
            }
        }
        let names = config::ruleset_names(config.rulesets@);
        let i = choose|i: int| 0 <= i < names.len() && names[i] == name;
        assert(config.rulesets@[i].name@ == name);
        defined_is_found(config.rulesets@, name, i);
    }
}

/// A limit and a window are checked exactly if some rule with them applies.
pub proof fn exactly_the_applying_rules_are_checked(
    rules: Seq<Rule>,
    model: Seq<char>,
    day: Seq<char>,
    time: Seq<char>,
    limit: u32,
    window_secs: u64,
)
    ensures
        proxy::applying(rules, model, day, time).contains((limit, window_secs)) <==> exists|i: int|
            0 <= i < rules.len() && proxy::applies(#[trigger] rules[i], model, day, time)
                && rules[i].limit == limit && rules[i].window_secs == window_secs,
    decreases rules.len(),
{
    let all = proxy::applying(rules, model, day, time);
    let pair = (limit, window_secs);
    if rules.len() > 0 {
        let rest = rules.drop_last();
        let before = proxy::applying(rest, model, day, time);
        exactly_the_applying_rules_are_checked(rest, model, day, time, limit, window_secs);
        let last = rules[rules.len() - 1];
        if all.contains(pair) {
            let k = choose|k: int| 0 <= k < all.len() && all[k] == pair;
            if k < before.len() {
                assert(before[k] == pair);
                assert(before.contains(pair));
                let i = choose|i: int|
                    0 <= i < rest.len() && proxy::applies(#[trigger] rest[i], model, day, time)
                        && rest[i].limit == limit && rest[i].window_secs == window_secs;
                assert(proxy::applies(rules[i], model, day, time));
            } else {
                assert(proxy::applies(last, model, day, time));
            }
        }
        if exists|i: int|
            0 <= i < rules.len() && proxy::applies(#[trigger] rules[i], model, day, time)
                && rules[i].limit == limit && rules[i].window_secs == window_secs {
            let i = choose|i: int|
                0 <= i < rules.len() && proxy::applies(#[trigger] rules[i], model, day, time)
                    && rules[i].limit == limit && rules[i].window_secs == window_secs;
            if i < rest.len() {
                assert(proxy::applies(rest[i], model, day, time));
                assert(before.contains(pair));
                let k = choose|k: int| 0 <= k < before.len() && before[k] == pair;
                assert(all[k] == pair);
            } else if before.contains(pair) {
                let k = choose|k: int| 0 <= k < before.len() && before[k] == pair;
                assert(all[k] == pair);
            } else {
                assert(all[all.len() - 1] == pair);
            }
        }
    }
}

/// A key without a ruleset is turned away, no other is for that reason, and it leaves
/// no trace.
pub proof fn unknown_key_leaves_no_trace(
    config: Config,
    state: Map<CounterKey, Seq<u128>>,
    now: u128,
    turns: Map<Seq<char>, nat>,
    asked: Asked,
)
    ensures
        ({
            let ruling = proxy::rule_on(config, state, now, turns, asked);
            &&& ruling.verdict is UnknownKey <==> proxy::ruleset_of(config, asked.api_key) is None
            &&& ruling.verdict is UnknownKey ==> ruling.state == state && ruling.turns == turns
                && ruling.events.len() == 0
        }),
{
}

/// A known key's request is limited exactly if one of the rules that apply is used up: it
/// waits for the window of the first such rule, and no
/// server's turn passes.
pub proof fn limited_by_the_first_rule_that_is_used_up(
    config: Config,
    state: Map<CounterKey, Seq<u128>>,
    now: u128,
    turns: Map<Seq<char>, nat>,
    asked: Asked,
    name: Seq<char>,
)
    requires
        proxy::ruleset_of(config, asked.api_key) == Some(name),
    ensures
        ({
            let ruling = proxy::rule_on(config, state, now, turns, asked);
            let rules = proxy::rules_for(config, name, asked.model, asked.day, asked.time);
            &&& ruling.verdict is Limited <==> !counters::all_have_room(
                state,
                asked.api_key,
                asked.model,
                rules,
                now,
            )
            &&& ruling.verdict matches Verdict::Limited { message, reset_after_secs } ==> {
                &&& message == proxy::limit_message(asked.model)
                &&& ruling.turns == turns
                &&& exists|i: int|
                    0 <= i < rules.len() && rules[i].1 == reset_after_secs && counters::rule_live(
                        state,
                        asked.api_key,
                        asked.model,
                        rules[i],
                        now,
                    ).len() >= rules[i].0 && counters::all_have_room(
                        state,
                        asked.api_key,
                        asked.model,
                        #[trigger] rules.take(i),
                        now,
                    )
            }
        }),
{
    let rules = proxy::rules_for(config, name, asked.model, asked.day, asked.time);
    if let Some(rs) = proxy::named_ruleset(config.rulesets@, name) {
        proxy::applying_once(rs.rules@, asked.model, asked.day, asked.time);
    }
    counter_laws::refused_by_the_first_full_rule(state, now, asked.api_key, asked.model, rules);
}

/// A known key's request to which no rule applies passes, and is not counted.
pub proof fn without_rules_nothing_is_counted(
    config: Config,
    state: Map<CounterKey, Seq<u128>>,
    now: u128,
    turns: Map<Seq<char>, nat>,
    asked: Asked,
    name: Seq<char>,
)
    requires
        proxy::ruleset_of(config, asked.api_key) == Some(name),
        proxy::rules_for(config, name, asked.model, asked.day, asked.time).len() == 0,
    ensures
        ({
            let ruling = proxy::rule_on(config, state, now, turns, asked);
            &&& ruling.state == state
            &&& ruling.events.len() == 0
            &&& ruling.verdict is Forward || ruling.verdict is NoUpstream
        }),
{
}

/// A request is sent on only if every rule that applies admitted it and some server
/// takes its path; only then does a server's turn pass.
pub proof fn sent_on_only_when_admitted(
    config: Config,
    state: Map<CounterKey, Seq<u128>>,
    now: u128,
    turns: Map<Seq<char>, nat>,
    asked: Asked,
)
    ensures
        ({
            let ruling = proxy::rule_on(config, state, now, turns, asked);
            &&& ruling.verdict matches Verdict::Forward { api_key, model, url } ==> {
                &&& api_key == asked.api_key
                &&& model == asked.model
                &&& proxy::ruleset_of(config, asked.api_key) matches Some(name)
                    && counters::check_in_turn(
                    state,
                    now,
                    asked.api_key,
                    asked.model,
                    proxy::rules_for(config, name, asked.model, asked.day, asked.time),
                ).refused is None
                &&& exists|i: int|
                    0 <= i < config.upstreams@.len() && routing::serves(
                        #[trigger] config.upstreams@[i],
                        asked.path,
                    )
            }
            &&& ruling.verdict !is Forward ==> ruling.turns == turns
        }),
{
    routing::routed_to_the_longest_prefix(
        config.upstreams@,
        turns,
        asked.path,
        asked.path_and_query,
    );
}

/// A request that is sent on stays on a server with the longest prefix that matches:
/// its URL is that server's base, without slashes at its end, and what follows starts a
/// path or a query.
pub proof fn sent_to_the_chosen_server(
    config: Config,
    state: Map<CounterKey, Seq<u128>>,
    now: u128,
    turns: Map<Seq<char>, nat>,
    asked: Asked,
)
    ensures
        proxy::rule_on(config, state, now, turns, asked).verdict matches Verdict::Forward {
            url,
            ..
        } ==> exists|i: int|
            {
                let server = text::without_trailing(
                    (#[trigger] config.upstreams@[i]).base_url@,
                    '/',
                );
                &&& 0 <= i < config.upstreams@.len()
                &&& routing::serves(config.upstreams@[i], asked.path)
                &&& routing::best_prefix(config.upstreams@, asked.path) == Some(
                    config.upstreams@[i].path_prefix@,
                )
                &&& server.is_prefix_of(url)
                &&& url.len() == server.len() || url[server.len() as int] == '/'
                    || url[server.len() as int] == '?'
            },
{
    let upstreams = config.upstreams@;
    routing::routed_to_the_longest_prefix(upstreams, turns, asked.path, asked.path_and_query);
    if let Verdict::Forward { url, .. } = proxy::rule_on(config, state, now, turns, asked).verdict {
        let i = choose|i: int|
            0 <= i < upstreams.len() && routing::serves(#[trigger] upstreams[i], asked.path)
                && routing::best_prefix(upstreams, asked.path) == Some(upstreams[i].path_prefix@)
                && url == routing::target(
                upstreams[i].base_url@,
                upstreams[i].path_prefix@,
                asked.path_and_query,
            );
        routing::stays_on_the_server(
            upstreams[i].base_url@,
            upstreams[i].path_prefix@,
            asked.path_and_query,
        );
    }
}

/// A request without an API key, or whose body cannot be read, is not counted.
pub proof fn unreadable_request_leaves_no_trace(
    config: Config,
    state: Map<CounterKey, Seq<u128>>,
    now: u128,
    turns: Map<Seq<char>, nat>,
    incoming: Incoming,
    local: int,
)
    ensures
        ({
            let ruling = proxy::rule_on_incoming(config, state, now, turns, incoming, local);
            let keyless = proxy::key_in(text::text_in(incoming.authorization)) is None;
            &&& ruling.verdict is MissingKey <==> keyless
            &&& ruling.verdict is UnreadableBody <==> !keyless && incoming.body is None
            &&& keyless || incoming.body is None ==> ruling.state == state && ruling.turns == turns
                && ruling.events.len() == 0
        }),
{
}

/// A request is either answered by the proxy or sent on, and it is answered with
/// status 429 exactly if a limit is used up.
pub proof fn answered_or_sent_on(verdict: Verdict)
    ensures
        proxy::reply_to(verdict) is None <==> verdict is Forward,
        (proxy::reply_to(verdict) matches Some(reply) && reply.0 == 429) <==> verdict is Limited,
{
}

/// `Bearer ` and a key, which is not empty, is read as that key.
pub proof fn bearer_key_is_read(key: Seq<char>)
    requires
        key.len() > 0,
    ensures
        proxy::key_in(Some("Bearer "@ + key)) == Some(key),
{
    let header = "Bearer "@ + key;
    assert("Bearer "@ =~= header.subrange(0, "Bearer "@.len() as int));
    assert(header.skip("Bearer "@.len() as int) =~= key);
}

} // verus!
