//! What becomes of a request, told from the request as it comes in.

use crate::calendar;
use crate::config::{Config, Rule};
use crate::counter_laws;
use crate::counter_laws::{Call, Reply};
use crate::counters;
use crate::counters::CounterKey;
use crate::json;
use crate::proxy;
use crate::proxy::{Asked, Incoming, Verdict};
use crate::routing;
use crate::routing_laws;
use crate::rule_laws;
use crate::text;
use vstd::prelude::*;

verus! {

// ---------------------------------------------------------------------------
// What a request says of itself
// ---------------------------------------------------------------------------

/// Whether the `Authorization` header of a request is `Bearer `, in exactly this
/// spelling, followed by the key, which is not empty.
pub open spec fn carries_key(incoming: Incoming, key: Seq<char>) -> bool {
    &&& key.len() > 0
    &&& incoming.authorization matches Some(header) && header@ == seq![
        'B',
        'e',
        'a',
        'r',
        'e',
        'r',
        ' ',
    ] + key
}

/// Whether a request is for the model: the one its body names, or `*`.
pub open spec fn is_for_model(incoming: Incoming, model: Seq<char>) -> bool {
    incoming.body matches Some(body) && match json::body_field(
        body@,
        seq!['m', 'o', 'd', 'e', 'l'],
    ) {
        Some(named) => model == named,
        None => model == seq!['*'],
    }
}

proof fn spelled()
    ensures
        "Bearer "@ == seq!['B', 'e', 'a', 'r', 'e', 'r', ' '],
        "model"@ == seq!['m', 'o', 'd', 'e', 'l'],
        "*"@ == seq!['*'],
{
    reveal_strlit("Bearer ");
    reveal_strlit("model");
    reveal_strlit("*");
    assert("Bearer "@ =~= seq!['B', 'e', 'a', 'r', 'e', 'r', ' ']);
    assert("model"@ =~= seq!['m', 'o', 'd', 'e', 'l']);
    assert("*"@ =~= seq!['*']);
}

/// A key is read from a header exactly if the header is `Bearer ` and this key, which
/// is not empty.
pub proof fn a_key_is_what_follows_bearer(incoming: Incoming, key: Seq<char>)
    ensures
        proxy::key_in(text::text_in(incoming.authorization)) == Some(key) <==> carries_key(
            incoming,
            key,
        ),
{
    spelled();
    if let Some(header) = incoming.authorization {
        routing_laws::a_prefix_is_taken_off(header@, "Bearer "@, key);
    }
}

/// How a request with a key and a readable body is decided.
proof fn asked_of(
    config: Config,
    state: Map<CounterKey, Seq<u128>>,
    now: u128,
    turns: Map<Seq<char>, nat>,
    incoming: Incoming,
    local: int,
    key: Seq<char>,
    model: Seq<char>,
)
    requires
        carries_key(incoming, key),
        is_for_model(incoming, model),
    ensures
        proxy::rule_on_incoming(config, state, now, turns, incoming, local) == proxy::rule_on(
            config,
            state,
            now,
            turns,
            (Asked {
                api_key: key,
                model,
                day: calendar::weekday(local),
                time: calendar::hour_and_minute(local),
                path: incoming.path@,
                path_and_query: incoming.path_and_query@,
            }),
        ),
{
    spelled();
    a_key_is_what_follows_bearer(incoming, key);
}

// ---------------------------------------------------------------------------
// Requests that are sent on
// ---------------------------------------------------------------------------

/// A request that is sent on is sent on whole. It goes to a server whose prefix is the
/// longest that its path starts with. The URL is the base of that server, without the
/// slashes at its end, and all of the request's path and query but the prefix, behind a
/// slash where it starts neither a path nor a query. The key and the model it is
/// counted under are its own.
pub proof fn an_incoming_request_is_sent_on_whole(
    config: Config,
    state: Map<CounterKey, Seq<u128>>,
    now: u128,
    turns: Map<Seq<char>, nat>,
    incoming: Incoming,
    local: int,
)
    ensures
        proxy::rule_on_incoming(config, state, now, turns, incoming, local).verdict matches
            Verdict::Forward { api_key, model, url } ==> {
            &&& carries_key(incoming, api_key)
            &&& is_for_model(incoming, model)
            &&& routing_laws::goes_to_a_server(
                config.upstreams@,
                incoming.path@,
                incoming.path_and_query@,
                url,
            )
        },
{
    let ruling = proxy::rule_on_incoming(config, state, now, turns, incoming, local);
    let upstreams = config.upstreams@;
    if let Verdict::Forward { api_key, model, url } = ruling.verdict {
        spelled();
        a_key_is_what_follows_bearer(incoming, api_key);
        assert(is_for_model(incoming, model));
        asked_of(config, state, now, turns, incoming, local, api_key, model);
        routing_laws::a_route_goes_to_a_server(
            upstreams,
            turns,
            incoming.path@,
            incoming.path_and_query@,
        );
    }
}

/// The query of a request that is sent on is the query of its URL, to the last
/// character.
pub proof fn an_incoming_query_is_sent_on(
    config: Config,
    state: Map<CounterKey, Seq<u128>>,
    now: u128,
    turns: Map<Seq<char>, nat>,
    incoming: Incoming,
    local: int,
    query: Seq<char>,
)
    requires
        incoming.path_and_query@ == incoming.path@ + seq!['?'] + query,
    ensures
        proxy::rule_on_incoming(config, state, now, turns, incoming, local).verdict matches
            Verdict::Forward { url, .. } ==> {
            &&& url.len() > query.len()
            &&& url[url.len() - query.len() - 1] == '?'
            &&& url.skip(url.len() - query.len()) == query
        },
{
    let ruling = proxy::rule_on_incoming(config, state, now, turns, incoming, local);
    let upstreams = config.upstreams@;
    if let Verdict::Forward { api_key, model, url } = ruling.verdict {
        an_incoming_request_is_sent_on_whole(config, state, now, turns, incoming, local);
        asked_of(config, state, now, turns, incoming, local, api_key, model);
        routing::routed_to_the_longest_prefix(
            upstreams,
            turns,
            incoming.path@,
            incoming.path_and_query@,
        );
        let i = choose|i: int|
            0 <= i < upstreams.len() && routing::serves(#[trigger] upstreams[i], incoming.path@)
                && routing::best_prefix(upstreams, incoming.path@) == Some(
                upstreams[i].path_prefix@,
            ) && url == routing::target(
                upstreams[i].base_url@,
                upstreams[i].path_prefix@,
                incoming.path_and_query@,
            );
        routing_laws::a_query_is_passed_on(
            upstreams[i].base_url@,
            upstreams[i].path_prefix@,
            incoming.path@,
            query,
        );
        assert(url.skip(url.len() - query.len()) =~= query);
    }
}

/// A request that passes its rules goes where the servers' turns put it, and the turn
/// passes on. It finds no server exactly if its path starts with no server's prefix,
/// and then, as when it does not pass, no turn passes.
pub proof fn an_incoming_request_takes_its_turn(
    config: Config,
    state: Map<CounterKey, Seq<u128>>,
    now: u128,
    turns: Map<Seq<char>, nat>,
    incoming: Incoming,
    local: int,
)
    ensures
        ({
            let ruling = proxy::rule_on_incoming(config, state, now, turns, incoming, local);
            let request = routing_laws::Asking {
                path: incoming.path@,
                path_and_query: incoming.path_and_query@,
            };
            let served = exists|i: int|
                0 <= i < config.upstreams@.len() && (
                #[trigger] config.upstreams@[i]).path_prefix@.is_prefix_of(incoming.path@);
            &&& ruling.verdict matches Verdict::Forward { url, .. } ==> {
                &&& served
                &&& routing_laws::urls(config.upstreams@, turns, seq![request]) == seq![Some(url)]
                &&& ruling.turns == routing::turns_then(config.upstreams@, turns, incoming.path@)
            }
            &&& ruling.verdict is NoUpstream ==> !served
            &&& ruling.verdict !is Forward ==> ruling.turns == turns
        }),
{
    let ruling = proxy::rule_on_incoming(config, state, now, turns, incoming, local);
    let request = routing_laws::Asking {
        path: incoming.path@,
        path_and_query: incoming.path_and_query@,
    };
    let upstreams = config.upstreams@;
    routing_laws::a_path_goes_by_its_longest_prefix(upstreams, incoming.path@, Seq::empty());
    routing::routed_to_the_longest_prefix(
        upstreams,
        turns,
        incoming.path@,
        incoming.path_and_query@,
    );
    if let Verdict::Forward { api_key, model, url } = ruling.verdict {
        let then = routing::turns_then(upstreams, turns, incoming.path@);
        let one = seq![request];
        assert(one.skip(1).len() == 0);
        assert(routing_laws::urls(upstreams, then, one.skip(1)) =~= Seq::empty());
        assert(routing_laws::urls(upstreams, turns, one) =~= seq![Some(url)]);
        assert(routing::best_prefix(upstreams, incoming.path@) is Some);
    }
}

// ---------------------------------------------------------------------------
// Requests that are turned away
// ---------------------------------------------------------------------------

/// Whether a rule fits a request at this local time and, checked alone, refuses it.
pub open spec fn refuses(
    rule: Rule,
    state: Map<CounterKey, Seq<u128>>,
    now: u128,
    local: int,
    key: Seq<char>,
    model: Seq<char>,
) -> bool {
    &&& rule_laws::fits(rule, model, calendar::weekday(local), calendar::hour_and_minute(local))
    &&& counter_laws::reply_to_call(
        state,
        now,
        Call::Check { api_key: key, model, limit: rule.limit, window_secs: rule.window_secs },
    ) matches Reply::Check { passed, .. } && !passed
}

/// A request whose key is under a ruleset has to wait exactly if some rule of the
/// ruleset that fits it refuses it. It is told the window of the first such rule, and
/// the model. Otherwise it is sent on, unless there is no server for it.
pub proof fn an_incoming_request_waits_for_a_rule(
    config: Config,
    state: Map<CounterKey, Seq<u128>>,
    now: u128,
    turns: Map<Seq<char>, nat>,
    incoming: Incoming,
    local: int,
    key: Seq<char>,
    model: Seq<char>,
    name: Seq<char>,
    r: int,
)
    requires
        carries_key(incoming, key),
        is_for_model(incoming, model),
        proxy::ruleset_of(config, key) == Some(name),
        0 <= r < config.rulesets@.len(),
        config.rulesets@[r].name@ == name,
        forall|q: int| 0 <= q < r ==> (#[trigger] config.rulesets@[q]).name@ != name,
    ensures
        ({
            let ruling = proxy::rule_on_incoming(config, state, now, turns, incoming, local);
            let rules = config.rulesets@[r].rules@;
            &&& ruling.verdict is Limited <==> exists|i: int|
                0 <= i < rules.len() && refuses(#[trigger] rules[i], state, now, local, key, model)
            &&& ruling.verdict matches Verdict::Limited { message, reset_after_secs } ==> {
                &&& message == "Rate limit exceeded for model "@ + model
                &&& exists|i: int|
                    {
                        &&& 0 <= i < rules.len()
                        &&& refuses(#[trigger] rules[i], state, now, local, key, model)
                        &&& reset_after_secs == rules[i].window_secs
                        &&& forall|j: int|
                            0 <= j < i ==> !refuses(
                                #[trigger] rules[j],
                                state,
                                now,
                                local,
                                key,
                                model,
                            )
                    }
            }
            &&& ruling.verdict is Limited || ruling.verdict is Forward || ruling.verdict is NoUpstream
        }),
{
    asked_of(config, state, now, turns, incoming, local, key, model);
    let ruling = proxy::rule_on_incoming(config, state, now, turns, incoming, local);
    let rules = config.rulesets@[r].rules@;
    let day = calendar::weekday(local);
    let time = calendar::hour_and_minute(local);
    let pairs = proxy::rules_for(config, name, model, day, time);
    rule_laws::the_fitting_rules_are_checked_in_order(config, name, model, day, time, r);
    counter_laws::refused_by_the_first_full_rule(state, now, key, model, pairs);
    let at = choose|at: Seq<int>| rule_laws::first_positions(rules, model, day, time, pairs, at);
    if counters::all_have_room(state, key, model, pairs, now) {
        assert forall|i: int| 0 <= i < rules.len() implies !refuses(
            #[trigger] rules[i],
            state,
            now,
            local,
            key,
            model,
        ) by {
            if rule_laws::fits(rules[i], model, day, time) {
                let pair = (rules[i].limit, rules[i].window_secs);
                assert(pairs.contains(pair));
                let k = choose|k: int| 0 <= k < pairs.len() && pairs[k] == pair;
                assert(counters::rule_live(state, key, model, pairs[k], now).len() < pairs[k].0);
            }
        }
    } else {
        let refused = counters::check_in_turn(state, now, key, model, pairs).refused;
        assert(refused is Some);
        let rule = refused->0;
        let k = choose|k: int|
            0 <= k < pairs.len() && pairs[k] == rule && counters::rule_live(
                state,
                key,
                model,
                rule,
                now,
            ).len() >= rule.0 && counters::all_have_room(
                state,
                key,
                model,
                #[trigger] pairs.take(k),
                now,
            );
        let i = at[k];
        assert((rules[i].limit, rules[i].window_secs) == pairs[k]);
        assert(refuses(rules[i], state, now, local, key, model));
        assert forall|j: int| 0 <= j < i implies !refuses(
            #[trigger] rules[j],
            state,
            now,
            local,
            key,
            model,
        ) by {
            if rule_laws::fits(rules[j], model, day, time) {
                let pair = (rules[j].limit, rules[j].window_secs);
                assert(pairs.contains(pair));
                let l = choose|l: int| 0 <= l < pairs.len() && pairs[l] == pair;
                assert(pair != pairs[k]);
                if l > k {
                    assert(at[k] < at[l]);
                    assert((rules[j].limit, rules[j].window_secs) != pairs[l]);
                }
                assert(l < k);
                assert(pairs.take(k)[l] == pair);
                assert(counters::rule_live(state, key, model, pairs.take(k)[l], now).len()
                    < pair.0);
            }
        }
    }
}

/// A request whose key is under a ruleset is counted as a check in turn of the rules
/// that fit it, under its own key and model, and observers are told of that check.
pub proof fn an_incoming_request_is_checked_in_turn(
    config: Config,
    state: Map<CounterKey, Seq<u128>>,
    now: u128,
    turns: Map<Seq<char>, nat>,
    incoming: Incoming,
    local: int,
    key: Seq<char>,
    model: Seq<char>,
    name: Seq<char>,
)
    requires
        carries_key(incoming, key),
        is_for_model(incoming, model),
        proxy::ruleset_of(config, key) == Some(name),
    ensures
        ({
            let ruling = proxy::rule_on_incoming(config, state, now, turns, incoming, local);
            let rules = proxy::rules_for(
                config,
                name,
                model,
                calendar::weekday(local),
                calendar::hour_and_minute(local),
            );
            let call = Call::InTurn { api_key: key, model, rules };
            &&& ruling.state == counter_laws::after_call(state, now, call)
            &&& counter_laws::reply_to_call(state, now, call) matches Reply::InTurn {
                events,
                refused,
            } && ruling.events == events && (ruling.verdict is Limited <==> refused is Some)
        }),
{
    asked_of(config, state, now, turns, incoming, local, key, model);
}

/// A request is turned away before anything is counted exactly if it has no key, if its
/// body cannot be read, or if its key is under no ruleset, in this order. The limiter
/// and the servers' turns stay as they are, and nobody is told.
pub proof fn an_incoming_request_is_turned_away(
    config: Config,
    state: Map<CounterKey, Seq<u128>>,
    now: u128,
    turns: Map<Seq<char>, nat>,
    incoming: Incoming,
    local: int,
)
    ensures
        ({
            let ruling = proxy::rule_on_incoming(config, state, now, turns, incoming, local);
            let keyless = forall|key: Seq<char>| !#[trigger] carries_key(incoming, key);
            &&& ruling.verdict is MissingKey <==> keyless
            &&& ruling.verdict is UnreadableBody <==> !keyless && incoming.body is None
            &&& ruling.verdict is UnknownKey <==> incoming.body is Some && exists|key: Seq<char>|
                #[trigger] carries_key(incoming, key) && proxy::ruleset_of(config, key) is None
            &&& ruling.verdict is MissingKey || ruling.verdict is UnreadableBody
                || ruling.verdict is UnknownKey ==> {
                &&& ruling.state == state
                &&& ruling.turns == turns
                &&& ruling.events == Seq::<crate::limiter::EventModel>::empty()
            }
        }),
{
    let read = proxy::key_in(text::text_in(incoming.authorization));
    assert forall|key: Seq<char>| #[trigger] carries_key(incoming, key) implies read == Some(
        key,
    ) by {
        a_key_is_what_follows_bearer(incoming, key);
    }
    if let Some(key) = read {
        a_key_is_what_follows_bearer(incoming, key);
        assert(carries_key(incoming, key));
    }
}

/// What a client is answered that is turned away, and with which status.
pub proof fn every_refusal_has_its_answer(message: Seq<char>, reset_after_secs: u64)
    ensures
        proxy::reply_to(Verdict::MissingKey) == Some((401u16, "missing Authorization header"@)),
        proxy::reply_to(Verdict::UnreadableBody) == Some((400u16, "failed to read body"@)),
        proxy::reply_to(Verdict::UnknownKey) == Some((401u16, "unauthorized"@)),
        proxy::reply_to(Verdict::NoUpstream) == Some((404u16, "no matching upstream"@)),
        proxy::reply_to(Verdict::Limited { message, reset_after_secs }) == Some(
            (
                429u16,
                json::object_of_texts_and_count(
                    "error"@,
                    "rate_limit_exceeded"@,
                    "message"@,
                    message,
                    "reset_after_secs"@,
                    reset_after_secs,
                ),
            ),
        ),
{
}

} // verus!
