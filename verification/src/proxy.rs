//! What the proxy does with a request.

use crate::calendar;
use crate::calendar::{day_name, minute_of_day};
use crate::config;
use crate::config::{time_in_range, ApiKeyEntry, Config, Rule, Ruleset};
use crate::counters;
use crate::counters::CounterKey;
use crate::forward_laws;
use crate::json;
use crate::json::write_texts_and_count;
use crate::limiter::{EventModel, RateLimitEvent, SlidingLimiter};
use crate::routing;
use crate::routing::RoundRobin;
use crate::routing_laws;
use crate::rule_laws;
use crate::text;
use crate::text::{has_text, same_text, strip_prefix};
use crate::usage;
use crate::usage::{extract_model, model_or_any};
use vstd::prelude::*;

verus! {

broadcast use vstd::string::group_string_axioms;

// ---------------------------------------------------------------------------
// Which rules apply
// ---------------------------------------------------------------------------

/// Whether a rule applies to a request for `model` on `day` at `time`.
pub open spec fn applies(rule: Rule, model: Seq<char>, day: Seq<char>, time: Seq<char>) -> bool {
    &&& config::for_all_models(rule) || text::texts(rule.models@).contains(model)
    &&& text::texts(rule.days@).contains(day)
    &&& config::in_range(time, rule.time_start@, rule.time_end@)
}

/// Whether a rule applies to a request for `model` on `day` at `time`.
pub fn rule_matches(rule: &Rule, model: &str, day: &str, time: &str) -> (matches: bool)
    ensures
        matches == applies(*rule, model@, day@, time@),
        matches == rule_laws::fits(*rule, model@, day@, time@),
{
    proof {
        rule_laws::a_rule_applies_by_its_lists(*rule, model@, day@, time@);
    }
    (has_text(&rule.models, "*") || has_text(&rule.models, model)) && has_text(&rule.days, day)
        && time_in_range(time, rule.time_start.as_str(), rule.time_end.as_str())
}

/// The ruleset of the first entry that lists the API key.
pub open spec fn listed_ruleset(entries: Seq<ApiKeyEntry>, api_key: Seq<char>) -> Option<Seq<char>>
    decreases entries.len(),
{
    if entries.len() == 0 {
        None
    } else if text::texts(entries[0].keys@).contains(api_key) {
        Some(entries[0].ruleset@)
    } else {
        listed_ruleset(entries.skip(1), api_key)
    }
}

/// The ruleset of an API key: that of the first entry that lists it, else the
/// fallback.
pub open spec fn ruleset_of(config: Config, api_key: Seq<char>) -> Option<Seq<char>> {
    match listed_ruleset(config.api_keys@, api_key) {
        Some(name) => Some(name),
        None => text::text_in(config.fallback_ruleset),
    }
}

/// The ruleset of an API key: that of the first entry that lists it, else the
/// fallback, if there is one.
pub fn lookup_ruleset<'a>(config: &'a Config, api_key: &str) -> (name: Option<&'a str>)
    ensures
        match name {
            Some(name) => ruleset_of(*config, api_key@) == Some(name@),
            None => ruleset_of(*config, api_key@) is None,
        },
{
    let mut i: usize = 0;
    proof {
        assert(config.api_keys@.skip(0) =~= config.api_keys@);
    }
    while i < config.api_keys.len()
        invariant
            i <= config.api_keys@.len(),
            listed_ruleset(config.api_keys@, api_key@) == listed_ruleset(
                config.api_keys@.skip(i as int),
                api_key@,
            ),
        decreases config.api_keys@.len() - i,
    {
        proof {
            assert(config.api_keys@.skip(i as int).skip(1) =~= config.api_keys@.skip(i + 1));
        }
        if has_text(&config.api_keys[i].keys, api_key) {
            return Some(config.api_keys[i].ruleset.as_str());
        }
        i += 1;
    }
    match &config.fallback_ruleset {
        Some(name) => Some(name.as_str()),
        None => None,
    }
}

/// The first ruleset of the given name.
pub open spec fn named_ruleset(rulesets: Seq<Ruleset>, name: Seq<char>) -> Option<Ruleset>
    decreases rulesets.len(),
{
    if rulesets.len() == 0 {
        None
    } else if rulesets[0].name@ == name {
        Some(rulesets[0])
    } else {
        named_ruleset(rulesets.skip(1), name)
    }
}

/// The limit and window of each rule that applies, in order. Rules with the same limit
/// and window count the same requests, so each pair is listed once.
pub open spec fn applying(rules: Seq<Rule>, model: Seq<char>, day: Seq<char>, time: Seq<char>) -> Seq<
    (u32, u64),
>
    decreases rules.len(),
{
    if rules.len() == 0 {
        Seq::empty()
    } else {
        let before = applying(rules.drop_last(), model, day, time);
        let pair = (rules.last().limit, rules.last().window_secs);
        if applies(rules.last(), model, day, time) && !before.contains(pair) {
            before.push(pair)
        } else {
            before
        }
    }
}

/// The limit and window of each rule of the named ruleset that applies, in order.
pub open spec fn rules_for(
    config: Config,
    name: Seq<char>,
    model: Seq<char>,
    day: Seq<char>,
    time: Seq<char>,
) -> Seq<(u32, u64)> {
    match named_ruleset(config.rulesets@, name) {
        Some(rs) => applying(rs.rules@, model, day, time),
        None => Seq::empty(),
    }
}

/// No limit and window is listed twice.
pub proof fn applying_once(rules: Seq<Rule>, model: Seq<char>, day: Seq<char>, time: Seq<char>)
    ensures
        applying(rules, model, day, time).no_duplicates(),
    decreases rules.len(),
{
    if rules.len() > 0 {
        applying_once(rules.drop_last(), model, day, time);
    }
}

fn has_pair(pairs: &Vec<(u32, u64)>, pair: (u32, u64)) -> (found: bool)
    ensures
        found == pairs@.contains(pair),
{
    let mut i: usize = 0;
    while i < pairs.len()
        invariant
            i <= pairs@.len(),
            forall|k: int| 0 <= k < i ==> pairs@[k] != pair,
        decreases pairs@.len() - i,
    {
        if pairs[i].0 == pair.0 && pairs[i].1 == pair.1 {
            assert(pairs@[i as int] == pair);
            return true;
        }
        i += 1;
    }
    false
}

fn applying_rules(rules: &Vec<Rule>, model: &str, day: &str, time: &str) -> (r: Vec<(u32, u64)>)
    ensures
        r@ == applying(rules@, model@, day@, time@),
{
    let mut r: Vec<(u32, u64)> = Vec::new();
    let mut i: usize = 0;
    proof {
        assert(rules@.take(0) =~= Seq::<Rule>::empty());
    }
    while i < rules.len()
        invariant
            i <= rules@.len(),
            r@ == applying(rules@.take(i as int), model@, day@, time@),
        decreases rules@.len() - i,
    {
        proof {
            assert(rules@.take(i + 1).drop_last() =~= rules@.take(i as int));
        }
        let pair: (u32, u64) = (rules[i].limit, rules[i].window_secs);
        if rule_matches(&rules[i], model, day, time) && !has_pair(&r, pair) {
            r.push(pair);
        }
        i += 1;
    }
    proof {
        assert(rules@.take(i as int) =~= rules@);
    }
    r
}

/// The limit and window of each rule of the named ruleset that applies, in order, each
/// pair once.
pub fn matching_rules(config: &Config, name: &str, model: &str, day: &str, time: &str) -> (r: Vec<
    (u32, u64),
>)
    ensures
        r@ == rules_for(*config, name@, model@, day@, time@),
        r@.no_duplicates(),
{
    let mut i: usize = 0;
    proof {
        assert(config.rulesets@.skip(0) =~= config.rulesets@);
    }
    while i < config.rulesets.len()
        invariant
            i <= config.rulesets@.len(),
            named_ruleset(config.rulesets@, name@) == named_ruleset(
                config.rulesets@.skip(i as int),
                name@,
            ),
        decreases config.rulesets@.len() - i,
    {
        proof {
            assert(config.rulesets@.skip(i as int).skip(1) =~= config.rulesets@.skip(i + 1));
        }
        if same_text(config.rulesets[i].name.as_str(), name) {
            proof {
                applying_once(config.rulesets@[i as int].rules@, model@, day@, time@);
            }
            return applying_rules(&config.rulesets[i].rules, model, day, time);
        }
        i += 1;
    }
    Vec::new()
}

// ---------------------------------------------------------------------------
// The API key
// ---------------------------------------------------------------------------

/// The API key in an `Authorization` header: what follows `Bearer `, unless it is
/// empty.
pub open spec fn key_in(header: Option<Seq<char>>) -> Option<Seq<char>> {
    match header {
        Some(value) => match text::without_prefix(value, "Bearer "@) {
            Some(key) => if key.len() == 0 {
                None
            } else {
                Some(key)
            },
            None => None,
        },
        None => None,
    }
}

/// The API key in an `Authorization` header.
pub fn bearer_key(header: &Option<String>) -> (key: Option<String>)
    ensures
        text::text_in(key) == key_in(text::text_in(*header)),
{
    match header {
        Some(value) => match strip_prefix(value.as_str(), "Bearer ") {
            Some(key) => if key.as_str().unicode_len() == 0 {
                None
            } else {
                Some(key)
            },
            None => None,
        },
        None => None,
    }
}

// ---------------------------------------------------------------------------
// The decision
// ---------------------------------------------------------------------------

/// What the proxy does with a request.
#[derive(Debug, Clone)]
pub enum Decision {
    /// The request carries no API key.
    MissingKey,
    /// The body of the request could not be read.
    UnreadableBody,
    /// The API key has no ruleset.
    UnknownKey,
    /// A limit is used up.
    Limited { message: String, reset_after_secs: u64 },
    /// No server takes the path.
    NoUpstream,
    /// The request is sent on.
    Forward { api_key: String, model: String, url: String },
}

/// What a [`Decision`] says.
#[verifier::ext_equal]
pub enum Verdict {
    MissingKey,
    UnreadableBody,
    UnknownKey,
    Limited { message: Seq<char>, reset_after_secs: u64 },
    NoUpstream,
    Forward { api_key: Seq<char>, model: Seq<char>, url: Seq<char> },
}

impl View for Decision {
    type V = Verdict;

    open spec fn view(&self) -> Verdict {
        match self {
            Decision::MissingKey => Verdict::MissingKey,
            Decision::UnreadableBody => Verdict::UnreadableBody,
            Decision::UnknownKey => Verdict::UnknownKey,
            Decision::Limited { message, reset_after_secs } => Verdict::Limited {
                message: message@,
                reset_after_secs: *reset_after_secs,
            },
            Decision::NoUpstream => Verdict::NoUpstream,
            Decision::Forward { api_key, model, url } => Verdict::Forward {
                api_key: api_key@,
                model: model@,
                url: url@,
            },
        }
    }
}

/// A request, as far as the decision depends on it.
#[derive(Debug, Clone)]
pub struct Inquiry {
    pub api_key: String,
    pub model: String,
    pub day: String,
    pub time: String,
    pub path: String,
    pub path_and_query: String,
}

/// What an [`Inquiry`] says.
pub struct Asked {
    pub api_key: Seq<char>,
    pub model: Seq<char>,
    pub day: Seq<char>,
    pub time: Seq<char>,
    pub path: Seq<char>,
    pub path_and_query: Seq<char>,
}

impl View for Inquiry {
    type V = Asked;

    open spec fn view(&self) -> Asked {
        Asked {
            api_key: self.api_key@,
            model: self.model@,
            day: self.day@,
            time: self.time@,
            path: self.path@,
            path_and_query: self.path_and_query@,
        }
    }
}

/// A decision and what comes with it.
pub struct Ruling {
    /// The counters afterwards.
    pub state: Map<CounterKey, Seq<u128>>,
    /// The turns of the servers afterwards.
    pub turns: Map<Seq<char>, nat>,
    /// What observers are told.
    pub events: Seq<EventModel>,
    /// The decision.
    pub verdict: Verdict,
}

/// What a client is told when a limit for `model` is used up.
pub open spec fn limit_message(model: Seq<char>) -> Seq<char> {
    "Rate limit exceeded for model "@ + model
}

/// How a request is decided at `now`: a key without a ruleset is turned away, the rules
/// that apply are checked in order up to the first that is used up, and a request that
/// passes all of them is sent on if some server takes its path.
pub open spec fn rule_on(
    config: Config,
    state: Map<CounterKey, Seq<u128>>,
    now: u128,
    turns: Map<Seq<char>, nat>,
    asked: Asked,
) -> Ruling {
    match ruleset_of(config, asked.api_key) {
        None => Ruling { state, turns, events: Seq::empty(), verdict: Verdict::UnknownKey },
        Some(name) => {
            let rules = rules_for(config, name, asked.model, asked.day, asked.time);
            let outcome = counters::check_in_turn(state, now, asked.api_key, asked.model, rules);
            match outcome.refused {
                Some(rule) => Ruling {
                    state: outcome.state,
                    turns,
                    events: outcome.events,
                    verdict: Verdict::Limited {
                        message: limit_message(asked.model),
                        reset_after_secs: rule.1,
                    },
                },
                None => {
                    let upstreams = config.upstreams@;
                    Ruling {
                        state: outcome.state,
                        turns: routing::turns_then(upstreams, turns, asked.path),
                        events: outcome.events,
                        verdict: match routing::route_of(
                            upstreams,
                            turns,
                            asked.path,
                            asked.path_and_query,
                        ) {
                            Some(url) => Verdict::Forward {
                                api_key: asked.api_key,
                                model: asked.model,
                                url,
                            },
                            None => Verdict::NoUpstream,
                        },
                    }
                },
            }
        },
    }
}

/// Decides a request.
pub fn decide_inquiry(
    config: &Config,
    limiter: &mut SlidingLimiter,
    turns: &mut RoundRobin,
    inquiry: Inquiry,
) -> (r: (Vec<RateLimitEvent>, Decision))
    requires
        old(limiter).wf(),
    ensures
        final(limiter).wf(),
        final(limiter).reading() >= old(limiter).reading(),
        ({
            let ruling = rule_on(
                *config,
                old(limiter)@,
                final(limiter).reading(),
                old(turns)@,
                inquiry@,
            );
            &&& final(limiter)@ == ruling.state
            &&& final(turns)@ == ruling.turns
            &&& counters::event_models(r.0@) == ruling.events
            &&& r.1@ == ruling.verdict
        }),
{
    let Inquiry { api_key, model, day, time, path, path_and_query } = inquiry;
    let rules: Vec<(u32, u64)> = match lookup_ruleset(config, api_key.as_str()) {
        Some(name) => matching_rules(config, name, model.as_str(), day.as_str(), time.as_str()),
        None => {
            let events: Vec<RateLimitEvent> = Vec::new();
            proof {
                assert(counters::event_models(events@) =~= Seq::<EventModel>::empty());
            }
            return (events, Decision::UnknownKey);
        },
    };
    let (events, refused): (Vec<RateLimitEvent>, Option<(u32, u64)>) = limiter.check_each(
        api_key.as_str(),
        model.as_str(),
        rules.as_slice(),
    );
    let decision: Decision = match refused {
        Some(rule) => {
            let mut message: String = "Rate limit exceeded for model ".to_owned();
            message.append(model.as_str());
            Decision::Limited { message, reset_after_secs: rule.1 }
        },
        None => match turns.route(&config.upstreams, path.as_str(), path_and_query.as_str()) {
            Some(url) => Decision::Forward { api_key, model, url },
            None => Decision::NoUpstream,
        },
    };
    (events, decision)
}

/// A request as it comes in.
#[derive(Debug, Clone)]
pub struct Incoming {
    /// The `Authorization` header, if it is readable text.
    pub authorization: Option<String>,
    /// The body, if it could be read.
    pub body: Option<Vec<u8>>,
    pub path: String,
    pub path_and_query: String,
}

/// How a request is decided as it comes in, at `now` by the limiter's clock and at
/// `local` seconds by the calendar: one without an API key is turned away before its
/// body is looked at, and one whose body cannot be read is turned away next.
pub open spec fn rule_on_incoming(
    config: Config,
    state: Map<CounterKey, Seq<u128>>,
    now: u128,
    turns: Map<Seq<char>, nat>,
    incoming: Incoming,
    local: int,
) -> Ruling {
    match key_in(text::text_in(incoming.authorization)) {
        None => Ruling { state, turns, events: Seq::empty(), verdict: Verdict::MissingKey },
        Some(api_key) => match incoming.body {
            None => Ruling {
                state,
                turns,
                events: Seq::empty(),
                verdict: Verdict::UnreadableBody,
            },
            Some(body) => rule_on(
                config,
                state,
                now,
                turns,
                Asked {
                    api_key,
                    model: usage::model_asked(json::body_field(body@, "model"@)),
                    day: calendar::weekday(local),
                    time: calendar::hour_and_minute(local),
                    path: incoming.path@,
                    path_and_query: incoming.path_and_query@,
                },
            ),
        },
    }
}

/// Decides a request as it comes in, `secs` after the epoch, by rules that are read
/// `offset` seconds east of UTC.
pub fn decide(
    config: &Config,
    limiter: &mut SlidingLimiter,
    turns: &mut RoundRobin,
    incoming: Incoming,
    secs: i64,
    offset: i32,
) -> (r: (Vec<RateLimitEvent>, Decision))
    requires
        old(limiter).wf(),
        calendar::in_calendar(secs as int),
        calendar::is_offset(offset as int),
    ensures
        final(limiter).wf(),
        final(limiter).reading() >= old(limiter).reading(),
        ({
            let ruling = rule_on_incoming(
                *config,
                old(limiter)@,
                final(limiter).reading(),
                old(turns)@,
                incoming,
                secs + offset,
            );
            &&& final(limiter)@ == ruling.state
            &&& final(turns)@ == ruling.turns
            &&& counters::event_models(r.0@) == ruling.events
            &&& r.1@ == ruling.verdict
        }),
        r.1@ matches Verdict::Forward { api_key, model, url } ==> {
            &&& forward_laws::carries_key(incoming, api_key)
            &&& forward_laws::is_for_model(incoming, model)
            &&& routing_laws::goes_to_a_server(
                config.upstreams@,
                incoming.path@,
                incoming.path_and_query@,
                url,
            )
        },
{
    proof {
        assert forall|now: u128| true implies (#[trigger] rule_on_incoming(
            *config,
            limiter@,
            now,
            turns@,
            incoming,
            secs + offset,
        ).verdict matches Verdict::Forward { api_key, model, url } ==> {
            &&& forward_laws::carries_key(incoming, api_key)
            &&& forward_laws::is_for_model(incoming, model)
            &&& routing_laws::goes_to_a_server(
                config.upstreams@,
                incoming.path@,
                incoming.path_and_query@,
                url,
            )
        }) by {
            forward_laws::an_incoming_request_is_sent_on_whole(
                *config,
                limiter@,
                now,
                turns@,
                incoming,
                secs + offset,
            );
        }
    }
    let none: Vec<RateLimitEvent> = Vec::new();
    proof {
        assert(counters::event_models(none@) =~= Seq::<EventModel>::empty());
    }
    match bearer_key(&incoming.authorization) {
        None => (none, Decision::MissingKey),
        Some(api_key) => match incoming.body {
            None => (none, Decision::UnreadableBody),
            Some(body) => {
                let inquiry: Inquiry = Inquiry {
                    api_key,
                    model: model_or_any(extract_model(body.as_slice())),
                    day: day_name(secs, offset),
                    time: minute_of_day(secs, offset),
                    path: incoming.path,
                    path_and_query: incoming.path_and_query,
                };
                decide_inquiry(config, limiter, turns, inquiry)
            },
        },
    }
}

/// The status and the body with which a request is turned away, if it is.
pub open spec fn reply_to(verdict: Verdict) -> Option<(u16, Seq<char>)> {
    match verdict {
        Verdict::MissingKey => Some((401, "missing Authorization header"@)),
        Verdict::UnreadableBody => Some((400, "failed to read body"@)),
        Verdict::UnknownKey => Some((401, "unauthorized"@)),
        Verdict::Limited { message, reset_after_secs } => Some(
            (
                429,
                json::object_of_texts_and_count(
                    "error"@,
                    "rate_limit_exceeded"@,
                    "message"@,
                    message,
                    "reset_after_secs"@,
                    reset_after_secs,
                ),
            ),
        ),
        Verdict::NoUpstream => Some((404, "no matching upstream"@)),
        Verdict::Forward { .. } => None,
    }
}

impl Decision {
    /// The status and the body with which the request is turned away, if it is.
    pub fn reply(&self) -> (reply: Option<(u16, String)>)
        ensures
            match reply {
                Some(reply) => reply_to(self@) == Some((reply.0, reply.1@)),
                None => reply_to(self@) is None,
            },
    {
        match self {
            Decision::MissingKey => Some((401, "missing Authorization header".to_owned())),
            Decision::UnreadableBody => Some((400, "failed to read body".to_owned())),
            Decision::UnknownKey => Some((401, "unauthorized".to_owned())),
            Decision::Limited { message, reset_after_secs } => {
                let body: String = write_texts_and_count(
                    "error",
                    "rate_limit_exceeded",
                    "message",
                    message.as_str(),
                    "reset_after_secs",
                    *reset_after_secs,
                );
                Some((429, body))
            },
            Decision::NoUpstream => Some((404, "no matching upstream".to_owned())),
            Decision::Forward { .. } => None,
        }
    }
}

} // verus!
