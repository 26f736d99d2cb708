//! The sliding-window limiter.

use crate::clock::Clock;
use crate::counters;
use crate::counters::{CounterKey, Counters};
use crate::window;
use vstd::prelude::*;

verus! {

/// The state of one counter, as it is reported to observers.
#[derive(Debug, Clone)]
pub struct RateLimitEvent {
    pub api_key: String,
    pub model: String,
    pub rule_limit: u32,
    pub rule_window_secs: u64,
    pub count: usize,
    pub remaining: u32,
    pub reset_after_secs: u64,
    pub owner: String,
}

/// What a [`RateLimitEvent`] says.
#[verifier::ext_equal]
pub struct EventModel {
    pub api_key: Seq<char>,
    pub model: Seq<char>,
    pub rule_limit: u32,
    pub rule_window_secs: u64,
    pub count: nat,
    pub remaining: nat,
    pub reset_after_secs: nat,
    pub owner: Seq<char>,
}

impl View for RateLimitEvent {
    type V = EventModel;

    open spec fn view(&self) -> EventModel {
        EventModel {
            api_key: self.api_key@,
            model: self.model@,
            rule_limit: self.rule_limit,
            rule_window_secs: self.rule_window_secs,
            count: self.count as nat,
            remaining: self.remaining as nat,
            reset_after_secs: self.reset_after_secs as nat,
            owner: self.owner@,
        }
    }
}

/// A limiter for requests per API key, model and rule, over a sliding window of time.
pub struct SlidingLimiter {
    clock: Clock,
    counters: Counters,
}

impl View for SlidingLimiter {
    type V = Map<CounterKey, Seq<u128>>;

    closed spec fn view(&self) -> Map<CounterKey, Seq<u128>> {
        self.counters@
    }
}

impl SlidingLimiter {
    /// The latest reading of the limiter's clock, in nanoseconds.
    pub closed spec fn reading(&self) -> u128 {
        self.clock.reading()
    }

    /// What the counters count, in the order in which they are reported.
    pub closed spec fn order(&self) -> Seq<CounterKey> {
        self.counters.order()
    }

    /// The counters are well-formed, and every log is in order of time and ends no
    /// later than the latest reading of the clock.
    pub closed spec fn wf(&self) -> bool {
        &&& self.counters.wf()
        &&& counters::all_in_order(self.counters@, self.clock.reading())
    }

    /// A limiter without counters.
    pub fn new() -> (limiter: Self)
        ensures
            limiter.wf(),
            limiter@ == Map::<CounterKey, Seq<u128>>::empty(),
    {
        SlidingLimiter { clock: Clock::new(), counters: Counters::new() }
    }

    /// Checks one rule at the time of the call. Returns whether the request is
    /// admitted, and the event that reports it. Only an admitted request is recorded.
    pub fn check(&mut self, api_key: &str, model: &str, limit: u32, window_secs: u64) -> (r: (
        bool,
        RateLimitEvent,
    ))
        requires
            old(self).wf(),
        ensures
            final(self).wf(),
            final(self).reading() >= old(self).reading(),
            counters::all_in_order(final(self)@, final(self).reading()),
            ({
                let now = final(self).reading();
                let key = counters::key_of(api_key@, model@, limit, window_secs);
                let log = counters::log_of(old(self)@, key);
                &&& r.0 == window::has_room(log, now, limit, window_secs)
                &&& r.1@ == counters::check_event(log, now, api_key@, model@, limit, window_secs)
                &&& final(self)@ == old(self)@.insert(key, window::checked(log, now, limit, window_secs))
            }),
    {
        let now: u128 = self.clock.read();
        proof {
            let key = counters::key_of(api_key@, model@, limit, window_secs);
            window::live_keeps_order(counters::log_of(self@, key), old(self).reading(), now, window_secs);
        }
        self.counters.check_at(now, api_key, model, limit, window_secs)
    }

    /// Checks `rules` together at the time of the call: the request is recorded under
    /// all of them if all of them have room, and under none otherwise.
    pub fn check_all(&mut self, api_key: &str, model: &str, rules: &[(u32, u64)]) -> (events: Vec<
        RateLimitEvent,
    >)
        requires
            old(self).wf(),
        ensures
            final(self).wf(),
            final(self).reading() >= old(self).reading(),
            counters::all_in_order(final(self)@, final(self).reading()),
            final(self)@ == counters::checked_together(
                old(self)@,
                api_key@,
                model@,
                rules@,
                final(self).reading(),
            ),
            events@.len() == rules@.len(),
            forall|i: int|
                0 <= i < rules@.len() ==> (#[trigger] events@[i])@ == counters::together_event(
                    old(self)@,
                    api_key@,
                    model@,
                    rules@,
                    i,
                    final(self).reading(),
                ),
    {
        let now: u128 = self.clock.read();
        let events: Vec<RateLimitEvent> = self.counters.check_all_at(now, api_key, model, rules);
        proof {
            counters::together_keeps_order(
                old(self)@,
                old(self).reading(),
                now,
                api_key@,
                model@,
                rules@,
            );
        }
        events
    }

    /// Checks `rules` in order at the time of the call, up to the first that refuses
    /// the request. Returns the events, and the rule that refused.
    pub fn check_each(&mut self, api_key: &str, model: &str, rules: &[(u32, u64)]) -> (r: (
        Vec<RateLimitEvent>,
        Option<(u32, u64)>,
    ))
        requires
            old(self).wf(),
        ensures
            final(self).wf(),
            final(self).reading() >= old(self).reading(),
            counters::all_in_order(final(self)@, final(self).reading()),
            ({
                let now = final(self).reading();
                let outcome = counters::check_in_turn(old(self)@, now, api_key@, model@, rules@);
                &&& final(self)@ == outcome.state
                &&& counters::event_models(r.0@) == outcome.events
                &&& r.1 == outcome.refused
            }),
    {
        let now: u128 = self.clock.read();
        proof {
            counters::turn_keeps_order(self@, old(self).reading(), now, api_key@, model@, rules@);
        }
        self.counters.check_each_at(now, api_key, model, rules)
    }

    /// Drops what has expired at the time of the call, and reports every counter that
    /// is left.
    pub fn snapshot(&mut self) -> (events: Vec<RateLimitEvent>)
        requires
            old(self).wf(),
        ensures
            final(self).wf(),
            final(self).reading() >= old(self).reading(),
            counters::all_in_order(final(self)@, final(self).reading()),
            final(self)@ == counters::unexpired(old(self)@, final(self).reading()),
            final(self).order().no_duplicates(),
            final(self).order().to_set() == final(self)@.dom(),
            events@.len() == final(self).order().len(),
            forall|i: int|
                0 <= i < events@.len() ==> (#[trigger] events@[i])@ == counters::snapshot_event(
                    final(self).order()[i],
                    final(self)@[final(self).order()[i]],
                    final(self).reading(),
                ),
    {
        let now: u128 = self.clock.read();
        proof {
            assert forall|key: CounterKey| #[trigger]
                counters::unexpired(self@, now).contains_key(key) implies window::in_order(
                counters::unexpired(self@, now)[key],
                now,
            ) by {
                assert(self@.contains_key(key));
                window::live_keeps_order(self@[key], old(self).reading(), now, key.window_secs);
                assert(counters::unexpired(self@, now)[key] == window::live(self@[key], now, key.window_secs));
            }
            assert(counters::all_in_order(counters::unexpired(self@, now), now));
        }
        self.counters.snapshot_at(now)
    }
}

} // verus!
