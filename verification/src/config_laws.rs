//! Which configurations are valid and what is warned of, told from what is written in
//! them.

use crate::config;
use crate::config::{ApiKeyEntry, Config, Fault, Overlap, Rule, Ruleset};
use crate::text;
use crate::text_laws;
use vstd::prelude::*;

verus! {

// ---------------------------------------------------------------------------
// Times
// ---------------------------------------------------------------------------

/// Whether a text writes a number of at most `max`.
pub open spec fn writes_up_to(s: Seq<char>, max: nat) -> bool {
    exists|n: nat| #[trigger] text_laws::writes(s, n) && n <= max
}

proof fn read_up_to(s: Seq<char>, max: nat)
    ensures
        text::parsed_number(s, max) is Some <==> writes_up_to(s, max),
        text::parsed_number(s, max) matches Some(n) ==> text_laws::writes(s, n) && n <= max,
{
    if let Some(n) = text::parsed_number(s, max) {
        text_laws::a_number_is_read_as_written(s, max, n);
    }
    if writes_up_to(s, max) {
        let n = choose|n: nat| #[trigger] text_laws::writes(s, n) && n <= max;
        text_laws::a_number_is_read_as_written(s, max, n);
    }
}

proof fn cut_at_the_colon(time: Seq<char>, hour: Seq<char>, minute: Seq<char>)
    requires
        time == hour + seq![':'] + minute,
        !hour.contains(':'),
        !minute.contains(':'),
    ensures
        text::pieces(time, ':', 3) == seq![hour, minute],
{
    text::pieces_head(hour, minute, ':', 3);
    assert forall|k: int| 0 <= k < minute.len() implies minute[k] != ':' by {
        assert(minute.contains(minute[k]));
    }
    text::first_at_is(minute, ':', minute.len() as int);
    assert(text::pieces(minute, ':', 2) == seq![minute]);
    assert(seq![hour] + seq![minute] =~= seq![hour, minute]);
}

/// A time with one colon is faulty by its hour, if that is no number a byte holds; else
/// by its minute, if that is none; else as a whole, if the hour is over 23 or the minute
/// over 59; and otherwise it is not faulty.
pub proof fn a_time_is_an_hour_and_a_minute(
    ruleset: Seq<char>,
    time: Seq<char>,
    hour: Seq<char>,
    minute: Seq<char>,
)
    requires
        time == hour + seq![':'] + minute,
        !hour.contains(':'),
        !minute.contains(':'),
    ensures
        config::time_fault(ruleset, time) == if !writes_up_to(hour, 255) {
            Some(Fault::Hour { hour })
        } else if !writes_up_to(minute, 255) {
            Some(Fault::Minute { minute })
        } else if !writes_up_to(hour, 23) || !writes_up_to(minute, 59) {
            Some(Fault::TimeRange { ruleset, time })
        } else {
            None
        },
{
    cut_at_the_colon(time, hour, minute);
    let parts = text::pieces(time, ':', 3);
    assert(parts[0] == hour && parts[1] == minute);
    read_up_to(hour, 255);
    read_up_to(minute, 255);
    if writes_up_to(hour, 255) && writes_up_to(minute, 255) {
        let h = text::parsed_number(hour, 255)->0;
        let m = text::parsed_number(minute, 255)->0;
        assert(writes_up_to(hour, 23) <==> h <= 23) by {
            if writes_up_to(hour, 23) {
                let n = choose|n: nat| #[trigger] text_laws::writes(hour, n) && n <= 23;
                text_laws::no_text_writes_two_numbers(hour, h, n);
            }
        }
        assert(writes_up_to(minute, 59) <==> m <= 59) by {
            if writes_up_to(minute, 59) {
                let n = choose|n: nat| #[trigger] text_laws::writes(minute, n) && n <= 59;
                text_laws::no_text_writes_two_numbers(minute, m, n);
            }
        }
    }
}

/// Whether a time is an hour and a minute with a colon between them and no other.
pub open spec fn has_one_colon(time: Seq<char>) -> bool {
    exists|hour: Seq<char>, minute: Seq<char>|
        time == #[trigger] (hour + seq![':'] + minute) && !hour.contains(':') && !minute.contains(
            ':',
        )
}

/// A time is faulty in its format exactly if it does not hold one colon.
pub proof fn a_time_holds_one_colon(ruleset: Seq<char>, time: Seq<char>)
    ensures
        has_one_colon(time) <==> config::time_fault(ruleset, time) != Some(
            Fault::TimeFormat { ruleset, time },
        ),
{
    let parts = text::pieces(time, ':', 3);
    text_laws::pieces_rejoin(time, ':', 3);
    if parts.len() == 2 {
        let hour = parts[0];
        let minute = parts[1];
        let rest = parts.skip(1);
        assert(rest[0] == minute);
        assert(text_laws::rejoined(rest, ':') == minute);
        assert(time == hour + seq![':'] + minute);
        if hour.contains(':') {
            let i = choose|i: int| 0 <= i < hour.len() && hour[i] == ':';
            assert(parts[0][i] != ':');
        }
        if minute.contains(':') {
            let i = choose|i: int| 0 <= i < minute.len() && minute[i] == ':';
            assert(parts[1][i] != ':');
        }
        assert(has_one_colon(time));
    }
    if has_one_colon(time) {
        let (hour, minute) = choose|hour: Seq<char>, minute: Seq<char>|
            time == #[trigger] (hour + seq![':'] + minute) && !hour.contains(':')
                && !minute.contains(':');
        a_time_is_an_hour_and_a_minute(ruleset, time, hour, minute);
    }
}

/// Whether a time is written as an hour of at most 23 and a minute of at most 59, with a
/// colon between them.
pub open spec fn is_time(time: Seq<char>) -> bool {
    exists|hour: Seq<char>, minute: Seq<char>|
        time == #[trigger] (hour + seq![':'] + minute) && writes_up_to(hour, 23) && writes_up_to(
            minute,
            59,
        )
}

proof fn no_colon_in_a_number(s: Seq<char>, n: nat)
    requires
        text_laws::writes(s, n),
    ensures
        !s.contains(':'),
{
    text_laws::a_number_is_read_as_written(s, n, n);
    if s.contains(':') {
        let i = choose|i: int| 0 <= i < s.len() && s[i] == ':';
        let body = if s.len() > 0 && s[0] == '+' {
            s.skip(1)
        } else {
            s
        };
        if s[0] == '+' {
            assert(body[i - 1] == ':');
            assert(text::is_digit(body[i - 1]));
        } else {
            assert(text::is_digit(body[i]));
        }
    }
}

/// A time is without fault exactly if it is an hour of at most 23, a colon, and a minute
/// of at most 59.
pub proof fn exactly_the_times_of_day_are_valid(ruleset: Seq<char>, time: Seq<char>)
    ensures
        config::time_fault(ruleset, time) is None <==> is_time(time),
{
    a_time_holds_one_colon(ruleset, time);
    if config::time_fault(ruleset, time) is None {
        let (hour, minute) = choose|hour: Seq<char>, minute: Seq<char>|
            time == #[trigger] (hour + seq![':'] + minute) && !hour.contains(':')
                && !minute.contains(':');
        a_time_is_an_hour_and_a_minute(ruleset, time, hour, minute);
        assert(is_time(time));
    }
    if is_time(time) {
        let (hour, minute) = choose|hour: Seq<char>, minute: Seq<char>|
            time == #[trigger] (hour + seq![':'] + minute) && writes_up_to(hour, 23)
                && writes_up_to(minute, 59);
        let h = choose|n: nat| #[trigger] text_laws::writes(hour, n) && n <= 23;
        let m = choose|n: nat| #[trigger] text_laws::writes(minute, n) && n <= 59;
        no_colon_in_a_number(hour, h);
        no_colon_in_a_number(minute, m);
        assert(text_laws::writes(hour, h) && h <= 255);
        assert(text_laws::writes(minute, m) && m <= 255);
        a_time_is_an_hour_and_a_minute(ruleset, time, hour, minute);
    }
}

// ---------------------------------------------------------------------------
// Valid configurations
// ---------------------------------------------------------------------------

/// Whether a day is written as one of the seven.
pub open spec fn is_short_day(day: Seq<char>) -> bool {
    ||| day == seq!['M', 'o', 'n']
    ||| day == seq!['T', 'u', 'e']
    ||| day == seq!['W', 'e', 'd']
    ||| day == seq!['T', 'h', 'u']
    ||| day == seq!['F', 'r', 'i']
    ||| day == seq!['S', 'a', 't']
    ||| day == seq!['S', 'u', 'n']
}

proof fn days_are_short(day: Seq<char>)
    ensures
        config::is_day(day) <==> is_short_day(day),
{
    reveal_strlit("Mon");
    reveal_strlit("Tue");
    reveal_strlit("Wed");
    reveal_strlit("Thu");
    reveal_strlit("Fri");
    reveal_strlit("Sat");
    reveal_strlit("Sun");
    assert("Mon"@ =~= seq!['M', 'o', 'n']);
    assert("Tue"@ =~= seq!['T', 'u', 'e']);
    assert("Wed"@ =~= seq!['W', 'e', 'd']);
    assert("Thu"@ =~= seq!['T', 'h', 'u']);
    assert("Fri"@ =~= seq!['F', 'r', 'i']);
    assert("Sat"@ =~= seq!['S', 'a', 't']);
    assert("Sun"@ =~= seq!['S', 'u', 'n']);
}

/// Whether a rule admits something, has a window, and is written with times of day and
/// days of the week.
pub open spec fn is_sound(rule: Rule) -> bool {
    &&& rule.limit > 0
    &&& rule.window_secs > 0
    &&& is_time(rule.time_start@)
    &&& is_time(rule.time_end@)
    &&& forall|d: int| 0 <= d < rule.days@.len() ==> is_short_day((#[trigger] rule.days@[d])@)
}

/// A rule is without fault exactly if it is sound.
pub proof fn exactly_the_sound_rules_are_valid(ruleset: Seq<char>, rule: Rule)
    ensures
        config::rule_fault(ruleset, rule) is None <==> is_sound(rule),
{
    exactly_the_times_of_day_are_valid(ruleset, rule.time_start@);
    exactly_the_times_of_day_are_valid(ruleset, rule.time_end@);
    let fault = |day: String| config::day_fault(ruleset, day@);
    config::no_first_fault(rule.days@, fault);
    assert forall|d: int| 0 <= d < rule.days@.len() implies (fault(#[trigger] rule.days@[d]) is None
        <==> is_short_day(rule.days@[d]@)) by {
        days_are_short(rule.days@[d]@);
    }
    if is_sound(rule) {
        assert(forall|d: int| 0 <= d < rule.days@.len() ==> fault(#[trigger] rule.days@[d]) is None);
    }
    if config::rule_fault(ruleset, rule) is None {
        assert forall|d: int| 0 <= d < rule.days@.len() implies is_short_day(
            (#[trigger] rule.days@[d])@,
        ) by {
            assert(fault(rule.days@[d]) is None);
        }
    }
}

/// The fault of an item that has one, when none before it has, is the first.
proof fn the_first_is_found<T>(items: Seq<T>, fault: spec_fn(T) -> Option<Fault>, i: int)
    requires
        0 <= i < items.len(),
        fault(items[i]) is Some,
        forall|k: int| 0 <= k < i ==> fault(#[trigger] items[k]) is None,
    ensures
        config::first_fault(items, fault) == fault(items[i]),
    decreases i,
{
    if i > 0 {
        let rest = items.skip(1);
        assert(fault(items[0]) is None);
        assert(rest[i - 1] == items[i]);
        assert forall|k: int| 0 <= k < i - 1 implies fault(#[trigger] rest[k]) is None by {
            assert(rest[k] == items[k + 1]);
        }
        the_first_is_found(rest, fault, i - 1);
    }
}

/// The fault of a rule that is reported is that of its limit, else of its window, else
/// of its start, else of its end, else of the first of its days that is none.
pub proof fn a_rule_reports_its_first_fault(ruleset: Seq<char>, rule: Rule, d: int)
    requires
        0 <= d < rule.days@.len(),
        !is_short_day(rule.days@[d]@),
        forall|k: int| 0 <= k < d ==> is_short_day((#[trigger] rule.days@[k])@),
    ensures
        config::rule_fault(ruleset, rule) == if rule.limit == 0 {
            Some(Fault::ZeroLimit { ruleset })
        } else if rule.window_secs == 0 {
            Some(Fault::ZeroWindow { ruleset })
        } else if !is_time(rule.time_start@) {
            config::time_fault(ruleset, rule.time_start@)
        } else if !is_time(rule.time_end@) {
            config::time_fault(ruleset, rule.time_end@)
        } else {
            Some(Fault::Day { ruleset, day: rule.days@[d]@ })
        },
{
    exactly_the_times_of_day_are_valid(ruleset, rule.time_start@);
    exactly_the_times_of_day_are_valid(ruleset, rule.time_end@);
    let fault = |day: String| config::day_fault(ruleset, day@);
    days_are_short(rule.days@[d]@);
    assert forall|k: int| 0 <= k < d implies fault(#[trigger] rule.days@[k]) is None by {
        days_are_short(rule.days@[k]@);
    }
    the_first_is_found(rule.days@, fault, d);
}

/// The same of a rule whose days are all in order.
pub proof fn a_rule_with_good_days_reports_its_first_fault(ruleset: Seq<char>, rule: Rule)
    requires
        forall|k: int| 0 <= k < rule.days@.len() ==> is_short_day((#[trigger] rule.days@[k])@),
    ensures
        config::rule_fault(ruleset, rule) == if rule.limit == 0 {
            Some(Fault::ZeroLimit { ruleset })
        } else if rule.window_secs == 0 {
            Some(Fault::ZeroWindow { ruleset })
        } else if !is_time(rule.time_start@) {
            config::time_fault(ruleset, rule.time_start@)
        } else if !is_time(rule.time_end@) {
            config::time_fault(ruleset, rule.time_end@)
        } else {
            None
        },
{
    exactly_the_times_of_day_are_valid(ruleset, rule.time_start@);
    exactly_the_times_of_day_are_valid(ruleset, rule.time_end@);
    let fault = |day: String| config::day_fault(ruleset, day@);
    config::no_first_fault(rule.days@, fault);
    assert forall|k: int| 0 <= k < rule.days@.len() implies fault(
        #[trigger] rule.days@[k],
    ) is None by {
        days_are_short(rule.days@[k]@);
    }
}

/// Whether some ruleset has the name.
pub open spec fn is_named(config: Config, name: Seq<char>) -> bool {
    exists|i: int| 0 <= i < config.rulesets@.len() && (#[trigger] config.rulesets@[i]).name@ == name
}

proof fn defined_is_named(config: Config, name: Seq<char>)
    ensures
        config::defines(config, name) <==> is_named(config, name),
{
    let names = config::ruleset_names(config.rulesets@);
    if config::defines(config, name) {
        let i = choose|i: int| 0 <= i < names.len() && names[i] == name;
        assert(config.rulesets@[i].name@ == name);
    }
    if is_named(config, name) {
        let i = choose|i: int|
            0 <= i < config.rulesets@.len() && (#[trigger] config.rulesets@[i]).name@ == name;
        assert(names[i] == name);
    }
}

/// Whether a configuration gives the fallback, if there is one, and every API key entry
/// a ruleset that is there.
pub open spec fn names_are_there(config: Config) -> bool {
    &&& config.fallback_ruleset matches Some(name) ==> is_named(config, name@)
    &&& forall|i: int|
        0 <= i < config.api_keys@.len() ==> is_named(
            config,
            (#[trigger] config.api_keys@[i]).ruleset@,
        )
}

proof fn references_are_there(config: Config)
    ensures
        config::reference_fault(config) is None <==> names_are_there(config),
{
    let fault = |entry: ApiKeyEntry| config::entry_fault(config, entry);
    config::no_first_fault(config.api_keys@, fault);
    if let Some(name) = config.fallback_ruleset {
        defined_is_named(config, name@);
    }
    assert forall|i: int| 0 <= i < config.api_keys@.len() implies (fault(
        #[trigger] config.api_keys@[i],
    ) is None <==> is_named(config, config.api_keys@[i].ruleset@)) by {
        defined_is_named(config, config.api_keys@[i].ruleset@);
    }
    if names_are_there(config) {
        assert(forall|i: int|
            0 <= i < config.api_keys@.len() ==> fault(#[trigger] config.api_keys@[i]) is None);
    }
    if config::reference_fault(config) is None {
        assert forall|i: int| 0 <= i < config.api_keys@.len() implies is_named(
            config,
            (#[trigger] config.api_keys@[i]).ruleset@,
        ) by {
            assert(fault(config.api_keys@[i]) is None);
        }
    }
}

/// Whether every rule of a ruleset is sound.
pub open spec fn all_sound(rs: Ruleset) -> bool {
    forall|j: int| 0 <= j < rs.rules@.len() ==> is_sound(#[trigger] rs.rules@[j])
}

proof fn sound_rulesets(rs: Ruleset)
    ensures
        config::ruleset_fault(rs) is None <==> all_sound(rs),
{
    let fault = |rule: Rule| config::rule_fault(rs.name@, rule);
    config::no_first_fault(rs.rules@, fault);
    assert forall|j: int| 0 <= j < rs.rules@.len() implies (fault(#[trigger] rs.rules@[j]) is None
        <==> is_sound(rs.rules@[j])) by {
        exactly_the_sound_rules_are_valid(rs.name@, rs.rules@[j]);
    }
    if all_sound(rs) {
        assert(forall|j: int| 0 <= j < rs.rules@.len() ==> fault(#[trigger] rs.rules@[j]) is None);
    }
    if config::ruleset_fault(rs) is None {
        assert forall|j: int| 0 <= j < rs.rules@.len() implies is_sound(#[trigger] rs.rules@[j]) by {
            assert(fault(rs.rules@[j]) is None);
        }
    }
}

/// A configuration is valid exactly if the rulesets that it names are there and all of
/// its rules are sound.
pub proof fn exactly_the_sound_configurations_are_valid(config: Config)
    ensures
        config::config_fault(config) is None <==> names_are_there(config) && forall|i: int|
            0 <= i < config.rulesets@.len() ==> all_sound(#[trigger] config.rulesets@[i]),
{
    references_are_there(config);
    let fault = |rs: Ruleset| config::ruleset_fault(rs);
    config::no_first_fault(config.rulesets@, fault);
    assert forall|i: int| 0 <= i < config.rulesets@.len() implies (fault(
        #[trigger] config.rulesets@[i],
    ) is None <==> all_sound(config.rulesets@[i])) by {
        sound_rulesets(config.rulesets@[i]);
    }
    if forall|i: int| 0 <= i < config.rulesets@.len() ==> all_sound(#[trigger] config.rulesets@[i]) {
        assert(forall|i: int|
            0 <= i < config.rulesets@.len() ==> fault(#[trigger] config.rulesets@[i]) is None);
    }
    if config::config_fault(config) is None {
        assert forall|i: int| 0 <= i < config.rulesets@.len() implies all_sound(
            #[trigger] config.rulesets@[i],
        ) by {
            assert(fault(config.rulesets@[i]) is None);
        }
    }
}

/// A fallback that is not there is reported before anything else.
pub proof fn a_missing_fallback_is_reported_first(config: Config)
    ensures
        config.fallback_ruleset matches Some(name) && !is_named(config, name@)
            ==> config::config_fault(config) == Some(
            Fault::UnknownFallback { name: config.fallback_ruleset->0@ },
        ),
{
    if let Some(name) = config.fallback_ruleset {
        defined_is_named(config, name@);
    }
}

/// Next, the ruleset of the first API key entry whose ruleset is not there is reported.
pub proof fn a_missing_ruleset_is_reported_next(config: Config, i: int)
    requires
        config.fallback_ruleset matches Some(name) ==> is_named(config, name@),
        0 <= i < config.api_keys@.len(),
        !is_named(config, config.api_keys@[i].ruleset@),
        forall|k: int|
            0 <= k < i ==> is_named(config, (#[trigger] config.api_keys@[k]).ruleset@),
    ensures
        config::config_fault(config) == Some(
            Fault::UnknownRuleset { name: config.api_keys@[i].ruleset@ },
        ),
{
    if let Some(name) = config.fallback_ruleset {
        defined_is_named(config, name@);
    }
    let fault = |entry: ApiKeyEntry| config::entry_fault(config, entry);
    defined_is_named(config, config.api_keys@[i].ruleset@);
    assert forall|k: int| 0 <= k < i implies fault(#[trigger] config.api_keys@[k]) is None by {
        defined_is_named(config, config.api_keys@[k].ruleset@);
    }
    the_first_is_found(config.api_keys@, fault, i);
}

/// Last, the fault of the first rule that is not sound is reported, by the name of its
/// ruleset.
pub proof fn the_first_unsound_rule_is_reported_last(config: Config, i: int, j: int)
    requires
        names_are_there(config),
        0 <= i < config.rulesets@.len(),
        0 <= j < config.rulesets@[i].rules@.len(),
        !is_sound(config.rulesets@[i].rules@[j]),
        forall|k: int| 0 <= k < i ==> all_sound(#[trigger] config.rulesets@[k]),
        forall|l: int| 0 <= l < j ==> is_sound(#[trigger] config.rulesets@[i].rules@[l]),
    ensures
        config::config_fault(config) == config::rule_fault(
            config.rulesets@[i].name@,
            config.rulesets@[i].rules@[j],
        ),
        config::config_fault(config) is Some,
{
    references_are_there(config);
    let rs = config.rulesets@[i];
    let of_rule = |rule: Rule| config::rule_fault(rs.name@, rule);
    exactly_the_sound_rules_are_valid(rs.name@, rs.rules@[j]);
    assert forall|l: int| 0 <= l < j implies of_rule(#[trigger] rs.rules@[l]) is None by {
        exactly_the_sound_rules_are_valid(rs.name@, rs.rules@[l]);
    }
    the_first_is_found(rs.rules@, of_rule, j);
    let of_ruleset = |rs: Ruleset| config::ruleset_fault(rs);
    assert forall|k: int| 0 <= k < i implies of_ruleset(
        #[trigger] config.rulesets@[k],
    ) is None by {
        sound_rulesets(config.rulesets@[k]);
    }
    the_first_is_found(config.rulesets@, of_ruleset, i);
}

// ---------------------------------------------------------------------------
// Warnings
// ---------------------------------------------------------------------------

proof fn shared_at_positions(a: Seq<String>, b: Seq<String>)
    ensures
        config::share_text(text::texts(a), text::texts(b)) <==> exists|i: int, j: int|
            0 <= i < a.len() && 0 <= j < b.len() && (#[trigger] a[i])@ == (#[trigger] b[j])@,
{
    let x = text::texts(a);
    let y = text::texts(b);
    if config::share_text(x, y) {
        let t = choose|t: Seq<char>| #[trigger] x.contains(t) && y.contains(t);
        let i = choose|i: int| 0 <= i < x.len() && x[i] == t;
        let j = choose|j: int| 0 <= j < y.len() && y[j] == t;
        assert(a[i]@ == b[j]@);
    }
    if exists|i: int, j: int|
        0 <= i < a.len() && 0 <= j < b.len() && (#[trigger] a[i])@ == (#[trigger] b[j])@ {
        let (i, j) = choose|i: int, j: int|
            0 <= i < a.len() && 0 <= j < b.len() && (#[trigger] a[i])@ == (#[trigger] b[j])@;
        assert(x[i] == a[i]@ && y[j] == b[j]@);
        assert(x.contains(a[i]@) && y.contains(a[i]@));
    }
}

proof fn all_models_at_a_position(rule: Rule)
    ensures
        config::for_all_models(rule) <==> exists|i: int|
            0 <= i < rule.models@.len() && (#[trigger] rule.models@[i])@ == seq!['*'],
{
    reveal_strlit("*");
    assert("*"@ =~= seq!['*']);
    let x = text::texts(rule.models@);
    if config::for_all_models(rule) {
        let i = choose|i: int| 0 <= i < x.len() && x[i] == "*"@;
        assert(rule.models@[i]@ == seq!['*']);
    }
    if exists|i: int| 0 <= i < rule.models@.len() && (#[trigger] rule.models@[i])@ == seq!['*'] {
        let i = choose|i: int|
            0 <= i < rule.models@.len() && (#[trigger] rule.models@[i])@ == seq!['*'];
        assert(x[i] == "*"@);
    }
}

/// Two rules overlap exactly if one of them is for all models or they list a model in
/// common, at any positions, they list a day in common, at any positions, and there is a
/// time that lies in the windows of both, or the first ends inside the second's.
pub proof fn rules_overlap_where_they_meet(a: Rule, b: Rule)
    ensures
        config::overlap(a, b) <==> {
            &&& {
                ||| exists|i: int|
                    0 <= i < a.models@.len() && (#[trigger] a.models@[i])@ == seq!['*']
                ||| exists|i: int|
                    0 <= i < b.models@.len() && (#[trigger] b.models@[i])@ == seq!['*']
                ||| exists|i: int, j: int|
                    0 <= i < a.models@.len() && 0 <= j < b.models@.len() && (
                    #[trigger] a.models@[i])@ == (#[trigger] b.models@[j])@
            }
            &&& exists|i: int, j: int|
                0 <= i < a.days@.len() && 0 <= j < b.days@.len() && (#[trigger] a.days@[i])@ == (
                #[trigger] b.days@[j])@
            &&& {
                ||| exists|time: Seq<char>| #[trigger]
                    config::in_range(time, a.time_start@, a.time_end@) && config::in_range(
                        time,
                        b.time_start@,
                        b.time_end@,
                    )
                ||| config::in_range(a.time_end@, b.time_start@, b.time_end@)
            }
        },
{
    all_models_at_a_position(a);
    all_models_at_a_position(b);
    shared_at_positions(a.models@, b.models@);
    shared_at_positions(a.days@, b.days@);
    text::text_lt_irreflexive(a.time_start@);
    text::text_lt_irreflexive(b.time_start@);
    assert(config::in_range(a.time_start@, a.time_start@, a.time_end@));
    assert(config::in_range(b.time_start@, b.time_start@, b.time_end@));
    if exists|time: Seq<char>| #[trigger]
        config::in_range(time, a.time_start@, a.time_end@) && config::in_range(
            time,
            b.time_start@,
            b.time_end@,
        ) {
        let time = choose|time: Seq<char>| #[trigger]
            config::in_range(time, a.time_start@, a.time_end@) && config::in_range(
                time,
                b.time_start@,
                b.time_end@,
            );
        config::shared_time_means_shared_start(
            time,
            a.time_start@,
            a.time_end@,
            b.time_start@,
            b.time_end@,
        );
    }
}

/// Whether a warning comes before another: by its first rule, and then by its second.
pub open spec fn comes_before(a: Overlap, b: Overlap) -> bool {
    a.first < b.first || (a.first == b.first && a.second < b.second)
}

proof fn warned_with_in_order(rs: Ruleset, i: int, j: int)
    requires
        0 <= i < j,
    ensures
        ({
            let all = config::overlaps_with(rs, i, j);
            &&& forall|k: int|
                0 <= k < all.len() ==> {
                    &&& (#[trigger] all[k]).ruleset == rs.name@
                    &&& all[k].first == i
                    &&& j <= all[k].second < rs.rules@.len()
                    &&& config::overlap(rs.rules@[i], rs.rules@[all[k].second])
                }
            &&& forall|k: int, l: int|
                0 <= k < l < all.len() ==> comes_before(#[trigger] all[k], #[trigger] all[l])
        }),
    decreases rs.rules@.len() - j,
{
    if j < rs.rules@.len() {
        warned_with_in_order(rs, i, j + 1);
        let rest = config::overlaps_with(rs, i, j + 1);
        let all = config::overlaps_with(rs, i, j);
        if config::overlap(rs.rules@[i], rs.rules@[j]) {
            assert forall|k: int| 0 < k < all.len() implies #[trigger] all[k] == rest[k - 1] by {}
        }
    }
}

proof fn warned_from_in_order(rs: Ruleset, i: int)
    requires
        0 <= i,
    ensures
        ({
            let all = config::overlaps_from(rs, i);
            &&& forall|k: int|
                0 <= k < all.len() ==> {
                    &&& (#[trigger] all[k]).ruleset == rs.name@
                    &&& i <= all[k].first < all[k].second < rs.rules@.len()
                    &&& config::overlap(rs.rules@[all[k].first], rs.rules@[all[k].second])
                }
            &&& forall|k: int, l: int|
                0 <= k < l < all.len() ==> comes_before(#[trigger] all[k], #[trigger] all[l])
        }),
    decreases rs.rules@.len() - i,
{
    if i < rs.rules@.len() {
        warned_with_in_order(rs, i, i + 1);
        warned_from_in_order(rs, i + 1);
        let head = config::overlaps_with(rs, i, i + 1);
        let rest = config::overlaps_from(rs, i + 1);
        let all = config::overlaps_from(rs, i);
        assert forall|k: int| 0 <= k < all.len() implies #[trigger] all[k] == if k < head.len() {
            head[k]
        } else {
            rest[k - head.len()]
        } by {}
    }
}

/// Every warning of a ruleset is of two of its rules that overlap, the earlier one
/// first, and the warnings come in the order of the rules, none twice.
pub proof fn every_warning_is_of_an_overlap(rs: Ruleset)
    ensures
        ({
            let all = config::overlaps_from(rs, 0);
            &&& forall|k: int|
                0 <= k < all.len() ==> {
                    &&& (#[trigger] all[k]).ruleset == rs.name@
                    &&& 0 <= all[k].first < all[k].second < rs.rules@.len()
                    &&& config::overlap(rs.rules@[all[k].first], rs.rules@[all[k].second])
                }
            &&& forall|k: int, l: int|
                0 <= k < l < all.len() ==> comes_before(#[trigger] all[k], #[trigger] all[l])
        }),
{
    warned_from_in_order(rs, 0);
}

/// The warnings of rulesets, one after another.
pub open spec fn warnings_of(rulesets: Seq<Ruleset>) -> Seq<Overlap>
    decreases rulesets.len(),
{
    if rulesets.len() == 0 {
        Seq::empty()
    } else {
        warnings_of(rulesets.drop_last()) + config::overlaps_from(rulesets.last(), 0)
    }
}

proof fn warned_up_to(rulesets: Seq<Ruleset>, n: int)
    requires
        0 <= n <= rulesets.len(),
        forall|k: int| 0 <= k < n ==> all_sound(#[trigger] rulesets[k]),
        n < rulesets.len() ==> !all_sound(rulesets[n]),
    ensures
        config::overlaps_up_to_fault(rulesets) == warnings_of(rulesets.take(n)),
    decreases n,
{
    if n == 0 {
        if rulesets.len() > 0 {
            sound_rulesets(rulesets[0]);
        }
    } else {
        let rest = rulesets.skip(1);
        assert(all_sound(rulesets[0]));
        sound_rulesets(rulesets[0]);
        assert forall|k: int| 0 <= k < n - 1 implies all_sound(#[trigger] rest[k]) by {
            assert(rest[k] == rulesets[k + 1]);
        }
        warned_up_to(rest, n - 1);
        assert(rest.take(n - 1) =~= rulesets.take(n).skip(1));
        first_warnings(rulesets.take(n));
    }
}

proof fn first_warnings(rulesets: Seq<Ruleset>)
    requires
        rulesets.len() > 0,
    ensures
        warnings_of(rulesets) == config::overlaps_from(rulesets[0], 0) + warnings_of(
            rulesets.skip(1),
        ),
    decreases rulesets.len(),
{
    let first = config::overlaps_from(rulesets[0], 0);
    let front = rulesets.drop_last();
    if front.len() > 0 {
        first_warnings(front);
        assert(front.skip(1) =~= rulesets.skip(1).drop_last());
        assert(rulesets.skip(1).last() == rulesets.last());
        assert(warnings_of(rulesets) =~= first + warnings_of(rulesets.skip(1)));
    } else {
        assert(warnings_of(front) =~= Seq::empty());
        assert(rulesets.skip(1).len() == 0);
        assert(warnings_of(rulesets) =~= first + warnings_of(rulesets.skip(1)));
    }
}

/// The warnings of a configuration are those of its rulesets in order, up to the first
/// ruleset with a rule that is not sound, and none where a ruleset is missing.
pub proof fn warnings_stop_at_the_first_fault(config: Config, n: int)
    requires
        0 <= n <= config.rulesets@.len(),
        forall|k: int| 0 <= k < n ==> all_sound(#[trigger] config.rulesets@[k]),
        n < config.rulesets@.len() ==> !all_sound(config.rulesets@[n]),
    ensures
        config::config_overlaps(config) == if names_are_there(config) {
            warnings_of(config.rulesets@.take(n))
        } else {
            Seq::empty()
        },
{
    references_are_there(config);
    warned_up_to(config.rulesets@, n);
}

} // verus!
