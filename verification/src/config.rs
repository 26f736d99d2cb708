//! The configuration and its validation.

use crate::text;
use crate::text::{has_text, parse_number, same_text, split_pieces, text_before};
use vstd::prelude::*;

verus! {

broadcast use vstd::string::group_string_axioms;

/// The whole configuration.
#[derive(Debug, Clone)]
pub struct Config {
    pub listen: Option<String>,
    pub upstreams: Vec<UpstreamEntry>,
    pub fallback_ruleset: Option<String>,
    pub rulesets: Vec<Ruleset>,
    pub api_keys: Vec<ApiKeyEntry>,
    pub database: Option<DatabaseConfig>,
    pub timezone: Option<String>,
}

/// Where the names of API key owners are looked up.
#[derive(Debug, Clone)]
pub struct DatabaseConfig {
    pub host: Option<String>,
    pub port: Option<u16>,
    pub user: Option<String>,
    pub password: Option<String>,
    pub dbname: Option<String>,
}

/// A server that takes the requests under a path prefix.
#[derive(Debug, Clone)]
pub struct UpstreamEntry {
    pub path_prefix: String,
    pub base_url: String,
}

/// A named list of rules.
#[derive(Debug, Clone)]
pub struct Ruleset {
    pub name: String,
    pub rules: Vec<Rule>,
}

/// A limit for some models, at some times of some days of the week.
#[derive(Debug, Clone)]
pub struct Rule {
    pub models: Vec<String>,
    pub limit: u32,
    pub window_secs: u64,
    pub time_start: String,
    pub time_end: String,
    pub days: Vec<String>,
}

/// The API keys that a ruleset applies to.
#[derive(Debug, Clone)]
pub struct ApiKeyEntry {
    pub ruleset: String,
    pub keys: Vec<String>,
}

/// The models of a rule as a configuration file may write them.
#[derive(Debug, Clone)]
pub enum OneOrMany {
    One(String),
    Many(Vec<String>),
}

/// The models that `value` lists: a single name stands for a list of one.
pub fn string_or_vec(value: OneOrMany) -> (models: Vec<String>)
    ensures
        text::texts(models@) == match value {
            OneOrMany::One(name) => seq![name@],
            OneOrMany::Many(names) => text::texts(names@),
        },
{
    match value {
        OneOrMany::One(name) => {
            let mut models: Vec<String> = Vec::new();
            models.push(name);
            proof {
                assert(text::texts(models@) =~= seq![name@]);
            }
            models
        },
        OneOrMany::Many(names) => names,
    }
}

// ---------------------------------------------------------------------------
// Time windows
// ---------------------------------------------------------------------------

/// Whether `time` lies in the window from `start` up to, not counting, `end`. A
/// window that does not start before its end runs overnight; with equal ends it
/// covers the whole day.
pub open spec fn in_range(time: Seq<char>, start: Seq<char>, end: Seq<char>) -> bool {
    if text::text_lt(start, end) {
        !text::text_lt(time, start) && text::text_lt(time, end)
    } else {
        !text::text_lt(time, start) || text::text_lt(time, end)
    }
}

/// Whether `time` lies in the window from `start` to `end`.
pub fn time_in_range(time: &str, start: &str, end: &str) -> (inside: bool)
    ensures
        inside == in_range(time@, start@, end@),
{
    if text_before(start, end) {
        !text_before(time, start) && text_before(time, end)
    } else {
        !text_before(time, start) || text_before(time, end)
    }
}

// ---------------------------------------------------------------------------
// Overlapping rules
// ---------------------------------------------------------------------------

/// Whether the two lists share a text.
pub open spec fn share_text(a: Seq<Seq<char>>, b: Seq<Seq<char>>) -> bool {
    exists|t: Seq<char>| #[trigger] a.contains(t) && b.contains(t)
}

/// Whether the rule is for all models.
pub open spec fn for_all_models(rule: Rule) -> bool {
    text::texts(rule.models@).contains("*"@)
}

/// Whether two rules may apply to one request: they share a model and a day, and one
/// of them starts in the window of the other, or the first ends in that of the
/// second.
pub open spec fn overlap(a: Rule, b: Rule) -> bool {
    &&& for_all_models(a) || for_all_models(b) || share_text(
        text::texts(a.models@),
        text::texts(b.models@),
    )
    &&& share_text(text::texts(a.days@), text::texts(b.days@))
    &&& {
        ||| in_range(a.time_start@, b.time_start@, b.time_end@)
        ||| in_range(a.time_end@, b.time_start@, b.time_end@)
        ||| in_range(b.time_start@, a.time_start@, a.time_end@)
    }
}

fn any_common(a: &Vec<String>, b: &Vec<String>) -> (common: bool)
    ensures
        common == share_text(text::texts(a@), text::texts(b@)),
{
    let mut i: usize = 0;
    while i < a.len()
        invariant
            i <= a@.len(),
            forall|k: int| 0 <= k < i ==> !text::texts(b@).contains(#[trigger] a@[k]@),
        decreases a@.len() - i,
    {
        if has_text(b, a[i].as_str()) {
            proof {
                assert(text::texts(a@)[i as int] == a@[i as int]@);
                assert(text::texts(a@).contains(a@[i as int]@));
            }
            return true;
        }
        i += 1;
    }
    proof {
        assert forall|t: Seq<char>| #[trigger] text::texts(a@).contains(t) implies !text::texts(
            b@,
        ).contains(t) by {
            let k = choose|k: int| 0 <= k < text::texts(a@).len() && text::texts(a@)[k] == t;
            assert(text::texts(a@)[k] == a@[k]@);
        }
    }
    false
}

/// Whether two rules may apply to one request.
pub fn rules_overlap(a: &Rule, b: &Rule) -> (may: bool)
    ensures
        may == overlap(*a, *b),
{
    let model_match: bool = has_text(&a.models, "*") || has_text(&b.models, "*") || any_common(
        &a.models,
        &b.models,
    );
    if !model_match {
        return false;
    }
    if !any_common(&a.days, &b.days) {
        return false;
    }
    time_in_range(a.time_start.as_str(), b.time_start.as_str(), b.time_end.as_str())
        || time_in_range(a.time_end.as_str(), b.time_start.as_str(), b.time_end.as_str())
        || time_in_range(b.time_start.as_str(), a.time_start.as_str(), a.time_end.as_str())
}

// ---------------------------------------------------------------------------
// Faults
// ---------------------------------------------------------------------------

/// What is wrong with a configuration.
#[derive(Debug, Clone)]
pub enum ConfigError {
    /// The fallback ruleset is not defined.
    UnknownFallback { name: String },
    /// A ruleset that is given to API keys is not defined.
    UnknownRuleset { name: String },
    /// A rule admits nothing.
    ZeroLimit { ruleset: String },
    /// A rule has no window.
    ZeroWindow { ruleset: String },
    /// A time is not an hour and a minute with one colon between them.
    TimeFormat { ruleset: String, time: String },
    /// An hour is not a number.
    Hour { hour: String },
    /// A minute is not a number.
    Minute { minute: String },
    /// An hour or a minute is too large.
    TimeRange { ruleset: String, time: String },
    /// A day is not one of the seven.
    Day { ruleset: String, day: String },
}

/// What a [`ConfigError`] says.
pub enum Fault {
    UnknownFallback { name: Seq<char> },
    UnknownRuleset { name: Seq<char> },
    ZeroLimit { ruleset: Seq<char> },
    ZeroWindow { ruleset: Seq<char> },
    TimeFormat { ruleset: Seq<char>, time: Seq<char> },
    Hour { hour: Seq<char> },
    Minute { minute: Seq<char> },
    TimeRange { ruleset: Seq<char>, time: Seq<char> },
    Day { ruleset: Seq<char>, day: Seq<char> },
}

impl View for ConfigError {
    type V = Fault;

    open spec fn view(&self) -> Fault {
        match self {
            ConfigError::UnknownFallback { name } => Fault::UnknownFallback { name: name@ },
            ConfigError::UnknownRuleset { name } => Fault::UnknownRuleset { name: name@ },
            ConfigError::ZeroLimit { ruleset } => Fault::ZeroLimit { ruleset: ruleset@ },
            ConfigError::ZeroWindow { ruleset } => Fault::ZeroWindow { ruleset: ruleset@ },
            ConfigError::TimeFormat { ruleset, time } => Fault::TimeFormat {
                ruleset: ruleset@,
                time: time@,
            },
            ConfigError::Hour { hour } => Fault::Hour { hour: hour@ },
            ConfigError::Minute { minute } => Fault::Minute { minute: minute@ },
            ConfigError::TimeRange { ruleset, time } => Fault::TimeRange {
                ruleset: ruleset@,
                time: time@,
            },
            ConfigError::Day { ruleset, day } => Fault::Day { ruleset: ruleset@, day: day@ },
        }
    }
}

/// The message for a fault.
pub open spec fn fault_message(fault: Fault) -> Seq<char> {
    match fault {
        Fault::UnknownFallback { name } => "fallback_ruleset '"@ + name
            + "' not found in rulesets"@,
        Fault::UnknownRuleset { name } => "api_key ruleset '"@ + name + "' not found"@,
        Fault::ZeroLimit { ruleset } => "ruleset '"@ + ruleset + "': limit must be > 0"@,
        Fault::ZeroWindow { ruleset } => "ruleset '"@ + ruleset + "': window_secs must be > 0"@,
        Fault::TimeFormat { ruleset, time } => "ruleset '"@ + ruleset + "': invalid time format '"@
            + time + "'"@,
        Fault::Hour { hour } => "invalid hour '"@ + hour + "'"@,
        Fault::Minute { minute } => "invalid minute '"@ + minute + "'"@,
        Fault::TimeRange { ruleset, time } => "ruleset '"@ + ruleset + "': time '"@ + time
            + "' out of range"@,
        Fault::Day { ruleset, day } => "ruleset '"@ + ruleset + "': invalid day '"@ + day + "'"@,
    }
}

fn quoted(before: &str, name: &String, after: &str) -> (s: String)
    ensures
        s@ == before@ + name@ + after@,
{
    let mut s: String = before.to_owned();
    s.append(name.as_str());
    s.append(after);
    s
}

fn quoted_twice(before: &str, name: &String, mid: &str, item: &String, after: &str) -> (s: String)
    ensures
        s@ == before@ + name@ + mid@ + item@ + after@,
{
    let mut s: String = quoted(before, name, mid);
    s.append(item.as_str());
    s.append(after);
    s
}

impl ConfigError {
    /// What is wrong, in words.
    pub fn message(&self) -> (s: String)
        ensures
            s@ == fault_message(self@),
    {
        match self {
            ConfigError::UnknownFallback { name } => quoted(
                "fallback_ruleset '",
                name,
                "' not found in rulesets",
            ),
            ConfigError::UnknownRuleset { name } => quoted(
                "api_key ruleset '",
                name,
                "' not found",
            ),
            ConfigError::ZeroLimit { ruleset } => quoted(
                "ruleset '",
                ruleset,
                "': limit must be > 0",
            ),
            ConfigError::ZeroWindow { ruleset } => quoted(
                "ruleset '",
                ruleset,
                "': window_secs must be > 0",
            ),
            ConfigError::TimeFormat { ruleset, time } => quoted_twice(
                "ruleset '",
                ruleset,
                "': invalid time format '",
                time,
                "'",
            ),
            ConfigError::Hour { hour } => quoted("invalid hour '", hour, "'"),
            ConfigError::Minute { minute } => quoted("invalid minute '", minute, "'"),
            ConfigError::TimeRange { ruleset, time } => quoted_twice(
                "ruleset '",
                ruleset,
                "': time '",
                time,
                "' out of range",
            ),
            ConfigError::Day { ruleset, day } => quoted_twice(
                "ruleset '",
                ruleset,
                "': invalid day '",
                day,
                "'",
            ),
        }
    }
}

/// The first fault among the items, in their order.
pub open spec fn first_fault<T>(items: Seq<T>, fault: spec_fn(T) -> Option<Fault>) -> Option<Fault>
    decreases items.len(),
{
    if items.len() == 0 {
        None
    } else if fault(items[0]) is Some {
        fault(items[0])
    } else {
        first_fault(items.skip(1), fault)
    }
}

/// Whether `day` is the short name of a day of the week.
pub open spec fn is_day(day: Seq<char>) -> bool {
    day == "Mon"@ || day == "Tue"@ || day == "Wed"@ || day == "Thu"@ || day == "Fri"@ || day
        == "Sat"@ || day == "Sun"@
}

/// What is wrong with a time: it must hold exactly one colon, with an hour of at most
/// 23 before it and a minute of at most 59 behind it.
pub open spec fn time_fault(ruleset: Seq<char>, time: Seq<char>) -> Option<Fault> {
    let parts = text::pieces(time, ':', 3);
    if parts.len() != 2 {
        Some(Fault::TimeFormat { ruleset, time })
    } else {
        match (
            text::parsed_number(parts[0], u8::MAX as nat),
            text::parsed_number(parts[1], u8::MAX as nat),
        ) {
            (None, _) => Some(Fault::Hour { hour: parts[0] }),
            (Some(_), None) => Some(Fault::Minute { minute: parts[1] }),
            (Some(h), Some(m)) => if h > 23 || m > 59 {
                Some(Fault::TimeRange { ruleset, time })
            } else {
                None
            },
        }
    }
}

/// What is wrong with the day `day` of a rule.
pub open spec fn day_fault(ruleset: Seq<char>, day: Seq<char>) -> Option<Fault> {
    if is_day(day) {
        None
    } else {
        Some(Fault::Day { ruleset, day })
    }
}

/// What is wrong with a rule: limit, window, start, end and days, in this order.
pub open spec fn rule_fault(ruleset: Seq<char>, rule: Rule) -> Option<Fault> {
    if rule.limit == 0 {
        Some(Fault::ZeroLimit { ruleset })
    } else if rule.window_secs == 0 {
        Some(Fault::ZeroWindow { ruleset })
    } else if time_fault(ruleset, rule.time_start@) is Some {
        time_fault(ruleset, rule.time_start@)
    } else if time_fault(ruleset, rule.time_end@) is Some {
        time_fault(ruleset, rule.time_end@)
    } else {
        first_fault(rule.days@, |day: String| day_fault(ruleset, day@))
    }
}

/// What is wrong with the rules of a ruleset.
pub open spec fn ruleset_fault(rs: Ruleset) -> Option<Fault> {
    first_fault(rs.rules@, |rule: Rule| rule_fault(rs.name@, rule))
}

/// The names of the rulesets.
pub open spec fn ruleset_names(rulesets: Seq<Ruleset>) -> Seq<Seq<char>> {
    rulesets.map_values(|rs: Ruleset| rs.name@)
}

/// Whether a ruleset of this name is defined.
pub open spec fn defines(config: Config, name: Seq<char>) -> bool {
    ruleset_names(config.rulesets@).contains(name)
}

/// What is wrong with an entry of API keys.
pub open spec fn entry_fault(config: Config, entry: ApiKeyEntry) -> Option<Fault> {
    if defines(config, entry.ruleset@) {
        None
    } else {
        Some(Fault::UnknownRuleset { name: entry.ruleset@ })
    }
}

/// A name that a configuration uses and does not define: the fallback ruleset first,
/// then those of the API keys.
pub open spec fn reference_fault(config: Config) -> Option<Fault> {
    if config.fallback_ruleset is Some && !defines(config, config.fallback_ruleset->0@) {
        Some(Fault::UnknownFallback { name: config.fallback_ruleset->0@ })
    } else {
        first_fault(config.api_keys@, |entry: ApiKeyEntry| entry_fault(config, entry))
    }
}

/// The first thing that is wrong with a configuration: an undefined name, or else a
/// fault in a rule.
pub open spec fn config_fault(config: Config) -> Option<Fault> {
    if reference_fault(config) is Some {
        reference_fault(config)
    } else {
        first_fault(config.rulesets@, |rs: Ruleset| ruleset_fault(rs))
    }
}

/// A list without a fault has no fault in any item, and the other way round.
pub proof fn no_first_fault<T>(items: Seq<T>, fault: spec_fn(T) -> Option<Fault>)
    ensures
        first_fault(items, fault) is None <==> forall|i: int|
            0 <= i < items.len() ==> fault(#[trigger] items[i]) is None,
    decreases items.len(),
{
    if items.len() > 0 {
        no_first_fault(items.skip(1), fault);
        if first_fault(items, fault) is None {
            assert forall|i: int| 0 <= i < items.len() implies fault(
                #[trigger] items[i],
            ) is None by {
                if i > 0 {
                    assert(items[i] == items.skip(1)[i - 1]);
                }
            }
        }
        if forall|i: int| 0 <= i < items.len() ==> fault(#[trigger] items[i]) is None {
            assert(fault(items[0]) is None);
            assert forall|i: int| 0 <= i < items.skip(1).len() implies fault(
                #[trigger] items.skip(1)[i],
            ) is None by {
                assert(items.skip(1)[i] == items[i + 1]);
            }
        }
    }
}

proof fn first_fault_step<T>(items: Seq<T>, i: int, fault: spec_fn(T) -> Option<Fault>)
    requires
        0 <= i < items.len(),
    ensures
        first_fault(items.skip(i), fault) == if fault(items[i]) is Some {
            fault(items[i])
        } else {
            first_fault(items.skip(i + 1), fault)
        },
{
    assert(items.skip(i)[0] == items[i]);
    assert(items.skip(i).skip(1) =~= items.skip(i + 1));
}

/// What an optional error says.
pub open spec fn fault_of(e: Option<ConfigError>) -> Option<Fault> {
    match e {
        Some(e) => Some(e@),
        None => None,
    }
}

fn check_time(ruleset: &String, time: &String) -> (e: Option<ConfigError>)
    ensures
        fault_of(e) == time_fault(ruleset@, time@),
{
    let parts: Vec<String> = split_pieces(time.as_str(), ':', 3);
    if parts.len() != 2 {
        return Some(ConfigError::TimeFormat { ruleset: ruleset.clone(), time: time.clone() });
    }
    proof {
        assert(text::texts(parts@)[0] == parts@[0]@);
        assert(text::texts(parts@)[1] == parts@[1]@);
    }
    let h: u64 = match parse_number(parts[0].as_str(), u8::MAX as u64) {
        Some(h) => h,
        None => {
            return Some(ConfigError::Hour { hour: parts[0].clone() });
        },
    };
    let m: u64 = match parse_number(parts[1].as_str(), u8::MAX as u64) {
        Some(m) => m,
        None => {
            return Some(ConfigError::Minute { minute: parts[1].clone() });
        },
    };
    if h > 23 || m > 59 {
        return Some(ConfigError::TimeRange { ruleset: ruleset.clone(), time: time.clone() });
    }
    None
}

fn valid_day(day: &str) -> (valid: bool)
    ensures
        valid == is_day(day@),
{
    same_text(day, "Mon") || same_text(day, "Tue") || same_text(day, "Wed") || same_text(day, "Thu")
        || same_text(day, "Fri") || same_text(day, "Sat") || same_text(day, "Sun")
}

fn check_rule(ruleset: &String, rule: &Rule) -> (e: Option<ConfigError>)
    ensures
        fault_of(e) == rule_fault(ruleset@, *rule),
{
    if rule.limit == 0 {
        return Some(ConfigError::ZeroLimit { ruleset: ruleset.clone() });
    }
    if rule.window_secs == 0 {
        return Some(ConfigError::ZeroWindow { ruleset: ruleset.clone() });
    }
    let start: Option<ConfigError> = check_time(ruleset, &rule.time_start);
    if start.is_some() {
        return start;
    }
    let end: Option<ConfigError> = check_time(ruleset, &rule.time_end);
    if end.is_some() {
        return end;
    }
    let ghost fault = |day: String| day_fault(ruleset@, day@);
    let mut i: usize = 0;
    proof {
        assert(rule.days@.skip(0) =~= rule.days@);
    }
    while i < rule.days.len()
        invariant
            i <= rule.days@.len(),
            fault == (|day: String| day_fault(ruleset@, day@)),
            first_fault(rule.days@.skip(i as int), fault) == first_fault(rule.days@, fault),
            rule_fault(ruleset@, *rule) == first_fault(rule.days@, fault),
        decreases rule.days@.len() - i,
    {
        proof {
            first_fault_step(rule.days@, i as int, fault);
        }
        if !valid_day(rule.days[i].as_str()) {
            return Some(
                ConfigError::Day { ruleset: ruleset.clone(), day: rule.days[i].clone() },
            );
        }
        i += 1;
    }
    None
}

fn check_rules(rs: &Ruleset) -> (e: Option<ConfigError>)
    ensures
        fault_of(e) == ruleset_fault(*rs),
{
    let ghost fault = |rule: Rule| rule_fault(rs.name@, rule);
    let mut i: usize = 0;
    proof {
        assert(rs.rules@.skip(0) =~= rs.rules@);
    }
    while i < rs.rules.len()
        invariant
            i <= rs.rules@.len(),
            fault == (|rule: Rule| rule_fault(rs.name@, rule)),
            first_fault(rs.rules@.skip(i as int), fault) == ruleset_fault(*rs),
        decreases rs.rules@.len() - i,
    {
        proof {
            first_fault_step(rs.rules@, i as int, fault);
        }
        let e: Option<ConfigError> = check_rule(&rs.name, &rs.rules[i]);
        if e.is_some() {
            return e;
        }
        i += 1;
    }
    None
}

impl Config {
    /// Whether a ruleset of this name is defined.
    pub fn has_ruleset(&self, name: &str) -> (found: bool)
        ensures
            found == defines(*self, name@),
    {
        let mut i: usize = 0;
        while i < self.rulesets.len()
            invariant
                i <= self.rulesets@.len(),
                forall|k: int|
                    0 <= k < i ==> ruleset_names(self.rulesets@)[k] != name@,
            decreases self.rulesets@.len() - i,
        {
            if same_text(self.rulesets[i].name.as_str(), name) {
                proof {
                    assert(ruleset_names(self.rulesets@)[i as int] == name@);
                }
                return true;
            }
            i += 1;
        }
        false
    }

    fn check_references(&self) -> (e: Option<ConfigError>)
        ensures
            fault_of(e) == reference_fault(*self),
    {
        if let Some(name) = &self.fallback_ruleset {
            if !self.has_ruleset(name.as_str()) {
                return Some(ConfigError::UnknownFallback { name: name.clone() });
            }
        }
        let ghost fault = |entry: ApiKeyEntry| entry_fault(*self, entry);
        let mut i: usize = 0;
        proof {
            assert(self.api_keys@.skip(0) =~= self.api_keys@);
        }
        while i < self.api_keys.len()
            invariant
                i <= self.api_keys@.len(),
                fault == (|entry: ApiKeyEntry| entry_fault(*self, entry)),
                first_fault(self.api_keys@.skip(i as int), fault) == reference_fault(*self),
            decreases self.api_keys@.len() - i,
        {
            proof {
                first_fault_step(self.api_keys@, i as int, fault);
            }
            if !self.has_ruleset(self.api_keys[i].ruleset.as_str()) {
                return Some(
                    ConfigError::UnknownRuleset { name: self.api_keys[i].ruleset.clone() },
                );
            }
            i += 1;
        }
        None
    }
}

// ---------------------------------------------------------------------------
// Warnings and validation
// ---------------------------------------------------------------------------

/// Two rules of a ruleset that may apply to one request.
#[derive(Debug, Clone)]
pub struct OverlapWarning {
    pub ruleset: String,
    pub first: usize,
    pub second: usize,
}

/// What an [`OverlapWarning`] says.
#[verifier::ext_equal]
pub struct Overlap {
    pub ruleset: Seq<char>,
    pub first: int,
    pub second: int,
}

impl View for OverlapWarning {
    type V = Overlap;

    open spec fn view(&self) -> Overlap {
        Overlap { ruleset: self.ruleset@, first: self.first as int, second: self.second as int }
    }
}

/// The contents of a list of warnings.
pub open spec fn overlaps_of(warnings: Seq<OverlapWarning>) -> Seq<Overlap> {
    warnings.map_values(|w: OverlapWarning| w@)
}

/// The overlaps of the rule at `i` with those from `j` on.
pub open spec fn overlaps_with(rs: Ruleset, i: int, j: int) -> Seq<Overlap>
    decreases rs.rules@.len() - j,
{
    if j >= rs.rules@.len() {
        Seq::empty()
    } else {
        let rest = overlaps_with(rs, i, j + 1);
        if overlap(rs.rules@[i], rs.rules@[j]) {
            seq![Overlap { ruleset: rs.name@, first: i, second: j }] + rest
        } else {
            rest
        }
    }
}

/// The overlaps of the rules from `i` on with later ones, in order.
pub open spec fn overlaps_from(rs: Ruleset, i: int) -> Seq<Overlap>
    decreases rs.rules@.len() - i,
{
    if i >= rs.rules@.len() {
        Seq::empty()
    } else {
        overlaps_with(rs, i, i + 1) + overlaps_from(rs, i + 1)
    }
}

/// The overlaps of the rulesets, up to the first that has a fault.
pub open spec fn overlaps_up_to_fault(rulesets: Seq<Ruleset>) -> Seq<Overlap>
    decreases rulesets.len(),
{
    if rulesets.len() == 0 || ruleset_fault(rulesets[0]) is Some {
        Seq::empty()
    } else {
        overlaps_from(rulesets[0], 0) + overlaps_up_to_fault(rulesets.skip(1))
    }
}

/// The overlaps that validation warns of: none where a name is undefined, otherwise
/// those of the rulesets before the first fault.
pub open spec fn config_overlaps(config: Config) -> Seq<Overlap> {
    if reference_fault(config) is Some {
        Seq::empty()
    } else {
        overlaps_up_to_fault(config.rulesets@)
    }
}

fn warn_overlaps(rs: &Ruleset, warnings: &mut Vec<OverlapWarning>)
    ensures
        overlaps_of(final(warnings)@) == overlaps_of(old(warnings)@) + overlaps_from(*rs, 0),
{
    let ghost whole = overlaps_of(warnings@) + overlaps_from(*rs, 0);
    let mut i: usize = 0;
    while i < rs.rules.len()
        invariant
            i <= rs.rules@.len(),
            overlaps_of(warnings@) + overlaps_from(*rs, i as int) == whole,
        decreases rs.rules@.len() - i,
    {
        let mut j: usize = i + 1;
        proof {
            assert(overlaps_of(warnings@) + overlaps_with(*rs, i as int, j as int) + overlaps_from(
                *rs,
                i + 1,
            ) =~= overlaps_of(warnings@) + overlaps_from(*rs, i as int));
        }
        while j < rs.rules.len()
            invariant
                i < j <= rs.rules@.len(),
                overlaps_of(warnings@) + overlaps_with(*rs, i as int, j as int) + overlaps_from(
                    *rs,
                    i + 1,
                ) == whole,
            decreases rs.rules@.len() - j,
        {
            if rules_overlap(&rs.rules[i], &rs.rules[j]) {
                let ghost before = warnings@;
                warnings.push(
                    OverlapWarning { ruleset: rs.name.clone(), first: i, second: j },
                );
                proof {
                    assert(overlaps_of(warnings@) =~= overlaps_of(before).push(
                        Overlap { ruleset: rs.name@, first: i as int, second: j as int },
                    ));
                    assert(overlaps_of(warnings@) + overlaps_with(*rs, i as int, j + 1)
                        =~= overlaps_of(before) + overlaps_with(*rs, i as int, j as int));
                }
            }
            j += 1;
        }
        proof {
            assert(overlaps_of(warnings@) + overlaps_with(*rs, i as int, j as int)
                =~= overlaps_of(warnings@));
        }
        i += 1;
    }
    proof {
        assert(overlaps_of(warnings@) + overlaps_from(*rs, i as int) =~= overlaps_of(warnings@));
    }
}

impl Config {
    /// Validates the configuration. Returns the overlaps to warn of, whether or not a
    /// fault is found behind them, and the first fault.
    pub fn inspect(&self) -> (r: (Vec<OverlapWarning>, Result<(), ConfigError>))
        ensures
            overlaps_of(r.0@) == config_overlaps(*self),
            match r.1 {
                Ok(()) => config_fault(*self) is None,
                Err(e) => config_fault(*self) == Some(e@),
            },
    {
        let mut warnings: Vec<OverlapWarning> = Vec::new();
        proof {
            assert(overlaps_of(warnings@) =~= Seq::<Overlap>::empty());
        }
        if let Some(e) = self.check_references() {
            return (warnings, Err(e));
        }
        let ghost fault = |rs: Ruleset| ruleset_fault(rs);
        let mut i: usize = 0;
        proof {
            assert(self.rulesets@.skip(0) =~= self.rulesets@);
            assert(overlaps_of(warnings@) + overlaps_up_to_fault(self.rulesets@)
                =~= config_overlaps(*self));
        }
        while i < self.rulesets.len()
            invariant
                i <= self.rulesets@.len(),
                fault == (|rs: Ruleset| ruleset_fault(rs)),
                first_fault(self.rulesets@.skip(i as int), fault) == config_fault(*self),
                overlaps_of(warnings@) + overlaps_up_to_fault(self.rulesets@.skip(i as int))
                    == config_overlaps(*self),
            decreases self.rulesets@.len() - i,
        {
            let ghost tail = self.rulesets@.skip(i as int);
            proof {
                first_fault_step(self.rulesets@, i as int, fault);
                assert(tail[0] == self.rulesets@[i as int]);
                assert(tail.skip(1) =~= self.rulesets@.skip(i + 1));
            }
            if let Some(e) = check_rules(&self.rulesets[i]) {
                proof {
                    assert(overlaps_of(warnings@) + overlaps_up_to_fault(tail) =~= overlaps_of(
                        warnings@,
                    ));
                }
                return (warnings, Err(e));
            }
            let ghost before = warnings@;
            warn_overlaps(&self.rulesets[i], &mut warnings);
            proof {
                assert(overlaps_of(warnings@) + overlaps_up_to_fault(tail.skip(1)) =~= overlaps_of(
                    before,
                ) + overlaps_up_to_fault(tail));
            }
            i += 1;
        }
        proof {
            assert(overlaps_of(warnings@) + overlaps_up_to_fault(self.rulesets@.skip(i as int))
                =~= overlaps_of(warnings@));
        }
        (warnings, Ok(()))
    }

    /// Validates the configuration. The error is the first fault.
    pub fn validate(&self) -> (r: Result<(), ConfigError>)
        ensures
            match r {
                Ok(()) => config_fault(*self) is None,
                Err(e) => config_fault(*self) == Some(e@),
            },
    {
        self.inspect().1
    }

    /// Takes over a configuration that was read anew, if it was read and is valid.
    /// Otherwise the one in use stays. Returns the overlaps to warn of, and what is
    /// wrong with the new one; `None` as error stands for one that was not read.
    pub fn reload(&mut self, parsed: Option<Config>) -> (r: (
        Vec<OverlapWarning>,
        Result<(), Option<ConfigError>>,
    ))
        ensures
            match parsed {
                None => *final(self) == *old(self) && r.1 == Err::<(), Option<ConfigError>>(None)
                    && r.0@.len() == 0,
                Some(config) => {
                    &&& overlaps_of(r.0@) == config_overlaps(config)
                    &&& match r.1 {
                        Ok(()) => config_fault(config) is None && *final(self) == config,
                        Err(e) => e is Some && config_fault(config) == Some(e->0@) && *final(self)
                            == *old(self),
                    }
                },
            },
    {
        match parsed {
            None => (Vec::new(), Err(None)),
            Some(config) => {
                let (warnings, result): (Vec<OverlapWarning>, Result<(), ConfigError>) =
                    config.inspect();
                match result {
                    Ok(()) => {
                        *self = config;
                        (warnings, Ok(()))
                    },
                    Err(e) => (warnings, Err(Some(e))),
                }
            },
        }
    }
}

// ---------------------------------------------------------------------------
// Laws
// ---------------------------------------------------------------------------

/// An overnight window is what the daytime window leaves over: for two different
/// times, every time of day lies either in the window from the one to the other or in
/// the one back.
pub proof fn overnight_is_complement(time: Seq<char>, start: Seq<char>, end: Seq<char>)
    requires
        start != end,
    ensures
        in_range(time, start, end) != in_range(time, end, start),
{
    text::text_lt_total(start, end);
    if text::text_lt(start, end) && text::text_lt(end, start) {
        text::text_lt_transitive(start, end, start);
        text::text_lt_irreflexive(start);
    }
}

/// A window with equal ends covers every time.
pub proof fn equal_ends_cover_the_day(time: Seq<char>, at: Seq<char>)
    ensures
        in_range(time, at, at),
{
    text::text_lt_irreflexive(at);
}

/// Of two windows that share a time, one starts in the other.
pub proof fn shared_time_means_shared_start(
    time: Seq<char>,
    start_a: Seq<char>,
    end_a: Seq<char>,
    start_b: Seq<char>,
    end_b: Seq<char>,
)
    requires
        in_range(time, start_a, end_a),
        in_range(time, start_b, end_b),
    ensures
        in_range(start_a, start_b, end_b) || in_range(start_b, start_a, end_a),
{
    text::text_lt_total(start_a, start_b);
    text::text_lt_irreflexive(start_a);
    text::text_lt_irreflexive(start_b);
    // For every pair of the five times: the order is total and transitive.
    let ts = seq![time, start_a, end_a, start_b, end_b];
    assert forall|i: int, j: int, k: int|
        #![trigger ts[i], ts[j], ts[k]]
        0 <= i < 5 && 0 <= j < 5 && 0 <= k < 5 && text::text_lt(ts[i], ts[j]) && text::text_lt(
            ts[j],
            ts[k],
        ) implies text::text_lt(ts[i], ts[k]) by {
        text::text_lt_transitive(ts[i], ts[j], ts[k]);
    }
    assert forall|i: int, j: int|
        #![trigger ts[i], ts[j]]
        0 <= i < 5 && 0 <= j < 5 implies ts[i] == ts[j] || text::text_lt(ts[i], ts[j])
        || text::text_lt(ts[j], ts[i]) by {
        text::text_lt_total(ts[i], ts[j]);
    }
    assert(ts[0] == time && ts[1] == start_a && ts[2] == end_a && ts[3] == start_b && ts[4]
        == end_b);
}

/// A valid configuration defines every ruleset that it uses, and every rule in it has
/// a positive limit, a positive window, well-formed times and days of the week.
pub proof fn valid_config_is_sound(config: Config)
    requires
        config_fault(config) is None,
    ensures
        config.fallback_ruleset matches Some(name) ==> defines(config, name@),
        forall|i: int|
            0 <= i < config.api_keys@.len() ==> defines(
                config,
                (#[trigger] config.api_keys@[i]).ruleset@,
            ),
        forall|i: int, j: int|
            #![trigger config.rulesets@[i].rules@[j]]
            0 <= i < config.rulesets@.len() && 0 <= j < config.rulesets@[i].rules@.len() ==> {
                let rule = config.rulesets@[i].rules@[j];
                &&& rule.limit > 0
                &&& rule.window_secs > 0
                &&& time_fault(config.rulesets@[i].name@, rule.time_start@) is None
                &&& time_fault(config.rulesets@[i].name@, rule.time_end@) is None
                &&& forall|d: int| 0 <= d < rule.days@.len() ==> is_day((#[trigger] rule.days@[d])@)
            },
{
    let entry = |e: ApiKeyEntry| entry_fault(config, e);
    no_first_fault(config.api_keys@, entry);
    assert forall|i: int| 0 <= i < config.api_keys@.len() implies defines(
        config,
        (#[trigger] config.api_keys@[i]).ruleset@,
    ) by {
        assert(entry(config.api_keys@[i]) is None);
    }
    let of_ruleset = |rs: Ruleset| ruleset_fault(rs);
    no_first_fault(config.rulesets@, of_ruleset);
    assert forall|i: int, j: int|
        #![trigger config.rulesets@[i].rules@[j]]
        0 <= i < config.rulesets@.len() && 0 <= j < config.rulesets@[i].rules@.len() implies {
        let rule = config.rulesets@[i].rules@[j];
        &&& rule.limit > 0
        &&& rule.window_secs > 0
        &&& time_fault(config.rulesets@[i].name@, rule.time_start@) is None
        &&& time_fault(config.rulesets@[i].name@, rule.time_end@) is None
        &&& forall|d: int| 0 <= d < rule.days@.len() ==> is_day((#[trigger] rule.days@[d])@)
    } by {
        let rs = config.rulesets@[i];
        assert(of_ruleset(config.rulesets@[i]) is None);
        let of_rule = |rule: Rule| rule_fault(rs.name@, rule);
        no_first_fault(rs.rules@, of_rule);
        let rule = rs.rules@[j];
        assert(of_rule(rs.rules@[j]) is None);
        let of_day = |day: String| day_fault(rs.name@, day@);
        no_first_fault(rule.days@, of_day);
        assert forall|d: int| 0 <= d < rule.days@.len() implies is_day(
            (#[trigger] rule.days@[d])@,
        ) by {
            assert(of_day(rule.days@[d]) is None);
        }
    }
}

proof fn overlaps_with_lists(rs: Ruleset, i: int, j: int, a: int, b: int)
    requires
        0 <= i < rs.rules@.len(),
        i < j,
    ensures
        overlaps_with(rs, i, j).contains(Overlap { ruleset: rs.name@, first: a, second: b }) <==> (
        a == i && j <= b < rs.rules@.len() && overlap(rs.rules@[a], rs.rules@[b])),
    decreases rs.rules@.len() - j,
{
    let o = Overlap { ruleset: rs.name@, first: a, second: b };
    if j < rs.rules@.len() {
        overlaps_with_lists(rs, i, j + 1, a, b);
        let rest = overlaps_with(rs, i, j + 1);
        if overlap(rs.rules@[i], rs.rules@[j]) {
            let head = Overlap { ruleset: rs.name@, first: i, second: j };
            contains_concat(seq![head], rest, o);
            assert(seq![head].contains(o) <==> head == o) by {
                assert(seq![head][0] == head);
            }
        }
    }
}

proof fn contains_concat<T>(a: Seq<T>, b: Seq<T>, x: T)
    ensures
        (a + b).contains(x) <==> a.contains(x) || b.contains(x),
{
    if a.contains(x) {
        let i = choose|i: int| 0 <= i < a.len() && a[i] == x;
        assert((a + b)[i] == x);
    }
    if b.contains(x) {
        let i = choose|i: int| 0 <= i < b.len() && b[i] == x;
        assert((a + b)[a.len() + i] == x);
    }
    if (a + b).contains(x) {
        let i = choose|i: int| 0 <= i < (a + b).len() && (a + b)[i] == x;
        if i < a.len() {
            assert(a[i] == x);
        } else {
            assert(b[i - a.len()] == x);
        }
    }
}

proof fn overlaps_from_lists(rs: Ruleset, i: int, a: int, b: int)
    requires
        0 <= i,
    ensures
        overlaps_from(rs, i).contains(Overlap { ruleset: rs.name@, first: a, second: b }) <==> (i
            <= a < b < rs.rules@.len() && overlap(rs.rules@[a], rs.rules@[b])),
    decreases rs.rules@.len() - i,
{
    if i < rs.rules@.len() {
        overlaps_from_lists(rs, i + 1, a, b);
        overlaps_with_lists(rs, i, i + 1, a, b);
        contains_concat(
            overlaps_with(rs, i, i + 1),
            overlaps_from(rs, i + 1),
            Overlap { ruleset: rs.name@, first: a, second: b },
        );
    }
}

/// A ruleset is warned of exactly its overlapping pairs of rules.
pub proof fn every_overlap_is_warned_of(rs: Ruleset, a: int, b: int)
    ensures
        overlaps_from(rs, 0).contains(Overlap { ruleset: rs.name@, first: a, second: b }) <==> (0
            <= a < b < rs.rules@.len() && overlap(rs.rules@[a], rs.rules@[b])),
{
    overlaps_from_lists(rs, 0, a, b);
}

} // verus!
