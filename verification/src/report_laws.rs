//! What is counted, stored and shown of a request, told field by field.

use crate::calendar;
use crate::config;
use crate::config::Fault;
use crate::dashboard;
use crate::dashboard::SocketInput;
use crate::events::RequestStartEvent;
use crate::exchange;
use crate::exchange::{Conclusion, Outcome};
use crate::json;
use crate::limiter::EventModel;
use crate::owners;
use crate::stats;
use crate::stats::{ModelStat, UserStat};
use crate::text;
use crate::text_laws;
use crate::usage;
use crate::usage::UsageFields;
use vstd::prelude::*;

verus! {

// ---------------------------------------------------------------------------
// Tokens
// ---------------------------------------------------------------------------

/// A response counts with the total that it reports. Without one it counts with the
/// input and the output together, of which either may be missing, if that is more than
/// nothing and can be counted.
pub proof fn tokens_are_the_total_or_the_sum(input: u64, output: u64, fields: UsageFields)
    ensures
        fields.total is Some ==> usage::tokens_in(fields) == fields.total,
        fields.total is None ==> {
            &&& fields.input == Some(input) && fields.output == Some(output) ==> if input + output
                == 0 || input + output > 0xffff_ffff_ffff_ffff {
                usage::tokens_in(fields) is None
            } else {
                usage::tokens_in(fields) matches Some(n) && n == input + output
            }
            &&& fields.input == Some(input) && fields.output is None && input > 0
                ==> usage::tokens_in(fields) == Some(input)
            &&& fields.input is None && fields.output == Some(output) && output > 0
                ==> usage::tokens_in(fields) == Some(output)
            &&& (fields.input is None || fields.input == Some(0u64)) && (fields.output is None
                || fields.output == Some(0u64)) ==> usage::tokens_in(fields) is None
        },
{
}

/// The counts of a response are those that its body holds under `usage`.
pub proof fn a_response_reports_its_own_counts(body: Seq<u8>)
    ensures
        usage::usage_fields(body).total == json::body_count(body, "usage"@, "total_tokens"@),
        usage::usage_fields(body).input == json::body_count(body, "usage"@, "input_tokens"@),
        usage::usage_fields(body).output == json::body_count(body, "usage"@, "output_tokens"@),
{
}

// ---------------------------------------------------------------------------
// Exchanges
// ---------------------------------------------------------------------------

/// Whether a log entry and an end event tell the same of a request as its start event.
pub open spec fn tells_of(c: Conclusion, start: RequestStartEvent) -> bool {
    &&& c.end.id@ == start.id@
    &&& c.log.id@ == start.id@
    &&& c.log.api_key@ == start.api_key@
    &&& c.log.owner@ == start.owner@
    &&& c.log.model@ == start.model@
    &&& c.log.method@ == start.method@
    &&& c.log.path@ == start.path@
    &&& c.usage matches Some(record) ==> record.api_key@ == start.api_key@
}

/// What is told and stored of an exchange is about the request that it started with: its
/// status is the server's, 504 where the server took too long, and 502 where it failed;
/// its counts are those of the server's answer, and nothing without one. What the event
/// and the log say agrees.
pub proof fn an_exchange_is_told_as_it_ended(
    c: Conclusion,
    start: RequestStartEvent,
    outcome: Outcome,
    latency_ms: u64,
    timestamp: Seq<char>,
    hour: Seq<char>,
)
    requires
        exchange::ends(
            c.end,
            start,
            exchange::status_of(outcome),
            exchange::usage_of(outcome),
            latency_ms,
        ),
        exchange::records(c.log, start, c.end, timestamp),
        exchange::adds(c.usage, start, exchange::usage_of(outcome), hour),
    ensures
        tells_of(c, start),
        c.end.latency_ms == latency_ms && c.log.latency_ms == latency_ms,
        c.end.cache_tokens == 0 && c.log.cache_tokens == 0,
        c.log.status == c.end.status,
        c.log.input_tokens == c.end.input_tokens,
        c.log.output_tokens == c.end.output_tokens,
        c.log.timestamp@ == timestamp,
        c.usage matches Some(record) ==> record.hour@ == hour,
        outcome is TimedOut ==> c.end.status == 504,
        outcome is Failed ==> c.end.status == 502,
        outcome !is Answered ==> c.end.input_tokens == 0 && c.end.output_tokens == 0
            && c.usage is None,
        outcome matches Outcome::Answered { status, body } ==> {
            let input = json::body_count(body@, "usage"@, "input_tokens"@);
            let output = json::body_count(body@, "usage"@, "output_tokens"@);
            let total = json::body_count(body@, "usage"@, "total_tokens"@);
            &&& c.end.status == status
            &&& input == Some(c.end.input_tokens) || (input is None && c.end.input_tokens == 0)
            &&& output == Some(c.end.output_tokens) || (output is None && c.end.output_tokens == 0)
            &&& total matches Some(n) ==> c.usage is Some && c.usage->0.tokens == n
            &&& total is None ==> {
                &&& c.usage matches Some(record) ==> record.tokens == c.end.input_tokens
                    + c.end.output_tokens && record.tokens > 0
                &&& c.usage is None ==> c.end.input_tokens + c.end.output_tokens == 0
                    || c.end.input_tokens + c.end.output_tokens > 0xffff_ffff_ffff_ffff
            }
        },
{
}

/// Usage is added under the part of the model's name before its first slash: for a
/// model `family/rest` under `family`, and for a name without a slash under the name.
pub proof fn usage_is_added_to_the_family(
    c: Conclusion,
    start: RequestStartEvent,
    fields: UsageFields,
    hour: Seq<char>,
    family: Seq<char>,
    rest: Seq<char>,
)
    requires
        exchange::adds(c.usage, start, fields, hour),
        !family.contains('/'),
        start.model@ == family || start.model@ == family + seq!['/'] + rest,
    ensures
        c.usage matches Some(record) ==> record.model_family@ == family,
{
    usage::family_comes_before_the_slash(family, rest);
}

// ---------------------------------------------------------------------------
// Statistics
// ---------------------------------------------------------------------------

/// Rows are read one by one: each that can be read is taken over, each that cannot is
/// left out, and neither changes what becomes of the others.
pub proof fn rows_are_read_one_by_one(
    before: Seq<Option<(String, i64)>>,
    row: Option<(String, i64)>,
    behind: Seq<Option<(String, i64)>>,
)
    ensures
        stats::readable(before + seq![row] + behind) == stats::readable(before) + (match row {
            Some(row) => seq![row],
            None => Seq::empty(),
        }) + stats::readable(behind),
        stats::readable(Seq::<Option<(String, i64)>>::empty()) == Seq::<(String, i64)>::empty(),
    decreases behind.len(),
{
    let one = match row {
        Some(row) => seq![row],
        None => Seq::empty(),
    };
    let whole = before + seq![row] + behind;
    if behind.len() == 0 {
        assert(whole.drop_last() =~= before);
        assert(stats::readable(whole) =~= stats::readable(before) + one + stats::readable(behind));
    } else {
        let less = behind.drop_last();
        rows_are_read_one_by_one(before, row, less);
        assert(whole.drop_last() =~= before + seq![row] + less);
        assert(whole.last() == behind.last());
        assert(stats::readable(whole) =~= stats::readable(before) + one + stats::readable(behind));
    }
}

/// A stored number is read back without a sign, its 64 bits unchanged.
pub proof fn a_stored_number_keeps_its_bits(n: i64)
    ensures
        0 <= stats::unsigned(n) < 0x1_0000_0000_0000_0000,
        n >= 0 ==> stats::unsigned(n) == n,
        n < 0 ==> stats::unsigned(n) - n == 0x1_0000_0000_0000_0000,
{
}

/// Each row of the models' usage that can be read is reported with its model and its
/// tokens, in order.
pub proof fn models_are_reported_with_their_tokens(
    rows: Seq<Option<(String, i64)>>,
    said: Seq<ModelStat>,
    i: int,
)
    requires
        stats::models_said(said) == stats::readable(rows).map_values(
            |row: (String, i64)| stats::model_row(row),
        ),
        0 <= i < stats::readable(rows).len(),
    ensures
        said.len() == stats::readable(rows).len(),
        said[i].model@ == stats::readable(rows)[i].0@,
        stats::readable(rows)[i].1 >= 0 ==> said[i].tokens == stats::readable(rows)[i].1,
{
    assert(stats::models_said(said).len() == said.len());
    assert(stats::models_said(said)[i] == stats::model_row(stats::readable(rows)[i]));
    assert(stats::models_said(said)[i] == (said[i].model@, said[i].tokens as int));
}

/// Each row of the keys' usage that can be read is reported with its key, the key's
/// owner, who is empty where unknown, and its tokens, in order.
pub proof fn users_are_reported_with_their_tokens(
    rows: Seq<Option<(String, i64)>>,
    known: Map<Seq<char>, Seq<char>>,
    said: Seq<UserStat>,
    i: int,
)
    requires
        stats::users_said(said) == stats::readable(rows).map_values(
            |row: (String, i64)| stats::user_row(row, known),
        ),
        0 <= i < stats::readable(rows).len(),
    ensures
        said.len() == stats::readable(rows).len(),
        said[i].api_key@ == stats::readable(rows)[i].0@,
        known.contains_key(said[i].api_key@) ==> said[i].owner@ == known[said[i].api_key@],
        !known.contains_key(said[i].api_key@) ==> said[i].owner@.len() == 0,
        stats::readable(rows)[i].1 >= 0 ==> said[i].tokens == stats::readable(rows)[i].1,
{
    assert(stats::users_said(said).len() == said.len());
    assert(stats::users_said(said)[i] == stats::user_row(stats::readable(rows)[i], known));
    assert(stats::users_said(said)[i] == (
        said[i].api_key@,
        said[i].owner@,
        said[i].tokens as int,
    ));
}

// ---------------------------------------------------------------------------
// Owners
// ---------------------------------------------------------------------------

/// An event whose key has a known owner gets that owner's name, any other keeps what it
/// has, and nothing else of an event changes.
pub proof fn an_event_gets_its_own_owner(event: EventModel, known: Map<Seq<char>, Seq<char>>)
    ensures
        ({
            let after = dashboard::patched(event, known);
            &&& known.contains_key(event.api_key) ==> after.owner == known[event.api_key]
            &&& !known.contains_key(event.api_key) ==> after.owner == event.owner
            &&& after.api_key == event.api_key
            &&& after.model == event.model
            &&& after.rule_limit == event.rule_limit
            &&& after.rule_window_secs == event.rule_window_secs
            &&& after.count == event.count
            &&& after.remaining == event.remaining
            &&& after.reset_after_secs == event.reset_after_secs
        }),
{
}

/// A connection string holds each of its parts in its place, the port in decimal.
pub proof fn a_connection_string_holds_its_parts(
    host: Seq<char>,
    port: u16,
    user: Seq<char>,
    password: Seq<char>,
    dbname: Seq<char>,
)
    ensures
        exists|digits: Seq<char>|
            #[trigger] text_laws::writes(digits, port as nat) && owners::dsn_text(
                host,
                port,
                user,
                password,
                dbname,
            ) == "postgres://"@ + (user + (seq![':'] + (password + (seq!['@'] + (host + (seq![':']
                + (digits + (seq!['/'] + dbname)))))))),
{
    let digits = text::decimal_text(port as nat);
    text::decimal_reads_back(port as nat);
    text_laws::a_number_is_read_as_written(digits, port as nat, port as nat);
    reveal_strlit(":");
    reveal_strlit("@");
    reveal_strlit("/");
    assert(":"@ =~= seq![':']);
    assert("@"@ =~= seq!['@']);
    assert("/"@ =~= seq!['/']);
    assert(owners::dsn_text(host, port, user, password, dbname) =~= "postgres://"@ + (user + (
    seq![':'] + (password + (seq!['@'] + (host + (seq![':'] + (digits + (seq!['/'] + dbname)))))))));
    assert(text_laws::writes(digits, port as nat));
}

// ---------------------------------------------------------------------------
// The dashboard
// ---------------------------------------------------------------------------

/// A client that sends the command `sync` gets the counters, one that sends `clock` the
/// time, and any other text nothing.
pub proof fn commands_are_carried_out(message: String)
    ensures
        ({
            let action = dashboard::action_for(SocketInput::Text(message));
            let command = json::message_field(message@, "cmd"@);
            &&& action is SendSnapshot <==> command == Some("sync"@)
            &&& action is SendClock <==> command == Some("clock"@)
            &&& command != Some("sync"@) && command != Some("clock"@) ==> action is Ignore
        }),
{
    reveal_strlit("sync");
    reveal_strlit("clock");
    assert("sync"@.len() != "clock"@.len());
}

/// A conversation ends exactly when its end is closed or no more events come, and an
/// event is sent exactly when one came.
pub proof fn only_a_closed_end_stops(input: SocketInput)
    ensures
        dashboard::action_for(input) is Stop <==> input is Closed || input is EventsLost,
        dashboard::action_for(input) is SendEvent <==> input is Event,
        input is Other ==> dashboard::action_for(input) is Ignore,
{
}

// ---------------------------------------------------------------------------
// Times
// ---------------------------------------------------------------------------

/// The short name of the day that is `n` days after a Thursday.
pub open spec fn days_from_thursday(n: int) -> Seq<char> {
    seq!["Thu"@, "Fri"@, "Sat"@, "Sun"@, "Mon"@, "Tue"@, "Wed"@][n]
}

/// The days of the week follow each other, in every week, from the Thursday on which the
/// count of seconds starts.
pub proof fn days_of_the_week_follow(week: int, day: int, second: int)
    requires
        0 <= day < 7,
        0 <= second < 86_400,
    ensures
        calendar::weekday(86_400 * (7 * week + day) + second) == days_from_thursday(day),
{
    let local = 86_400 * (7 * week + day) + second;
    assert(local / 86_400 == 7 * week + day);
    assert((7 * week + day + 4) % 7 == (day + 4) % 7);
}

proof fn parts_of_the_day(day: int, hour: int, minute: int, second: int)
    requires
        0 <= hour < 24,
        0 <= minute < 60,
        0 <= second < 60,
    ensures
        ({
            let local = 86_400 * day + 3_600 * hour + 60 * minute + second;
            &&& local % 86_400 / 3_600 == hour
            &&& local % 3_600 / 60 == minute
            &&& local % 60 == second
        }),
{
    let local = 86_400 * day + 3_600 * hour + 60 * minute + second;
    vstd::arithmetic::div_mod::lemma_fundamental_div_mod_converse(
        local,
        86_400,
        day,
        3_600 * hour + 60 * minute + second,
    );
    vstd::arithmetic::div_mod::lemma_fundamental_div_mod_converse(
        local,
        3_600,
        24 * day + hour,
        60 * minute + second,
    );
    vstd::arithmetic::div_mod::lemma_fundamental_div_mod_converse(
        local,
        60,
        1_440 * day + 60 * hour + minute,
        second,
    );
}

/// The time of day is written as hour, minute and second in two digits each, whatever
/// the day.
pub proof fn a_time_of_day_is_written_out(day: int, hour: int, minute: int, second: int)
    requires
        0 <= hour < 24,
        0 <= minute < 60,
        0 <= second < 60,
    ensures
        ({
            let local = 86_400 * day + 3_600 * hour + 60 * minute + second;
            let to_the_minute = seq![
                (48 + hour / 10) as char,
                (48 + hour % 10) as char,
                ':',
                (48 + minute / 10) as char,
                (48 + minute % 10) as char,
            ];
            &&& calendar::hour_and_minute(local) == to_the_minute
            &&& calendar::time_of_day(local) == to_the_minute + seq![
                ':',
                (48 + second / 10) as char,
                (48 + second % 10) as char,
            ]
        }),
{
    let local = 86_400 * day + 3_600 * hour + 60 * minute + second;
    parts_of_the_day(day, hour, minute, second);
    let to_the_minute = seq![
        (48 + hour / 10) as char,
        (48 + hour % 10) as char,
        ':',
        (48 + minute / 10) as char,
        (48 + minute % 10) as char,
    ];
    assert(calendar::hour_and_minute(local) =~= to_the_minute);
    assert(calendar::time_of_day(local) =~= to_the_minute + seq![
        ':',
        (48 + second / 10) as char,
        (48 + second % 10) as char,
    ]);
}

/// A range that is written as a number of days, three, seven, fifteen or thirty, reaches
/// back so many days, and any other range one day.
pub proof fn a_range_reaches_back_its_days(range: Seq<char>, days: nat)
    ensures
        ({
            let offered = days == 3 || days == 7 || days == 15 || days == 30;
            offered && range == text::decimal_text(days) + seq!['d'] ==> calendar::range_length(
                range,
            ) == days * 86_400
        }),
        (forall|n: nat|
            n == 3 || n == 7 || n == 15 || n == 30 ==> range != #[trigger] text::decimal_text(n)
                + seq!['d']) ==> calendar::range_length(range) == 86_400,
{
    reveal_strlit("3d");
    reveal_strlit("7d");
    reveal_strlit("15d");
    reveal_strlit("30d");
    text_laws::digits_follow_in_order(1, 5);
    text_laws::digits_follow_in_order(3, 0);
    text_laws::digits_follow_in_order(0, 1);
    text_laws::digits_follow_in_order(0, 3);
    text_laws::digits_follow_in_order(0, 7);
    assert("3d"@ =~= text::decimal_text(3) + seq!['d']);
    assert("7d"@ =~= text::decimal_text(7) + seq!['d']);
    assert("15d"@ =~= text::decimal_text(15) + seq!['d']);
    assert("30d"@ =~= text::decimal_text(30) + seq!['d']);
    assert("3d"@[0] != "7d"@[0]);
    assert("15d"@[0] != "30d"@[0]);
    assert("3d"@.len() == 2 && "15d"@.len() == 3 && "7d"@.len() == 2 && "30d"@.len() == 3);
}

/// A query that names no range asks for one day, and any other for the range it names.
pub proof fn a_query_without_a_range_asks_for_a_day(range: Option<String>)
    ensures
        range is None ==> calendar::range_length(calendar::range_asked(range)) == 86_400,
        range matches Some(name) ==> calendar::range_asked(range) == name@,
{
    reveal_strlit("24h");
    reveal_strlit("3d");
    reveal_strlit("7d");
    reveal_strlit("15d");
    reveal_strlit("30d");
    assert("24h"@[2] != "15d"@[2] && "24h"@[2] != "30d"@[2]);
    assert("24h"@.len() != "3d"@.len() && "24h"@.len() != "7d"@.len());
}

// ---------------------------------------------------------------------------
// Messages
// ---------------------------------------------------------------------------

/// A message about a ruleset, and an item in it, is the same for every ruleset and item
/// but for their names, which it quotes in full.
pub proof fn a_message_quotes_names_in_full(ruleset: Seq<char>, item: Seq<char>)
    ensures
        config::fault_message(Fault::UnknownFallback { name: ruleset }) == "fallback_ruleset '"@ + (
        ruleset + "' not found in rulesets"@),
        config::fault_message(Fault::UnknownRuleset { name: ruleset }) == "api_key ruleset '"@ + (
        ruleset + "' not found"@),
        config::fault_message(Fault::ZeroLimit { ruleset }) == "ruleset '"@ + (ruleset
            + "': limit must be > 0"@),
        config::fault_message(Fault::ZeroWindow { ruleset }) == "ruleset '"@ + (ruleset
            + "': window_secs must be > 0"@),
        config::fault_message(Fault::TimeFormat { ruleset, time: item }) == "ruleset '"@ + (ruleset
            + ("': invalid time format '"@ + (item + "'"@))),
        config::fault_message(Fault::Hour { hour: item }) == "invalid hour '"@ + (item + "'"@),
        config::fault_message(Fault::Minute { minute: item }) == "invalid minute '"@ + (item
            + "'"@),
        config::fault_message(Fault::TimeRange { ruleset, time: item }) == "ruleset '"@ + (ruleset
            + ("': time '"@ + (item + "' out of range"@))),
        config::fault_message(Fault::Day { ruleset, day: item }) == "ruleset '"@ + (ruleset + (
        "': invalid day '"@ + (item + "'"@))),
{
    assert(config::fault_message(Fault::UnknownFallback { name: ruleset })
        =~= "fallback_ruleset '"@ + (ruleset + "' not found in rulesets"@));
    assert(config::fault_message(Fault::UnknownRuleset { name: ruleset }) =~= "api_key ruleset '"@
        + (ruleset + "' not found"@));
    assert(config::fault_message(Fault::ZeroLimit { ruleset }) =~= "ruleset '"@ + (ruleset
        + "': limit must be > 0"@));
    assert(config::fault_message(Fault::ZeroWindow { ruleset }) =~= "ruleset '"@ + (ruleset
        + "': window_secs must be > 0"@));
    assert(config::fault_message(Fault::TimeFormat { ruleset, time: item }) =~= "ruleset '"@ + (
    ruleset + ("': invalid time format '"@ + (item + "'"@))));
    assert(config::fault_message(Fault::Hour { hour: item }) =~= "invalid hour '"@ + (item + "'"@));
    assert(config::fault_message(Fault::Minute { minute: item }) =~= "invalid minute '"@ + (item
        + "'"@));
    assert(config::fault_message(Fault::TimeRange { ruleset, time: item }) =~= "ruleset '"@ + (
    ruleset + ("': time '"@ + (item + "' out of range"@))));
    assert(config::fault_message(Fault::Day { ruleset, day: item }) =~= "ruleset '"@ + (ruleset + (
    "': invalid day '"@ + (item + "'"@))));
}

} // verus!
