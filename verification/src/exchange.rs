//! What is told and stored of an exchange with an upstream server.

use crate::calendar;
use crate::calendar::{hour_bucket, timestamp};
use crate::events::{RequestEndEvent, RequestStartEvent};
use crate::owners;
use crate::owners::KeyOwners;
use crate::stats::RequestLog;
use crate::text::same_text;
use crate::usage;
use crate::usage::{model_family, read_usage, UsageFields};
use vstd::prelude::*;

verus! {

/// Whether a header of the request is sent on: every one but `host`, which names the
/// proxy itself. Header names are in lower case.
pub fn forwards_header(name: &str) -> (forwarded: bool)
    ensures
        forwarded == (name@ != "host"@),
{
    !same_text(name, "host")
}

/// Whether a header of the answer is passed on to the client: every one but those on
/// the connection between the server and the proxy. Header names are in lower case.
pub fn returns_header(name: &str) -> (returned: bool)
    ensures
        returned == (name@ != "connection"@ && name@ != "transfer-encoding"@),
{
    !same_text(name, "connection") && !same_text(name, "transfer-encoding")
}

/// The event that reports that a request is sent on.
pub fn start_event(
    id: String,
    api_key: String,
    model: String,
    method: String,
    path: String,
    owners: &KeyOwners,
    secs: i64,
    nanos: u32,
    offset: i32,
) -> (event: RequestStartEvent)
    requires
        calendar::in_calendar(secs as int),
        nanos < 1_000_000_000,
        calendar::is_offset(offset as int),
    ensures
        event.id == id,
        event.api_key == api_key,
        event.model == model,
        event.method == method,
        event.path == path,
        event.timestamp@ == calendar::rfc3339_text(secs as int, nanos as int, offset as int),
        event.owner@ == owners::owner_name(owners@, api_key@),
{
    let owner: String = owners.owner_of(api_key.as_str());
    RequestStartEvent {
        id,
        api_key,
        model,
        method,
        path,
        timestamp: timestamp(secs, nanos, offset),
        owner,
    }
}

/// How an exchange with an upstream server ended.
#[derive(Debug, Clone)]
pub enum Outcome {
    /// The server answered.
    Answered { status: u16, body: Vec<u8> },
    /// The server took too long.
    TimedOut,
    /// The server could not be reached, or failed.
    Failed,
}

/// The status that the client gets: the server's own, or that of a gateway whose
/// server did not answer in time or at all.
pub open spec fn status_of(outcome: Outcome) -> u16 {
    match outcome {
        Outcome::Answered { status, .. } => status,
        Outcome::TimedOut => 504,
        Outcome::Failed => 502,
    }
}

/// The tokens that the server reported.
pub open spec fn usage_of(outcome: Outcome) -> UsageFields {
    match outcome {
        Outcome::Answered { body, .. } => usage::usage_fields(body@),
        _ => UsageFields { total: None, input: None, output: None },
    }
}

impl Outcome {
    /// The status that the client gets.
    pub fn status(&self) -> (status: u16)
        ensures
            status == status_of(*self),
    {
        match self {
            Outcome::Answered { status, .. } => *status,
            Outcome::TimedOut => 504,
            Outcome::Failed => 502,
        }
    }

    /// The tokens that the server reported.
    pub fn usage(&self) -> (fields: UsageFields)
        ensures
            fields == usage_of(*self),
    {
        match self {
            Outcome::Answered { body, .. } => read_usage(body.as_slice()),
            _ => UsageFields::none(),
        }
    }
}

/// The tokens to add to what a key has used of a family of models in an hour.
#[derive(Debug, Clone)]
pub struct UsageRecord {
    pub api_key: String,
    pub model_family: String,
    pub hour: String,
    pub tokens: u64,
}

/// What is told and stored when an exchange is over.
#[derive(Debug, Clone)]
pub struct Conclusion {
    /// The event for observers.
    pub end: RequestEndEvent,
    /// The entry of the request log.
    pub log: RequestLog,
    /// The tokens used, where the server reported any.
    pub usage: Option<UsageRecord>,
}

/// Whether `end` reports the end of `start`.
pub open spec fn ends(
    end: RequestEndEvent,
    start: RequestStartEvent,
    status: u16,
    usage: UsageFields,
    latency_ms: u64,
) -> bool {
    &&& end.id@ == start.id@
    &&& end.status == status
    &&& end.latency_ms == latency_ms
    &&& end.input_tokens == usage::count_or_none(usage.input)
    &&& end.output_tokens == usage::count_or_none(usage.output)
    &&& end.cache_tokens == 0
}

/// Whether `log` records the request that `start` and `end` report.
pub open spec fn records(
    log: RequestLog,
    start: RequestStartEvent,
    end: RequestEndEvent,
    timestamp: Seq<char>,
) -> bool {
    &&& log.id@ == start.id@
    &&& log.api_key@ == start.api_key@
    &&& log.owner@ == start.owner@
    &&& log.model@ == start.model@
    &&& log.method@ == start.method@
    &&& log.path@ == start.path@
    &&& log.status == end.status
    &&& log.latency_ms == end.latency_ms
    &&& log.input_tokens == end.input_tokens
    &&& log.output_tokens == end.output_tokens
    &&& log.cache_tokens == end.cache_tokens
    &&& log.timestamp@ == timestamp
}

/// Whether `record` adds what the request of `start` used, if the server reported it.
pub open spec fn adds(
    record: Option<UsageRecord>,
    start: RequestStartEvent,
    usage: UsageFields,
    hour: Seq<char>,
) -> bool {
    match record {
        Some(record) => {
            &&& usage::tokens_in(usage) == Some(record.tokens)
            &&& record.api_key@ == start.api_key@
            &&& record.model_family@ == usage::family(start.model@)
            &&& record.hour@ == hour
        },
        None => usage::tokens_in(usage) is None,
    }
}

/// What is told and stored of an exchange that ended with `status` and `usage`.
pub fn conclude(
    start: &RequestStartEvent,
    status: u16,
    usage: UsageFields,
    latency_ms: u64,
    timestamp: String,
    hour: String,
) -> (c: Conclusion)
    ensures
        ends(c.end, *start, status, usage, latency_ms),
        records(c.log, *start, c.end, timestamp@),
        adds(c.usage, *start, usage, hour@),
{
    let input_tokens: u64 = usage.input_tokens();
    let output_tokens: u64 = usage.output_tokens();
    Conclusion {
        end: RequestEndEvent {
            id: start.id.clone(),
            status,
            latency_ms,
            input_tokens,
            output_tokens,
            cache_tokens: 0,
        },
        log: RequestLog {
            id: start.id.clone(),
            api_key: start.api_key.clone(),
            owner: start.owner.clone(),
            model: start.model.clone(),
            method: start.method.clone(),
            path: start.path.clone(),
            status,
            latency_ms,
            input_tokens,
            output_tokens,
            cache_tokens: 0,
            timestamp,
        },
        usage: match usage.tokens() {
            Some(tokens) => Some(
                UsageRecord {
                    api_key: start.api_key.clone(),
                    model_family: model_family(start.model.as_str()),
                    hour,
                    tokens,
                },
            ),
            None => None,
        },
    }
}

/// What is told and stored of an exchange that ended at the given time.
pub fn finish(
    start: &RequestStartEvent,
    outcome: &Outcome,
    latency_ms: u64,
    secs: i64,
    nanos: u32,
    offset: i32,
) -> (c: Conclusion)
    requires
        calendar::in_calendar(secs as int),
        nanos < 1_000_000_000,
        calendar::is_offset(offset as int),
    ensures
        ends(c.end, *start, status_of(*outcome), usage_of(*outcome), latency_ms),
        records(
            c.log,
            *start,
            c.end,
            calendar::rfc3339_text(secs as int, nanos as int, offset as int),
        ),
        adds(
            c.usage,
            *start,
            usage_of(*outcome),
            calendar::local_format(secs as int, offset as int, calendar::bucket_pattern()),
        ),
{
    conclude(
        start,
        outcome.status(),
        outcome.usage(),
        latency_ms,
        timestamp(secs, nanos, offset),
        hour_bucket(secs, offset),
    )
}

} // verus!
