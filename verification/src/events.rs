//! What the proxy tells its observers.

use crate::limiter::RateLimitEvent;
use vstd::prelude::*;

verus! {

/// A request was passed on.
#[derive(Debug, Clone)]
pub struct RequestStartEvent {
    pub id: String,
    pub api_key: String,
    pub model: String,
    pub method: String,
    pub path: String,
    pub timestamp: String,
    pub owner: String,
}

/// A request was answered.
#[derive(Debug, Clone)]
pub struct RequestEndEvent {
    pub id: String,
    pub status: u16,
    pub latency_ms: u64,
    pub input_tokens: u64,
    pub output_tokens: u64,
    pub cache_tokens: u64,
}

/// A line of the server's log.
#[derive(Debug, Clone)]
pub struct LogEvent {
    pub time: String,
    pub level: String,
    pub msg: String,
}

/// Everything that observers are told.
#[derive(Debug, Clone)]
pub enum AppEvent {
    RateLimit(RateLimitEvent),
    Request(RequestStartEvent),
    RequestEnd(RequestEndEvent),
    Log(LogEvent),
}

} // verus!
