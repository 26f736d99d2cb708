//! A sliding-window rate limiter for OpenAI- and Anthropic-compatible APIs, with
//! the configuration, routing and reporting rules of the proxy around it.

pub mod calendar;
pub mod clock;
pub mod config;
pub mod config_laws;
pub mod counter_laws;
pub mod counters;
pub mod dashboard;
pub mod events;
pub mod exchange;
pub mod forward_laws;
pub mod history_laws;
pub mod json;
pub mod limiter;
pub mod owners;
pub mod proxy;
pub mod proxy_laws;
pub mod report_laws;
pub mod routing;
pub mod routing_laws;
pub mod rule_laws;
pub mod service;
pub mod service_laws;
pub mod stats;
pub mod text;
pub mod text_laws;
pub mod usage;
pub mod window;
pub mod window_laws;
