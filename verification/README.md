# 9limiter

A reverse proxy with sliding-window rate limits for OpenAI- and Anthropic-compatible
APIs. The rules of the proxy are a library that Verus verifies; the server around it is
ordinary Rust.

## The library, `src/`

| Module | What it holds |
|--------|---------------|
| `window`, `window_laws` | the log of one counter, and what a sliding window guarantees |
| `counters`, `counter_laws` | all counters: single checks, checks together, checks in turn, snapshots |
| `clock`, `limiter` | the monotonic clock, and the limiter that reads it |
| `config` | the configuration, its validation, overlaps and reloading |
| `calendar` | days and times at a fixed offset from UTC |
| `routing` | the longest path prefix, and servers that take turns |
| `proxy`, `proxy_laws` | which rules apply, and how a request is decided and answered |
| `exchange`, `usage` | what is reported and recorded of an exchange, and the tokens in bodies |
| `json` | reading and writing JSON |
| `events`, `dashboard`, `owners`, `stats`, `service` | what observers are told, owners of keys, statistics, the system service |
| `text` | comparing, splitting and reading text |

Contracts speak of mathematical models: a counter is a sequence of times, the limiter a
map from API key, model, limit and window to such sequences, a decision a function of configuration, counters,
time and request. The modules named `.._laws` state what holds across calls, such as
that no window of time ever holds more admitted requests than the limit.

What is not proved is marked: the wrappers around chrono and serde_json, and the
specifications of std's `Instant`, say in their comments what they claim.

## The server, `app/`

Command line, HTTP, WebSockets, files, SQLite, PostgreSQL and the system service. It
asks the library which requests pass, where they go, what is answered, reported and
recorded. Sums, the top ten and the retention of statistics are SQL.

```bash
ninelimiter --config config.yaml
```

| Flag | Default | Description |
|------|---------|-------------|
| `--config` | `~/.9limiter/config.yaml` | configuration file |
| `--listen` | from the configuration | address to listen on |
| `--log-level` | `info` | tracing level |
