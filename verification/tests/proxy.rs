use ninelimiter::config::{ApiKeyEntry, Config, Rule, Ruleset, UpstreamEntry};
use ninelimiter::limiter::SlidingLimiter;
use ninelimiter::proxy;
use ninelimiter::proxy::{
    bearer_key, decide, decide_inquiry, lookup_ruleset, matching_rules, Decision, Incoming, Inquiry,
};
use ninelimiter::routing::{longest_prefix, target_url, RoundRobin};
use ninelimiter::usage::{extract_model, extract_usage, model_family, model_or_any, read_usage, UsageFields};

/// Monday, 27 July 2026, 03:00 UTC: 10:00 at `OFFSET`.
const MONDAY: i64 = 1_785_121_200;
const OFFSET: i32 = 25_200;

fn texts(list: &[&str]) -> Vec<String> {
    list.iter().map(|s| s.to_string()).collect()
}

fn rule(models: &[&str], limit: u32, window_secs: u64, start: &str, end: &str, days: &[&str]) -> Rule {
    Rule {
        models: texts(models),
        limit,
        window_secs,
        time_start: start.to_string(),
        time_end: end.to_string(),
        days: texts(days),
    }
}

fn upstream(prefix: &str, base: &str) -> UpstreamEntry {
    UpstreamEntry { path_prefix: prefix.to_string(), base_url: base.to_string() }
}

fn config() -> Config {
    Config {
        listen: None,
        upstreams: vec![
            upstream("/v1", "http://one/v1"),
            upstream("/v1/messages", "http://messages/"),
            upstream("/v1", "http://two/v1//"),
        ],
        fallback_ruleset: Some("default".to_string()),
        rulesets: vec![
            Ruleset {
                name: "default".to_string(),
                rules: vec![
                    rule(&["*"], 2, 3600, "00:00", "00:00", &["Mon"]),
                    rule(&["gpt-4"], 1, 60, "09:00", "17:00", &["Mon", "Tue"]),
                ],
            },
            Ruleset { name: "free".to_string(), rules: vec![] },
        ],
        api_keys: vec![
            ApiKeyEntry { ruleset: "free".to_string(), keys: texts(&["sk-free", "sk-both"]) },
            ApiKeyEntry { ruleset: "default".to_string(), keys: texts(&["sk-both"]) },
        ],
        database: None,
        timezone: None,
    }
}

#[test]
fn test_rule_matching() {
    let rule = Rule {
        models: vec!["gpt-4".into()],
        limit: 100,
        window_secs: 3600,
        time_start: "07:00".into(),
        time_end: "17:00".into(),
        days: vec!["Mon".into(), "Tue".into(), "Wed".into(), "Thu".into(), "Fri".into()],
    };
    assert!(proxy::rule_matches(&rule, "gpt-4", "Mon", "10:00"));
    assert!(!proxy::rule_matches(&rule, "gpt-4", "Sat", "10:00"));
    assert!(!proxy::rule_matches(&rule, "gpt-4", "Mon", "18:00"));
    assert!(!proxy::rule_matches(&rule, "gemini-3", "Mon", "10:00"));
    assert!(!proxy::rule_matches(&rule, "gpt-4", "Mon", "06:59"));
}

#[test]
fn a_rule_for_all_models_matches_any() {
    let any = rule(&["x", "*"], 1, 1, "22:00", "07:00", &["Sun"]);
    assert!(proxy::rule_matches(&any, "whatever", "Sun", "23:00"));
    assert!(proxy::rule_matches(&any, "*", "Sun", "06:59"));
    assert!(!proxy::rule_matches(&any, "whatever", "Sun", "07:00"));
    let named = rule(&["x"], 1, 1, "00:00", "00:00", &["Sun"]);
    assert!(!proxy::rule_matches(&named, "*", "Sun", "12:00"));
}

#[test]
fn the_first_entry_decides_and_the_fallback_takes_the_rest() {
    let mut config = config();
    assert_eq!(lookup_ruleset(&config, "sk-free"), Some("free"));
    assert_eq!(lookup_ruleset(&config, "sk-both"), Some("free"));
    assert_eq!(lookup_ruleset(&config, "sk-other"), Some("default"));
    config.fallback_ruleset = None;
    assert_eq!(lookup_ruleset(&config, "sk-other"), None);
}

#[test]
fn matching_rules_come_in_order() {
    let config = config();
    assert_eq!(
        matching_rules(&config, "default", "gpt-4", "Mon", "10:00"),
        vec![(2, 3600), (1, 60)]
    );
    assert_eq!(matching_rules(&config, "default", "gpt-4", "Tue", "10:00"), vec![(1, 60)]);
    assert_eq!(matching_rules(&config, "default", "o1", "Mon", "10:00"), vec![(2, 3600)]);
    assert!(matching_rules(&config, "free", "o1", "Mon", "10:00").is_empty());
    assert!(matching_rules(&config, "none", "o1", "Mon", "10:00").is_empty());
}

#[test]
fn rules_with_one_limit_and_window_count_once() {
    let mut config = config();
    config.rulesets[0].rules = vec![
        rule(&["*"], 2, 60, "00:00", "00:00", &["Mon"]),
        rule(&["o1"], 3, 60, "00:00", "00:00", &["Mon"]),
        rule(&["o1"], 2, 60, "09:00", "17:00", &["Mon"]),
    ];
    assert_eq!(matching_rules(&config, "default", "o1", "Mon", "10:00"), vec![(2, 60), (3, 60)]);
    let mut limiter = SlidingLimiter::new();
    let mut turns = RoundRobin::new();
    for expected in [true, true, false] {
        let ask = inquiry("sk-1", "o1", "Mon", "/v1/chat");
        let (_, decision) = decide_inquiry(&config, &mut limiter, &mut turns, ask);
        assert_eq!(matches!(decision, Decision::Forward { .. }), expected);
    }
}

#[test]
fn the_key_follows_bearer() {
    assert_eq!(bearer_key(&Some("Bearer sk-1".to_string())), Some("sk-1".to_string()));
    assert_eq!(bearer_key(&Some("Bearer  sk-1".to_string())), Some(" sk-1".to_string()));
    assert_eq!(bearer_key(&Some("Bearer ".to_string())), None);
    assert_eq!(bearer_key(&Some("bearer sk-1".to_string())), None);
    assert_eq!(bearer_key(&Some("Basic sk-1".to_string())), None);
    assert_eq!(bearer_key(&None), None);
}

fn inquiry(api_key: &str, model: &str, day: &str, path: &str) -> Inquiry {
    Inquiry {
        api_key: api_key.to_string(),
        model: model.to_string(),
        day: day.to_string(),
        time: "10:00".to_string(),
        path: path.to_string(),
        path_and_query: format!("{}?x=1", path),
    }
}

#[test]
fn a_request_is_sent_on_until_a_limit_is_used_up() {
    let config = config();
    let mut limiter = SlidingLimiter::new();
    let mut turns = RoundRobin::new();
    let ask = || inquiry("sk-1", "o1", "Mon", "/v1/chat");
    let (events, decision) = decide_inquiry(&config, &mut limiter, &mut turns, ask());
    assert_eq!(events.len(), 1);
    assert_eq!((events[0].count, events[0].remaining), (0, 2));
    match decision {
        Decision::Forward { api_key, model, url } => {
            assert_eq!((api_key.as_str(), model.as_str()), ("sk-1", "o1"));
            assert_eq!(url, "http://one/v1/chat?x=1");
        }
        other => panic!("{:?}", other),
    }
    let (_, decision) = decide_inquiry(&config, &mut limiter, &mut turns, ask());
    assert!(matches!(decision, Decision::Forward { .. }));
    assert!(decision.reply().is_none());
    let (events, decision) = decide_inquiry(&config, &mut limiter, &mut turns, ask());
    assert_eq!((events[0].count, events[0].remaining), (2, 0));
    match &decision {
        Decision::Limited { message, reset_after_secs } => {
            assert_eq!(message, "Rate limit exceeded for model o1");
            assert_eq!(*reset_after_secs, 3600);
        }
        other => panic!("{:?}", other),
    }
    let (status, body) = decision.reply().unwrap();
    assert_eq!(status, 429);
    assert_eq!(
        body,
        "{\"error\":\"rate_limit_exceeded\",\"message\":\"Rate limit exceeded for model o1\",\"reset_after_secs\":3600}"
    );
}

#[test]
fn the_first_rule_that_is_used_up_answers() {
    let config = config();
    let mut limiter = SlidingLimiter::new();
    let mut turns = RoundRobin::new();
    let ask = || inquiry("sk-1", "gpt-4", "Mon", "/v1/chat");
    let (events, decision) = decide_inquiry(&config, &mut limiter, &mut turns, ask());
    assert_eq!(events.len(), 2);
    assert!(matches!(decision, Decision::Forward { .. }));
    let (_, decision) = decide_inquiry(&config, &mut limiter, &mut turns, ask());
    assert!(matches!(decision, Decision::Limited { reset_after_secs: 60, .. }));
    let (events, decision) = decide_inquiry(&config, &mut limiter, &mut turns, ask());
    assert_eq!(events.len(), 1);
    assert!(matches!(decision, Decision::Limited { reset_after_secs: 3600, .. }));
}

#[test]
fn without_rules_nothing_is_limited() {
    let config = config();
    let mut limiter = SlidingLimiter::new();
    let mut turns = RoundRobin::new();
    for _ in 0..20 {
        let ask = inquiry("sk-free", "gpt-4", "Mon", "/v1/chat");
        let (events, decision) = decide_inquiry(&config, &mut limiter, &mut turns, ask);
        assert!(events.is_empty());
        assert!(matches!(decision, Decision::Forward { .. }));
    }
    assert!(limiter.snapshot().is_empty());
}

#[test]
fn an_unknown_key_is_turned_away() {
    let mut config = config();
    config.fallback_ruleset = None;
    let mut limiter = SlidingLimiter::new();
    let mut turns = RoundRobin::new();
    let ask = inquiry("sk-1", "gpt-4", "Mon", "/v1/chat");
    let (events, decision) = decide_inquiry(&config, &mut limiter, &mut turns, ask);
    assert!(events.is_empty());
    assert!(matches!(decision, Decision::UnknownKey));
    assert_eq!(decision.reply(), Some((401, "unauthorized".to_string())));
    assert!(limiter.snapshot().is_empty());
}

#[test]
fn a_path_that_no_server_takes_is_not_found() {
    let config = config();
    let mut limiter = SlidingLimiter::new();
    let mut turns = RoundRobin::new();
    let ask = inquiry("sk-1", "o1", "Mon", "/v2/chat");
    let (_, decision) = decide_inquiry(&config, &mut limiter, &mut turns, ask);
    assert!(matches!(decision, Decision::NoUpstream));
    assert_eq!(decision.reply(), Some((404, "no matching upstream".to_string())));
    assert_eq!(limiter.snapshot().len(), 1);
}

fn incoming(header: Option<&str>, body: Option<&str>) -> Incoming {
    Incoming {
        authorization: header.map(|s| s.to_string()),
        body: body.map(|s| s.as_bytes().to_vec()),
        path: "/v1/chat".to_string(),
        path_and_query: "/v1/chat".to_string(),
    }
}

#[test]
fn a_request_without_key_or_body_is_turned_away() {
    let config = config();
    let mut limiter = SlidingLimiter::new();
    let mut turns = RoundRobin::new();
    let (_, decision) =
        decide(&config, &mut limiter, &mut turns, incoming(None, None), MONDAY, OFFSET);
    assert_eq!(decision.reply(), Some((401, "missing Authorization header".to_string())));
    let (_, decision) =
        decide(&config, &mut limiter, &mut turns, incoming(Some("Bearer k"), None), MONDAY, OFFSET);
    assert_eq!(decision.reply(), Some((400, "failed to read body".to_string())));
    assert!(limiter.snapshot().is_empty());
}

#[test]
fn the_model_the_day_and_the_time_decide() {
    let config = config();
    let mut limiter = SlidingLimiter::new();
    let mut turns = RoundRobin::new();
    let ask = || incoming(Some("Bearer k"), Some("{\"model\":\"gpt-4\"}"));
    let day = 86_400;
    let (events, _) = decide(&config, &mut limiter, &mut turns, ask(), MONDAY, OFFSET);
    assert_eq!(events.len(), 2);
    assert_eq!(events[0].model, "gpt-4");
    let (events, _) = decide(&config, &mut limiter, &mut turns, ask(), MONDAY + day, OFFSET);
    assert_eq!(events.len(), 1);
    assert_eq!(events[0].rule_window_secs, 60);
    let (events, _) = decide(&config, &mut limiter, &mut turns, ask(), MONDAY + 2 * day, OFFSET);
    assert!(events.is_empty());
    let evening = MONDAY + day + 8 * 3600;
    let (events, _) = decide(&config, &mut limiter, &mut turns, ask(), evening, OFFSET);
    assert!(events.is_empty());
    let (events, _) = decide(&config, &mut limiter, &mut turns, ask(), evening, OFFSET - 3 * 3600);
    assert_eq!(events.len(), 1);
}

#[test]
fn a_body_without_a_model_counts_for_all() {
    let config = config();
    let mut limiter = SlidingLimiter::new();
    let mut turns = RoundRobin::new();
    let ask = incoming(Some("Bearer k"), Some("not json"));
    let (events, decision) = decide(&config, &mut limiter, &mut turns, ask, MONDAY, OFFSET);
    assert_eq!(events.len(), 1);
    assert_eq!(events[0].model, "*");
    assert!(matches!(decision, Decision::Forward { .. }));
}

#[test]
fn the_model_is_read_from_the_body() {
    assert_eq!(extract_model(b"{\"model\":\"gpt-4\",\"n\":1}"), Some("gpt-4".to_string()));
    assert_eq!(extract_model(b"{\"model\":4}"), None);
    assert_eq!(extract_model(b"{}"), None);
    assert_eq!(extract_model(b"[\"model\"]"), None);
    assert_eq!(extract_model(b""), None);
    assert_eq!(model_or_any(None), "*");
    assert_eq!(model_or_any(Some("o1".to_string())), "o1");
}

#[test]
fn tokens_are_read_from_the_body() {
    assert_eq!(extract_usage(b"{\"usage\":{\"total_tokens\":42,\"input_tokens\":1}}"), Some(42));
    assert_eq!(extract_usage(b"{\"usage\":{\"input_tokens\":10,\"output_tokens\":5}}"), Some(15));
    assert_eq!(extract_usage(b"{\"usage\":{\"output_tokens\":5}}"), Some(5));
    assert_eq!(extract_usage(b"{\"usage\":{\"total_tokens\":0}}"), Some(0));
    assert_eq!(extract_usage(b"{\"usage\":{\"input_tokens\":0}}"), None);
    assert_eq!(extract_usage(b"{\"usage\":{}}"), None);
    assert_eq!(extract_usage(b"{\"total_tokens\":3}"), None);
    assert_eq!(extract_usage(b"data: {}"), None);
    let usage = read_usage(b"{\"usage\":{\"input_tokens\":10,\"output_tokens\":5}}");
    assert_eq!((usage.input_tokens(), usage.output_tokens()), (10, 5));
}

#[test]
fn a_sum_that_is_too_large_is_not_counted() {
    let usage = UsageFields { total: None, input: Some(u64::MAX), output: Some(1) };
    assert_eq!(usage.tokens(), None);
    let usage = UsageFields { total: None, input: Some(u64::MAX), output: None };
    assert_eq!(usage.tokens(), Some(u64::MAX));
}

#[test]
fn the_family_comes_before_the_slash() {
    assert_eq!(model_family("zyr/gpt-5.5"), "zyr");
    assert_eq!(model_family("a/b/c"), "a");
    assert_eq!(model_family("gpt-4"), "gpt-4");
    assert_eq!(model_family("/x"), "");
    assert_eq!(model_family(""), "");
}

#[test]
fn the_longest_prefix_wins() {
    let upstreams = config().upstreams;
    assert_eq!(longest_prefix(&upstreams, "/v1/messages/1"), Some("/v1/messages".to_string()));
    assert_eq!(longest_prefix(&upstreams, "/v1/m"), Some("/v1".to_string()));
    assert_eq!(longest_prefix(&upstreams, "/v"), None);
    let mut turns = RoundRobin::new();
    assert_eq!(
        turns.route(&upstreams, "/v1/messages/1", "/v1/messages/1?a=b"),
        Some("http://messages/1?a=b".to_string())
    );
    assert_eq!(turns.route(&upstreams, "/", "/"), None);
}

#[test]
fn servers_of_a_group_take_turns() {
    let upstreams = config().upstreams;
    let mut turns = RoundRobin::new();
    let mut next = || turns.route(&upstreams, "/v1/chat", "/v1/chat").unwrap();
    assert_eq!(next(), "http://one/v1/chat");
    assert_eq!(next(), "http://two/v1/chat");
    assert_eq!(next(), "http://one/v1/chat");
    assert!(turns.route(&upstreams, "/v1/messages", "/v1/messages").is_some());
    assert_eq!(turns.route(&upstreams, "/v1/x", "/v1/x"), Some("http://two/v1/x".to_string()));
}

#[test]
fn each_of_n_servers_takes_one_of_n_requests() {
    let mut turns = RoundRobin::new();
    for start in 0..4 {
        let mut seen: Vec<usize> = (0..4).map(|_| turns.pick("/v1", 4)).collect();
        assert_eq!(seen[0], start);
        seen.sort();
        assert_eq!(seen, vec![0, 1, 2, 3]);
        turns.pick("/v1", 4);
    }
    assert_eq!(turns.pick("/other", 3), 0);
}

#[test]
fn a_group_that_shrinks_keeps_its_turn_in_range() {
    let mut turns = RoundRobin::new();
    for _ in 0..3 {
        turns.pick("/v1", 5);
    }
    assert_eq!(turns.pick("/v1", 2), 1);
    assert_eq!(turns.pick("/v1", 2), 0);
}

#[test]
fn the_prefix_is_stripped_from_the_path() {
    assert_eq!(
        target_url("http://localhost:20128/v1", "/v1", "/v1/chat/completions?s=1"),
        "http://localhost:20128/v1/chat/completions?s=1"
    );
    assert_eq!(target_url("http://h//", "", "/x"), "http://h/x");
    assert_eq!(target_url("http://h", "/v1", ""), "http://h");
    assert_eq!(target_url("http://h", "/v1", "/v1"), "http://h");
}

#[test]
fn a_prefix_that_ends_in_a_slash_keeps_the_path_apart() {
    assert_eq!(target_url("http://h", "/", "/v1"), "http://h/v1");
    assert_eq!(target_url("http://h/", "/", "/v1?x=1"), "http://h/v1?x=1");
    assert_eq!(target_url("http://h", "/", "/"), "http://h");
    assert_eq!(target_url("http://h", "/", "/?x=1"), "http://h?x=1");
    assert_eq!(target_url("http://h/v1", "/api/", "/api/chat"), "http://h/v1/chat");
    let upstreams = vec![upstream("/", "http://h")];
    let mut turns = RoundRobin::new();
    assert_eq!(turns.route(&upstreams, "/v1", "/v1"), Some("http://h/v1".to_string()));
}

#[test]
fn a_request_stays_on_the_chosen_server() {
    assert_eq!(target_url("https://a.b", "/v1/m", "/v1/m@c.d/x"), "https://a.b/@c.d/x");
    assert_eq!(target_url("https://a.b", "/v1", "/v1.c.d/x"), "https://a.b/.c.d/x");
    assert_eq!(target_url("https://a.b", "/v1", "/v1:99/x"), "https://a.b/:99/x");
    let mut config = config();
    config.upstreams = vec![upstream("/v1/messages", "https://a.b")];
    let mut limiter = SlidingLimiter::new();
    let mut turns = RoundRobin::new();
    let ask = inquiry("sk-free", "o1", "Mon", "/v1/messages@c.d");
    match decide_inquiry(&config, &mut limiter, &mut turns, ask).1 {
        Decision::Forward { url, .. } => assert_eq!(url, "https://a.b/@c.d?x=1"),
        other => panic!("{:?}", other),
    }
}
