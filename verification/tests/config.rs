use ninelimiter::config::{
    rules_overlap, string_or_vec, time_in_range, ApiKeyEntry, Config, ConfigError, OneOrMany, Rule,
    Ruleset, UpstreamEntry,
};

// time_in_range

#[test]
fn time_in_range_normal_window() {
    // Window 07:00-22:00
    assert!(time_in_range("07:00", "07:00", "22:00"), "start boundary");
    assert!(time_in_range("12:00", "07:00", "22:00"), "mid-window");
    assert!(time_in_range("21:59", "07:00", "22:00"), "before end");
    assert!(!time_in_range("06:59", "07:00", "22:00"), "before start");
    assert!(!time_in_range("22:00", "07:00", "22:00"), "at exclusive end");
    assert!(!time_in_range("23:00", "07:00", "22:00"), "after end");
}

#[test]
fn time_in_range_overnight() {
    // Window 22:00-07:00
    assert!(time_in_range("22:00", "22:00", "07:00"), "start boundary");
    assert!(time_in_range("23:30", "22:00", "07:00"), "late night");
    assert!(time_in_range("00:00", "22:00", "07:00"), "midnight");
    assert!(time_in_range("06:59", "22:00", "07:00"), "before end");
    assert!(!time_in_range("07:00", "22:00", "07:00"), "at exclusive end");
    assert!(!time_in_range("10:00", "22:00", "07:00"), "gap outside window");
}

#[test]
fn time_in_range_identical_start_end() {
    // 00:00-00:00 covers entire day (overnight path, always true)
    assert!(time_in_range("00:00", "00:00", "00:00"));
    assert!(time_in_range("12:00", "00:00", "00:00"));
    assert!(time_in_range("23:59", "00:00", "00:00"));
}

#[test]
fn time_in_range_one_minute_window() {
    // Overnight comparison with single-minute window 23:59-00:00
    assert!(time_in_range("23:59", "23:59", "00:00"));
    assert!(!time_in_range("00:00", "23:59", "00:00"));
}

// rules_overlap

fn make_rule(
    models: Vec<&str>,
    time_start: &str,
    time_end: &str,
    days: Vec<&str>,
) -> Rule {
    Rule {
        models: models.into_iter().map(String::from).collect(),
        limit: 10,
        window_secs: 3600,
        time_start: time_start.into(),
        time_end: time_end.into(),
        days: days.into_iter().map(String::from).collect(),
    }
}

#[test]
fn rules_overlap_wildcard_matches_any_model() {
    let a = make_rule(vec!["*"], "09:00", "17:00", vec!["Mon"]);
    let b = make_rule(vec!["gpt-4"], "10:00", "16:00", vec!["Mon"]);
    assert!(rules_overlap(&a, &b));
    assert!(rules_overlap(&b, &a));
}

#[test]
fn rules_overlap_exact_model_match() {
    let a = make_rule(vec!["gpt-4"], "09:00", "17:00", vec!["Mon"]);
    let b = make_rule(vec!["gpt-4"], "10:00", "16:00", vec!["Mon"]);
    assert!(rules_overlap(&a, &b));
}

#[test]
fn rules_overlap_no_model_match() {
    let a = make_rule(vec!["gpt-4"], "09:00", "17:00", vec!["Mon"]);
    let b = make_rule(vec!["gemini-3"], "09:00", "17:00", vec!["Mon"]);
    assert!(!rules_overlap(&a, &b));
}

#[test]
fn rules_overlap_no_day_overlap() {
    let a = make_rule(vec!["*"], "09:00", "17:00", vec!["Mon"]);
    let b = make_rule(vec!["*"], "09:00", "17:00", vec!["Tue"]);
    assert!(!rules_overlap(&a, &b));
}

#[test]
fn rules_overlap_different_days_same_model_no_overlap() {
    let a = make_rule(vec!["gpt-4"], "09:00", "17:00", vec!["Mon", "Wed"]);
    let b = make_rule(vec!["gpt-4"], "09:00", "17:00", vec!["Tue", "Thu"]);
    assert!(!rules_overlap(&a, &b));
}

#[test]
fn rules_overlap_no_temporal_overlap() {
    let a = make_rule(vec!["*"], "09:00", "12:00", vec!["Mon"]);
    let b = make_rule(vec!["*"], "13:00", "17:00", vec!["Mon"]);
    assert!(!rules_overlap(&a, &b));
}

#[test]
fn rules_overlap_edge_touching_overlaps_in_range_check() {
    // time_in_range uses >= for start, so a.end == b.start counts as overlap.
    // This is a best-effort warning — false positives are acceptable.
    let a = make_rule(vec!["*"], "09:00", "12:00", vec!["Mon"]);
    let b = make_rule(vec!["*"], "12:00", "17:00", vec!["Mon"]);
    assert!(rules_overlap(&a, &b));
}

#[test]
fn rules_overlap_multi_model_partial_match() {
    let a = make_rule(vec!["gpt-4", "gemini-3"], "09:00", "17:00", vec!["Mon"]);
    let b = make_rule(vec!["gemini-3"], "10:00", "16:00", vec!["Mon"]);
    assert!(rules_overlap(&a, &b));
}

#[test]
fn rules_overlap_both_wildcard() {
    let a = make_rule(vec!["*"], "09:00", "17:00", vec!["Mon"]);
    let b = make_rule(vec!["*"], "10:00", "16:00", vec!["Mon"]);
    assert!(rules_overlap(&a, &b));
}

#[test]
fn rules_overlap_overnight_temporal() {
    let a = make_rule(vec!["*"], "22:00", "07:00", vec!["Mon"]);
    let b = make_rule(vec!["*"], "00:00", "05:00", vec!["Mon"]);
    assert!(rules_overlap(&a, &b));
}

#[test]
fn rules_overlap_overnight_no_overlap_different_day() {
    let a = make_rule(vec!["*"], "22:00", "07:00", vec!["Mon"]);
    let b = make_rule(vec!["*"], "00:00", "05:00", vec!["Tue"]);
    assert!(!rules_overlap(&a, &b));
}

#[test]
fn rules_overlap_empty_models_list() {
    let a = make_rule(vec![], "09:00", "17:00", vec!["Mon"]);
    let b = make_rule(vec!["gpt-4"], "09:00", "17:00", vec!["Mon"]);
    // Neither is "*" nor does a contain b's model
    assert!(!rules_overlap(&a, &b));
}

// Config::validate

fn valid_config() -> Config {
    Config {
        listen: None,
        upstreams: vec![],
        fallback_ruleset: Some("default".into()),
        rulesets: vec![Ruleset {
            name: "default".into(),
            rules: vec![Rule {
                models: vec!["*".into()],
                limit: 100,
                window_secs: 3600,
                time_start: "00:00".into(),
                time_end: "23:59".into(),
                days: vec![
                    "Mon".into(), "Tue".into(), "Wed".into(),
                    "Thu".into(), "Fri".into(), "Sat".into(), "Sun".into(),
                ],
            }],
        }],
        api_keys: vec![],
        database: None,
        timezone: None,
    }
}

#[test]
fn validate_ok() {
    assert!(valid_config().validate().is_ok());
}

#[test]
fn validate_ok_no_fallback() {
    let mut cfg = valid_config();
    cfg.fallback_ruleset = None;
    assert!(cfg.validate().is_ok());
}

#[test]
fn validate_ok_empty_rulesets() {
    let cfg = Config {
        listen: None,
        upstreams: vec![],
        fallback_ruleset: None,
        rulesets: vec![],
        api_keys: vec![],
        database: None,
        timezone: None,
    };
    assert!(cfg.validate().is_ok());
}

#[test]
fn validate_err_fallback_not_found() {
    let mut cfg = valid_config();
    cfg.fallback_ruleset = Some("missing".into());
    let err = cfg.validate().unwrap_err().message();
    assert!(err.contains("missing"));
    assert!(err.contains("rulesets"));
}

#[test]
fn validate_err_api_key_ruleset_not_found() {
    let mut cfg = valid_config();
    cfg.api_keys = vec![ApiKeyEntry {
        ruleset: "ghost".into(),
        keys: vec!["sk-xxx".into()],
    }];
    let err = cfg.validate().unwrap_err().message();
    assert!(err.contains("ghost"));
    assert!(err.contains("api_key"));
}

#[test]
fn validate_err_limit_zero() {
    let mut cfg = valid_config();
    cfg.rulesets[0].rules[0].limit = 0;
    let err = cfg.validate().unwrap_err().message();
    assert!(err.contains("limit must be > 0"));
}

#[test]
fn validate_err_window_secs_zero() {
    let mut cfg = valid_config();
    cfg.rulesets[0].rules[0].window_secs = 0;
    let err = cfg.validate().unwrap_err().message();
    assert!(err.contains("window_secs must be > 0"));
}

#[test]
fn validate_err_invalid_time_format() {
    let mut cfg = valid_config();
    cfg.rulesets[0].rules[0].time_start = "nine".into();
    let err = cfg.validate().unwrap_err().message();
    assert!(err.contains("invalid time format"));
}

#[test]
fn validate_err_hour_out_of_range() {
    let mut cfg = valid_config();
    cfg.rulesets[0].rules[0].time_start = "24:00".into();
    let err = cfg.validate().unwrap_err().message();
    assert!(err.contains("out of range") || err.contains("invalid hour"));
}

#[test]
fn validate_err_minute_out_of_range() {
    let mut cfg = valid_config();
    cfg.rulesets[0].rules[0].time_start = "12:60".into();
    let err = cfg.validate().unwrap_err().message();
    assert!(err.contains("out of range") || err.contains("invalid minute"));
}

#[test]
fn validate_err_time_not_numbers() {
    let mut cfg = valid_config();
    cfg.rulesets[0].rules[0].time_start = "ab:cd".into();
    let err = cfg.validate().unwrap_err().message();
    assert!(err.contains("invalid hour") || err.contains("parse"));
}

#[test]
fn validate_err_invalid_day() {
    let mut cfg = valid_config();
    cfg.rulesets[0].rules[0].days = vec!["Funday".into()];
    let err = cfg.validate().unwrap_err().message();
    assert!(err.contains("invalid day"));
}

#[test]
fn validate_err_overnight_time_start_parses() {
    // Overnight window is allowed; test it parses correctly
    let mut cfg = valid_config();
    cfg.rulesets[0].rules[0].time_start = "22:00".into();
    cfg.rulesets[0].rules[0].time_end = "06:00".into();
    assert!(cfg.validate().is_ok(), "overnight window should be valid");
}

#[test]
fn validate_multi_rule_overlap_warning_only() {
    // Overlapping rules only warn, not error
    let cfg = Config {
        listen: None,
        upstreams: vec![],
        fallback_ruleset: None,
        rulesets: vec![Ruleset {
            name: "test".into(),
            rules: vec![
                Rule {
                    models: vec!["*".into()],
                    limit: 10,
                    window_secs: 3600,
                    time_start: "09:00".into(),
                    time_end: "17:00".into(),
                    days: vec!["Mon".into()],
                },
                Rule {
                    models: vec!["*".into()],
                    limit: 5,
                    window_secs: 1800,
                    time_start: "10:00".into(),
                    time_end: "16:00".into(),
                    days: vec!["Mon".into()],
                },
            ],
        }],
        api_keys: vec![],
        database: None,
        timezone: None,
    };
    // Should still pass — overlap is only a warning
    assert!(cfg.validate().is_ok());
}


// string_or_vec, on values read from YAML

fn one_or_many(value: &serde_yaml::Value) -> OneOrMany {
    match value {
        serde_yaml::Value::Sequence(items) => OneOrMany::Many(
            items.iter().map(|v| v.as_str().unwrap().to_string()).collect(),
        ),
        other => OneOrMany::One(other.as_str().unwrap().to_string()),
    }
}

fn text_at(value: &serde_yaml::Value, key: &str) -> String {
    value.get(key).unwrap().as_str().unwrap().to_string()
}

fn texts_at(value: &serde_yaml::Value, key: &str) -> Vec<String> {
    string_or_vec(one_or_many(value.get(key).unwrap()))
}

fn rule_from(value: &serde_yaml::Value) -> Rule {
    let models = value.get("models").or_else(|| value.get("model")).unwrap();
    Rule {
        models: string_or_vec(one_or_many(models)),
        limit: value.get("limit").unwrap().as_u64().unwrap() as u32,
        window_secs: value.get("window_secs").unwrap().as_u64().unwrap(),
        time_start: text_at(value, "time_start"),
        time_end: text_at(value, "time_end"),
        days: texts_at(value, "days"),
    }
}

fn items<'a>(value: &'a serde_yaml::Value, key: &str) -> &'a Vec<serde_yaml::Value> {
    value.get(key).unwrap().as_sequence().unwrap()
}

fn config_from(yaml: &str) -> Config {
    let value: serde_yaml::Value = serde_yaml::from_str(yaml).unwrap();
    let optional = |key: &str| value.get(key).and_then(|v| v.as_str()).map(|s| s.to_string());
    Config {
        listen: optional("listen"),
        upstreams: items(&value, "upstreams")
            .iter()
            .map(|u| UpstreamEntry {
                path_prefix: text_at(u, "path_prefix"),
                base_url: text_at(u, "base_url"),
            })
            .collect(),
        fallback_ruleset: optional("fallback_ruleset"),
        rulesets: items(&value, "rulesets")
            .iter()
            .map(|rs| Ruleset {
                name: text_at(rs, "name"),
                rules: items(rs, "rules").iter().map(rule_from).collect(),
            })
            .collect(),
        api_keys: items(&value, "api_keys")
            .iter()
            .map(|e| ApiKeyEntry { ruleset: text_at(e, "ruleset"), keys: texts_at(e, "keys") })
            .collect(),
        database: None,
        timezone: optional("timezone"),
    }
}

fn read_rule(yaml: &str) -> Rule {
    let value: serde_yaml::Value = serde_yaml::from_str(yaml).unwrap();
    rule_from(&value)
}

#[test]
fn string_or_vec_single_from_yaml() {
    let yaml = r#"
model: gpt-4
limit: 10
window_secs: 60
time_start: "09:00"
time_end: "17:00"
days: [Mon]
"#;
    let rule: Rule = read_rule(yaml);
    assert_eq!(rule.models, vec!["gpt-4"]);
}

#[test]
fn string_or_vec_multi_from_yaml() {
    let yaml = r#"
models:
  - gpt-4
  - gemini-3
limit: 10
window_secs: 60
time_start: "09:00"
time_end: "17:00"
days: [Mon]
"#;
    let rule: Rule = read_rule(yaml);
    assert_eq!(rule.models, vec!["gpt-4", "gemini-3"]);
}

#[test]
fn string_or_vec_empty_string() {
    let yaml = r#"
model: ""
limit: 10
window_secs: 60
time_start: "09:00"
time_end: "17:00"
days: [Mon]
"#;
    let rule: Rule = read_rule(yaml);
    assert_eq!(rule.models, vec![""]);
}

#[test]
fn string_or_vec_single_with_alias() {
    // "models" is the canonical field name; "model" is alias for single string
    let yaml = r#"
model: gemini-3-opus
limit: 5
window_secs: 120
time_start: "00:00"
time_end: "23:59"
days: [Mon, Tue, Wed]
"#;
    let rule: Rule = read_rule(yaml);
    assert_eq!(rule.models, vec!["gemini-3-opus"]);
}

#[test]
fn test_overlap_does_not_crash() {
    let yaml = r#"
upstreams:
  - path_prefix: "/v1/chat"
    base_url: "https://api.openai.com"
rulesets:
  - name: test
    rules:
      - model: "gpt-4"
        limit: 100
        window_secs: 3600
        time_start: "09:00"
        time_end: "17:00"
        days: [Mon, Tue, Wed, Thu, Fri]
      - model: "gpt-4"
        limit: 50
        window_secs: 3600
        time_start: "12:00"
        time_end: "14:00"
        days: [Mon, Wed, Fri]
api_keys:
  - ruleset: test
    keys: ["sk-test"]
"#;
    let cfg: Config = config_from(yaml);
    cfg.validate().unwrap();
}


// What the configuration promises beyond that

const EXAMPLE: &str = r#"
listen: ":8080"

upstreams:
  - path_prefix: "/v1/chat/completions"
    base_url: "https://api.openai.com"
  - path_prefix: "/v1/messages"
    base_url: "https://api.anthropic.com"

fallback_ruleset: default

rulesets:
  - name: default
    rules:
      - model: "*"
        limit: 10
        window_secs: 3600
        time_start: "00:00"
        time_end: "23:59"
        days: [Mon, Tue, Wed, Thu, Fri, Sat, Sun]

  - name: premium
    rules:
      - model: "*"
        limit: 500
        window_secs: 3600
        time_start: "07:00"
        time_end: "22:00"
        days: [Mon, Tue, Wed, Thu, Fri]

api_keys:
  - ruleset: premium
    keys:
      - "sk-abc-123"
      - "sk-def-456"
"#;

#[test]
fn test_parse_config() {
    let cfg = config_from(EXAMPLE);
    cfg.validate().unwrap();
    assert_eq!(cfg.rulesets.len(), 2);
    assert_eq!(cfg.api_keys.len(), 1);
    assert_eq!(cfg.api_keys[0].keys.len(), 2);
}

#[test]
fn test_config_swap() {
    let mut config = config_from(EXAMPLE);
    let before = config.listen.clone();
    let mut new_cfg = config_from(EXAMPLE);
    new_cfg.listen = Some(":9090".into());
    let (_, result) = config.reload(Some(new_cfg));
    assert!(result.is_ok());
    let after = config.listen.clone();
    assert_ne!(before, after);
    assert_eq!(after, Some(":9090".into()));
}

#[test]
fn a_bad_reload_keeps_the_old_configuration() {
    let mut config = valid_config();
    let mut bad = valid_config();
    bad.listen = Some(":1".into());
    bad.rulesets[0].rules[0].limit = 0;
    let (_, result) = config.reload(Some(bad));
    let error = result.unwrap_err().unwrap();
    assert_eq!(error.message(), "ruleset 'default': limit must be > 0");
    assert_eq!(config.listen, None);
    assert_eq!(config.rulesets[0].rules[0].limit, 100);
}

#[test]
fn an_unread_reload_keeps_the_old_configuration() {
    let mut config = valid_config();
    let (warnings, result) = config.reload(None);
    assert!(warnings.is_empty());
    assert!(result.unwrap_err().is_none());
    assert_eq!(config.fallback_ruleset, Some("default".to_string()));
}

fn message_of(change: fn(&mut Config)) -> String {
    let mut cfg = valid_config();
    change(&mut cfg);
    cfg.validate().unwrap_err().message()
}

#[test]
fn every_error_has_its_message() {
    assert_eq!(
        message_of(|c| c.fallback_ruleset = Some("gone".into())),
        "fallback_ruleset 'gone' not found in rulesets"
    );
    assert_eq!(
        message_of(|c| {
            c.api_keys = vec![ApiKeyEntry { ruleset: "gone".into(), keys: vec![] }]
        }),
        "api_key ruleset 'gone' not found"
    );
    assert_eq!(
        message_of(|c| c.rulesets[0].rules[0].window_secs = 0),
        "ruleset 'default': window_secs must be > 0"
    );
    assert_eq!(
        message_of(|c| c.rulesets[0].rules[0].time_end = "1:2:3".into()),
        "ruleset 'default': invalid time format '1:2:3'"
    );
    assert_eq!(message_of(|c| c.rulesets[0].rules[0].time_end = "ab:00".into()), "invalid hour 'ab'");
    assert_eq!(message_of(|c| c.rulesets[0].rules[0].time_end = "256:00".into()), "invalid hour '256'");
    assert_eq!(message_of(|c| c.rulesets[0].rules[0].time_end = "12:".into()), "invalid minute ''");
    assert_eq!(message_of(|c| c.rulesets[0].rules[0].time_end = "12:-1".into()), "invalid minute '-1'");
    assert_eq!(
        message_of(|c| c.rulesets[0].rules[0].time_end = "24:00".into()),
        "ruleset 'default': time '24:00' out of range"
    );
    assert_eq!(
        message_of(|c| c.rulesets[0].rules[0].time_end = "12:60".into()),
        "ruleset 'default': time '12:60' out of range"
    );
    assert_eq!(
        message_of(|c| c.rulesets[0].rules[0].days = vec!["mon".into()]),
        "ruleset 'default': invalid day 'mon'"
    );
}

#[test]
fn numbers_in_times_are_read_as_numbers() {
    let mut cfg = valid_config();
    cfg.rulesets[0].rules[0].time_start = "+7:005".into();
    assert!(cfg.validate().is_ok());
    cfg.rulesets[0].rules[0].time_start = "+:00".into();
    assert!(matches!(cfg.validate(), Err(ConfigError::Hour { .. })));
}

#[test]
fn the_first_fault_is_reported() {
    let mut cfg = valid_config();
    cfg.rulesets[0].rules[0].limit = 0;
    cfg.rulesets[0].rules[0].days = vec!["Funday".into()];
    assert_eq!(cfg.validate().unwrap_err().message(), "ruleset 'default': limit must be > 0");
    cfg.fallback_ruleset = Some("missing".into());
    assert_eq!(
        cfg.validate().unwrap_err().message(),
        "fallback_ruleset 'missing' not found in rulesets"
    );
}

#[test]
fn overlaps_are_warned_of() {
    let mut cfg = valid_config();
    cfg.rulesets[0].rules = vec![
        make_rule(vec!["*"], "09:00", "17:00", vec!["Mon"]),
        make_rule(vec!["gpt-4"], "18:00", "19:00", vec!["Mon"]),
        make_rule(vec!["gpt-4"], "10:00", "16:00", vec!["Mon"]),
    ];
    let (warnings, result) = cfg.inspect();
    assert!(result.is_ok());
    assert_eq!(warnings.len(), 1);
    assert_eq!(warnings[0].ruleset, "default");
    assert_eq!((warnings[0].first, warnings[0].second), (0, 2));
}

#[test]
fn edge_touching_overlaps_one_way_only() {
    let a = make_rule(vec!["*"], "09:00", "12:00", vec!["Mon"]);
    let b = make_rule(vec!["*"], "12:00", "17:00", vec!["Mon"]);
    assert!(rules_overlap(&a, &b));
    assert!(!rules_overlap(&b, &a));
}

#[test]
fn overnight_window_is_the_rest_of_the_day() {
    for time in ["00:00", "06:59", "07:00", "12:00", "21:59", "22:00", "23:59"] {
        assert_ne!(time_in_range(time, "07:00", "22:00"), time_in_range(time, "22:00", "07:00"));
    }
}
