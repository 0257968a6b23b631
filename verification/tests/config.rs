use logselect::config::{rules_from_table, ConfigError, ConfigValue};
use logselect::render::logselect;
use logselect::rule::with_fallback;

fn entry(key: &str, value: ConfigValue) -> (String, ConfigValue) {
    (key.to_string(), value)
}

fn text(s: &str) -> ConfigValue {
    ConfigValue::Text(s.to_string())
}

fn corpus(v: &[&str]) -> Vec<String> {
    v.iter().map(|s| s.to_string()).collect()
}

#[test]
fn table_with_start_builds_one_rule() {
    let table = vec![entry("start", text("begin"))];
    let rules = rules_from_table(&table).unwrap();
    assert_eq!(rules.len(), 1);
    let out = logselect(&rules, &corpus(&["x", "begin", "y"]));
    assert_eq!(out, "begin\n");
}

#[test]
fn full_rule_round_trips_through_table() {
    let table = vec![
        entry("start", text("begin")),
        entry("stop", text("end")),
        entry("direction", text("forward")),
        entry("limit", ConfigValue::Integer(10)),
    ];
    let rules = rules_from_table(&table).unwrap();
    assert_eq!(rules.len(), 1);
    let out = logselect(&rules, &corpus(&["x", "begin", "mid", "end", "y"]));
    assert_eq!(out, "begin\nmid\nend\n");
}

#[test]
fn nested_tables_define_independent_rules() {
    let inner_a = vec![entry("start", text("one"))];
    let inner_b = vec![entry("start", text("two"))];
    let table = vec![
        entry("first", ConfigValue::Table(inner_a)),
        entry("second", ConfigValue::Table(inner_b)),
        entry("start", text("outer")),
    ];
    let rules = rules_from_table(&table).unwrap();
    assert_eq!(rules.len(), 3);
    let out = logselect(&rules, &corpus(&["one", "outer", "zzz", "two"]));
    assert_eq!(out, "one\nouter\n\n... ... ...\n\ntwo\n");
}

#[test]
fn disabled_rule_is_dropped_silently() {
    let table = vec![
        entry("start", text("begin")),
        entry("disable", ConfigValue::Boolean(true)),
    ];
    let rules = rules_from_table(&table).unwrap();
    assert_eq!(rules.len(), 0);
}

#[test]
fn table_without_start_contributes_no_rule() {
    let table = vec![entry("limit", ConfigValue::Integer(5))];
    let rules = rules_from_table(&table).unwrap();
    assert_eq!(rules.len(), 0);
}

#[test]
fn empty_rule_list_falls_back_to_default() {
    let table = vec![entry("limit", ConfigValue::Integer(5))];
    let rules = with_fallback(rules_from_table(&table).unwrap());
    assert_eq!(rules.len(), 1);
    let out = logselect(&rules, &corpus(&["fine", "an error"]));
    assert_eq!(out, "an error\n");
}

#[test]
fn direction_aliases_up_and_back_scan_backward() {
    for alias in ["backward", "backwards", "back", "up"] {
        let table = vec![
            entry("start", text("mark")),
            entry("stop", text("top")),
            entry("direction", text(alias)),
        ];
        let rules = rules_from_table(&table).unwrap();
        let out = logselect(&rules, &corpus(&["top", "mid", "mark"]));
        assert_eq!(out, "top\nmid\nmark\n");
    }
}

#[test]
fn direction_aliases_down_and_fwd_scan_forward() {
    for alias in ["forward", "fwd", "down"] {
        let table = vec![
            entry("start", text("mark")),
            entry("stop", text("bottom")),
            entry("direction", text(alias)),
        ];
        let rules = rules_from_table(&table).unwrap();
        let out = logselect(&rules, &corpus(&["mark", "mid", "bottom"]));
        assert_eq!(out, "mark\nmid\nbottom\n");
    }
}

#[test]
fn offsets_are_read_from_the_table() {
    let table = vec![
        entry("start", text("begin")),
        entry("stop", text("end")),
        entry("start_offset", ConfigValue::Integer(1)),
        entry("stop_offset", ConfigValue::Integer(-1)),
    ];
    let rules = rules_from_table(&table).unwrap();
    let out = logselect(&rules, &corpus(&["begin", "mid", "end"]));
    assert_eq!(out, "mid\n");
}

#[test]
fn wrong_type_for_disable_is_fatal() {
    let table = vec![entry("disable", ConfigValue::Integer(1))];
    match rules_from_table(&table) {
        Err(ConfigError::WrongType { key }) => assert_eq!(key, "disable"),
        _ => panic!("expected a wrong-type error"),
    }
}

#[test]
fn wrong_type_for_start_is_fatal() {
    let table = vec![entry("start", ConfigValue::Boolean(true))];
    match rules_from_table(&table) {
        Err(ConfigError::WrongType { key }) => assert_eq!(key, "start"),
        _ => panic!("expected a wrong-type error"),
    }
}

#[test]
fn bad_pattern_is_fatal() {
    let table = vec![entry("start", text("("))];
    match rules_from_table(&table) {
        Err(ConfigError::BadPattern { key, pattern }) => {
            assert_eq!(key, "start");
            assert_eq!(pattern, "(");
        }
        _ => panic!("expected a bad-pattern error"),
    }
}

#[test]
fn bad_while_pattern_is_fatal() {
    let table = vec![entry("while", text("[z"))];
    match rules_from_table(&table) {
        Err(ConfigError::BadPattern { key, .. }) => assert_eq!(key, "while"),
        _ => panic!("expected a bad-pattern error"),
    }
}

#[test]
fn unrecognized_direction_is_fatal() {
    let table = vec![entry("direction", text("sideways"))];
    match rules_from_table(&table) {
        Err(ConfigError::BadDirection { value }) => assert_eq!(value, "sideways"),
        _ => panic!("expected a bad-direction error"),
    }
}

#[test]
fn non_string_direction_is_fatal() {
    let table = vec![entry("direction", ConfigValue::Integer(1))];
    match rules_from_table(&table) {
        Err(ConfigError::WrongType { key }) => assert_eq!(key, "direction"),
        _ => panic!("expected a wrong-type error"),
    }
}

#[test]
fn zero_limit_is_fatal() {
    let table = vec![entry("limit", ConfigValue::Integer(0))];
    assert!(matches!(rules_from_table(&table), Err(ConfigError::BadLimit)));
}

#[test]
fn negative_limit_is_fatal() {
    let table = vec![entry("limit", ConfigValue::Integer(-3))];
    assert!(matches!(rules_from_table(&table), Err(ConfigError::BadLimit)));
}

#[test]
fn non_integer_limit_is_fatal() {
    let table = vec![entry("limit", text("many"))];
    assert!(matches!(rules_from_table(&table), Err(ConfigError::BadLimit)));
}

#[test]
fn unknown_key_with_plain_value_is_fatal() {
    let table = vec![entry("starts", text("x"))];
    match rules_from_table(&table) {
        Err(ConfigError::UnknownKey { key }) => assert_eq!(key, "starts"),
        _ => panic!("expected an unknown-key error"),
    }
}

#[test]
fn error_in_nested_table_aborts_whole_parse() {
    let inner = vec![entry("limit", ConfigValue::Integer(-1))];
    let table = vec![
        entry("start", text("fine")),
        entry("sub", ConfigValue::Table(inner)),
    ];
    assert!(matches!(rules_from_table(&table), Err(ConfigError::BadLimit)));
}
