use dotconf::ConfigValue;
use dotconf::format_as_json;
use dotconf::insert_config_value;
use dotconf::parse_config_file;
use dotconf::parse_line;
use dotconf::split_key;

fn leaf(s: &str) -> ConfigValue {
    ConfigValue::Leaf(s.to_string())
}

fn json(s: &str) -> serde_json::Value {
    serde_json::from_str(s).unwrap()
}

#[test]
fn parse_assignment_strips_surrounding_whitespace() {
    assert_eq!(
        parse_line("  k.sub = v  "),
        Some(("k.sub".to_string(), "v".to_string()))
    );
}

#[test]
fn parse_assignment_keeps_internal_whitespace() {
    assert_eq!(
        parse_line("a = hello world"),
        Some(("a".to_string(), "hello world".to_string()))
    );
}

#[test]
fn parse_assignment_value_may_hold_equals_signs() {
    assert_eq!(
        parse_line("a.b.c== x ="),
        Some(("a.b.c".to_string(), "= x =".to_string()))
    );
}

#[test]
fn comment_lines_yield_nothing() {
    assert_eq!(parse_line("# a = 1"), None);
    assert_eq!(parse_line("   # indented comment"), None);
    assert_eq!(parse_line("#"), None);
}

#[test]
fn blank_lines_yield_nothing() {
    assert_eq!(parse_line(""), None);
    assert_eq!(parse_line("   "), None);
    assert_eq!(parse_line("\t \t"), None);
}

#[test]
fn malformed_lines_are_silently_skipped() {
    assert_eq!(parse_line("no equals sign"), None);
    assert_eq!(parse_line("= value without key"), None);
    assert_eq!(parse_line("key ="), None);
    assert_eq!(parse_line("key =    "), None);
    assert_eq!(parse_line("bad key = 1"), None);
    assert_eq!(parse_line("k!ey = 1"), None);
}

#[test]
fn split_key_on_dots() {
    assert_eq!(split_key("server.host"), vec!["server", "host"]);
    assert_eq!(split_key("flat"), vec!["flat"]);
    assert_eq!(split_key("a..b"), vec!["a", "", "b"]);
    assert_eq!(split_key("."), vec!["", ""]);
}

#[test]
fn sibling_keys_share_their_namespace() {
    let mut config: Vec<(String, ConfigValue)> = Vec::new();
    insert_config_value(&mut config, "a.b", leaf("1")).unwrap();
    insert_config_value(&mut config, "a.c", leaf("2")).unwrap();
    let expected = vec![(
        "a".to_string(),
        ConfigValue::Node(vec![
            ("b".to_string(), leaf("1")),
            ("c".to_string(), leaf("2")),
        ]),
    )];
    assert_eq!(config, expected);
    assert_eq!(
        json(&format_as_json(&config)),
        json("{\"a\": {\"b\": \"1\", \"c\": \"2\"}}")
    );
}

#[test]
fn duplicate_flat_key_last_value_wins() {
    let mut config: Vec<(String, ConfigValue)> = Vec::new();
    insert_config_value(&mut config, "a", leaf("1")).unwrap();
    insert_config_value(&mut config, "a", leaf("2")).unwrap();
    assert_eq!(config, vec![("a".to_string(), leaf("2"))]);
    assert_eq!(json(&format_as_json(&config)), json("{\"a\": \"2\"}"));
}

#[test]
fn final_segment_overwrites_a_namespace_too() {
    let mut config: Vec<(String, ConfigValue)> = Vec::new();
    insert_config_value(&mut config, "a.b", leaf("1")).unwrap();
    insert_config_value(&mut config, "a", leaf("2")).unwrap();
    assert_eq!(config, vec![("a".to_string(), leaf("2"))]);
}

#[test]
fn leaf_then_descend_is_a_reported_conflict() {
    let mut config: Vec<(String, ConfigValue)> = Vec::new();
    insert_config_value(&mut config, "a", leaf("1")).unwrap();
    let err = insert_config_value(&mut config, "a.b", leaf("2")).unwrap_err();
    assert_eq!(err.key, "a.b");
    // the failed insertion leaves the tree unchanged
    assert_eq!(config, vec![("a".to_string(), leaf("1"))]);
}

#[test]
fn conflict_deep_in_a_path_names_the_whole_key() {
    let mut config: Vec<(String, ConfigValue)> = Vec::new();
    insert_config_value(&mut config, "a.b", leaf("1")).unwrap();
    let err = insert_config_value(&mut config, "a.b.c.d", leaf("2")).unwrap_err();
    assert_eq!(err.key, "a.b.c.d");
    assert_eq!(
        config,
        vec![(
            "a".to_string(),
            ConfigValue::Node(vec![("b".to_string(), leaf("1"))]),
        )]
    );
}

#[test]
fn as_map_mut_borrows_namespace_entries() {
    let mut v = ConfigValue::Node(vec![("x".to_string(), leaf("1"))]);
    let entries = v.as_map_mut().unwrap();
    entries.push(("y".to_string(), leaf("2")));
    assert_eq!(
        v,
        ConfigValue::Node(vec![
            ("x".to_string(), leaf("1")),
            ("y".to_string(), leaf("2")),
        ])
    );
    assert_eq!(leaf("1").as_map_mut(), None);
}

#[test]
fn empty_tree_formats_as_empty_object() {
    let config: Vec<(String, ConfigValue)> = Vec::new();
    assert_eq!(format_as_json(&config), "{}");
}

#[test]
fn depth_one_tree_round_trips_through_a_json_reader() {
    let mut config: Vec<(String, ConfigValue)> = Vec::new();
    insert_config_value(&mut config, "x", leaf("1")).unwrap();
    insert_config_value(&mut config, "y", leaf("2")).unwrap();
    let text = format_as_json(&config);
    let reread: serde_json::Value = serde_json::from_str(&text).unwrap();
    assert_eq!(reread, json("{\"x\": \"1\", \"y\": \"2\"}"));
}

#[test]
fn values_stay_strings_with_no_type_inference() {
    let mut config: Vec<(String, ConfigValue)> = Vec::new();
    insert_config_value(&mut config, "n", leaf("8080")).unwrap();
    insert_config_value(&mut config, "b", leaf("true")).unwrap();
    let reread: serde_json::Value = serde_json::from_str(&format_as_json(&config)).unwrap();
    assert_eq!(reread, json("{\"n\": \"8080\", \"b\": \"true\"}"));
}

#[test]
fn quotes_backslashes_and_controls_are_escaped() {
    let mut config: Vec<(String, ConfigValue)> = Vec::new();
    insert_config_value(&mut config, "q", leaf("say \"hi\" \\ there")).unwrap();
    insert_config_value(&mut config, "c", leaf("a\tb\u{1}c")).unwrap();
    let text = format_as_json(&config);
    let reread: serde_json::Value = serde_json::from_str(&text).unwrap();
    assert_eq!(
        reread,
        json("{\"q\": \"say \\\"hi\\\" \\\\ there\", \"c\": \"a\\tb\\u0001c\"}")
    );
}

#[test]
fn pretty_output_is_indented_two_spaces_per_level() {
    let mut config: Vec<(String, ConfigValue)> = Vec::new();
    insert_config_value(&mut config, "a.b.c", leaf("1")).unwrap();
    let expected = "{\n  \"a\": {\n    \"b\": {\n      \"c\": \"1\"\n    }\n  }\n}";
    assert_eq!(format_as_json(&config), expected);
}

#[test]
fn whole_file_parses_to_the_expected_json() {
    let lines: Vec<String> = vec![
        "# comment".to_string(),
        "name = test".to_string(),
        "server.host = localhost".to_string(),
        "server.port = 8080".to_string(),
        "".to_string(),
    ];
    let config = parse_config_file(&lines).unwrap();
    let reread: serde_json::Value = serde_json::from_str(&format_as_json(&config)).unwrap();
    assert_eq!(
        reread,
        json("{\"name\":\"test\",\"server\":{\"host\":\"localhost\",\"port\":\"8080\"}}")
    );
}

#[test]
fn whole_file_conflict_names_the_offending_key() {
    let lines: Vec<String> = vec![
        "a = 1".to_string(),
        "a.b = 2".to_string(),
        "c = 3".to_string(),
    ];
    let err = parse_config_file(&lines).unwrap_err();
    assert_eq!(err.key, "a.b");
}

#[test]
fn empty_segments_from_dotted_keys_are_real_keys() {
    let lines: Vec<String> = vec![". = x".to_string()];
    let config = parse_config_file(&lines).unwrap();
    let reread: serde_json::Value = serde_json::from_str(&format_as_json(&config)).unwrap();
    assert_eq!(reread, json("{\"\": {\"\": \"x\"}}"));
}
