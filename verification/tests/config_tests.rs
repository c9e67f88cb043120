use runsteps::config::{
    pick_closest, error_location, extract_unknown_field, known_keys, parse_error_report, suggest_any_key,
    suggest_key, Config, Metadata, Step,
};
use runsteps::strmap::StrMap;

fn meta(name: &str) -> Metadata {
    Metadata {
        name: name.to_string(),
        description: None,
        justfile: None,
        working_directory: None,
    }
}

fn make_step(name: &str, command: Option<&str>, just_recipe: Option<&str>) -> Step {
    Step {
        name: name.to_string(),
        description: format!("{} desc", name),
        command: command.map(String::from),
        just_recipe: just_recipe.map(String::from),
        just_no_deps: None,
        group: None,
        confirm: false,
        depends_on: vec![],
        args: vec![],
        prompts: StrMap::new(),
        raw: false,
        env: StrMap::new(),
        parallel: false,
    }
}

fn config_of(name: &str, steps: Vec<Step>) -> Config {
    Config {
        metadata: meta(name),
        steps,
        profiles: StrMap::new(),
    }
}

#[test]
fn test_step_display() {
    let step = make_step("deploy", Some("make deploy"), None);
    assert_eq!(step.display_line(), "deploy: deploy desc");
}

#[test]
fn test_validate_passes() {
    let config = config_of("ok", vec![make_step("a", Some("echo a"), None)]);
    assert!(config.validate().is_ok());
}

#[test]
fn test_validate_empty_steps() {
    let config = config_of("empty", vec![]);
    assert!(config.validate().is_err());
}

#[test]
fn test_validate_neither() {
    let mut bad = make_step("bad", None, None);
    bad.description = "bad".to_string();
    let config = config_of("x", vec![bad]);
    let err = config.validate().unwrap_err().message();
    assert!(err.contains("neither"));
}

#[test]
fn test_validate_both() {
    let mut bad = make_step("bad", Some("echo"), Some("recipe"));
    bad.description = "bad".to_string();
    let config = config_of("x", vec![bad]);
    let err = config.validate().unwrap_err().message();
    assert!(err.contains("both"));
}

#[test]
fn test_validate_duplicate_names() {
    let config = config_of(
        "x",
        vec![
            make_step("dup", Some("echo 1"), None),
            make_step("dup", Some("echo 2"), None),
        ],
    );
    let err = config.validate().unwrap_err().message();
    assert!(err.contains("Duplicate"));
}

#[test]
fn test_validate_bad_depends_on() {
    let mut b = make_step("b", Some("echo b"), None);
    b.description = "b".to_string();
    b.depends_on = vec!["nonexistent".to_string()];
    let config = config_of("x", vec![b]);
    let err = config.validate().unwrap_err().message();
    assert!(err.contains("unknown step"));
}

fn metadata_fields() -> Vec<&'static str> {
    vec!["name", "description", "justfile", "working_directory"]
}

fn step_fields() -> Vec<&'static str> {
    vec![
        "name",
        "description",
        "command",
        "just_recipe",
        "just_no_deps",
        "group",
        "confirm",
        "depends_on",
    ]
}

#[test]
fn known_keys_covers_struct_fields() {
    let keys = known_keys();
    let missing: Vec<&str> = metadata_fields()
        .into_iter()
        .chain(step_fields())
        .filter(|f| !keys.contains(f))
        .collect();
    assert!(missing.is_empty(), "These struct fields are missing from KNOWN_KEYS: {:?}", missing);
}

#[test]
fn known_keys_only_contains_real_fields() {
    let all: Vec<&str> = metadata_fields().into_iter().chain(step_fields()).collect();
    let phantom: Vec<&str> = known_keys().into_iter().filter(|k| !all.contains(k)).collect();
    assert!(phantom.is_empty(), "KNOWN_KEYS references non-existent fields: {:?}", phantom);
}

#[test]
fn suggest_key_metadata_typo() {
    assert_eq!(suggest_key("meta"), None);
    assert_eq!(suggest_key("just_recipee"), Some("just_recipe"));
    assert_eq!(suggest_key("comand"), Some("command"));
    assert_eq!(suggest_key("confirn"), Some("confirm"));
}

#[test]
fn suggest_key_no_match_returns_none() {
    assert_eq!(suggest_key("completely_bogus_field_xyz"), None);
}

#[test]
fn extract_unknown_field_parses_toml_error() {
    let msg = "unknown field `meta`, expected one of `name`, `description`";
    assert_eq!(extract_unknown_field(msg), Some("meta".to_string()));
}

#[test]
fn extract_unknown_field_ignores_other_messages() {
    assert_eq!(extract_unknown_field("missing field `name`"), None);
}

#[test]
fn suggest_any_key_prefers_table_names() {
    assert_eq!(suggest_any_key("meta"), Some("metadata"));
    assert_eq!(suggest_any_key("step"), Some("steps"));
    assert_eq!(suggest_any_key("just_recipee"), Some("just_recipe"));
    assert_eq!(suggest_any_key("zzzzzzzzzzzz"), None);
}

#[test]
fn error_location_counts_lines_and_columns() {
    let content = "[metadata]\nname = \"x\"\nbogus = 1\n";
    // Offset 22 is the start of the third line; the two lines before it are counted.
    assert_eq!(error_location("cfg.toml", content, Some(22)), "cfg.toml:2:1");
    assert_eq!(error_location("cfg.toml", content, Some(24)), "cfg.toml:3:3");
    assert_eq!(error_location("cfg.toml", content, Some(3)), "cfg.toml:1:4");
    assert_eq!(error_location("cfg.toml", content, None), "cfg.toml");
}

#[test]
fn parse_error_report_suggests_or_lists_keys() {
    let r = parse_error_report("unknown field `comand`, expected one of `name`", "f.toml:3:1");
    assert_eq!(
        r,
        vec![
            "error: unknown field `comand` in f.toml:3:1".to_string(),
            "  did you mean `command`?".to_string()
        ]
    );
    let r = parse_error_report("unknown field `bogusfieldxyz`, expected x", "f.toml");
    assert_eq!(r.len(), 2);
    assert_eq!(r[0], "error: unknown field `bogusfieldxyz` in f.toml");
    assert!(r[1].starts_with("  known keys: name, description"));
    let r = parse_error_report("invalid string", "f.toml:1:2");
    assert_eq!(r, vec!["error: invalid TOML in f.toml:1:2: invalid string".to_string()]);
}

#[test]
fn pick_closest_takes_first_smallest_within_threshold() {
    assert_eq!(pick_closest(&vec![5, 2, 3, 2], 3), Some(1));
    assert_eq!(pick_closest(&vec![5, 4], 3), None);
    assert_eq!(pick_closest(&vec![], 3), None);
}
