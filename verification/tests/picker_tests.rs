use runsteps::config::Step;
use runsteps::picker::{filter_by_group, include_dependencies, missing_dependencies, missing_warning};
use runsteps::runner::needs_just;
use runsteps::strmap::StrMap;

fn make_step(name: &str, group: Option<&str>, depends_on: Vec<&str>) -> Step {
    Step {
        name: name.to_string(),
        description: format!("{} desc", name),
        command: Some(format!("echo {}", name)),
        just_recipe: None,
        just_no_deps: None,
        group: group.map(String::from),
        confirm: false,
        depends_on: depends_on.into_iter().map(String::from).collect(),
        args: vec![],
        prompts: StrMap::new(),
        raw: false,
        env: StrMap::new(),
        parallel: false,
    }
}

/// What the picker does after selection when dependencies are accepted.
fn validate_dependencies(selected: &mut Vec<Step>, all: &[Step]) {
    let missing = missing_dependencies(selected);
    if !missing.is_empty() {
        include_dependencies(selected, &all.to_vec(), &missing);
    }
}

#[test]
fn test_filter_by_group_matches() {
    let steps = vec![
        make_step("a", Some("setup"), vec![]),
        make_step("b", Some("deploy"), vec![]),
        make_step("c", Some("setup"), vec![]),
    ];
    let filtered = filter_by_group(&steps, "setup");
    assert_eq!(filtered.len(), 2);
    assert_eq!(filtered[0].name, "a");
    assert_eq!(filtered[1].name, "c");
}

#[test]
fn test_filter_by_group_no_match() {
    let steps = vec![make_step("a", Some("setup"), vec![])];
    let filtered = filter_by_group(&steps, "other");
    assert!(filtered.is_empty());
}

#[test]
fn test_validate_deps_all_selected() {
    let all = vec![make_step("a", None, vec![]), make_step("b", None, vec!["a"])];
    let selected = all.clone();
    assert!(missing_dependencies(&selected).is_empty());
}

#[test]
fn test_validate_deps_auto_include() {
    let all = vec![make_step("a", None, vec![]), make_step("b", None, vec!["a"])];
    let mut selected = vec![all[1].clone()];
    validate_dependencies(&mut selected, &all);
    assert_eq!(selected.len(), 2);
    assert_eq!(selected[0].name, "a");
    assert_eq!(selected[1].name, "b");
}

#[test]
fn test_validate_deps_config_order() {
    let all = vec![
        make_step("setup", None, vec![]),
        make_step("build", None, vec!["setup"]),
        make_step("test", None, vec!["build"]),
    ];
    let mut selected = vec![all[2].clone()];
    validate_dependencies(&mut selected, &all);
    assert!(selected.iter().any(|s| s.name == "build"));
}

#[test]
fn missing_dependencies_lists_each_once_in_first_met_order() {
    let sel = vec![
        make_step("x", None, vec!["b", "a"]),
        make_step("y", None, vec!["a", "x", "c"]),
    ];
    assert_eq!(
        missing_dependencies(&sel),
        vec!["b".to_string(), "a".to_string(), "c".to_string()]
    );
}

#[test]
fn include_dependencies_places_dep_before_first_dependent() {
    let all = vec![
        make_step("a", None, vec![]),
        make_step("b", None, vec![]),
        make_step("c", None, vec!["b"]),
    ];
    let mut selected = vec![all[0].clone(), all[2].clone()];
    let missing = vec!["b".to_string(), "ghost".to_string()];
    include_dependencies(&mut selected, &all, &missing);
    let names: Vec<&str> = selected.iter().map(|s| s.name.as_str()).collect();
    assert_eq!(names, vec!["a", "b", "c"]);
}

#[test]
fn missing_warning_text() {
    assert_eq!(
        missing_warning(&vec!["a".to_string(), "b".to_string()]),
        "\n  Warning: the following dependencies are not selected: a, b"
    );
}

#[test]
fn test_no_just_steps_skips_check() {
    let steps = vec![make_step("a", None, vec![]), make_step("b", None, vec![])];
    assert!(!needs_just(&steps));
    let mut j = make_step("c", None, vec![]);
    j.command = None;
    j.just_recipe = Some("deploy".to_string());
    assert!(needs_just(&vec![j]));
}
