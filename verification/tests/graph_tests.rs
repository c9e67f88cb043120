use runsteps::config::{Config, Metadata, Step};
use runsteps::graph::{
    build_edges, draw_lines, draw_sorted, format_cycle, render_ascii, select_group_closure, GraphError,
};
use runsteps::strmap::StrMap;

fn make_meta() -> Metadata {
    Metadata {
        name: "test".to_string(),
        description: None,
        justfile: None,
        working_directory: None,
    }
}

fn make_step(name: &str, deps: Vec<&str>) -> Step {
    Step {
        name: name.to_string(),
        description: format!("{} desc", name),
        command: Some("echo".to_string()),
        just_recipe: None,
        just_no_deps: None,
        group: None,
        confirm: false,
        depends_on: deps.into_iter().map(String::from).collect(),
        args: vec![],
        prompts: StrMap::new(),
        raw: false,
        env: StrMap::new(),
        parallel: false,
    }
}

fn grouped(name: &str, group: &str, deps: Vec<&str>) -> Step {
    let mut s = make_step(name, deps);
    s.group = Some(group.to_string());
    s
}

fn config_of(steps: Vec<Step>) -> Config {
    Config { metadata: make_meta(), steps, profiles: StrMap::new() }
}

/// The drawing with any styling escapes taken out.
fn plain(s: &str) -> String {
    s.replace("\u{1b}[2m", "").replace("\u{1b}[0m", "")
}

#[test]
fn render_no_deps() {
    let config = config_of(vec![make_step("setup", vec![]), make_step("deploy", vec![])]);
    let output = render_ascii(&config, None).unwrap();
    assert!(output.contains("setup"), "setup missing from output");
    assert!(output.contains("deploy"), "deploy missing from output");
}

#[test]
fn render_with_deps() {
    let config = config_of(vec![make_step("build", vec![]), make_step("deploy", vec!["build"])]);
    let output = render_ascii(&config, None).unwrap();
    assert!(output.contains("build"), "build missing");
    assert!(output.contains("deploy"), "deploy missing");
}

#[test]
fn cycle_detection() {
    let config = config_of(vec![make_step("a", vec!["b"]), make_step("b", vec!["a"])]);
    let err = render_ascii(&config, None).unwrap_err();
    let msg = err.message();
    assert!(msg.contains("cycle detected:"), "expected cycle message, got: {msg}");
}

#[test]
fn render_draws_in_topological_order() {
    let config = config_of(vec![make_step("deploy", vec!["build"]), make_step("build", vec![])]);
    let output = plain(&render_ascii(&config, None).unwrap());
    assert_eq!(output, "├─ build\n│\n└─ deploy ← build\n");
}

#[test]
fn render_of_empty_selection_is_empty() {
    let config = config_of(vec![make_step("a", vec![])]);
    assert_eq!(render_ascii(&config, Some("nogroup")).unwrap(), "");
}

#[test]
fn cycle_message_names_the_cycle() {
    let config = config_of(vec![make_step("a", vec!["b"]), make_step("b", vec!["a"])]);
    match render_ascii(&config, None) {
        Err(GraphError::Cycle { path }) => {
            assert!(path == "a → b → a" || path == "b → a → b", "unexpected path {path}");
        }
        Ok(s) => panic!("expected a cycle, got {s}"),
    }
}

#[test]
fn self_loop_is_a_cycle() {
    let steps = vec![make_step("a", vec!["a"])];
    let edges = build_edges(&steps);
    assert_eq!(edges, vec![(0, 0)]);
    assert_eq!(format_cycle(&steps, &edges, 0), "a");
}

#[test]
fn group_closure_pulls_in_transitive_dependencies() {
    let steps = vec![
        make_step("base", vec![]),
        make_step("lib", vec!["base"]),
        make_step("other", vec![]),
        grouped("app", "ci", vec!["lib"]),
    ];
    let sel = select_group_closure(&steps, "ci");
    let names: Vec<&str> = sel.iter().map(|s| s.name.as_str()).collect();
    assert_eq!(names, vec!["base", "lib", "app"]);
}

#[test]
fn draw_sorted_follows_the_given_order() {
    let steps = vec![make_step("a", vec![]), make_step("b", vec!["a"]), make_step("c", vec![])];
    let edges = build_edges(&steps);
    assert_eq!(edges, vec![(0, 1)]);
    let out = draw_sorted(&steps, &edges, Ok(vec![2, 0, 1])).unwrap();
    assert_eq!(plain(&out), "├─ c\n│\n├─ a\n│\n└─ b ← a\n");
    match draw_sorted(&steps, &edges, Err(1)) {
        Err(GraphError::Cycle { path }) => assert_eq!(path, "b"),
        Ok(s) => panic!("expected a cycle report, got {s}"),
    }
}

#[test]
fn draw_lines_exact_layout() {
    let names = vec!["x".to_string(), "y".to_string()];
    let notes = vec!["".to_string(), " note".to_string()];
    assert_eq!(draw_lines(&names, &notes), "├─ x\n│\n└─ y note\n");
    assert_eq!(draw_lines(&vec![], &vec![]), "");
}
