use runsteps::config::{Metadata, Step};
use runsteps::display::{confirm_marker, group_steps, needs_marker};
use runsteps::executor::{
    confirm_question, dry_run_lines, exit_failure_message, parallel_failure, parallel_prefix,
    plan_invocation, ExecError,
};
use runsteps::resolver::ResolveError;
use runsteps::strmap::StrMap;

fn meta(justfile: Option<&str>, wd: Option<&str>) -> Metadata {
    Metadata {
        name: "m".to_string(),
        description: None,
        justfile: justfile.map(String::from),
        working_directory: wd.map(String::from),
    }
}

fn command_step(name: &str, command: &str) -> Step {
    Step {
        name: name.to_string(),
        description: format!("{} desc", name),
        command: Some(command.to_string()),
        just_recipe: None,
        just_no_deps: None,
        group: None,
        confirm: false,
        depends_on: vec![],
        args: vec![],
        prompts: StrMap::new(),
        raw: false,
        env: StrMap::new(),
        parallel: false,
    }
}

fn just_step(name: &str, recipe: &str) -> Step {
    let mut s = command_step(name, "");
    s.command = None;
    s.just_recipe = Some(recipe.to_string());
    s
}

fn table(pairs: &[(&str, &str)]) -> StrMap<String> {
    let mut m = StrMap::new();
    for (k, v) in pairs {
        m.insert(k.to_string(), v.to_string());
    }
    m
}

#[test]
fn command_step_runs_through_sh_with_quoted_args() {
    let mut s = command_step("greet", "echo {{who}}");
    s.args = vec!["{{who}}".to_string(), "plain".to_string()];
    let vars = table(&[("who", "a b")]);
    let inv = plan_invocation(&s, &meta(None, Some("/w")), &vars, true, &Vec::new()).unwrap();
    assert_eq!(inv.program, "sh");
    assert_eq!(inv.args, vec!["-c".to_string(), "echo a b 'a b' plain".to_string()]);
    assert_eq!(inv.current_dir, Some("/w".to_string()));
}

#[test]
fn raw_step_args_are_not_quoted() {
    let mut s = command_step("q", "psql -c");
    s.raw = true;
    s.args = vec!["{{sql}}".to_string()];
    let vars = table(&[("sql", "select 1;")]);
    let inv = plan_invocation(&s, &meta(None, None), &vars, true, &Vec::new()).unwrap();
    assert_eq!(inv.args, vec!["-c".to_string(), "psql -c select 1;".to_string()]);
}

#[test]
fn just_step_passes_justfile_no_deps_recipe_and_args() {
    let mut s = just_step("deploy", "deploy");
    s.just_no_deps = Some(true);
    s.args = vec!["{{env}}".to_string()];
    s.env = table(&[("NS", "{{env}}")]);
    let vars = table(&[("env", "prod x")]);
    let inv = plan_invocation(&s, &meta(Some("./justfile"), None), &vars, true, &Vec::new()).unwrap();
    assert_eq!(inv.program, "just");
    assert_eq!(
        inv.args,
        vec![
            "--justfile".to_string(),
            "./justfile".to_string(),
            "--no-deps".to_string(),
            "deploy".to_string(),
            "prod x".to_string()
        ]
    );
    assert_eq!(inv.env, vec![("NS".to_string(), "prod x".to_string())]);
    assert_eq!(inv.current_dir, None);
}

#[test]
fn step_without_command_is_an_error() {
    let mut s = command_step("bad", "");
    s.command = None;
    let err = plan_invocation(&s, &meta(None, None), &StrMap::new(), true, &Vec::new()).unwrap_err();
    assert_eq!(err.message(), "Step 'bad' has neither command nor just_recipe");
}

#[test]
fn prompts_are_asked_in_order_env_command_args() {
    let mut s = command_step("p", "run {{c}}");
    s.env = table(&[("E", "{{e}}")]);
    s.args = vec!["{{a}}".to_string()];
    s.prompts = table(&[("a", "arg?"), ("c", "cmd?"), ("e", "env?")]);
    let m = meta(None, None);
    let vars = StrMap::new();
    let mut answers: Vec<String> = Vec::new();
    let mut asked: Vec<String> = Vec::new();
    let inv = loop {
        match plan_invocation(&s, &m, &vars, false, &answers) {
            Ok(inv) => break inv,
            Err(ExecError::Resolve(ResolveError::NeedsPrompt { placeholder, prompt })) => {
                asked.push(prompt);
                answers.push(format!("v{placeholder}"));
            }
            Err(e) => panic!("unexpected {:?}", e),
        }
    };
    assert_eq!(asked, vec!["env?".to_string(), "cmd?".to_string(), "arg?".to_string()]);
    assert_eq!(inv.env, vec![("E".to_string(), "ve".to_string())]);
    assert_eq!(inv.args, vec!["-c".to_string(), "run vc va".to_string()]);
}

#[test]
fn dry_run_lines_sort_env_and_show_command() {
    let mut s = command_step("b", "cargo build");
    s.args = vec!["--release".to_string()];
    s.env = table(&[("ZED", "1"), ("ALPHA", "2")]);
    let lines = dry_run_lines(&s, &meta(None, Some("/src")));
    assert_eq!(
        lines,
        vec![
            "  env: ALPHA=2".to_string(),
            "  env: ZED=1".to_string(),
            "  [dry-run] sh -c 'cargo build --release' [in /src]".to_string()
        ]
    );
}

#[test]
fn dry_run_of_just_step_with_and_without_no_deps() {
    let mut s = just_step("d", "deploy");
    assert_eq!(dry_run_lines(&s, &meta(None, None)), vec!["  [dry-run] just deploy".to_string()]);
    s.just_no_deps = Some(true);
    assert_eq!(
        dry_run_lines(&s, &meta(Some("jf"), None)),
        vec!["  [dry-run] just --justfile jf --no-deps deploy".to_string()]
    );
}

#[test]
fn exit_failure_messages() {
    assert_eq!(exit_failure_message("s", Some(3)), "Step 's' failed with exit code Some(3)");
    assert_eq!(exit_failure_message("s", Some(-2)), "Step 's' failed with exit code Some(-2)");
    assert_eq!(exit_failure_message("s", None), "Step 's' failed with exit code None");
}

#[test]
fn small_messages() {
    assert_eq!(confirm_question("deploy"), "Confirm: deploy?");
    assert_eq!(parallel_prefix("lint"), "[lint] ");
    assert_eq!(parallel_failure("lint", "boom"), "step 'lint' failed: boom");
}

#[test]
fn step_list_groups_in_first_seen_order() {
    let mut a = command_step("a", "x");
    a.group = Some("ci".to_string());
    let b = command_step("b", "x");
    let mut c = command_step("c", "x");
    c.group = Some("ci".to_string());
    c.depends_on = vec!["a".to_string(), "b".to_string()];
    c.confirm = true;
    let g = group_steps(&vec![a, b, c.clone()]);
    assert_eq!(g.groups, vec![Some("ci".to_string()), None]);
    assert_eq!(g.members, vec![vec![0, 2], vec![1]]);
    assert_eq!(needs_marker(&c), " [needs: a, b]");
    assert_eq!(confirm_marker(&c), " [confirm]");
}
