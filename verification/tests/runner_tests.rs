use runsteps::config::{Config, Metadata, Profile, Step};
use runsteps::history::{record_entry, History, HistoryEntry};
use runsteps::runner::{
    available_steps, deprecation_warning, entry_to_replay, init_config_path, list_steps,
    order_by_dependencies, plan_batches, replay_order, replay_steps, resolve_profile, step_kind, AgainError, RunArgs,
};
use runsteps::strmap::StrMap;

fn make_step(name: &str, group: Option<&str>) -> Step {
    Step {
        name: name.to_string(),
        description: format!("{} desc", name),
        command: Some(format!("echo {}", name)),
        just_recipe: None,
        just_no_deps: None,
        group: group.map(String::from),
        confirm: false,
        depends_on: vec![],
        args: vec![],
        prompts: StrMap::new(),
        raw: false,
        env: StrMap::new(),
        parallel: false,
    }
}

fn par(name: &str) -> Step {
    let mut s = make_step(name, None);
    s.parallel = true;
    s
}

fn config_of(steps: Vec<Step>, profiles: StrMap<Profile>) -> Config {
    Config {
        metadata: Metadata {
            name: "p".to_string(),
            description: None,
            justfile: None,
            working_directory: None,
        },
        steps,
        profiles,
    }
}

fn names(steps: &[Step]) -> Vec<&str> {
    steps.iter().map(|s| s.name.as_str()).collect()
}

#[test]
fn batches_group_consecutive_parallel_steps() {
    let mut confirmed = par("c");
    confirmed.confirm = true;
    let sel = vec![par("a"), par("b"), confirmed, make_step("d", None), par("e"), par("f")];
    assert_eq!(plan_batches(&sel), vec![vec![0, 1], vec![2], vec![3], vec![4, 5]]);
}

#[test]
fn batches_skip_names_that_already_ran() {
    let sel = vec![make_step("a", None), make_step("b", None), make_step("a", None), par("x")];
    assert_eq!(plan_batches(&sel), vec![vec![0], vec![1], vec![3]]);
}

#[test]
fn dependent_parallel_steps_are_sequenced() {
    let mut c = par("c");
    c.depends_on = vec!["a".to_string()];
    let sel = vec![par("a"), par("b"), c];
    assert_eq!(plan_batches(&sel), vec![vec![0, 1], vec![2]]);
    let mut b = par("b");
    b.depends_on = vec!["a".to_string()];
    assert_eq!(plan_batches(&vec![par("a"), b]), vec![vec![0], vec![1]]);
}

#[test]
fn single_parallel_step_runs_alone() {
    let sel = vec![par("a"), make_step("b", None)];
    assert_eq!(plan_batches(&sel), vec![vec![0], vec![1]]);
}

#[test]
fn unknown_profile_lists_sorted_names() {
    let mut profiles = StrMap::new();
    profiles.insert("zeta".to_string(), Profile::default());
    profiles.insert("alpha".to_string(), Profile::default());
    let config = config_of(vec![make_step("a", None)], profiles);
    let err = resolve_profile(&config, Some("nope")).unwrap_err();
    assert_eq!(err.message(), "error: unknown profile 'nope'; available: alpha, zeta");
    let none = config_of(vec![make_step("a", None)], StrMap::new());
    let err = resolve_profile(&none, Some("x")).unwrap_err();
    assert_eq!(err.message(), "error: unknown profile 'x'; available: (none)");
    let p = resolve_profile(&none, None).unwrap();
    assert!(!p.skip_confirms && p.groups.is_empty() && p.excluded_steps.is_empty());
}

#[test]
fn known_profile_is_returned() {
    let mut profiles = StrMap::new();
    profiles.insert(
        "ci".to_string(),
        Profile { skip_confirms: true, excluded_steps: vec!["b".to_string()], groups: vec![] },
    );
    let config = config_of(vec![make_step("a", None)], profiles);
    let p = resolve_profile(&config, Some("ci")).unwrap();
    assert!(p.skip_confirms);
    assert_eq!(p.excluded_steps, vec!["b".to_string()]);
}

#[test]
fn available_steps_apply_group_and_profile() {
    let steps = vec![
        make_step("a", Some("ci")),
        make_step("b", Some("deploy")),
        make_step("c", Some("ci")),
        make_step("d", None),
    ];
    let config = config_of(steps, StrMap::new());
    let neutral = Profile::default();
    assert_eq!(names(&available_steps(&config, None, &neutral)), vec!["a", "b", "c", "d"]);
    assert_eq!(names(&available_steps(&config, Some("ci"), &neutral)), vec!["a", "c"]);
    let prof = Profile {
        skip_confirms: false,
        excluded_steps: vec!["c".to_string()],
        groups: vec!["ci".to_string()],
    };
    assert_eq!(names(&available_steps(&config, None, &prof)), vec!["a"]);
    assert_eq!(names(&available_steps(&config, Some("ci"), &prof)), vec!["a"]);
    assert!(available_steps(&config, Some("deploy"), &prof).is_empty());
}

#[test]
fn list_steps_filters_by_group() {
    let config = config_of(vec![make_step("a", Some("g")), make_step("b", None)], StrMap::new());
    assert_eq!(names(&list_steps(&config, Some("g"))), vec!["a"]);
    assert_eq!(names(&list_steps(&config, None)), vec!["a", "b"]);
}

#[test]
fn step_kind_names_the_runner() {
    let mut j = make_step("j", None);
    j.command = None;
    j.just_recipe = Some("r".to_string());
    assert_eq!(step_kind(&j), "just_recipe");
    assert_eq!(step_kind(&make_step("c", None)), "command");
}

#[test]
fn replay_skips_vanished_steps() {
    let steps = vec![make_step("a", None), make_step("b", None)];
    let recorded = vec!["b".to_string(), "gone".to_string(), "a".to_string()];
    let r = replay_steps(&steps, &recorded).unwrap();
    assert_eq!(names(&r.steps), vec!["b", "a"]);
    assert_eq!(r.missing, vec!["gone".to_string()]);
    let err = replay_steps(&steps, &vec!["gone".to_string()]).unwrap_err();
    assert_eq!(
        err.message(),
        "no steps to replay (all previously selected steps are missing)"
    );
}

#[test]
fn replay_runs_each_name_once() {
    let sel = vec![make_step("a", None), make_step("b", None), make_step("a", None)];
    assert_eq!(replay_order(&sel), vec![0, 1]);
}

#[test]
fn entry_to_replay_reports_missing_history() {
    let mut h = History::default();
    match entry_to_replay(&h, "/x.toml") {
        Err(e) => {
            assert!(matches!(e, AgainError::NoHistory { .. }));
            assert_eq!(e.message(), "no history found for '/x.toml'; run without --again first");
        }
        Ok(_) => panic!("expected no history"),
    }
    record_entry(
        &mut h,
        HistoryEntry {
            config_path: "/x.toml".to_string(),
            config_sha256: "s".to_string(),
            selected: vec!["a".to_string()],
            timestamp: "t".to_string(),
        },
    );
    assert_eq!(entry_to_replay(&h, "/x.toml").unwrap().selected, vec!["a".to_string()]);
}

#[test]
fn init_path_gets_toml_extension() {
    assert_eq!(init_config_path("my-config"), "my-config.toml");
    assert_eq!(init_config_path("runsteps.toml"), "runsteps.toml");
    assert_eq!(init_config_path("x.tom"), "x.tom.toml");
}

#[test]
fn deprecation_warning_text() {
    assert_eq!(
        deprecation_warning("--list", "list"),
        "warning: top-level flag `--list` is deprecated; use `runsteps list` instead. Will be removed in v0.5.0."
    );
}

#[test]
fn again_args_copy_run_options() {
    let mut args = RunArgs::default();
    args.config = "c.toml".to_string();
    args.yes = true;
    args.var = vec!["k=v".to_string()];
    let a = args.again_args();
    assert_eq!(a.config, "c.toml");
    assert!(a.yes && !a.dry_run);
    assert_eq!(a.var, vec!["k=v".to_string()]);
    assert!(a.profile.is_none());
}

#[test]
fn init_tests_init_custom_name_appends_toml_extension() {
    assert_eq!(init_config_path("myconfig"), "myconfig.toml");
}

fn needing(name: &str, deps: &[&str]) -> Step {
    let mut s = make_step(name, None);
    s.depends_on = deps.iter().map(|d| d.to_string()).collect();
    s
}

#[test]
fn dependency_listed_later_runs_first() {
    let sel = vec![needing("deploy", &["build"]), make_step("build", None)];
    assert_eq!(plan_batches(&sel), vec![vec![1], vec![0]]);
}

#[test]
fn dependency_chain_runs_from_the_root() {
    let sel = vec![needing("c", &["b"]), needing("b", &["a"]), make_step("a", None)];
    assert_eq!(order_by_dependencies(&sel), vec![2, 1, 0]);
    assert_eq!(plan_batches(&sel), vec![vec![2], vec![1], vec![0]]);
}

#[test]
fn independent_steps_keep_selection_order() {
    let sel = vec![make_step("x", None), make_step("y", None), needing("z", &["missing"])];
    assert_eq!(order_by_dependencies(&sel), vec![0, 1, 2]);
}

#[test]
fn dependency_cycle_falls_back_to_selection_order() {
    let sel = vec![needing("a", &["b"]), needing("b", &["a"])];
    assert_eq!(order_by_dependencies(&sel), vec![0, 1]);
    assert_eq!(plan_batches(&sel), vec![vec![0], vec![1]]);
}

#[test]
fn parallel_steps_wait_for_a_later_dependency() {
    let mut a = par("a");
    a.depends_on = vec!["c".to_string()];
    let sel = vec![a, par("b"), make_step("c", None)];
    assert_eq!(plan_batches(&sel), vec![vec![1], vec![2], vec![0]]);
}

#[test]
fn group_outside_profile_groups_offers_nothing() {
    let config = config_of(vec![make_step("odd", Some("__no_match__"))], StrMap::new());
    let prof = Profile {
        skip_confirms: false,
        excluded_steps: vec![],
        groups: vec!["setup".to_string()],
    };
    assert!(available_steps(&config, Some("deploy"), &prof).is_empty());
    assert!(available_steps(&config, Some("__no_match__"), &prof).is_empty());
}
