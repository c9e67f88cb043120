use runsteps::resolver::{
    orphan_prompt_keys, parse_var_flags, resolve_args, resolve_env, resolve_placeholders,
    ResolveError,
};
use runsteps::strmap::StrMap;

fn empty() -> StrMap<String> {
    StrMap::new()
}

fn table(pairs: &[(&str, &str)]) -> StrMap<String> {
    let mut m = StrMap::new();
    for (k, v) in pairs {
        m.insert(k.to_string(), v.to_string());
    }
    m
}

fn no_answers() -> Vec<String> {
    Vec::new()
}

#[test]
fn test_no_placeholders() {
    let result =
        resolve_placeholders("hello world", "step", &empty(), &empty(), true, false, &no_answers())
            .unwrap();
    assert_eq!(result, "hello world");
}

#[test]
fn test_single_placeholder_from_vars() {
    let vars = table(&[("pod", "web")]);
    let result =
        resolve_placeholders("--pod={{pod}}", "step", &vars, &empty(), true, false, &no_answers())
            .unwrap();
    assert_eq!(result, "--pod=web");
}

#[test]
fn test_multi_placeholder_per_element() {
    let vars = table(&[("p", "web"), ("e", "staging")]);
    let result = resolve_placeholders(
        "--pod={{p}}-{{e}}",
        "step",
        &vars,
        &empty(),
        true,
        false,
        &no_answers(),
    )
    .unwrap();
    assert_eq!(result, "--pod=web-staging");
}

#[test]
fn test_escaped_double_brace() {
    let result = resolve_placeholders(
        "literal {{{{braces}}}}",
        "step",
        &empty(),
        &empty(),
        true,
        false,
        &no_answers(),
    )
    .unwrap();
    assert_eq!(result, "literal {{braces}}");
}

#[test]
fn test_missing_value_in_yes_mode_errors() {
    let result =
        resolve_placeholders("{{missing}}", "mystep", &empty(), &empty(), true, false, &no_answers());
    assert!(result.is_err());
    let msg = result.unwrap_err().message();
    assert!(msg.contains("missing"), "expected placeholder name in error: {msg}");
}

#[test]
fn test_newline_in_value_rejected() {
    let vars = table(&[("x", "a\nb")]);
    let result = resolve_placeholders("{{x}}", "step", &vars, &empty(), true, false, &no_answers());
    assert!(result.is_err());
    let msg = result.unwrap_err().message();
    assert!(msg.contains("newline"), "expected 'newline' in error: {msg}");
}

#[test]
fn test_shell_escape_applied() {
    let vars = table(&[("v", "hello world")]);
    let result =
        resolve_placeholders("{{v}}", "step", &vars, &empty(), true, true, &no_answers()).unwrap();
    assert!(result.contains("hello") && result.contains("world"));
    assert_ne!(result, "hello world");
}

#[test]
fn test_raw_no_escape() {
    let vars = table(&[("v", "hello world")]);
    let result =
        resolve_placeholders("{{v}}", "step", &vars, &empty(), true, false, &no_answers()).unwrap();
    assert_eq!(result, "hello world");
}

#[test]
fn test_parse_var_flags_valid() {
    let vars = parse_var_flags(&vec!["pod=web".to_string(), "env=staging".to_string()]).unwrap();
    assert_eq!(vars.get("pod"), Some(&"web".to_string()));
    assert_eq!(vars.get("env"), Some(&"staging".to_string()));
}

#[test]
fn test_parse_var_flags_invalid() {
    let result = parse_var_flags(&vec!["noequalssign".to_string()]);
    assert!(result.is_err());
}

#[test]
fn parse_var_flags_splits_at_first_equals_and_rejects_empty_key() {
    let vars = parse_var_flags(&vec!["q=a=b".to_string()]).unwrap();
    assert_eq!(vars.get("q"), Some(&"a=b".to_string()));
    assert!(parse_var_flags(&vec!["=v".to_string()]).is_err());
}

#[test]
fn shell_escape_quotes_exactly() {
    let vars = table(&[("v", "it's")]);
    let result =
        resolve_placeholders("{{v}}", "step", &vars, &empty(), true, true, &no_answers()).unwrap();
    assert_eq!(result, "'it'\\''s'");
    let vars = table(&[("v", "plain-word_1.2/x")]);
    let result =
        resolve_placeholders("{{v}}", "step", &vars, &empty(), true, true, &no_answers()).unwrap();
    assert_eq!(result, "plain-word_1.2/x");
}

#[test]
fn prompted_placeholder_waits_for_an_answer_then_uses_it() {
    let prompts = table(&[("pod", "Pod name")]);
    let r = resolve_placeholders("logs {{pod}}", "s", &empty(), &prompts, false, false, &no_answers());
    match r {
        Err(ResolveError::NeedsPrompt { placeholder, prompt }) => {
            assert_eq!(placeholder, "pod");
            assert_eq!(prompt, "Pod name");
        }
        other => panic!("expected a prompt, got {:?}", other),
    }
    let answers = vec!["web-1".to_string()];
    let r = resolve_placeholders("logs {{pod}}", "s", &empty(), &prompts, false, false, &answers);
    assert_eq!(r.unwrap(), "logs web-1");
}

#[test]
fn var_binding_beats_prompt_and_yes_mode_refuses_prompt() {
    let prompts = table(&[("pod", "Pod name")]);
    let vars = table(&[("pod", "from-var")]);
    let r = resolve_placeholders("{{pod}}", "s", &vars, &prompts, false, false, &no_answers());
    assert_eq!(r.unwrap(), "from-var");
    let r = resolve_placeholders("{{pod}}", "s", &empty(), &prompts, true, false, &no_answers());
    let msg = r.unwrap_err().message();
    assert_eq!(
        msg,
        "error: step 's' requires value for placeholder '{{pod}}'; pass --var pod=<value>"
    );
}

#[test]
fn resolve_args_threads_answers_in_order() {
    let prompts = table(&[("a", "first"), ("b", "second")]);
    let args = vec!["{{a}}".to_string(), "x-{{b}}".to_string()];
    let answers = vec!["1".to_string(), "2".to_string()];
    let r = resolve_args("s", &args, &prompts, &empty(), false, false, &answers).unwrap();
    assert_eq!(r, vec!["1".to_string(), "x-2".to_string()]);
}

#[test]
fn resolve_env_keeps_keys_and_never_quotes() {
    let env = table(&[("KUBECONFIG", "~/.kube/{{env}}"), ("NS", "{{env}} ns")]);
    let vars = table(&[("env", "staging")]);
    let r = resolve_env("s", &env, &empty(), &vars, true, &no_answers()).unwrap();
    assert_eq!(
        r,
        vec![
            ("KUBECONFIG".to_string(), "~/.kube/staging".to_string()),
            ("NS".to_string(), "staging ns".to_string())
        ]
    );
}

#[test]
fn orphan_prompt_keys_lists_unreferenced_prompts() {
    let prompts = table(&[("used", "u"), ("unused", "x")]);
    let args = vec!["--p={{used}}".to_string()];
    assert_eq!(orphan_prompt_keys(&args, &prompts), vec!["unused".to_string()]);
}

#[test]
fn yes_mode_args_resolve_one_by_one() {
    let vars = table(&[("env", "staging")]);
    let prompts = table(&[("pod", "Pod?")]);
    let args = vec!["--env={{env}}".to_string(), "plain".to_string(), "{{pod}}".to_string()];
    let listed = resolve_args("s", &args, &prompts, &vars, true, false, &no_answers());
    assert!(listed.is_err());
    assert!(resolve_placeholders(&args[2], "s", &vars, &prompts, true, false, &no_answers()).is_err());

    let args = vec!["--env={{env}}".to_string(), "plain".to_string()];
    let listed = resolve_args("s", &args, &prompts, &vars, true, true, &no_answers()).unwrap();
    assert_eq!(listed.len(), args.len());
    for (i, a) in args.iter().enumerate() {
        let one = resolve_placeholders(a, "s", &vars, &prompts, true, true, &no_answers()).unwrap();
        assert_eq!(listed[i], one);
    }
    assert_eq!(listed, vec!["--env=staging".to_string(), "plain".to_string()]);
}
