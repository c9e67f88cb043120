//! What running a step means: the process to start (program, arguments,
//! working directory, environment) once its placeholders are resolved, the
//! lines a dry run prints, and the messages around execution.
use vstd::prelude::*;
use crate::config::{Step, Metadata, StepView, opt_view, copy_opt};
use crate::strmap::StrMap;
use crate::resolver::{ResolveError, ResolveFailure, resolve_list, resolve_template, resolve_env_from,
    law_list_yes_mode_never_prompts, law_yes_mode_never_prompts,
    resolve_from, resolve_list_from, table_values, zip_keys, pair_views, failure_message};
use crate::graph::{join, push_joined};
use crate::text::{views, copy_string, string_from_chars, push_str, push_decimal, decimal,
    sort_strings, sorted_strs};

verus! {

// ---------------------------------------------------------------------------
// Invocations
// ---------------------------------------------------------------------------

/// A process to start.
#[derive(Debug)]
pub struct Invocation {
    pub program: String,
    pub args: Vec<String>,
    /// The working directory, when the config sets one.
    pub current_dir: Option<String>,
    /// Environment variables added to the inherited ones.
    pub env: Vec<(String, String)>,
}

/// An invocation, every string taken by view.
pub struct InvocationView {
    pub program: Seq<char>,
    pub args: Seq<Seq<char>>,
    pub current_dir: Option<Seq<char>>,
    pub env: Seq<(Seq<char>, Seq<char>)>,
}

impl View for Invocation {
    type V = InvocationView;

    open spec fn view(&self) -> InvocationView {
        InvocationView {
            program: self.program@,
            args: views(self.args@),
            current_dir: opt_view(self.current_dir),
            env: pair_views(self.env@),
        }
    }
}

/// Why a step cannot be started, over views.
pub enum ExecFailure {
    Resolve(ResolveFailure),
    NoCommand(Seq<char>),
}

/// Why a step cannot be started.
#[derive(Debug)]
pub enum ExecError {
    /// A placeholder could not be resolved.
    Resolve(ResolveError),
    /// The step has neither `command` nor `just_recipe`.
    NoCommand { step: String },
}

impl View for ExecError {
    type V = ExecFailure;

    open spec fn view(&self) -> ExecFailure {
        match self {
            ExecError::Resolve(e) => ExecFailure::Resolve(e@),
            ExecError::NoCommand { step } => ExecFailure::NoCommand(step@),
        }
    }
}

/// The message of an execution failure.
pub open spec fn exec_message(f: ExecFailure) -> Seq<char> {
    match f {
        ExecFailure::Resolve(e) => failure_message(e),
        ExecFailure::NoCommand(s) => "Step '"@ + s + "' has neither command nor just_recipe"@,
    }
}

impl ExecError {
    /// The error as shown to the user.
    pub fn message(&self) -> (r: String)
        ensures
            r@ == exec_message(self@),
    {
        match self {
            ExecError::Resolve(e) => e.message(),
            ExecError::NoCommand { step } => {
                let mut out: Vec<char> = Vec::new();
                push_str(&mut out, "Step '");
                push_str(&mut out, step.as_str());
                push_str(&mut out, "' has neither command nor just_recipe");
                string_from_chars(&out)
            },
        }
    }
}

/// The arguments given to `just` before the step's own: the justfile, then
/// `--no-deps` when asked for, then the recipe.
pub open spec fn just_args(justfile: Option<Seq<char>>, no_deps: bool, recipe: Seq<char>) -> Seq<Seq<char>> {
    (match justfile {
        Some(jf) => seq!["--justfile"@, jf],
        None => seq![],
    }) + (if no_deps { seq!["--no-deps"@] } else { seq![] }) + seq![recipe]
}

/// The shell command line: the resolved command, then the resolved
/// arguments after a space each.
pub open spec fn shell_line(cmd: Seq<char>, args: Seq<Seq<char>>) -> Seq<char> {
    if args.len() == 0 {
        cmd
    } else {
        cmd + " "@ + join(args, " "@)
    }
}

/// How a step is started. Placeholders are resolved in the order the
/// values are needed, answers threaded through: the `env` values (never
/// quoted), then the `command` template (not quoted: it is already shell
/// syntax), then `args` (shell-quoted for a `command` step unless `raw`,
/// passed verbatim to `just`).
pub open spec fn invocation_for(
    step: Step,
    meta: Metadata,
    vars: StrMap<String>,
    yes_mode: bool,
    answers: Seq<Seq<char>>,
) -> Result<InvocationView, ExecFailure> {
    let name = step.name@;
    let dir = opt_view(meta.working_directory);
    match resolve_list(table_values(step.env), name, vars, step.prompts, yes_mode, false, answers, 0) {
        Err(e) => Err(ExecFailure::Resolve(e)),
        Ok((ev, c1)) => {
            let env = zip_keys(step.env, ev);
            match step.just_recipe {
                Some(recipe) => match resolve_list(views(step.args@), name, vars, step.prompts, yes_mode, false, answers, c1) {
                    Err(e) => Err(ExecFailure::Resolve(e)),
                    Ok((xs, _)) => Ok(InvocationView {
                        program: "just"@,
                        args: just_args(opt_view(meta.justfile), step.just_no_deps == Some(true), recipe@) + xs,
                        current_dir: dir,
                        env,
                    }),
                },
                None => match step.command {
                    Some(cmd) => match resolve_template(cmd@, name, vars, step.prompts, yes_mode, false, answers, c1) {
                        Err(e) => Err(ExecFailure::Resolve(e)),
                        Ok((rc, c2)) => match resolve_list(views(step.args@), name, vars, step.prompts, yes_mode, !step.raw, answers, c2) {
                            Err(e) => Err(ExecFailure::Resolve(e)),
                            Ok((xs, _)) => Ok(InvocationView {
                                program: "sh"@,
                                args: seq!["-c"@, shell_line(rc, xs)],
                                current_dir: dir,
                                env,
                            }),
                        },
                    },
                    None => Err(ExecFailure::NoCommand(name)),
                },
            }
        },
    }
}

/// The view of a planned invocation.
pub open spec fn plan_view(r: Result<Invocation, ExecError>) -> Result<InvocationView, ExecFailure> {
    match r {
        Ok(i) => Ok(i@),
        Err(e) => Err(e@),
    }
}

fn owned(s: &str) -> (r: String)
    ensures
        r@ == s@,
{
    let mut out: Vec<char> = Vec::new();
    push_str(&mut out, s);
    string_from_chars(&out)
}

/// The process that runs `step`. `answers` are the answers given so far to
/// its prompts, in order; when one more is needed the result is a
/// `NeedsPrompt` error naming it.
pub fn plan_invocation(
    step: &Step,
    meta: &Metadata,
    vars: &StrMap<String>,
    yes_mode: bool,
    answers: &Vec<String>,
) -> (r: Result<Invocation, ExecError>)
    ensures
        plan_view(r) == invocation_for(*step, *meta, *vars, yes_mode, views(answers@)),
{
    let name = step.name.as_str();
    let (env, c1) = match resolve_env_from(name, &step.env, &step.prompts, vars, yes_mode, answers, 0) {
        Err(e) => return Err(ExecError::Resolve(e)),
        Ok(x) => x,
    };
    let dir = copy_opt(&meta.working_directory);
    match &step.just_recipe {
        Some(recipe) => {
            match resolve_list_from(name, &step.args, &step.prompts, vars, yes_mode, false, answers, c1) {
                Err(e) => Err(ExecError::Resolve(e)),
                Ok((xs, _)) => {
                    let mut args: Vec<String> = Vec::new();
                    match &meta.justfile {
                        Some(jf) => {
                            args.push(owned("--justfile"));
                            args.push(copy_string(jf));
                        },
                        None => {},
                    }
                    let no_deps = match step.just_no_deps {
                        Some(b) => b,
                        None => false,
                    };
                    if no_deps {
                        args.push(owned("--no-deps"));
                    }
                    args.push(copy_string(recipe));
                    let ghost pre = views(args@);
                    assert(pre =~= just_args(opt_view(meta.justfile), step.just_no_deps == Some(true), recipe@));
                    let mut k: usize = 0;
                    while k < xs.len()
                        invariant
                            k <= xs@.len(),
                            views(args@) == pre + views(xs@).take(k as int),
                        decreases xs@.len() - k,
                    {
                        let ghost before = views(args@);
                        let x = copy_string(&xs[k]);
                        args.push(x);
                        assert(views(args@) =~= before.push(x@));
                        assert(views(args@) =~= pre + views(xs@).take(k + 1));
                        k = k + 1;
                    }
                    assert(views(xs@).take(k as int) =~= views(xs@));
                    Ok(Invocation { program: owned("just"), args, current_dir: dir, env })
                },
            }
        },
        None => match &step.command {
            Some(cmd) => {
                let (rc, c2) = match resolve_from(cmd.as_str(), name, vars, &step.prompts, yes_mode, false, answers, c1) {
                    Err(e) => return Err(ExecError::Resolve(e)),
                    Ok(x) => x,
                };
                match resolve_list_from(name, &step.args, &step.prompts, vars, yes_mode, !step.raw, answers, c2) {
                    Err(e) => Err(ExecError::Resolve(e)),
                    Ok((xs, _)) => {
                        let mut line: Vec<char> = Vec::new();
                        push_str(&mut line, rc.as_str());
                        if xs.len() > 0 {
                            push_str(&mut line, " ");
                            push_joined(&mut line, &xs, " ");
                        }
                        let mut args: Vec<String> = Vec::new();
                        args.push(owned("-c"));
                        let l = string_from_chars(&line);
                        args.push(l);
                        assert(views(args@) =~= seq!["-c"@, shell_line(rc@, views(xs@))]);
                        Ok(Invocation { program: owned("sh"), args, current_dir: dir, env })
                    },
                }
            },
            None => Err(ExecError::NoCommand { step: copy_string(&step.name) }),
        },
    }
}

/// The planned invocation waits for one more prompt answer.
pub open spec fn awaits_prompt(r: Result<InvocationView, ExecFailure>) -> bool {
    match r {
        Err(ExecFailure::Resolve(ResolveFailure::NeedsPrompt { .. })) => true,
        _ => false,
    }
}

/// Planning a step in `--yes` mode (and so every step of a parallel batch)
/// never waits for an answer.
pub proof fn law_yes_mode_plans_without_prompts(
    step: Step,
    meta: Metadata,
    vars: StrMap<String>,
    answers: Seq<Seq<char>>,
)
    ensures
        !awaits_prompt(invocation_for(step, meta, vars, true, answers)),
{
    let name = step.name@;
    law_list_yes_mode_never_prompts(table_values(step.env), name, vars, step.prompts, false, answers, 0);
    match resolve_list(table_values(step.env), name, vars, step.prompts, true, false, answers, 0) {
        Err(e) => {},
        Ok((ev, c1)) => {
            law_list_yes_mode_never_prompts(views(step.args@), name, vars, step.prompts, false, answers, c1);
            match step.command {
                Some(cmd) => {
                    law_yes_mode_never_prompts(cmd@, name, vars, step.prompts, false, answers, c1);
                    match resolve_template(cmd@, name, vars, step.prompts, true, false, answers, c1) {
                        Err(e) => {},
                        Ok((rc, c2)) => {
                            law_list_yes_mode_never_prompts(views(step.args@), name, vars, step.prompts, !step.raw, answers, c2);
                        },
                    }
                },
                None => {},
            }
        },
    }
}

/// Once the answers given make planning a step succeed, or fail for a
/// reason other than a missing answer, more answers change nothing: the
/// runner asks each prompt once and plans again with the answers so far.
pub proof fn law_plan_fixed_by_answers(
    step: Step,
    meta: Metadata,
    vars: StrMap<String>,
    yes_mode: bool,
    a: Seq<Seq<char>>,
    b: Seq<Seq<char>>,
)
    requires
        crate::resolver::extends(a, b),
        !awaits_prompt(invocation_for(step, meta, vars, yes_mode, a)),
    ensures
        invocation_for(step, meta, vars, yes_mode, b) == invocation_for(step, meta, vars, yes_mode, a),
{
    let name = step.name@;
    let envr = resolve_list(table_values(step.env), name, vars, step.prompts, yes_mode, false, a, 0);
    if !crate::resolver::awaits_answer(envr) {
        crate::resolver::law_list_more_answers_same_outcome(table_values(step.env), name, vars, step.prompts, yes_mode, false, a, b, 0);
    }
    match envr {
        Err(e) => {},
        Ok((ev, c1)) => {
            match step.just_recipe {
                Some(recipe) => {
                    crate::resolver::law_list_more_answers_same_outcome(views(step.args@), name, vars, step.prompts, yes_mode, false, a, b, c1);
                },
                None => match step.command {
                    Some(cmd) => {
                        let cr = resolve_template(cmd@, name, vars, step.prompts, yes_mode, false, a, c1);
                        crate::resolver::law_more_answers_same_outcome(cmd@, name, vars, step.prompts, yes_mode, false, a, b, c1);
                        match cr {
                            Err(e) => {},
                            Ok((rc, c2)) => {
                                crate::resolver::law_list_more_answers_same_outcome(views(step.args@), name, vars, step.prompts, yes_mode, !step.raw, a, b, c2);
                            },
                        }
                    },
                    None => {},
                },
            }
        },
    }
}

/// An upper bound on the prompts planning `step` can ask: the placeholders
/// of its `env` values, its `command` and its `args`.
pub open spec fn prompt_bound(step: Step) -> nat {
    crate::resolver::list_placeholders(table_values(step.env)) + (match step.command {
        Some(c) => crate::resolver::placeholder_count(crate::resolver::tokenize(c@)),
        None => 0,
    }) + crate::resolver::list_placeholders(views(step.args@))
}

/// With at least as many answers as the step has placeholders, planning it
/// never waits for another answer: the runner's prompt loop ends.
pub proof fn law_enough_answers_settle_plan(
    step: Step,
    meta: Metadata,
    vars: StrMap<String>,
    yes_mode: bool,
    a: Seq<Seq<char>>,
)
    requires
        a.len() >= prompt_bound(step),
    ensures
        !awaits_prompt(invocation_for(step, meta, vars, yes_mode, a)),
{
    let name = step.name@;
    let ev = table_values(step.env);
    crate::resolver::law_list_answers_per_placeholder(ev, name, vars, step.prompts, yes_mode, false, a, 0);
    match resolve_list(ev, name, vars, step.prompts, yes_mode, false, a, 0) {
        Err(e) => {},
        Ok((xs, c1)) => {
            match step.just_recipe {
                Some(recipe) => {
                    crate::resolver::law_list_answers_per_placeholder(views(step.args@), name, vars, step.prompts, yes_mode, false, a, c1);
                },
                None => match step.command {
                    Some(cmd) => {
                        crate::resolver::law_answers_per_placeholder(cmd@, name, vars, step.prompts, yes_mode, false, a, c1);
                        match resolve_template(cmd@, name, vars, step.prompts, yes_mode, false, a, c1) {
                            Err(e) => {},
                            Ok((rc, c2)) => {
                                crate::resolver::law_list_answers_per_placeholder(views(step.args@), name, vars, step.prompts, yes_mode, !step.raw, a, c2);
                            },
                        }
                    },
                    None => {},
                },
            }
        },
    }
}

// ---------------------------------------------------------------------------
// Messages around execution
// ---------------------------------------------------------------------------

/// The question asked before a step with `confirm = true`.
pub fn confirm_question(step_name: &str) -> (r: String)
    ensures
        r@ == "Confirm: "@ + step_name@ + "?"@,
{
    let mut out: Vec<char> = Vec::new();
    push_str(&mut out, "Confirm: ");
    push_str(&mut out, step_name);
    push_str(&mut out, "?");
    string_from_chars(&out)
}

/// `n` in decimal, with a minus sign when negative.
pub open spec fn signed_decimal(n: int) -> Seq<char> {
    if n < 0 {
        "-"@ + decimal((-n) as nat)
    } else {
        decimal(n as nat)
    }
}

/// An exit code as `{:?}` shows an `Option<i32>`.
pub open spec fn exit_code_text(code: Option<i32>) -> Seq<char> {
    match code {
        Some(c) => "Some("@ + signed_decimal(c as int) + ")"@,
        None => "None"@,
    }
}

/// The error for a step whose process exited unsuccessfully.
pub fn exit_failure_message(step_name: &str, code: Option<i32>) -> (r: String)
    ensures
        r@ == "Step '"@ + step_name@ + "' failed with exit code "@ + exit_code_text(code),
{
    let mut out: Vec<char> = Vec::new();
    push_str(&mut out, "Step '");
    push_str(&mut out, step_name);
    push_str(&mut out, "' failed with exit code ");
    match code {
        Some(c) => {
            push_str(&mut out, "Some(");
            let wide: i64 = c as i64;
            if wide < 0 {
                push_str(&mut out, "-");
                let m: u64 = (-wide) as u64;
                push_decimal(&mut out, m);
            } else {
                let m: u64 = wide as u64;
                push_decimal(&mut out, m);
            }
            push_str(&mut out, ")");
        },
        None => {
            push_str(&mut out, "None");
        },
    }
    string_from_chars(&out)
}

/// The prefix of each output line of a step run in parallel.
pub fn parallel_prefix(step_name: &str) -> (r: String)
    ensures
        r@ == "["@ + step_name@ + "] "@,
{
    let mut out: Vec<char> = Vec::new();
    push_str(&mut out, "[");
    push_str(&mut out, step_name);
    push_str(&mut out, "] ");
    string_from_chars(&out)
}

/// How the failure of one step of a parallel batch is reported.
pub fn parallel_failure(step_name: &str, reason: &str) -> (r: String)
    ensures
        r@ == "step '"@ + step_name@ + "' failed: "@ + reason@,
{
    let mut out: Vec<char> = Vec::new();
    push_str(&mut out, "step '");
    push_str(&mut out, step_name);
    push_str(&mut out, "' failed: ");
    push_str(&mut out, reason);
    string_from_chars(&out)
}

// ---------------------------------------------------------------------------
// Dry runs
// ---------------------------------------------------------------------------

/// The arguments of a dry-run line, each after a space.
pub open spec fn args_suffix(args: Seq<Seq<char>>) -> Seq<char> {
    if args.len() == 0 {
        seq![]
    } else {
        " "@ + join(args, " "@)
    }
}

/// The command a dry run shows, placeholders left as written.
pub open spec fn dry_run_command(step: StepView, justfile: Option<Seq<char>>) -> Seq<char> {
    match step.just_recipe {
        Some(recipe) => "just "@ + (match justfile {
            Some(jf) => "--justfile "@ + jf + " "@,
            None => seq![],
        }) + (if step.just_no_deps == Some(true) { "--no-deps "@ } else { seq![] }) + recipe
            + args_suffix(step.args),
        None => match step.command {
            Some(c) => "sh -c '"@ + c + args_suffix(step.args) + "'"@,
            None => "(no command)"@,
        },
    }
}

/// The last line of a dry run.
pub open spec fn dry_run_line(step: StepView, meta: Metadata) -> Seq<char> {
    "  [dry-run] "@ + dry_run_command(step, opt_view(meta.justfile)) + (match opt_view(meta.working_directory) {
        Some(wd) => " [in "@ + wd + "]"@,
        None => seq![],
    })
}

/// The words `args`, each after a space.
pub open spec fn spaced_words(args: Seq<Seq<char>>) -> Seq<char>
    decreases args.len(),
{
    if args.len() == 0 {
        seq![]
    } else {
        spaced_words(args.drop_last()) + " "@ + args.last()
    }
}

proof fn lemma_args_suffix_spaced(args: Seq<Seq<char>>)
    ensures
        args_suffix(args) == spaced_words(args),
    decreases args.len(),
{
    if args.len() == 1 {
        assert(spaced_words(args.drop_last()) == Seq::<char>::empty());
        assert(args_suffix(args) =~= spaced_words(args));
    } else if args.len() > 1 {
        lemma_args_suffix_spaced(args.drop_last());
        assert(args_suffix(args) =~= spaced_words(args));
    }
}

/// A dry run shows the step's arguments after the recipe of a `just` step
/// and after the command of a `command` step, each after a space, in order;
/// without a justfile, a `just` step's line reads `just`, then `--no-deps`
/// exactly when `just_no_deps` is true, then the recipe and the arguments.
pub proof fn law_dry_run_shows_args(step: StepView, meta: Metadata)
    ensures
        step.just_recipe is Some ==> exists|p: Seq<char>|
            dry_run_command(step, opt_view(meta.justfile)) == "just "@ + p + step.just_recipe->0 + spaced_words(step.args),
        step.just_recipe is Some && meta.justfile is None ==> dry_run_command(step, opt_view(meta.justfile))
            == (if step.just_no_deps == Some(true) { "just --no-deps "@ } else { "just "@ })
                + step.just_recipe->0 + spaced_words(step.args),
        step.just_recipe is None && step.command is Some ==> dry_run_command(step, opt_view(meta.justfile))
            == "sh -c '"@ + step.command->0 + spaced_words(step.args) + "'"@,
        step.just_recipe is Some && meta.justfile is Some ==> dry_run_command(step, opt_view(meta.justfile))
            == "just --justfile "@ + (meta.justfile->0)@ + " "@
                + (if step.just_no_deps == Some(true) { "--no-deps "@ } else { seq![] })
                + step.just_recipe->0 + spaced_words(step.args),
        step.just_recipe is Some && meta.working_directory is None ==> exists|p: Seq<char>|
            dry_run_line(step, meta) == p + step.just_recipe->0 + spaced_words(step.args),
        meta.working_directory is Some ==> exists|p: Seq<char>|
            dry_run_line(step, meta) == p + " [in "@ + (meta.working_directory->0)@ + "]"@,
{
    lemma_args_suffix_spaced(step.args);
    reveal_strlit("just ");
    reveal_strlit("--no-deps ");
    reveal_strlit("just --no-deps ");
    reveal_strlit("--justfile ");
    reveal_strlit("just --justfile ");
    let jf = opt_view(meta.justfile);
    if meta.working_directory is Some {
        let wd = (meta.working_directory->0)@;
        assert(dry_run_line(step, meta) =~= ("  [dry-run] "@ + dry_run_command(step, jf)) + " [in "@ + wd + "]"@);
    }
    if step.just_recipe is Some {
        let r = step.just_recipe->0;
        let p = (match jf {
            Some(f) => "--justfile "@ + f + " "@,
            None => seq![],
        }) + (if step.just_no_deps == Some(true) { "--no-deps "@ } else { seq![] });
        let c = dry_run_command(step, jf);
        assert(c =~= "just "@ + p + r + spaced_words(step.args));
        if jf is Some {
            assert(c =~= "just --justfile "@ + jf->0 + " "@
                + (if step.just_no_deps == Some(true) { "--no-deps "@ } else { seq![] }) + r + spaced_words(step.args));
        }
        if jf is None {
            assert(c =~= (if step.just_no_deps == Some(true) { "just --no-deps "@ } else { "just "@ })
                + r + spaced_words(step.args));
        }
        if meta.working_directory is None {
            assert(dry_run_line(step, meta) =~= ("  [dry-run] "@ + "just "@ + p) + r + spaced_words(step.args));
        }
    } else if step.command is Some {
        assert(dry_run_command(step, jf) =~= "sh -c '"@ + step.command->0 + spaced_words(step.args) + "'"@);
    }
}

/// How a `just` step is started: `just`, then `--justfile` and the justfile
/// when the config names one, then `--no-deps` exactly when the step's
/// `just_no_deps` is true, then the recipe, then one resolved word per
/// argument.
pub proof fn law_just_invocation(
    step: Step,
    meta: Metadata,
    vars: StrMap<String>,
    yes_mode: bool,
    answers: Seq<Seq<char>>,
)
    requires
        step.just_recipe is Some,
    ensures
        match invocation_for(step, meta, vars, yes_mode, answers) {
            Ok(inv) => {
                let off: int = if meta.justfile is Some { 2 } else { 0 };
                let nd: int = if step.just_no_deps == Some(true) { 1 } else { 0 };
                &&& inv.program == "just"@
                &&& inv.current_dir == opt_view(meta.working_directory)
                &&& inv.args.len() == off + nd + 1 + step.args@.len()
                &&& meta.justfile is Some ==> inv.args[0] == "--justfile"@ && inv.args[1] == (meta.justfile->0)@
                &&& step.just_no_deps == Some(true) ==> inv.args[off] == "--no-deps"@
                &&& inv.args[off + nd] == (step.just_recipe->0)@
            },
            Err(_) => true,
        },
{
    let name = step.name@;
    match resolve_list(table_values(step.env), name, vars, step.prompts, yes_mode, false, answers, 0) {
        Err(e) => {},
        Ok((ev, c1)) => {
            crate::resolver::lemma_resolve_list_len(views(step.args@), name, vars, step.prompts, yes_mode, false, answers, c1);
            match resolve_list(views(step.args@), name, vars, step.prompts, yes_mode, false, answers, c1) {
                Err(e) => {},
                Ok((xs, _)) => {
                    let pre = just_args(opt_view(meta.justfile), step.just_no_deps == Some(true), (step.just_recipe->0)@);
                    let inv = invocation_for(step, meta, vars, yes_mode, answers)->Ok_0;
                    assert(inv.args == pre + xs);
                    let off: int = if meta.justfile is Some { 2 } else { 0 };
                    let nd: int = if step.just_no_deps == Some(true) { 1 } else { 0 };
                    assert(pre.len() == off + nd + 1);
                    assert(inv.args[off + nd] == pre[off + nd]);
                },
            }
        },
    }
}

/// How a `command` step is started: `sh -c` with one command line, in the
/// configured working directory; a step with neither `command` nor
/// `just_recipe` cannot be started.
pub proof fn law_command_invocation(
    step: Step,
    meta: Metadata,
    vars: StrMap<String>,
    yes_mode: bool,
    answers: Seq<Seq<char>>,
)
    requires
        step.just_recipe is None,
    ensures
        match invocation_for(step, meta, vars, yes_mode, answers) {
            Ok(inv) => {
                &&& step.command is Some
                &&& inv.program == "sh"@
                &&& inv.args.len() == 2
                &&& inv.args[0] == "-c"@
                &&& inv.current_dir == opt_view(meta.working_directory)
            },
            Err(ExecFailure::NoCommand(n)) => step.command is None && n == step.name@,
            Err(_) => true,
        },
{
}

/// A line of a dry run that shows an environment variable.
pub open spec fn env_line(k: Seq<char>, v: Seq<char>) -> Seq<char> {
    "  env: "@ + k + "="@ + v
}

/// The value of `k` in a string table, by view.
pub open spec fn env_value(m: StrMap<String>, k: Seq<char>) -> Seq<char> {
    match m.spec_get(k) {
        Some(v) => v@,
        None => seq![],
    }
}

/// Appends the arguments of a dry-run line, each after a space.
fn push_args_suffix(out: &mut Vec<char>, args: &Vec<String>)
    ensures
        final(out)@ == old(out)@ + args_suffix(views(args@)),
{
    if args.len() > 0 {
        push_str(out, " ");
        push_joined(out, args, " ");
        assert(final(out)@ =~= old(out)@ + args_suffix(views(args@)));
    } else {
        assert(final(out)@ =~= old(out)@ + args_suffix(views(args@)));
    }
}

/// Appends the command a dry run shows.
fn push_dry_run_command(out: &mut Vec<char>, step: &Step, justfile: &Option<String>)
    ensures
        final(out)@ == old(out)@ + dry_run_command(step@, opt_view(*justfile)),
{
    let ghost start = out@;
    match &step.just_recipe {
        Some(recipe) => {
            push_str(out, "just ");
            match justfile {
                Some(jf) => {
                    push_str(out, "--justfile ");
                    push_str(out, jf.as_str());
                    push_str(out, " ");
                },
                None => {},
            }
            if step.just_no_deps == Some(true) {
                push_str(out, "--no-deps ");
            }
            push_str(out, recipe.as_str());
            push_args_suffix(out, &step.args);
        },
        None => match &step.command {
            Some(c) => {
                push_str(out, "sh -c '");
                push_str(out, c.as_str());
                push_args_suffix(out, &step.args);
                push_str(out, "'");
            },
            None => {
                push_str(out, "(no command)");
            },
        },
    }
    assert(out@ =~= start + dry_run_command(step@, opt_view(*justfile)));
}

/// The last line of a dry run of `step`.
fn dry_run_command_line(step: &Step, meta: &Metadata) -> (r: String)
    ensures
        r@ == dry_run_line(step@, *meta),
{
    let mut line: Vec<char> = Vec::new();
    push_str(&mut line, "  [dry-run] ");
    push_dry_run_command(&mut line, step, &meta.justfile);
    match &meta.working_directory {
        Some(wd) => {
            push_str(&mut line, " [in ");
            push_str(&mut line, wd.as_str());
            push_str(&mut line, "]");
        },
        None => {},
    }
    let last = string_from_chars(&line);
    assert(last@ =~= dry_run_line(step@, *meta));
    last
}

/// The lines a dry run of `step` prints: its environment variables sorted
/// by name, then the command it would run.
pub fn dry_run_lines(step: &Step, meta: &Metadata) -> (r: Vec<String>)
    ensures
        r@.len() == step.env.spec_keys().len() + 1,
        exists|ks: Seq<Seq<char>>| ks.to_multiset() == step.env.spec_keys().to_multiset() && sorted_strs(ks)
            && ks.len() == step.env.spec_keys().len()
            && forall|i: int| 0 <= i < ks.len() ==> (#[trigger] r@[i])@ == env_line(ks[i], env_value(step.env, ks[i])),
        r@.last()@ == dry_run_line(step@, *meta),
{
    // The keys, sorted.
    let mut keys: Vec<String> = Vec::new();
    let mut i: usize = 0;
    while i < step.env.len()
        invariant
            i <= step.env.spec_entries().len(),
            views(keys@) == step.env.spec_keys().take(i as int),
        decreases step.env.spec_entries().len() - i,
    {
        let ghost before = views(keys@);
        let k = copy_string(step.env.key_at(i));
        keys.push(k);
        assert(step.env.spec_keys()[i as int] == step.env.spec_entries()[i as int].0);
        assert(views(keys@) =~= before.push(k@));
        assert(views(keys@) =~= step.env.spec_keys().take(i + 1));
        i = i + 1;
    }
    assert(step.env.spec_keys().take(i as int) =~= step.env.spec_keys());
    let sorted = sort_strings(&keys);
    proof {
        broadcast use vstd::seq_lib::group_to_multiset_ensures;
        assert(views(sorted@).len() == views(sorted@).to_multiset().len());
        assert(views(keys@).len() == views(keys@).to_multiset().len());
    }
    let ghost ks = views(sorted@);
    let mut r: Vec<String> = Vec::new();
    let mut j: usize = 0;
    while j < sorted.len()
        invariant
            ks == views(sorted@),
            j <= sorted@.len(),
            r@.len() == j,
            forall|q: int| 0 <= q < j ==> (#[trigger] r@[q])@ == env_line(ks[q], env_value(step.env, ks[q])),
        decreases sorted@.len() - j,
    {
        let mut line: Vec<char> = Vec::new();
        push_str(&mut line, "  env: ");
        push_str(&mut line, sorted[j].as_str());
        push_str(&mut line, "=");
        match step.env.get(sorted[j].as_str()) {
            Some(v) => push_str(&mut line, v.as_str()),
            None => {},
        }
        let l = string_from_chars(&line);
        assert(ks[j as int] == sorted@[j as int]@);
        assert(l@ == env_line(ks[j as int], env_value(step.env, ks[j as int])));
        r.push(l);
        j = j + 1;
    }
    // The command.
    let last = dry_run_command_line(step, meta);
    r.push(last);
    r
}

} // verus!
