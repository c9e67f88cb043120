//! The decisions of a run: the argument records of the subcommands, which
//! profile applies, which steps are offered, how the selected steps are
//! batched for execution, and what `again` replays.
use vstd::prelude::*;
use crate::config::{Config, Step, StepView, Profile, ProfileView, step_views, opt_view, copy_opt,
    copy_strings};
use crate::picker::in_group;
use crate::graph::{last_named, last_named_exec, join, push_joined, filter_view};
use crate::history::{History, HistoryEntry, EntryView, latest_for, latest_entry_for, opt_entry_view};
use crate::text::{views, str_eq, contains_string, copy_string, string_from_chars, push_str,
    sort_strings, sorted_strs, lex_lt};

verus! {

// ---------------------------------------------------------------------------
// Argument records
// ---------------------------------------------------------------------------

/// Options of a run (`runsteps` and `runsteps run`).
#[derive(Debug, Clone)]
pub struct RunArgs {
    /// Path to the config file.
    pub config: String,
    /// Run all offered steps without the picker.
    pub all: bool,
    /// Skip all confirmations.
    pub yes: bool,
    /// Show what would run without running it.
    pub dry_run: bool,
    /// List the steps and exit (deprecated form of `list`).
    pub list: bool,
    /// Write a template config and exit (deprecated form of `init`).
    pub init: bool,
    /// Offer only the steps of this group.
    pub group: Option<String>,
    /// Replay the last run (deprecated form of `again`).
    pub again: bool,
    /// `key=value` placeholder bindings.
    pub var: Vec<String>,
    /// The profile to apply.
    pub profile: Option<String>,
}

impl Default for RunArgs {
    fn default() -> (r: RunArgs)
        ensures
            r.config@.len() == 0,
            !r.all && !r.yes && !r.dry_run && !r.list && !r.init && !r.again,
            r.group is None,
            r.var@.len() == 0,
            r.profile is None,
    {
        RunArgs {
            config: String::new(),
            all: false,
            yes: false,
            dry_run: false,
            list: false,
            init: false,
            group: None,
            again: false,
            var: Vec::new(),
            profile: None,
        }
    }
}

/// Options of `runsteps schema`.
#[derive(Debug, Clone)]
pub struct SchemaArgs {
    /// Print JSON Schema instead of the readable listing.
    pub json: bool,
}

/// Options of `runsteps init`.
#[derive(Debug, Clone)]
pub struct InitArgs {
    /// Where to write the template config.
    pub path: String,
}

/// Options of `runsteps list`.
#[derive(Debug, Clone)]
pub struct ListArgs {
    /// Print the steps as JSON.
    pub json: bool,
    /// List only the steps of this group.
    pub group: Option<String>,
    /// Path to the config file.
    pub config: String,
}

/// Options of `runsteps graph`.
#[derive(Debug, Clone)]
pub struct GraphArgs {
    /// Draw only this group and its dependencies.
    pub group: Option<String>,
    /// Path to the config file.
    pub config: String,
}

/// Options of `runsteps again`.
#[derive(Debug, Clone)]
pub struct AgainArgs {
    /// Path to the config file.
    pub config: String,
    /// Skip confirmations.
    pub yes: bool,
    /// Show what would run without running it.
    pub dry_run: bool,
    /// `key=value` placeholder bindings.
    pub var: Vec<String>,
    /// The profile to apply.
    pub profile: Option<String>,
}

impl RunArgs {
    /// The options that `--again` hands on to the replay.
    pub fn again_args(&self) -> (r: AgainArgs)
        ensures
            r.config@ == self.config@,
            r.yes == self.yes,
            r.dry_run == self.dry_run,
            views(r.var@) == views(self.var@),
            opt_view(r.profile) == opt_view(self.profile),
    {
        AgainArgs {
            config: copy_string(&self.config),
            yes: self.yes,
            dry_run: self.dry_run,
            var: copy_strings(&self.var),
            profile: copy_opt(&self.profile),
        }
    }
}

/// The warning printed for a deprecated top-level flag.
pub fn deprecation_warning(flag: &str, replacement: &str) -> (r: String)
    ensures
        r@ == "warning: top-level flag `"@ + flag@ + "` is deprecated; use `runsteps "@ + replacement@
            + "` instead. Will be removed in v0.5.0."@,
{
    let mut out: Vec<char> = Vec::new();
    push_str(&mut out, "warning: top-level flag `");
    push_str(&mut out, flag);
    push_str(&mut out, "` is deprecated; use `runsteps ");
    push_str(&mut out, replacement);
    push_str(&mut out, "` instead. Will be removed in v0.5.0.");
    string_from_chars(&out)
}

/// The path `init` writes: `.toml` is appended unless the path has it.
pub fn init_config_path(path: &str) -> (r: String)
    ensures
        r@ == if path@.len() >= 5 && path@.skip(path@.len() - 5) == ".toml"@ {
            path@
        } else {
            path@ + ".toml"@
        },
{
    let c: Vec<char> = crate::text::chars_of(path);
    let n: usize = c.len();
    let mut ends = false;
    if n >= 5 {
        let tail = ['.', 't', 'o', 'm', 'l'];
        let mut k: usize = 0;
        ends = true;
        while k < 5
            invariant
                c@ == path@,
                n == c@.len(),
                n >= 5,
                k <= 5,
                ends == (forall|q: int| 0 <= q < k ==> c@[n - 5 + q] == tail@[q]),
            decreases 5 - k,
        {
            if c[n - 5 + k] != tail[k] {
                ends = false;
            }
            k = k + 1;
        }
        proof {
            reveal_strlit(".toml");
            assert(tail@ =~= ".toml"@);
            if ends {
                assert(path@.skip(n - 5) =~= ".toml"@);
            } else {
                let q = choose|q: int| 0 <= q < 5 && !(c@[n - 5 + q] == tail@[q]);
                assert(path@.skip(n - 5)[q] != ".toml"@[q]);
            }
        }
    }
    let mut out: Vec<char> = Vec::new();
    push_str(&mut out, path);
    if !ends {
        push_str(&mut out, ".toml");
    }
    string_from_chars(&out)
}

// ---------------------------------------------------------------------------
// Profiles
// ---------------------------------------------------------------------------

/// Why `--profile` was refused.
#[derive(Debug)]
pub enum ProfileError {
    /// No profile has this name; `available` lists the defined ones, sorted.
    Unknown { name: String, available: Vec<String> },
}

/// The list of available profiles in the error message.
pub open spec fn available_text(available: Seq<Seq<char>>) -> Seq<char> {
    if available.len() == 0 {
        "(none)"@
    } else {
        join(available, ", "@)
    }
}

impl ProfileError {
    /// The error as printed.
    pub fn message(&self) -> (r: String)
        ensures
            match self {
                ProfileError::Unknown { name, available } => r@ == "error: unknown profile '"@ + name@
                    + "'; available: "@ + available_text(views(available@)),
            },
    {
        match self {
            ProfileError::Unknown { name, available } => {
                let mut out: Vec<char> = Vec::new();
                push_str(&mut out, "error: unknown profile '");
                push_str(&mut out, name.as_str());
                push_str(&mut out, "'; available: ");
                if available.len() == 0 {
                    push_str(&mut out, "(none)");
                } else {
                    push_joined(&mut out, available, ", ");
                }
                string_from_chars(&out)
            },
        }
    }
}

/// The profile in force when none is named: it changes nothing.
pub open spec fn neutral_profile() -> ProfileView {
    ProfileView { skip_confirms: false, excluded_steps: seq![], groups: seq![] }
}

/// The names of the profiles defined in `config`, in definition order.
fn profile_names(config: &Config) -> (r: Vec<String>)
    ensures
        views(r@) == config.profiles.spec_keys(),
{
    let mut r: Vec<String> = Vec::new();
    let mut i: usize = 0;
    while i < config.profiles.len()
        invariant
            i <= config.profiles.spec_entries().len(),
            views(r@) == config.profiles.spec_keys().take(i as int),
        decreases config.profiles.spec_entries().len() - i,
    {
        let ghost before = views(r@);
        let k = copy_string(config.profiles.key_at(i));
        r.push(k);
        assert(config.profiles.spec_keys()[i as int] == config.profiles.spec_entries()[i as int].0);
        assert(views(r@) =~= before.push(k@));
        assert(views(r@) =~= config.profiles.spec_keys().take(i + 1));
        i = i + 1;
    }
    assert(config.profiles.spec_keys().take(i as int) =~= config.profiles.spec_keys());
    r
}

/// The profile named by `--profile`, or the neutral one without the flag.
pub fn resolve_profile(config: &Config, profile_name: Option<&str>) -> (r: Result<Profile, ProfileError>)
    ensures
        match profile_name {
            None => r matches Ok(p) && p@ == neutral_profile(),
            Some(n) => match config.profiles.spec_get(n@) {
                Some(p) => r matches Ok(q) && q@ == p@,
                None => r matches Err(ProfileError::Unknown { name, available }) && name@ == n@
                    && views(available@).to_multiset() == config.profiles.spec_keys().to_multiset()
                    && sorted_strs(views(available@)),
            },
        },
{
    match profile_name {
        None => {
            let p = Profile::default();
            assert(p@.excluded_steps =~= Seq::<Seq<char>>::empty());
            assert(p@.groups =~= Seq::<Seq<char>>::empty());
            assert(p@ == neutral_profile());
            Ok(p)
        },
        Some(n) => match config.profiles.get(n) {
            Some(p) => Ok(p.duplicate()),
            None => {
                let names = profile_names(config);
                let sorted = sort_strings(&names);
                let mut nm: Vec<char> = Vec::new();
                push_str(&mut nm, n);
                Err(ProfileError::Unknown { name: string_from_chars(&nm), available: sorted })
            },
        },
    }
}

// ---------------------------------------------------------------------------
// The steps offered
// ---------------------------------------------------------------------------

/// Which steps the group filter lets through.
pub enum GroupFilter {
    /// No `--group`: every step (subject to a profile's groups).
    Any,
    /// The steps of this group.
    Only(Seq<char>),
    /// No step at all.
    Nothing,
}

/// The group filter in force: `--group` when given, intersected with a
/// profile's groups; a group outside the profile's groups lets no step
/// through.
pub open spec fn effective_group(group: Option<Seq<char>>, profile_groups: Seq<Seq<char>>) -> GroupFilter {
    match group {
        Some(g) => if profile_groups.len() > 0 && !profile_groups.contains(g) {
            GroupFilter::Nothing
        } else {
            GroupFilter::Only(g)
        },
        None => GroupFilter::Any,
    }
}

/// The step belongs to one of the profile's groups.
pub open spec fn in_profile_groups(s: StepView, groups: Seq<Seq<char>>) -> bool {
    match s.group {
        Some(g) => groups.contains(g),
        None => false,
    }
}

/// The step passes the group filter and the profile's exclusions.
pub open spec fn offered(s: StepView, group: Option<Seq<char>>, profile: ProfileView) -> bool {
    &&& match effective_group(group, profile.groups) {
        GroupFilter::Only(g) => in_group(s, g),
        GroupFilter::Any => profile.groups.len() == 0 || in_profile_groups(s, profile.groups),
        GroupFilter::Nothing => false,
    }
    &&& !profile.excluded_steps.contains(s.name)
}

/// The steps offered for a run, in config order.
pub open spec fn offered_steps(steps: Seq<StepView>, group: Option<Seq<char>>, profile: ProfileView) -> Seq<StepView>
    decreases steps.len(),
{
    if steps.len() == 0 {
        seq![]
    } else if offered(steps.last(), group, profile) {
        offered_steps(steps.drop_last(), group, profile).push(steps.last())
    } else {
        offered_steps(steps.drop_last(), group, profile)
    }
}

/// A `--group` outside a profile's (nonempty) groups offers no step at all.
pub proof fn law_group_outside_profile_offers_nothing(steps: Seq<StepView>, g: Seq<char>, profile: ProfileView)
    requires
        profile.groups.len() > 0,
        !profile.groups.contains(g),
    ensures
        offered_steps(steps, Some(g), profile).len() == 0,
    decreases steps.len(),
{
    if steps.len() > 0 {
        law_group_outside_profile_offers_nothing(steps.drop_last(), g, profile);
    }
}

proof fn lemma_offered_as_filter(steps: Seq<StepView>, group: Option<Seq<char>>, profile: ProfileView, pred: spec_fn(StepView) -> bool)
    requires
        forall|s: StepView| #[trigger] pred(s) == offered(s, group, profile),
    ensures
        offered_steps(steps, group, profile) == steps.filter(pred),
    decreases steps.len(),
{
    reveal_with_fuel(Seq::filter, 1);
    if steps.len() > 0 {
        lemma_offered_as_filter(steps.drop_last(), group, profile, pred);
    }
}

/// The steps offered for a run, in config order: with no `--group`, the
/// steps of the profile's groups (all steps when it lists none); with
/// `--group g`, the steps of group `g` when the profile lists no groups or
/// lists `g`, and none otherwise; in every case without the steps the
/// profile excludes.
pub proof fn law_offered_steps(steps: Seq<StepView>, group: Option<Seq<char>>, profile: ProfileView)
    ensures
        forall|i: int| 0 <= i < offered_steps(steps, group, profile).len()
            ==> !profile.excluded_steps.contains((#[trigger] offered_steps(steps, group, profile)[i]).name),
        group is None && profile.groups.len() == 0 ==> offered_steps(steps, group, profile)
            == steps.filter(|s: StepView| !profile.excluded_steps.contains(s.name)),
        group is None && profile.groups.len() > 0 ==> offered_steps(steps, group, profile)
            == steps.filter(|s: StepView| s.group is Some && profile.groups.contains(s.group->0)
                && !profile.excluded_steps.contains(s.name)),
        group is Some && (profile.groups.len() == 0 || profile.groups.contains(group->0))
            ==> offered_steps(steps, group, profile)
            == steps.filter(|s: StepView| s.group == group && !profile.excluded_steps.contains(s.name)),
        group is Some && profile.groups.len() > 0 && !profile.groups.contains(group->0)
            ==> offered_steps(steps, group, profile).len() == 0,
{
    let excl = |s: StepView| !profile.excluded_steps.contains(s.name);
    let in_groups = |s: StepView| s.group is Some && profile.groups.contains(s.group->0)
        && !profile.excluded_steps.contains(s.name);
    let of_group = |s: StepView| s.group == group && !profile.excluded_steps.contains(s.name);
    let pred = |s: StepView| offered(s, group, profile);
    lemma_offered_as_filter(steps, group, profile, pred);
    broadcast use vstd::seq_lib::group_filter_ensures;
    let os = offered_steps(steps, group, profile);
    assert forall|i: int| 0 <= i < os.len() implies !profile.excluded_steps.contains((#[trigger] os[i]).name) by {
        assert(pred(os[i]));
    }
    if group is None && profile.groups.len() == 0 {
        lemma_offered_as_filter(steps, group, profile, excl);
    }
    if group is None && profile.groups.len() > 0 {
        assert forall|s: StepView| #[trigger] in_groups(s) == offered(s, group, profile) by {
            assert(in_profile_groups(s, profile.groups) == (s.group is Some && profile.groups.contains(s.group->0)));
        }
        lemma_offered_as_filter(steps, group, profile, in_groups);
    }
    if group is Some && (profile.groups.len() == 0 || profile.groups.contains(group->0)) {
        assert forall|s: StepView| #[trigger] of_group(s) == offered(s, group, profile) by {
            assert(in_group(s, group->0) == (s.group == group));
        }
        lemma_offered_as_filter(steps, group, profile, of_group);
    }
    if group is Some && profile.groups.len() > 0 && !profile.groups.contains(group->0) {
        law_group_outside_profile_offers_nothing(steps, group->0, profile);
    }
}

fn group_in(groups: &Vec<String>, s: &Step) -> (r: bool)
    ensures
        r == in_profile_groups(s@, views(groups@)),
{
    match &s.group {
        Some(g) => contains_string(groups, g.as_str()),
        None => false,
    }
}

/// The steps a run offers, given `--group` and the profile in force.
pub fn available_steps(config: &Config, group: Option<&str>, profile: &Profile) -> (r: Vec<Step>)
    ensures
        step_views(r@) == offered_steps(step_views(config.steps@), filter_view(group), profile@),
{
    let ghost sv = step_views(config.steps@);
    let ghost gv = filter_view(group);
    let ghost pv = profile@;
    // The group in force; `nothing` when no step can pass.
    let mut eg: Option<String> = None;
    let mut nothing = false;
    match group {
        Some(g) => {
            if profile.groups.len() > 0 && !contains_string(&profile.groups, g) {
                nothing = true;
            } else {
                let mut t: Vec<char> = Vec::new();
                push_str(&mut t, g);
                eg = Some(string_from_chars(&t));
            }
        },
        None => {},
    }
    let ghost filt = effective_group(gv, pv.groups);
    assert(match filt {
        GroupFilter::Only(g) => !nothing && opt_view(eg) == Some(g),
        GroupFilter::Any => !nothing && eg is None,
        GroupFilter::Nothing => nothing,
    });
    let mut r: Vec<Step> = Vec::new();
    let mut i: usize = 0;
    assert(sv.take(0) =~= Seq::<StepView>::empty());
    while i < config.steps.len()
        invariant
            sv == step_views(config.steps@),
            gv == filter_view(group),
            pv == profile@,
            filt == effective_group(gv, pv.groups),
            match filt {
                GroupFilter::Only(g) => !nothing && opt_view(eg) == Some(g),
                GroupFilter::Any => !nothing && eg is None,
                GroupFilter::Nothing => nothing,
            },
            i <= config.steps@.len(),
            step_views(r@) == offered_steps(sv.take(i as int), gv, pv),
        decreases config.steps@.len() - i,
    {
        let s = &config.steps[i];
        let ghost t = sv.take(i + 1);
        assert(t.drop_last() =~= sv.take(i as int));
        assert(t.last() == s@);
        let in_filter = if nothing {
            false
        } else {
            match &eg {
                Some(g) => match &s.group {
                    Some(x) => str_eq(x.as_str(), g.as_str()),
                    None => false,
                },
                None => profile.groups.len() == 0 || group_in(&profile.groups, s),
            }
        };
        let keep = in_filter && !contains_string(&profile.excluded_steps, s.name.as_str());
        if keep {
            let ghost before = step_views(r@);
            let d = s.duplicate();
            r.push(d);
            assert(step_views(r@) =~= before.push(d@));
        }
        i = i + 1;
    }
    assert(sv.take(i as int) =~= sv);
    r
}

// ---------------------------------------------------------------------------
// Execution batches
// ---------------------------------------------------------------------------

/// Step `i` may join a parallel batch: it is `parallel`, needs no
/// confirmation, and no step of its name has run.
pub open spec fn joins_parallel(sel: Seq<StepView>, i: int, ran: Seq<Seq<char>>) -> bool {
    sel[i].parallel && !sel[i].confirm && !ran.contains(sel[i].name)
}

/// Neither of steps `a` and `b` depends on the other.
pub open spec fn unrelated(sel: Seq<StepView>, a: int, b: int) -> bool {
    !sel[a].depends_on.contains(sel[b].name) && !sel[b].depends_on.contains(sel[a].name)
}

/// Step `j` has no dependency relationship with any of the steps `i .. j`.
pub open spec fn unrelated_to_run(sel: Seq<StepView>, i: int, j: int) -> bool {
    forall|q: int| i <= q < j ==> #[trigger] unrelated(sel, q, j)
}

/// The length of the run of steps that starts at `i` and may run together,
/// scanned up to `j`: each may join a parallel batch and has no dependency
/// relationship with the steps before it in the run.
pub open spec fn parallel_run_from(sel: Seq<StepView>, i: int, j: int, ran: Seq<Seq<char>>) -> nat
    decreases sel.len() - j,
{
    if j < i || j >= sel.len() || !joins_parallel(sel, j, ran) || !unrelated_to_run(sel, i, j) {
        if j >= i { (j - i) as nat } else { 0 }
    } else {
        parallel_run_from(sel, i, j + 1, ran)
    }
}

/// The number of consecutive steps from `i` that may run together.
pub open spec fn parallel_run(sel: Seq<StepView>, i: int, ran: Seq<Seq<char>>) -> nat {
    parallel_run_from(sel, i, i, ran)
}

proof fn lemma_parallel_run_from(sel: Seq<StepView>, i: int, j: int, ran: Seq<Seq<char>>)
    requires
        0 <= i <= j <= sel.len(),
        forall|q: int| i <= q < j ==> #[trigger] joins_parallel(sel, q, ran),
        forall|q1: int, q2: int| i <= q1 < q2 < j ==> #[trigger] unrelated(sel, q1, q2),
    ensures
        j <= i + parallel_run_from(sel, i, j, ran) <= sel.len(),
        forall|q: int| i <= q < i + parallel_run_from(sel, i, j, ran) ==> #[trigger] joins_parallel(sel, q, ran),
        forall|q1: int, q2: int| i <= q1 < q2 < i + parallel_run_from(sel, i, j, ran) ==> #[trigger] unrelated(sel, q1, q2),
    decreases sel.len() - j,
{
    if j < sel.len() && joins_parallel(sel, j, ran) && unrelated_to_run(sel, i, j) {
        assert forall|q1: int, q2: int| i <= q1 < q2 < j + 1 implies #[trigger] unrelated(sel, q1, q2) by {
            if q2 == j {
                assert(unrelated(sel, q1, j));
            }
        }
        lemma_parallel_run_from(sel, i, j + 1, ran);
    }
}

/// The steps of a run may join a parallel batch and are pairwise unrelated.
pub proof fn lemma_parallel_run(sel: Seq<StepView>, i: int, ran: Seq<Seq<char>>)
    requires
        0 <= i,
    ensures
        i + parallel_run(sel, i, ran) <= if i <= sel.len() { sel.len() as int } else { i },
        forall|j: int| i <= j < i + parallel_run(sel, i, ran) ==> #[trigger] joins_parallel(sel, j, ran),
        forall|q1: int, q2: int| i <= q1 < q2 < i + parallel_run(sel, i, ran) ==> #[trigger] unrelated(sel, q1, q2),
{
    if i <= sel.len() {
        lemma_parallel_run_from(sel, i, i, ran);
    }
}

/// The indices `i .. i + k`.
pub open spec fn index_range(i: int, k: nat) -> Seq<int> {
    Seq::new(k, |q: int| i + q)
}

/// The names of the steps at `i .. i + k`.
pub open spec fn names_at(sel: Seq<StepView>, i: int, k: nat) -> Seq<Seq<char>> {
    Seq::new(k, |q: int| sel[i + q].name)
}

/// The batches of the steps from `i` on, the steps named in `ran` having
/// run: a step whose name has run is skipped; two or more consecutive steps
/// that may run in parallel form one batch; any other step is a batch of
/// its own.
pub open spec fn batches_from(sel: Seq<StepView>, i: int, ran: Seq<Seq<char>>) -> Seq<Seq<int>>
    decreases sel.len() - i,
{
    if i < 0 || i >= sel.len() {
        seq![]
    } else if ran.contains(sel[i].name) {
        batches_from(sel, i + 1, ran)
    } else if parallel_run(sel, i, ran) >= 2 {
        let k = parallel_run(sel, i, ran);
        proof {
            lemma_parallel_run(sel, i, ran);
        }
        seq![index_range(i, k)] + batches_from(sel, i + k, ran + names_at(sel, i, k))
    } else {
        seq![seq![i]] + batches_from(sel, i + 1, ran.push(sel[i].name))
    }
}

/// The batches in which the selected steps run, assuming each succeeds.
pub open spec fn batches(sel: Seq<StepView>) -> Seq<Seq<int>> {
    batches_from(sel, 0, seq![])
}

/// The view of planned batches.
pub open spec fn batch_views(out: Seq<Vec<usize>>) -> Seq<Seq<int>> {
    out.map_values(|b: Vec<usize>| b@.map_values(|x: usize| x as int))
}

fn unrelated_exec(selected: &Vec<Step>, a: usize, b: usize) -> (r: bool)
    requires
        a < selected@.len(),
        b < selected@.len(),
    ensures
        r == unrelated(step_views(selected@), a as int, b as int),
{
    let ghost sv = step_views(selected@);
    assert(sv[a as int] == selected@[a as int]@);
    assert(sv[b as int] == selected@[b as int]@);
    !contains_string(&selected[a].depends_on, selected[b].name.as_str())
        && !contains_string(&selected[b].depends_on, selected[a].name.as_str())
}

fn unrelated_to_run_exec(selected: &Vec<Step>, i: usize, j: usize) -> (r: bool)
    requires
        i <= j < selected@.len(),
    ensures
        r == unrelated_to_run(step_views(selected@), i as int, j as int),
{
    let mut q: usize = i;
    while q < j
        invariant
            i <= q <= j < selected@.len(),
            forall|t: int| i <= t < q ==> #[trigger] unrelated(step_views(selected@), t, j as int),
        decreases j - q,
    {
        if !unrelated_exec(selected, q, j) {
            return false;
        }
        q = q + 1;
    }
    true
}

/// Batches steps in the order given: each batch of one index runs on its
/// own, each batch of more runs in parallel.
pub fn batch_steps(selected: &Vec<Step>) -> (r: Vec<Vec<usize>>)
    ensures
        batch_views(r@) == batches(step_views(selected@)),
{
    let ghost sv = step_views(selected@);
    let n: usize = selected.len();
    let mut out: Vec<Vec<usize>> = Vec::new();
    let mut ran: Vec<String> = Vec::new();
    let mut i: usize = 0;
    assert(views(ran@) =~= Seq::<Seq<char>>::empty());
    assert(batch_views(out@) =~= Seq::<Seq<int>>::empty());
    assert(batch_views(out@) + batches_from(sv, 0, views(ran@)) =~= batches(sv));
    while i < n
        invariant
            sv == step_views(selected@),
            n == selected@.len(),
            i <= n,
            batch_views(out@) + batches_from(sv, i as int, views(ran@)) == batches(sv),
        decreases n - i,
    {
        assert(sv[i as int] == selected@[i as int]@);
        let ghost rv = views(ran@);
        let ghost bo = batch_views(out@);
        if contains_string(&ran, selected[i].name.as_str()) {
            i = i + 1;
        } else {
            let mut j: usize = i;
            while j < n && selected[j].parallel && !selected[j].confirm
                && !contains_string(&ran, selected[j].name.as_str()) && unrelated_to_run_exec(selected, i, j)
                invariant
                    sv == step_views(selected@),
                    n == selected@.len(),
                    rv == views(ran@),
                    i <= j <= n,
                    parallel_run(sv, i as int, rv) == parallel_run_from(sv, i as int, j as int, rv),
                decreases n - j,
            {
                assert(sv[j as int] == selected@[j as int]@);
                j = j + 1;
            }
            proof {
                if j < n {
                    assert(sv[j as int] == selected@[j as int]@);
                }
                assert(parallel_run_from(sv, i as int, j as int, rv) == j - i);
            }
            if j - i >= 2 {
                let mut batch: Vec<usize> = Vec::new();
                let mut q: usize = i;
                while q < j
                    invariant
                        sv == step_views(selected@),
                        n == selected@.len(),
                        i <= q <= j <= n,
                        batch@.len() == q - i,
                        forall|t: int| 0 <= t < batch@.len() ==> batch@[t] == i + t,
                        views(ran@) == rv + names_at(sv, i as int, (q - i) as nat),
                    decreases j - q,
                {
                    let ghost bb = batch@;
                    let ghost rb = views(ran@);
                    batch.push(q);
                    let nm = copy_string(&selected[q].name);
                    ran.push(nm);
                    assert(sv[q as int] == selected@[q as int]@);
                    assert(views(ran@) =~= rb.push(nm@));
                    assert(views(ran@) =~= rv + names_at(sv, i as int, (q + 1 - i) as nat));
                    q = q + 1;
                }
                let ghost bv = batch@.map_values(|x: usize| x as int);
                assert(bv =~= index_range(i as int, (j - i) as nat));
                out.push(batch);
                assert(batch_views(out@) =~= bo.push(bv));
                assert(batch_views(out@) + batches_from(sv, j as int, views(ran@)) =~= batches(sv));
                i = j;
            } else {
                let mut batch: Vec<usize> = Vec::new();
                batch.push(i);
                let nm = copy_string(&selected[i].name);
                ran.push(nm);
                let ghost bv = batch@.map_values(|x: usize| x as int);
                assert(bv =~= seq![i as int]);
                out.push(batch);
                assert(batch_views(out@) =~= bo.push(bv));
                assert(views(ran@) =~= rv.push(sv[i as int].name));
                assert(batch_views(out@) + batches_from(sv, i + 1, views(ran@)) =~= batches(sv));
                i = i + 1;
            }
        }
    }
    assert(batch_views(out@) =~= batch_views(out@) + batches_from(sv, i as int, views(ran@)));
    out
}

/// A batch: at least one step, consecutive indices within the selection,
/// and, when it holds more than one step, only steps that may run in
/// parallel, no two of them related by `depends_on`.
pub open spec fn well_formed_batch(sel: Seq<StepView>, b: Seq<int>) -> bool {
    &&& b.len() >= 1
    &&& forall|q: int| 0 <= q < b.len() ==> #[trigger] b[q] == b[0] + q && 0 <= b[q] < sel.len()
    &&& b.len() >= 2 ==> forall|q: int| 0 <= q < b.len() ==> sel[#[trigger] b[q]].parallel && !sel[b[q]].confirm
    &&& b.len() >= 2 ==> forall|q1: int, q2: int| 0 <= q1 < q2 < b.len() ==> unrelated(sel, #[trigger] b[q1], #[trigger] b[q2])
}

/// Index `j` is planned in some batch.
pub open spec fn planned(bs: Seq<Seq<int>>, j: int) -> bool {
    exists|k: int, q: int| 0 <= k < bs.len() && 0 <= q < bs[k].len() && #[trigger] bs[k][q] == j
}

/// A step named like step `j` is planned before it.
pub open spec fn name_planned_before(sel: Seq<StepView>, bs: Seq<Seq<int>>, j: int) -> bool {
    exists|k: int, q: int| 0 <= k < bs.len() && 0 <= q < bs[k].len() && #[trigger] bs[k][q] < j
        && sel[bs[k][q]].name == sel[j].name
}

/// What holds of the batches planned from `i` on, given the names in `ran`.
pub open spec fn batches_ok(sel: Seq<StepView>, i: int, ran: Seq<Seq<char>>, bs: Seq<Seq<int>>) -> bool {
    &&& forall|k: int| 0 <= k < bs.len() ==> well_formed_batch(sel, #[trigger] bs[k])
    &&& forall|k: int, q: int| 0 <= k < bs.len() && 0 <= q < bs[k].len() ==> i <= #[trigger] bs[k][q]
        && !ran.contains(sel[bs[k][q]].name)
    &&& forall|k1: int, k2: int| 0 <= k1 < k2 < bs.len() ==> (#[trigger] bs[k1]).last() < (#[trigger] bs[k2])[0]
    &&& forall|k1: int, k2: int, q1: int, q2: int|
        0 <= k1 < k2 < bs.len() && 0 <= q1 < bs[k1].len() && 0 <= q2 < bs[k2].len()
        ==> sel[#[trigger] bs[k1][q1]].name != sel[#[trigger] bs[k2][q2]].name
    &&& forall|j: int| i <= j < sel.len() ==> ran.contains(sel[j].name) || #[trigger] planned(bs, j)
        || name_planned_before(sel, bs, j)
}

proof fn lemma_batches_from(sel: Seq<StepView>, i: int, ran: Seq<Seq<char>>)
    requires
        0 <= i,
    ensures
        batches_ok(sel, i, ran, batches_from(sel, i, ran)),
    decreases sel.len() - i,
{
    let bs = batches_from(sel, i, ran);
    if i >= sel.len() {
        return;
    }
    if ran.contains(sel[i].name) {
        lemma_batches_from(sel, i + 1, ran);
        return;
    }
    let k = parallel_run(sel, i, ran);
    if k >= 2 {
        lemma_parallel_run(sel, i, ran);
        let head = index_range(i, k);
        let ran2 = ran + names_at(sel, i, k);
        let tail = batches_from(sel, i + k, ran2);
        lemma_batches_from(sel, i + k, ran2);
        assert(bs == seq![head] + tail);
        assert forall|x: Seq<char>| ran.contains(x) implies ran2.contains(x) by {
            let w = choose|w: int| 0 <= w < ran.len() && ran[w] == x;
            assert(ran2[w] == x);
        }
        assert(well_formed_batch(sel, head)) by {
            assert forall|q: int| 0 <= q < head.len() implies sel[#[trigger] head[q]].parallel && !sel[head[q]].confirm by {
                assert(joins_parallel(sel, i + q, ran));
            }
            assert forall|q1: int, q2: int| 0 <= q1 < q2 < head.len() implies unrelated(sel, #[trigger] head[q1], #[trigger] head[q2]) by {
                assert(unrelated(sel, i + q1, i + q2));
            }
        }
        assert forall|kk: int| 0 <= kk < bs.len() implies well_formed_batch(sel, #[trigger] bs[kk]) by {
            if kk > 0 {
                assert(bs[kk] == tail[kk - 1]);
            }
        }
        assert forall|kk: int, q: int| 0 <= kk < bs.len() && 0 <= q < bs[kk].len() implies i <= #[trigger] bs[kk][q]
            && !ran.contains(sel[bs[kk][q]].name) by {
            if kk == 0 {
                assert(joins_parallel(sel, i + q, ran));
            } else {
                assert(bs[kk] == tail[kk - 1]);
            }
        }
        assert forall|k1: int, k2: int| 0 <= k1 < k2 < bs.len() implies (#[trigger] bs[k1]).last() < (#[trigger] bs[k2])[0] by {
            assert(bs[k2] == tail[k2 - 1]);
            if k1 > 0 {
                assert(bs[k1] == tail[k1 - 1]);
            } else {
                assert(well_formed_batch(sel, tail[k2 - 1]));
                assert(tail[k2 - 1][0] >= i + k);
            }
        }
        assert forall|k1: int, k2: int, q1: int, q2: int|
            0 <= k1 < k2 < bs.len() && 0 <= q1 < bs[k1].len() && 0 <= q2 < bs[k2].len()
            implies sel[#[trigger] bs[k1][q1]].name != sel[#[trigger] bs[k2][q2]].name by {
            assert(bs[k2] == tail[k2 - 1]);
            if k1 > 0 {
                assert(bs[k1] == tail[k1 - 1]);
            } else {
                let y = tail[k2 - 1][q2];
                assert(!ran2.contains(sel[y].name));
                assert(ran2[ran.len() + q1] == sel[i + q1].name);
            }
        }
        assert forall|j: int| i <= j < sel.len() implies ran.contains(sel[j].name) || #[trigger] planned(bs, j)
            || name_planned_before(sel, bs, j) by {
            if j < i + k {
                assert(bs[0][j - i] == j);
            } else {
                if planned(tail, j) {
                    let (kk, q) = choose|kk: int, q: int| 0 <= kk < tail.len() && 0 <= q < tail[kk].len() && #[trigger] tail[kk][q] == j;
                    assert(bs[kk + 1][q] == j);
                } else if name_planned_before(sel, tail, j) {
                    let (kk, q) = choose|kk: int, q: int| 0 <= kk < tail.len() && 0 <= q < tail[kk].len() && #[trigger] tail[kk][q] < j
                        && sel[tail[kk][q]].name == sel[j].name;
                    assert(bs[kk + 1][q] == tail[kk][q]);
                } else if !ran.contains(sel[j].name) {
                    assert(ran2.contains(sel[j].name));
                    let w = choose|w: int| 0 <= w < ran2.len() && ran2[w] == sel[j].name;
                    assert(w >= ran.len());
                    assert(bs[0][w - ran.len()] == i + (w - ran.len()));
                }
            }
        }
    } else {
        let head = seq![i];
        let ran2 = ran.push(sel[i].name);
        let tail = batches_from(sel, i + 1, ran2);
        lemma_batches_from(sel, i + 1, ran2);
        assert(bs == seq![head] + tail);
        assert forall|x: Seq<char>| ran.contains(x) implies ran2.contains(x) by {
            let w = choose|w: int| 0 <= w < ran.len() && ran[w] == x;
            assert(ran2[w] == x);
        }
        assert forall|kk: int| 0 <= kk < bs.len() implies well_formed_batch(sel, #[trigger] bs[kk]) by {
            if kk > 0 {
                assert(bs[kk] == tail[kk - 1]);
            }
        }
        assert forall|kk: int, q: int| 0 <= kk < bs.len() && 0 <= q < bs[kk].len() implies i <= #[trigger] bs[kk][q]
            && !ran.contains(sel[bs[kk][q]].name) by {
            if kk > 0 {
                assert(bs[kk] == tail[kk - 1]);
            }
        }
        assert forall|k1: int, k2: int| 0 <= k1 < k2 < bs.len() implies (#[trigger] bs[k1]).last() < (#[trigger] bs[k2])[0] by {
            assert(bs[k2] == tail[k2 - 1]);
            if k1 > 0 {
                assert(bs[k1] == tail[k1 - 1]);
            } else {
                assert(well_formed_batch(sel, tail[k2 - 1]));
                assert(tail[k2 - 1][0] >= i + 1);
            }
        }
        assert forall|k1: int, k2: int, q1: int, q2: int|
            0 <= k1 < k2 < bs.len() && 0 <= q1 < bs[k1].len() && 0 <= q2 < bs[k2].len()
            implies sel[#[trigger] bs[k1][q1]].name != sel[#[trigger] bs[k2][q2]].name by {
            assert(bs[k2] == tail[k2 - 1]);
            if k1 > 0 {
                assert(bs[k1] == tail[k1 - 1]);
            } else {
                let y = tail[k2 - 1][q2];
                assert(!ran2.contains(sel[y].name));
                assert(ran2[ran.len() as int] == sel[i].name);
            }
        }
        assert forall|j: int| i <= j < sel.len() implies ran.contains(sel[j].name) || #[trigger] planned(bs, j)
            || name_planned_before(sel, bs, j) by {
            if j == i {
                assert(bs[0][0] == i);
            } else {
                if planned(tail, j) {
                    let (kk, q) = choose|kk: int, q: int| 0 <= kk < tail.len() && 0 <= q < tail[kk].len() && #[trigger] tail[kk][q] == j;
                    assert(bs[kk + 1][q] == j);
                } else if name_planned_before(sel, tail, j) {
                    let (kk, q) = choose|kk: int, q: int| 0 <= kk < tail.len() && 0 <= q < tail[kk].len() && #[trigger] tail[kk][q] < j
                        && sel[tail[kk][q]].name == sel[j].name;
                    assert(bs[kk + 1][q] == tail[kk][q]);
                } else if !ran.contains(sel[j].name) {
                    assert(ran2.contains(sel[j].name));
                    let w = choose|w: int| 0 <= w < ran2.len() && ran2[w] == sel[j].name;
                    assert(w == ran.len());
                    assert(bs[0][0] == i);
                }
            }
        }
    }
}

/// How a sequence of steps is batched (a run batches the selection in
/// dependency order): every batch is well formed; batches follow the order
/// of the sequence; no name runs in two batches; and every step of it runs,
/// unless a step of the same name ran in an earlier batch.
pub proof fn law_batches(sel: Seq<StepView>)
    ensures
        batches_ok(sel, 0, seq![], batches(sel)),
{
    lemma_batches_from(sel, 0, seq![]);
}

/// The step right after batch `k` of `bs` could have joined it: every step
/// of the batch and that step are `parallel` without `confirm`, no step of
/// its name is in an earlier batch, and no `depends_on` links it with a step
/// of the batch.
pub open spec fn could_join(sel: Seq<StepView>, bs: Seq<Seq<int>>, k: int) -> bool {
    let b = bs[k];
    let e = b.last() + 1;
    &&& 0 <= e < sel.len()
    &&& forall|q: int| 0 <= q < b.len() ==> sel[#[trigger] b[q]].parallel && !sel[b[q]].confirm
    &&& sel[e].parallel && !sel[e].confirm
    &&& forall|k2: int, q: int| 0 <= k2 < k && 0 <= q < bs[k2].len()
        ==> sel[#[trigger] bs[k2][q]].name != sel[e].name
    &&& forall|q: int| 0 <= q < b.len() ==> !sel[#[trigger] b[q]].depends_on.contains(sel[e].name)
        && !sel[e].depends_on.contains(sel[b[q]].name)
}

proof fn lemma_parallel_run_stops(sel: Seq<StepView>, i: int, j: int, ran: Seq<Seq<char>>)
    requires
        i <= j,
    ensures
        parallel_run_from(sel, i, j, ran) >= j - i,
        i + parallel_run_from(sel, i, j, ran) < sel.len() ==> !(joins_parallel(sel, i + parallel_run_from(sel, i, j, ran), ran)
            && unrelated_to_run(sel, i, i + parallel_run_from(sel, i, j, ran))),
    decreases sel.len() - j,
{
    if j < sel.len() && joins_parallel(sel, j, ran) && unrelated_to_run(sel, i, j) {
        lemma_parallel_run_stops(sel, i, j + 1, ran);
    }
}

proof fn lemma_batches_maximal_from(sel: Seq<StepView>, i: int, ran: Seq<Seq<char>>)
    requires
        0 <= i,
    ensures
        forall|k: int| 0 <= k < batches_from(sel, i, ran).len()
            && !ran.contains(sel[batches_from(sel, i, ran)[k].last() + 1].name)
            ==> !#[trigger] could_join(sel, batches_from(sel, i, ran), k),
    decreases sel.len() - i,
{
    let bs = batches_from(sel, i, ran);
    if i >= sel.len() {
        return;
    }
    if ran.contains(sel[i].name) {
        lemma_batches_maximal_from(sel, i + 1, ran);
        return;
    }
    if parallel_run(sel, i, ran) >= 2 {
        let r = parallel_run(sel, i, ran);
        lemma_parallel_run(sel, i, ran);
        lemma_parallel_run_stops(sel, i, i, ran);
        let b0 = index_range(i, r);
        let ran2 = ran + names_at(sel, i, r);
        let rest = batches_from(sel, i + r, ran2);
        lemma_batches_maximal_from(sel, i + r, ran2);
        assert(bs == seq![b0] + rest);
        assert forall|k: int| 0 <= k < bs.len() && !ran.contains(sel[bs[k].last() + 1].name)
            implies !#[trigger] could_join(sel, bs, k) by {
            let e = bs[k].last() + 1;
            if could_join(sel, bs, k) {
                if k == 0 {
                    assert(bs[0] == b0);
                    assert(e == i + r);
                    assert(joins_parallel(sel, e, ran));
                    assert forall|q: int| i <= q < e implies #[trigger] unrelated(sel, q, e) by {
                        assert(b0[q - i] == q);
                    }
                    assert(unrelated_to_run(sel, i, e));
                } else {
                    assert(bs[k] == rest[k - 1]);
                    assert(!ran2.contains(sel[e].name)) by {
                        if ran2.contains(sel[e].name) {
                            let w = choose|w: int| 0 <= w < ran2.len() && ran2[w] == sel[e].name;
                            if w >= ran.len() {
                                let q = w - ran.len();
                                assert(b0[q] == i + q);
                                assert(bs[0][q] == i + q);
                                assert(sel[bs[0][q]].name != sel[e].name);
                            } else {
                                assert(ran[w] == ran2[w]);
                            }
                        }
                    }
                    assert forall|k2: int, q: int| 0 <= k2 < k - 1 && 0 <= q < rest[k2].len()
                        implies sel[#[trigger] rest[k2][q]].name != sel[e].name by {
                        assert(rest[k2] == bs[k2 + 1]);
                    }
                    assert(could_join(sel, rest, k - 1));
                }
            }
        }
    } else {
        let ran2 = ran.push(sel[i].name);
        let rest = batches_from(sel, i + 1, ran2);
        lemma_batches_maximal_from(sel, i + 1, ran2);
        assert(bs == seq![seq![i]] + rest);
        assert forall|k: int| 0 <= k < bs.len() && !ran.contains(sel[bs[k].last() + 1].name)
            implies !#[trigger] could_join(sel, bs, k) by {
            let e = bs[k].last() + 1;
            if could_join(sel, bs, k) {
                if k == 0 {
                    assert(bs[0] == seq![i]);
                    assert(e == i + 1);
                    assert(sel[bs[0][0]].parallel && !sel[bs[0][0]].confirm);
                    assert(joins_parallel(sel, i, ran));
                    assert(joins_parallel(sel, i + 1, ran));
                    assert(unrelated_to_run(sel, i, i));
                    assert(unrelated_to_run(sel, i, i + 1)) by {
                        assert forall|q: int| i <= q < i + 1 implies #[trigger] unrelated(sel, q, i + 1) by {
                            assert(q == i);
                            assert(bs[0][0] == i);
                        }
                    }
                    lemma_parallel_run_stops(sel, i, i + 2, ran);
                    assert(parallel_run_from(sel, i, i, ran) == parallel_run_from(sel, i, i + 1, ran));
                    assert(parallel_run_from(sel, i, i + 1, ran) == parallel_run_from(sel, i, i + 2, ran));
                } else {
                    assert(bs[k] == rest[k - 1]);
                    assert(!ran2.contains(sel[e].name)) by {
                        if ran2.contains(sel[e].name) {
                            let w = choose|w: int| 0 <= w < ran2.len() && ran2[w] == sel[e].name;
                            if w == ran.len() {
                                assert(bs[0][0] == i);
                                assert(sel[bs[0][0]].name != sel[e].name);
                            } else {
                                assert(ran[w] == ran2[w]);
                            }
                        }
                    }
                    assert forall|k2: int, q: int| 0 <= k2 < k - 1 && 0 <= q < rest[k2].len()
                        implies sel[#[trigger] rest[k2][q]].name != sel[e].name by {
                        assert(rest[k2] == bs[k2 + 1]);
                    }
                    assert(could_join(sel, rest, k - 1));
                }
            }
        }
    }
}

/// Batches are as large as they may be: a batch ends only at the end of the
/// steps or before a step that cannot join it, that is, one that is not
/// `parallel`, needs a confirmation, shares its name with a step of an
/// earlier batch, is linked by `depends_on` with a step of the batch, or
/// follows a batch of a step that may not run in parallel.
pub proof fn law_batches_are_maximal(sel: Seq<StepView>)
    ensures
        forall|k: int| 0 <= k < batches(sel).len() ==> !#[trigger] could_join(sel, batches(sel), k),
{
    lemma_batches_maximal_from(sel, 0, seq![]);
    let e: Seq<Seq<char>> = seq![];
    assert forall|x: Seq<char>| !e.contains(x) by {}
}

// ---------------------------------------------------------------------------
// Dependency order
// ---------------------------------------------------------------------------

/// Step `i` depends on step `k`: its `depends_on` names `k`.
pub open spec fn needs(sel: Seq<StepView>, i: int, k: int) -> bool {
    sel[i].depends_on.contains(sel[k].name)
}

/// Step `i` is not placed yet, and depends on no other unplaced step.
pub open spec fn ready(sel: Seq<StepView>, placed: Seq<int>, i: int) -> bool {
    &&& 0 <= i < sel.len()
    &&& !placed.contains(i)
    &&& forall|k: int| 0 <= k < sel.len() && !placed.contains(k) && k != i ==> !#[trigger] needs(sel, i, k)
}

/// The first step from `i` on that is ready, or -1.
pub open spec fn first_ready(sel: Seq<StepView>, placed: Seq<int>, i: int) -> int
    decreases sel.len() - i,
{
    if i < 0 || i >= sel.len() {
        -1
    } else if ready(sel, placed, i) {
        i
    } else {
        first_ready(sel, placed, i + 1)
    }
}

/// The first index from `i` on, below `n`, that is not placed, or -1.
pub open spec fn first_unplaced(n: int, placed: Seq<int>, i: int) -> int
    decreases n - i,
{
    if i < 0 || i >= n {
        -1
    } else if !placed.contains(i) {
        i
    } else {
        first_unplaced(n, placed, i + 1)
    }
}

/// The step placed next: the first ready one; when a dependency cycle leaves
/// none ready, the first unplaced one.
pub open spec fn next_pick(sel: Seq<StepView>, placed: Seq<int>) -> int {
    if first_ready(sel, placed, 0) >= 0 {
        first_ready(sel, placed, 0)
    } else {
        first_unplaced(sel.len() as int, placed, 0)
    }
}

/// `placed` followed by the remaining steps, picked one by one.
pub open spec fn order_from(sel: Seq<StepView>, placed: Seq<int>) -> Seq<int>
    decreases sel.len() - placed.len(),
{
    if placed.len() >= sel.len() {
        placed
    } else {
        order_from(sel, placed.push(next_pick(sel, placed)))
    }
}

/// The order in which the selected steps run: each step after the steps it
/// depends on, and otherwise in selection order.
pub open spec fn dependency_order(sel: Seq<StepView>) -> Seq<int> {
    order_from(sel, seq![])
}

/// The selection rearranged in dependency order.
pub open spec fn in_dependency_order(sel: Seq<StepView>) -> Seq<StepView> {
    dependency_order(sel).map_values(|k: int| sel[k])
}

/// The batches a run executes, as indices into the selection: the batches
/// of the selection in dependency order.
pub open spec fn run_batches(sel: Seq<StepView>) -> Seq<Seq<int>> {
    let ord = dependency_order(sel);
    batches(in_dependency_order(sel)).map_values(|b: Seq<int>| b.map_values(|q: int| ord[q]))
}

/// Distinct indices below `n`.
pub open spec fn distinct_indices(s: Seq<int>, n: int) -> bool {
    s.no_duplicates() && forall|j: int| 0 <= j < s.len() ==> 0 <= #[trigger] s[j] < n
}

proof fn lemma_first_ready(sel: Seq<StepView>, placed: Seq<int>, i: int)
    requires
        0 <= i,
    ensures
        first_ready(sel, placed, i) == -1 || (i <= first_ready(sel, placed, i)
            && ready(sel, placed, first_ready(sel, placed, i))),
    decreases sel.len() - i,
{
    if i < sel.len() && !ready(sel, placed, i) {
        lemma_first_ready(sel, placed, i + 1);
    }
}

proof fn lemma_first_unplaced(n: int, placed: Seq<int>, i: int)
    requires
        0 <= i,
    ensures
        first_unplaced(n, placed, i) == -1 ==> forall|j: int| i <= j < n ==> placed.contains(j),
        first_unplaced(n, placed, i) != -1 ==> i <= first_unplaced(n, placed, i) < n
            && !placed.contains(first_unplaced(n, placed, i)),
    decreases n - i,
{
    if i < n && placed.contains(i) {
        lemma_first_unplaced(n, placed, i + 1);
    }
}

proof fn lemma_int_nodup_bound(s: Seq<int>, u: Seq<int>)
    requires
        s.no_duplicates(),
        forall|i: int| 0 <= i < s.len() ==> u.contains(#[trigger] s[i]),
    ensures
        s.len() <= u.len(),
{
    broadcast use vstd::seq_lib::group_seq_properties;
    broadcast use vstd::set::group_set_axioms;
    s.unique_seq_to_set();
    u.lemma_cardinality_of_set();
    assert forall|x: int| s.to_set().contains(x) implies u.to_set().contains(x) by {
        let i = choose|i: int| 0 <= i < s.len() && s[i] == x;
        assert(u.contains(s[i]));
    }
    vstd::set_lib::lemma_len_subset(s.to_set(), u.to_set());
}

/// Distinct indices below `n`, fewer than `n`, leave one unplaced; `n` of
/// them place every index.
proof fn lemma_pigeonhole(s: Seq<int>, n: int)
    requires
        distinct_indices(s, n),
        n >= 0,
    ensures
        s.len() <= n,
        s.len() < n ==> first_unplaced(n, s, 0) != -1,
        s.len() == n ==> forall|i: int| 0 <= i < n ==> s.contains(i),
{
    let all = Seq::new(n as nat, |j: int| j);
    assert forall|i: int| 0 <= i < s.len() implies all.contains(#[trigger] s[i]) by {
        assert(all[s[i]] == s[i]);
    }
    lemma_int_nodup_bound(s, all);
    lemma_first_unplaced(n, s, 0);
    if s.len() < n && first_unplaced(n, s, 0) == -1 {
        assert forall|i: int| 0 <= i < all.len() implies s.contains(#[trigger] all[i]) by {}
        assert(all.no_duplicates());
        lemma_int_nodup_bound(all, s);
    }
    if s.len() == n {
        assert forall|i: int| 0 <= i < n implies s.contains(i) by {
            if !s.contains(i) {
                let rest = Seq::new((n - 1) as nat, |j: int| if j < i { j } else { j + 1 });
                assert forall|t: int| 0 <= t < s.len() implies rest.contains(#[trigger] s[t]) by {
                    if s[t] < i {
                        assert(rest[s[t]] == s[t]);
                    } else {
                        assert(s[t] != i);
                        assert(rest[s[t] - 1] == s[t]);
                    }
                }
                lemma_int_nodup_bound(s, rest);
            }
        }
    }
}

/// The next pick is a fresh index below the number of steps.
proof fn lemma_next_pick(sel: Seq<StepView>, placed: Seq<int>)
    requires
        distinct_indices(placed, sel.len() as int),
        placed.len() < sel.len(),
    ensures
        0 <= next_pick(sel, placed) < sel.len(),
        !placed.contains(next_pick(sel, placed)),
        distinct_indices(placed.push(next_pick(sel, placed)), sel.len() as int),
{
    lemma_first_ready(sel, placed, 0);
    lemma_pigeonhole(placed, sel.len() as int);
    lemma_first_unplaced(sel.len() as int, placed, 0);
    let x = next_pick(sel, placed);
    let t = placed.push(x);
    assert forall|a: int, b: int| 0 <= a < b < t.len() implies t[a] != t[b] by {
        if b == placed.len() {
            assert(placed.contains(t[a]));
        }
    }
}

proof fn lemma_order_from(sel: Seq<StepView>, placed: Seq<int>)
    requires
        distinct_indices(placed, sel.len() as int),
    ensures
        order_from(sel, placed).len() == sel.len(),
        distinct_indices(order_from(sel, placed), sel.len() as int),
        order_from(sel, placed).take(placed.len() as int) == placed,
        forall|p: int| placed.len() <= p < sel.len() ==> (#[trigger] order_from(sel, placed)[p])
            == next_pick(sel, order_from(sel, placed).take(p)),
    decreases sel.len() - placed.len(),
{
    lemma_pigeonhole(placed, sel.len() as int);
    if placed.len() >= sel.len() {
        assert(placed.take(placed.len() as int) =~= placed);
    } else {
        let x = next_pick(sel, placed);
        let t = placed.push(x);
        lemma_next_pick(sel, placed);
        lemma_order_from(sel, t);
        let r = order_from(sel, placed);
        assert(r == order_from(sel, t));
        assert(r.take(placed.len() as int) =~= t.take(placed.len() as int));
        assert(t.take(placed.len() as int) =~= placed);
        assert(r.take(placed.len() as int) =~= placed);
        assert forall|p: int| placed.len() <= p < sel.len() implies (#[trigger] r[p]) == next_pick(sel, r.take(p)) by {
            if p == placed.len() {
                assert(r.take(t.len() as int) == t);
                assert(r[p] == r.take(t.len() as int)[p]);
            }
        }
    }
}

/// The dependency order lists every step once.
pub proof fn law_dependency_order_is_permutation(sel: Seq<StepView>)
    ensures
        dependency_order(sel).len() == sel.len(),
        dependency_order(sel).no_duplicates(),
        forall|p: int| 0 <= p < sel.len() ==> 0 <= #[trigger] dependency_order(sel)[p] < sel.len(),
        forall|i: int| 0 <= i < sel.len() ==> dependency_order(sel).contains(i),
{
    lemma_order_from(sel, seq![]);
    lemma_pigeonhole(dependency_order(sel), sel.len() as int);
}

/// Among the unplaced steps below `m`, one of least rank.
proof fn lemma_least_rank(sel: Seq<StepView>, placed: Seq<int>, rank: spec_fn(int) -> int, m: int, w: int)
    requires
        0 <= w < m <= sel.len(),
        !placed.contains(w),
    ensures
        exists|i: int| 0 <= i < m && !placed.contains(i) && forall|j: int|
            0 <= j < m && !placed.contains(j) ==> rank(i) <= #[trigger] rank(j),
    decreases m,
{
    if m - 1 == w {
        if exists|v: int| 0 <= v < m - 1 && !placed.contains(v) {
            let v = choose|v: int| 0 <= v < m - 1 && !placed.contains(v);
            lemma_least_rank(sel, placed, rank, m - 1, v);
            let i = choose|i: int| 0 <= i < m - 1 && !placed.contains(i) && forall|j: int|
                0 <= j < m - 1 && !placed.contains(j) ==> rank(i) <= #[trigger] rank(j);
            if rank(i) <= rank(w) {
                assert forall|j: int| 0 <= j < m && !placed.contains(j) implies rank(i) <= #[trigger] rank(j) by {
                    if j < m - 1 {
                        assert(rank(i) <= rank(j));
                    }
                }
            } else {
                assert forall|j: int| 0 <= j < m && !placed.contains(j) implies rank(w) <= #[trigger] rank(j) by {
                    if j < m - 1 {
                        assert(rank(i) <= rank(j));
                    }
                }
            }
        } else {
            assert forall|j: int| 0 <= j < m && !placed.contains(j) implies rank(w) <= #[trigger] rank(j) by {
                assert(j == w);
            }
        }
    } else {
        lemma_least_rank(sel, placed, rank, m - 1, w);
        let i = choose|i: int| 0 <= i < m - 1 && !placed.contains(i) && forall|j: int|
            0 <= j < m - 1 && !placed.contains(j) ==> rank(i) <= #[trigger] rank(j);
        if !placed.contains(m - 1) && rank(m - 1) < rank(i) {
            assert forall|j: int| 0 <= j < m && !placed.contains(j) implies rank(m - 1) <= #[trigger] rank(j) by {
                if j < m - 1 {
                    assert(rank(i) <= rank(j));
                }
            }
        } else {
            assert forall|j: int| 0 <= j < m && !placed.contains(j) implies rank(i) <= #[trigger] rank(j) by {
                if j < m - 1 {
                    assert(rank(i) <= rank(j));
                }
            }
        }
    }
}

/// `rank` strictly increases from each step to the steps that depend on
/// it: the selection has no dependency cycle.
pub open spec fn ranks_dependencies(sel: Seq<StepView>, rank: spec_fn(int) -> int) -> bool {
    forall|a: int, b: int| 0 <= a < sel.len() && 0 <= b < sel.len() && a != b && #[trigger] needs(sel, b, a)
        ==> rank(a) < rank(b)
}

/// Without dependency cycles, no step is placed before a step it depends on.
pub proof fn law_dependencies_placed_first(sel: Seq<StepView>, rank: spec_fn(int) -> int)
    requires
        ranks_dependencies(sel, rank),
    ensures
        forall|p: int, q: int| 0 <= p < q < sel.len()
            ==> !needs(sel, #[trigger] dependency_order(sel)[p], #[trigger] dependency_order(sel)[q]),
{
    let ord = dependency_order(sel);
    lemma_order_from(sel, seq![]);
    assert(seq![].take(0) =~= Seq::<int>::empty());
    assert forall|p: int, q: int| 0 <= p < q < sel.len() implies !needs(sel, #[trigger] ord[p], #[trigger] ord[q]) by {
        let pre = ord.take(p);
        assert(!pre.contains(ord[p])) by {
            if pre.contains(ord[p]) {
                let w = choose|w: int| 0 <= w < pre.len() && pre[w] == ord[p];
                assert(ord[w] == ord[p]);
            }
        }
        lemma_least_rank(sel, pre, rank, sel.len() as int, ord[p]);
        let i = choose|i: int| 0 <= i < sel.len() && !pre.contains(i) && forall|j: int|
            0 <= j < sel.len() && !pre.contains(j) ==> rank(i) <= #[trigger] rank(j);
        assert(ready(sel, pre, i)) by {
            assert forall|k: int| 0 <= k < sel.len() && !pre.contains(k) && k != i implies !#[trigger] needs(sel, i, k) by {
                assert(rank(i) <= rank(k));
            }
        }
        lemma_first_ready(sel, pre, 0);
        if first_ready(sel, pre, 0) == -1 {
            lemma_first_ready_none(sel, pre, 0, i);
        }
        assert(ord[p] == first_ready(sel, pre, 0));
        assert(ready(sel, pre, ord[p]));
        assert(!pre.contains(ord[q])) by {
            if pre.contains(ord[q]) {
                let w = choose|w: int| 0 <= w < pre.len() && pre[w] == ord[q];
                assert(ord[w] == ord[q]);
            }
        }
        assert(ord[q] != ord[p]);
    }
}

proof fn lemma_first_ready_none(sel: Seq<StepView>, placed: Seq<int>, i: int, r: int)
    requires
        0 <= i <= r,
        ready(sel, placed, r),
    ensures
        first_ready(sel, placed, i) != -1,
    decreases sel.len() - i,
{
    if i < r && !ready(sel, placed, i) {
        lemma_first_ready_none(sel, placed, i + 1, r);
    }
}

/// Some step named `x` runs in a batch before batch `k`.
pub open spec fn name_runs_before(sel: Seq<StepView>, rb: Seq<Seq<int>>, k: int, x: Seq<char>) -> bool {
    exists|k2: int, q2: int| 0 <= k2 < k && 0 <= q2 < rb[k2].len() && sel[#[trigger] rb[k2][q2]].name == x
}

/// Without dependency cycles, every selected step a planned step depends on
/// has run, or a step of its name has, in an earlier batch.
pub proof fn law_dependencies_run_first(sel: Seq<StepView>, rank: spec_fn(int) -> int)
    requires
        ranks_dependencies(sel, rank),
    ensures
        forall|k: int, q: int, a: int|
            0 <= k < run_batches(sel).len() && 0 <= q < run_batches(sel)[k].len() && 0 <= a < sel.len()
            && a != run_batches(sel)[k][q] && #[trigger] needs(sel, run_batches(sel)[k][q], a)
            ==> name_runs_before(sel, run_batches(sel), k, sel[a].name),
{
    let ord = dependency_order(sel);
    let s2 = in_dependency_order(sel);
    let bs = batches(s2);
    let rb = run_batches(sel);
    law_dependency_order_is_permutation(sel);
    law_dependencies_placed_first(sel, rank);
    law_batches(s2);
    assert forall|k: int, q: int, a: int|
        0 <= k < rb.len() && 0 <= q < rb[k].len() && 0 <= a < sel.len()
        && a != rb[k][q] && #[trigger] needs(sel, rb[k][q], a)
        implies name_runs_before(sel, rb, k, sel[a].name) by {
        assert(rb.len() == bs.len() && rb[k] == bs[k].map_values(|x: int| ord[x]));
        assert(well_formed_batch(s2, bs[k]));
        let pb = bs[k][q];
        assert(pb == bs[k][0] + q && 0 <= pb < s2.len());
        assert(rb[k][q] == ord[pb]);
        assert(ord.contains(a));
        let pa = choose|pa: int| 0 <= pa < ord.len() && ord[pa] == a;
        assert(0 <= ord[pb] < sel.len());
        assert(s2[pa] == sel[a] && s2[pb] == sel[ord[pb]]);
        if pb < pa {
            assert(!needs(sel, ord[pb], ord[pa]));
        }
        assert(pa < pb);
        assert(s2[pb].depends_on.contains(s2[pa].name));
        assert(!(planned(bs, pa) || name_planned_before(s2, bs, pa)) ==> Seq::<Seq<char>>::empty().contains(s2[pa].name));
        if planned(bs, pa) {
            let (k2, q2) = choose|k2: int, q2: int| 0 <= k2 < bs.len() && 0 <= q2 < bs[k2].len() && #[trigger] bs[k2][q2] == pa;
            assert(well_formed_batch(s2, bs[k2]));
            if k2 == k {
                if q2 < q {
                    assert(unrelated(s2, bs[k][q2], bs[k][q]));
                } else {
                    assert(unrelated(s2, bs[k][q], bs[k][q2]));
                }
            } else if k2 > k {
                assert(bs[k].last() < bs[k2][0]);
                assert(bs[k][bs[k].len() - 1] == bs[k][0] + bs[k].len() - 1);
            }
            assert(k2 < k);
            assert(rb[k2][q2] == ord[pa]);
            assert(sel[rb[k2][q2]].name == sel[a].name);
        } else {
            let (k2, q2) = choose|k2: int, q2: int| 0 <= k2 < bs.len() && 0 <= q2 < bs[k2].len() && #[trigger] bs[k2][q2] < pa
                && s2[bs[k2][q2]].name == s2[pa].name;
            assert(well_formed_batch(s2, bs[k2]));
            if k2 == k {
                let qa = pa - bs[k][0];
                assert(bs[k][qa] == pa);
                if qa < q {
                    assert(unrelated(s2, bs[k][qa], bs[k][q]));
                } else {
                    assert(unrelated(s2, bs[k][q], bs[k][qa]));
                }
            } else if k2 > k {
                assert(bs[k].last() < bs[k2][0]);
                assert(bs[k][bs[k].len() - 1] == bs[k][0] + bs[k].len() - 1);
            }
            assert(k2 < k);
            let w = bs[k2][q2];
            assert(rb[k2][q2] == ord[w]);
            assert(s2[w] == sel[ord[w]]);
            assert(sel[rb[k2][q2]].name == sel[a].name);
        }
    }
}

fn first_ready_exec(selected: &Vec<Step>, done: &Vec<bool>, Ghost(placed): Ghost<Seq<int>>) -> (r: usize)
    requires
        done@.len() == selected@.len(),
        forall|k: int| 0 <= k < done@.len() ==> done@[k] == placed.contains(k),
    ensures
        r <= selected@.len(),
        r < selected@.len() ==> r as int == first_ready(step_views(selected@), placed, 0),
        r == selected@.len() ==> first_ready(step_views(selected@), placed, 0) == -1,
{
    let ghost sv = step_views(selected@);
    let mut i: usize = 0;
    while i < selected.len()
        invariant
            sv == step_views(selected@),
            done@.len() == selected@.len(),
            forall|k: int| 0 <= k < done@.len() ==> done@[k] == placed.contains(k),
            i <= selected@.len(),
            first_ready(sv, placed, 0) == first_ready(sv, placed, i as int),
        decreases selected@.len() - i,
    {
        if ready_exec(selected, done, i, Ghost(placed)) {
            return i;
        }
        i = i + 1;
    }
    selected.len()
}

fn ready_exec(selected: &Vec<Step>, done: &Vec<bool>, i: usize, Ghost(placed): Ghost<Seq<int>>) -> (r: bool)
    requires
        i < selected@.len(),
        done@.len() == selected@.len(),
        forall|k: int| 0 <= k < done@.len() ==> done@[k] == placed.contains(k),
    ensures
        r == ready(step_views(selected@), placed, i as int),
{
    let ghost sv = step_views(selected@);
    if done[i] {
        return false;
    }
    let mut k: usize = 0;
    while k < selected.len()
        invariant
            sv == step_views(selected@),
            i < selected@.len(),
            done@.len() == selected@.len(),
            forall|k2: int| 0 <= k2 < done@.len() ==> done@[k2] == placed.contains(k2),
            k <= selected@.len(),
            forall|k2: int| 0 <= k2 < k && !placed.contains(k2) && k2 != i ==> !#[trigger] needs(sv, i as int, k2),
        decreases selected@.len() - k,
    {
        assert(sv[i as int] == selected@[i as int]@);
        assert(sv[k as int] == selected@[k as int]@);
        if !done[k] && k != i && contains_string(&selected[i].depends_on, selected[k].name.as_str()) {
            assert(needs(sv, i as int, k as int));
            return false;
        }
        k = k + 1;
    }
    true
}

/// The indices `0 .. n`.
pub open spec fn index_seq(n: int) -> Seq<int> {
    Seq::new(n as nat, |q: int| q)
}

/// No step depends on a step listed after it.
pub open spec fn listed_in_dependency_order(sel: Seq<StepView>) -> bool {
    forall|i: int, k: int| #![trigger sel[i], sel[k]] 0 <= i < k < sel.len()
        ==> !sel[i].depends_on.contains(sel[k].name)
}

proof fn lemma_first_ready_at(sel: Seq<StepView>, placed: Seq<int>, i: int, p: int)
    requires
        0 <= i <= p,
        ready(sel, placed, p),
        forall|j: int| i <= j < p ==> !#[trigger] ready(sel, placed, j),
    ensures
        first_ready(sel, placed, i) == p,
    decreases p - i,
{
    if i < p {
        lemma_first_ready_at(sel, placed, i + 1, p);
    }
}

proof fn lemma_order_in_place(sel: Seq<StepView>, p: int)
    requires
        0 <= p <= sel.len(),
        listed_in_dependency_order(sel),
    ensures
        order_from(sel, index_seq(p)) == index_seq(sel.len() as int),
    decreases sel.len() - p,
{
    let placed = index_seq(p);
    if p < sel.len() {
        assert(!placed.contains(p));
        assert forall|k: int| 0 <= k < sel.len() && !placed.contains(k) && k != p implies !#[trigger] needs(sel, p, k) by {
            if k < p {
                assert(placed[k] == k);
            }
            assert(p < k);
        }
        assert(ready(sel, placed, p));
        assert forall|j: int| 0 <= j < p implies !#[trigger] ready(sel, placed, j) by {
            assert(placed[j] == j);
        }
        lemma_first_ready_at(sel, placed, 0, p);
        assert(placed.push(p) =~= index_seq(p + 1));
        lemma_order_in_place(sel, p + 1);
    } else {
        assert(placed =~= index_seq(sel.len() as int));
    }
}

/// A selection already listed in dependency order runs as listed: its
/// batches are those of the selection itself.
pub proof fn law_ordered_selection_runs_as_listed(sel: Seq<StepView>)
    requires
        listed_in_dependency_order(sel),
    ensures
        dependency_order(sel) == index_seq(sel.len() as int),
        run_batches(sel) == batches(sel),
{
    assert(seq![] =~= index_seq(0));
    lemma_order_in_place(sel, 0);
    let ord = dependency_order(sel);
    assert(in_dependency_order(sel) =~= sel);
    let bs = batches(sel);
    law_batches(sel);
    let rb = run_batches(sel);
    assert(rb.len() == bs.len());
    assert forall|k: int| 0 <= k < bs.len() implies #[trigger] rb[k] =~= bs[k] by {
        assert(well_formed_batch(sel, bs[k]));
        assert forall|q: int| 0 <= q < bs[k].len() implies rb[k][q] == bs[k][q] by {
            assert(0 <= bs[k][q] < sel.len());
        }
    }
    assert(rb =~= bs);
}


/// The order in which the selected steps run, as indices into the
/// selection: each step after the steps it depends on, unless they form a
/// cycle, and otherwise in selection order.
pub fn order_by_dependencies(selected: &Vec<Step>) -> (r: Vec<usize>)
    ensures
        r@.map_values(|x: usize| x as int) == dependency_order(step_views(selected@)),
{
    let ghost sv = step_views(selected@);
    let n: usize = selected.len();
    let mut placed: Vec<usize> = Vec::new();
    let mut done: Vec<bool> = Vec::new();
    let mut z: usize = 0;
    while z < n
        invariant
            n == selected@.len(),
            z <= n,
            done@.len() == z,
            forall|k: int| 0 <= k < z ==> !done@[k],
        decreases n - z,
    {
        done.push(false);
        z = z + 1;
    }
    assert(placed@.map_values(|x: usize| x as int) =~= Seq::<int>::empty());
    while placed.len() < n
        invariant
            sv == step_views(selected@),
            n == selected@.len(),
            done@.len() == n,
            distinct_indices(placed@.map_values(|x: usize| x as int), n as int),
            forall|k: int| 0 <= k < n ==> done@[k] == placed@.map_values(|x: usize| x as int).contains(k),
            order_from(sv, placed@.map_values(|x: usize| x as int)) == dependency_order(sv),
        decreases n - placed@.len(),
    {
        let ghost pv = placed@.map_values(|x: usize| x as int);
        proof {
            lemma_pigeonhole(pv, n as int);
            lemma_next_pick(sv, pv);
            lemma_first_ready(sv, pv, 0);
            lemma_first_unplaced(n as int, pv, 0);
        }
        // The first ready step.
        let mut pick: usize = first_ready_exec(selected, &done, Ghost(pv));
        if pick == n {
            // No step is ready: the first unplaced one.
            let mut j: usize = 0;
            while j < n && done[j]
                invariant
                    n == selected@.len(),
                    done@.len() == n,
                    forall|k: int| 0 <= k < n ==> done@[k] == pv.contains(k),
                    j <= n,
                    first_unplaced(n as int, pv, 0) == first_unplaced(n as int, pv, j as int),
                decreases n - j,
            {
                j = j + 1;
            }
            pick = j;
        }
        assert(pick as int == next_pick(sv, pv));
        placed.push(pick);
        done.set(pick, true);
        proof {
            let npv = placed@.map_values(|x: usize| x as int);
            assert(npv =~= pv.push(pick as int));
            assert forall|k: int| 0 <= k < n implies done@[k] == npv.contains(k) by {
                if k == pick {
                    assert(npv[pv.len() as int] == k);
                } else {
                    if npv.contains(k) {
                        let w = choose|w: int| 0 <= w < npv.len() && npv[w] == k;
                        assert(pv[w] == k);
                    }
                    if pv.contains(k) {
                        let w = choose|w: int| 0 <= w < pv.len() && pv[w] == k;
                        assert(npv[w] == k);
                    }
                }
            }
        }
    }
    placed
}

/// Plans a run of the selected steps: they are put in dependency order and
/// batched; the batches hold indices into the selection.
pub fn plan_batches(selected: &Vec<Step>) -> (r: Vec<Vec<usize>>)
    ensures
        batch_views(r@) == run_batches(step_views(selected@)),
{
    let ghost sv = step_views(selected@);
    let ord = order_by_dependencies(selected);
    let ghost ov = ord@.map_values(|x: usize| x as int);
    proof {
        law_dependency_order_is_permutation(sv);
    }
    let mut ordered: Vec<Step> = Vec::new();
    let mut i: usize = 0;
    while i < ord.len()
        invariant
            sv == step_views(selected@),
            ov == ord@.map_values(|x: usize| x as int),
            ov == dependency_order(sv),
            ov.len() == sv.len(),
            forall|p: int| 0 <= p < sv.len() ==> 0 <= #[trigger] ov[p] < sv.len(),
            i <= ord@.len(),
            step_views(ordered@) == in_dependency_order(sv).take(i as int),
        decreases ord@.len() - i,
    {
        let k = ord[i];
        assert(ov[i as int] == k as int);
        let ghost before = step_views(ordered@);
        let d = selected[k].duplicate();
        ordered.push(d);
        assert(sv[k as int] == selected@[k as int]@);
        assert(in_dependency_order(sv)[i as int] == sv[k as int]);
        assert(step_views(ordered@) =~= before.push(d@));
        assert(step_views(ordered@) =~= in_dependency_order(sv).take(i + 1));
        i = i + 1;
    }
    assert(in_dependency_order(sv).take(i as int) =~= in_dependency_order(sv));
    let ghost s2 = in_dependency_order(sv);
    let bs = batch_steps(&ordered);
    let ghost bv = batch_views(bs@);
    proof {
        law_batches(s2);
    }
    let mut out: Vec<Vec<usize>> = Vec::new();
    let mut k: usize = 0;
    while k < bs.len()
        invariant
            ov == ord@.map_values(|x: usize| x as int),
            ov.len() == sv.len(),
            s2.len() == sv.len(),
            bv == batch_views(bs@),
            bv == batches(s2),
            batches_ok(s2, 0, seq![], bv),
            k <= bs@.len(),
            batch_views(out@) == bv.take(k as int).map_values(|b: Seq<int>| b.map_values(|q: int| ov[q])),
        decreases bs@.len() - k,
    {
        assert(well_formed_batch(s2, bv[k as int]));
        let mut m: Vec<usize> = Vec::new();
        let mut q: usize = 0;
        while q < bs[k].len()
            invariant
                ov == ord@.map_values(|x: usize| x as int),
                ov.len() == sv.len(),
                s2.len() == sv.len(),
                bv == batch_views(bs@),
                k < bs@.len(),
                well_formed_batch(s2, bv[k as int]),
                q <= bs@[k as int]@.len(),
                m@.map_values(|x: usize| x as int) == bv[k as int].take(q as int).map_values(|x: int| ov[x]),
            decreases bs@[k as int]@.len() - q,
        {
            let x = bs[k][q];
            assert(bv[k as int][q as int] == x as int);
            assert(0 <= x < s2.len());
            let y = ord[x];
            let ghost mb = m@.map_values(|x: usize| x as int);
            m.push(y);
            assert(ov[x as int] == y as int);
            assert(m@.map_values(|x: usize| x as int) =~= mb.push(y as int));
            assert(bv[k as int].take(q + 1) =~= bv[k as int].take(q as int).push(x as int));
            assert(m@.map_values(|x: usize| x as int) =~= bv[k as int].take(q + 1).map_values(|x: int| ov[x]));
            q = q + 1;
        }
        assert(bv[k as int].take(q as int) =~= bv[k as int]);
        let ghost ob = batch_views(out@);
        let ghost mv = m@.map_values(|x: usize| x as int);
        out.push(m);
        assert(mv == bv[k as int].map_values(|x: int| ov[x]));
        assert(batch_views(out@) =~= ob.push(mv));
        assert(bv.take(k + 1) =~= bv.take(k as int).push(bv[k as int]));
        assert(batch_views(out@) =~= bv.take(k + 1).map_values(|b: Seq<int>| b.map_values(|q: int| ov[q])));
        k = k + 1;
    }
    assert(bv.take(k as int) =~= bv);
    out
}

// ---------------------------------------------------------------------------
// Replaying the last run
// ---------------------------------------------------------------------------

/// The steps `again` replays: for each recorded name that still names a
/// step, in recorded order, the last step of that name.
pub open spec fn replayed(steps: Seq<StepView>, names: Seq<Seq<char>>) -> Seq<StepView>
    decreases names.len(),
{
    if names.len() == 0 {
        seq![]
    } else {
        let p = replayed(steps, names.drop_last());
        let j = last_named(steps, names.last());
        if j >= 0 { p.push(steps[j]) } else { p }
    }
}

/// The recorded names that no longer name a step, in recorded order.
pub open spec fn vanished(steps: Seq<StepView>, names: Seq<Seq<char>>) -> Seq<Seq<char>>
    decreases names.len(),
{
    if names.len() == 0 {
        seq![]
    } else {
        let p = vanished(steps, names.drop_last());
        if last_named(steps, names.last()) >= 0 { p } else { p.push(names.last()) }
    }
}

/// What `again` found to replay.
#[derive(Debug)]
pub struct Replay {
    /// The steps to run, in recorded order.
    pub steps: Vec<Step>,
    /// The recorded names that no longer name a step.
    pub missing: Vec<String>,
}

/// Why `again` cannot replay.
#[derive(Debug)]
pub enum AgainError {
    /// No run of this config was recorded.
    NoHistory { config_path: String },
    /// None of the recorded steps is in the config any more.
    NothingToReplay,
}

impl AgainError {
    /// The error as shown to the user.
    pub fn message(&self) -> (r: String)
        ensures
            match self {
                AgainError::NoHistory { config_path } => r@ == "no history found for '"@ + config_path@
                    + "'; run without --again first"@,
                AgainError::NothingToReplay => r@
                    == "no steps to replay (all previously selected steps are missing)"@,
            },
    {
        let mut out: Vec<char> = Vec::new();
        match self {
            AgainError::NoHistory { config_path } => {
                push_str(&mut out, "no history found for '");
                push_str(&mut out, config_path.as_str());
                push_str(&mut out, "'; run without --again first");
            },
            AgainError::NothingToReplay => {
                push_str(&mut out, "no steps to replay (all previously selected steps are missing)");
            },
        }
        string_from_chars(&out)
    }
}

/// The run `again` replays for the config at `config_path`: the latest
/// recorded one.
pub fn entry_to_replay(history: &History, config_path: &str) -> (r: Result<HistoryEntry, AgainError>)
    ensures
        match latest_for(crate::history::entry_views(history.entries@), config_path@) {
            Some(e) => r matches Ok(x) && x@ == e,
            None => r matches Err(AgainError::NoHistory { config_path: p }) && p@ == config_path@,
        },
{
    match latest_entry_for(history, config_path) {
        Some(e) => Ok(e),
        None => {
            let mut out: Vec<char> = Vec::new();
            push_str(&mut out, config_path);
            Err(AgainError::NoHistory { config_path: string_from_chars(&out) })
        },
    }
}

/// Rebuilds the recorded selection from the config's steps; names that no
/// longer exist are reported, and nothing left to run is an error.
pub fn replay_steps(steps: &Vec<Step>, selected: &Vec<String>) -> (r: Result<Replay, AgainError>)
    ensures
        match r {
            Ok(rp) => step_views(rp.steps@) == replayed(step_views(steps@), views(selected@))
                && views(rp.missing@) == vanished(step_views(steps@), views(selected@))
                && rp.steps@.len() > 0,
            Err(e) => e is NothingToReplay && replayed(step_views(steps@), views(selected@)).len() == 0,
        },
{
    let ghost sv = step_views(steps@);
    let ghost nv = views(selected@);
    let mut out: Vec<Step> = Vec::new();
    let mut missing: Vec<String> = Vec::new();
    let mut i: usize = 0;
    assert(nv.take(0) =~= Seq::<Seq<char>>::empty());
    while i < selected.len()
        invariant
            sv == step_views(steps@),
            nv == views(selected@),
            i <= selected@.len(),
            step_views(out@) == replayed(sv, nv.take(i as int)),
            views(missing@) == vanished(sv, nv.take(i as int)),
        decreases selected@.len() - i,
    {
        let ghost t = nv.take(i + 1);
        assert(t.drop_last() =~= nv.take(i as int));
        assert(t.last() == selected@[i as int]@);
        match last_named_exec(steps, selected[i].as_str()) {
            Some(j) => {
                proof {
                    crate::graph::lemma_last_named(sv, selected@[i as int]@);
                }
                let ghost before = step_views(out@);
                let d = steps[j].duplicate();
                out.push(d);
                assert(step_views(out@) =~= before.push(d@));
            },
            None => {
                let ghost before = views(missing@);
                let nm = copy_string(&selected[i]);
                missing.push(nm);
                assert(views(missing@) =~= before.push(nm@));
            },
        }
        i = i + 1;
    }
    assert(nv.take(i as int) =~= nv);
    if out.len() == 0 {
        Err(AgainError::NothingToReplay)
    } else {
        Ok(Replay { steps: out, missing })
    }
}

/// The indices of the steps that run when a selection is replayed: a step
/// whose name already ran is skipped.
pub open spec fn first_of_names(sel: Seq<StepView>) -> Seq<int>
    decreases sel.len(),
{
    if sel.len() == 0 {
        seq![]
    } else {
        let p = first_of_names(sel.drop_last());
        if sel.drop_last().map_values(|s: StepView| s.name).contains(sel.last().name) {
            p
        } else {
            p.push(sel.len() - 1)
        }
    }
}

/// Some step is named `n`.
pub open spec fn has_step_named(steps: Seq<StepView>, n: Seq<char>) -> bool {
    exists|j: int| 0 <= j < steps.len() && (#[trigger] steps[j]).name == n
}

/// Replaying recorded names: the names that still name a step are replayed,
/// in recorded order, each by a step of the config with that name (the last
/// one); the others are reported as vanished, in recorded order.
pub proof fn law_replay(steps: Seq<StepView>, names: Seq<Seq<char>>)
    ensures
        replayed(steps, names).map_values(|s: StepView| s.name) == names.filter(|n: Seq<char>| has_step_named(steps, n)),
        vanished(steps, names) == names.filter(|n: Seq<char>| !has_step_named(steps, n)),
        forall|i: int| 0 <= i < replayed(steps, names).len() ==> steps.contains(#[trigger] replayed(steps, names)[i]),
    decreases names.len(),
{
    reveal_with_fuel(Seq::filter, 1);
    if names.len() > 0 {
        let t = names.drop_last();
        let n = names.last();
        law_replay(steps, t);
        crate::graph::lemma_last_named(steps, n);
        let j = last_named(steps, n);
        let p = replayed(steps, t);
        if j >= 0 {
            assert(has_step_named(steps, n)) by {
                assert(steps[j].name == n);
            }
            assert(p.push(steps[j]).map_values(|s: StepView| s.name) =~= p.map_values(|s: StepView| s.name).push(n));
            assert forall|i: int| 0 <= i < replayed(steps, names).len() implies steps.contains(#[trigger] replayed(steps, names)[i]) by {
                if i == p.len() {
                    assert(steps[j] == replayed(steps, names)[i]);
                } else {
                    assert(replayed(steps, names)[i] == p[i]);
                }
            }
        } else {
            assert(!has_step_named(steps, n));
        }
    }
}

proof fn lemma_first_of_names_bounds(sel: Seq<StepView>)
    ensures
        forall|p: int| 0 <= p < first_of_names(sel).len() ==> 0 <= #[trigger] first_of_names(sel)[p] < sel.len()
            && forall|j: int| 0 <= j < first_of_names(sel)[p] ==> (#[trigger] sel[j]).name != sel[first_of_names(sel)[p]].name,
    decreases sel.len(),
{
    if sel.len() > 0 {
        let t = sel.drop_last();
        lemma_first_of_names_bounds(t);
        let rt = first_of_names(t);
        let r = first_of_names(sel);
        let last = sel.len() - 1;
        let names = t.map_values(|s: StepView| s.name);
        assert forall|p: int| 0 <= p < r.len() implies 0 <= #[trigger] r[p] < sel.len()
            && forall|j: int| 0 <= j < r[p] ==> (#[trigger] sel[j]).name != sel[r[p]].name by {
            if p < rt.len() {
                assert(r[p] == rt[p]);
                assert forall|j: int| 0 <= j < r[p] implies (#[trigger] sel[j]).name != sel[r[p]].name by {
                    assert(t[j] == sel[j] && t[rt[p]] == sel[rt[p]]);
                }
            } else {
                assert(!names.contains(sel.last().name));
                assert(r[p] == last);
                assert forall|j: int| 0 <= j < r[p] implies (#[trigger] sel[j]).name != sel[r[p]].name by {
                    assert(names[j] == sel[j].name);
                }
            }
        }
    }
}

proof fn lemma_first_of_names_increasing(sel: Seq<StepView>)
    ensures
        forall|p: int, q: int| 0 <= p < q < first_of_names(sel).len()
            ==> #[trigger] first_of_names(sel)[p] < #[trigger] first_of_names(sel)[q],
    decreases sel.len(),
{
    if sel.len() > 0 {
        let t = sel.drop_last();
        lemma_first_of_names_increasing(t);
        lemma_first_of_names_bounds(t);
        let rt = first_of_names(t);
        let r = first_of_names(sel);
        assert forall|p: int, q: int| 0 <= p < q < r.len() implies #[trigger] r[p] < #[trigger] r[q] by {
            assert(r[p] == rt[p]);
            if q < rt.len() {
                assert(r[q] == rt[q]);
            } else {
                assert(r[q] == sel.len() - 1);
            }
        }
    }
}

/// Some entry of `r`, at most `i`, indexes a step named like step `i`.
pub open spec fn covered_at(sel: Seq<StepView>, r: Seq<int>, i: int) -> bool {
    exists|p: int| 0 <= p < r.len() && #[trigger] r[p] <= i && sel[r[p]].name == sel[i].name
}

proof fn lemma_first_of_names_covers_one(sel: Seq<StepView>, i: int)
    requires
        0 <= i < sel.len(),
    ensures
        covered_at(sel, first_of_names(sel), i),
    decreases sel.len(),
{
    let t = sel.drop_last();
    let rt = first_of_names(t);
    let r = first_of_names(sel);
    let last = sel.len() - 1;
    let names = t.map_values(|s: StepView| s.name);
    lemma_first_of_names_bounds(t);
    let w = if i == last && names.contains(sel.last().name) {
        choose|w: int| 0 <= w < names.len() && names[w] == sel.last().name
    } else {
        i
    };
    if w < t.len() {
        assert(t[w].name == sel[i].name);
        lemma_first_of_names_covers_one(t, w);
        let p = choose|p: int| 0 <= p < rt.len() && #[trigger] rt[p] <= w && t[rt[p]].name == t[w].name;
        assert(r[p] == rt[p]);
        assert(t[rt[p]] == sel[rt[p]]);
        assert(r[p] <= i && sel[r[p]].name == sel[i].name);
    } else {
        assert(r[rt.len() as int] == last);
    }
}

/// The order of a replay: each name runs once, at the first selected step of
/// that name, in selection order.
pub proof fn law_replay_order(sel: Seq<StepView>)
    ensures
        forall|p: int| 0 <= p < first_of_names(sel).len() ==> 0 <= #[trigger] first_of_names(sel)[p] < sel.len()
            && forall|j: int| 0 <= j < first_of_names(sel)[p] ==> (#[trigger] sel[j]).name != sel[first_of_names(sel)[p]].name,
        forall|p: int, q: int| 0 <= p < q < first_of_names(sel).len()
            ==> #[trigger] first_of_names(sel)[p] < #[trigger] first_of_names(sel)[q],
        forall|i: int| 0 <= i < sel.len() ==> #[trigger] covered_at(sel, first_of_names(sel), i),
{
    lemma_first_of_names_bounds(sel);
    lemma_first_of_names_increasing(sel);
    assert forall|i: int| 0 <= i < sel.len() implies #[trigger] covered_at(sel, first_of_names(sel), i) by {
        lemma_first_of_names_covers_one(sel, i);
    }
}

/// The order in which replayed steps run.
pub fn replay_order(selected: &Vec<Step>) -> (r: Vec<usize>)
    ensures
        r@.map_values(|x: usize| x as int) == first_of_names(step_views(selected@)),
{
    let ghost sv = step_views(selected@);
    let mut ran: Vec<String> = Vec::new();
    let mut r: Vec<usize> = Vec::new();
    let mut i: usize = 0;
    assert(sv.take(0) =~= Seq::<StepView>::empty());
    assert(views(ran@) =~= sv.take(0).map_values(|s: StepView| s.name));
    while i < selected.len()
        invariant
            sv == step_views(selected@),
            i <= selected@.len(),
            views(ran@) == sv.take(i as int).map_values(|s: StepView| s.name),
            r@.map_values(|x: usize| x as int) == first_of_names(sv.take(i as int)),
        decreases selected@.len() - i,
    {
        let ghost t = sv.take(i + 1);
        assert(t.drop_last() =~= sv.take(i as int));
        assert(t.last() == selected@[i as int]@);
        let ghost rb = r@;
        let ghost nb = views(ran@);
        if !contains_string(&ran, selected[i].name.as_str()) {
            r.push(i);
            assert(r@.map_values(|x: usize| x as int) =~= rb.map_values(|x: usize| x as int).push(i as int));
        }
        let nm = copy_string(&selected[i].name);
        ran.push(nm);
        assert(views(ran@) =~= nb.push(nm@));
        assert(views(ran@) =~= t.map_values(|s: StepView| s.name));
        i = i + 1;
    }
    assert(sv.take(i as int) =~= sv);
    r
}

// ---------------------------------------------------------------------------
// Listing
// ---------------------------------------------------------------------------

/// The steps `list` shows: those of the group, or all.
pub open spec fn listed_steps(steps: Seq<StepView>, group: Option<Seq<char>>) -> Seq<StepView> {
    match group {
        Some(g) => crate::picker::group_members(steps, g),
        None => steps,
    }
}

/// `list` without a group shows every step; with group `g` it shows exactly
/// the steps whose group is `g`, in config order.
pub proof fn law_listed_steps(steps: Seq<StepView>, group: Option<Seq<char>>)
    ensures
        group is None ==> listed_steps(steps, group) == steps,
        group is Some ==> listed_steps(steps, group) == steps.filter(|s: StepView| s.group == group),
        forall|i: int| 0 <= i < listed_steps(steps, group).len() && group is Some
            ==> (#[trigger] listed_steps(steps, group)[i]).group == group,
{
    if group is Some {
        crate::picker::law_group_members(steps, group->0);
        broadcast use vstd::seq_lib::group_filter_ensures;
        let ls = listed_steps(steps, group);
        assert(ls == steps.filter(|s: StepView| s.group == group));
        assert forall|i: int| 0 <= i < ls.len() implies (#[trigger] ls[i]).group == group by {}
    }
}

/// The steps `list` shows.
pub fn list_steps(config: &Config, group: Option<&str>) -> (r: Vec<Step>)
    ensures
        step_views(r@) == listed_steps(step_views(config.steps@), filter_view(group)),
{
    let ghost sv = step_views(config.steps@);
    let mut r: Vec<Step> = Vec::new();
    let mut i: usize = 0;
    assert(sv.take(0) =~= Seq::<StepView>::empty());
    while i < config.steps.len()
        invariant
            sv == step_views(config.steps@),
            i <= config.steps@.len(),
            step_views(r@) == listed_steps(sv.take(i as int), filter_view(group)),
        decreases config.steps@.len() - i,
    {
        let ghost t = sv.take(i + 1);
        assert(t.drop_last() =~= sv.take(i as int));
        assert(t.last() == config.steps@[i as int]@);
        let keep = match group {
            Some(g) => match &config.steps[i].group {
                Some(x) => str_eq(x.as_str(), g),
                None => false,
            },
            None => true,
        };
        if keep {
            let ghost before = step_views(r@);
            let d = config.steps[i].duplicate();
            r.push(d);
            assert(step_views(r@) =~= before.push(d@));
        }
        i = i + 1;
    }
    assert(sv.take(i as int) =~= sv);
    r
}

/// The kind of a step as `list --json` reports it.
pub fn step_kind(step: &Step) -> (r: &'static str)
    ensures
        r@ == if step.just_recipe is Some { "just_recipe"@ } else { "command"@ },
{
    if step.just_recipe.is_some() { "just_recipe" } else { "command" }
}

/// Whether some step runs through `just`, which must then be installed.
pub fn needs_just(steps: &Vec<Step>) -> (r: bool)
    ensures
        r == exists|i: int| 0 <= i < steps@.len() && (#[trigger] steps@[i]).just_recipe is Some,
{
    let mut i: usize = 0;
    while i < steps.len()
        invariant
            i <= steps@.len(),
            forall|j: int| 0 <= j < i ==> (#[trigger] steps@[j]).just_recipe is None,
        decreases steps@.len() - i,
    {
        if steps[i].just_recipe.is_some() {
            return true;
        }
        i = i + 1;
    }
    false
}

} // verus!
