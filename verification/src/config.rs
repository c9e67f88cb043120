//! The configuration model (`[metadata]`, `[[steps]]`, `[profiles.<name>]`),
//! its validation, and the suggestions offered for mistyped keys.
use vstd::prelude::*;
use vstd::string::*;
use vstd::utf8::encode_utf8;
use crate::strmap::{StrMap, string_entries};
use crate::resolver::index_of_from;
use crate::text::{views, str_views, chars_of, string_from_chars, contains_string, copy_string,
    push_str, push_chars, push_decimal, decimal};

verus! {

/// `[metadata]`.
#[derive(Debug, Clone)]
pub struct Metadata {
    pub name: String,
    pub description: Option<String>,
    pub justfile: Option<String>,
    pub working_directory: Option<String>,
}

/// One `[[steps]]` entry.
#[derive(Debug, Clone)]
pub struct Step {
    pub name: String,
    pub description: String,
    pub command: Option<String>,
    pub just_recipe: Option<String>,
    /// When `Some(true)`, `just` is passed `--no-deps`.
    pub just_no_deps: Option<bool>,
    pub group: Option<String>,
    pub confirm: bool,
    pub depends_on: Vec<String>,
    /// Extra arguments, possibly holding `{{placeholder}}`s.
    pub args: Vec<String>,
    /// Placeholder name to prompt text.
    pub prompts: StrMap<String>,
    /// When set, values spliced into a `command` are not shell-quoted.
    pub raw: bool,
    /// Environment variables for the step's process.
    pub env: StrMap<String>,
    /// May run concurrently with neighbouring parallel steps.
    pub parallel: bool,
}

/// One `[profiles.<name>]` table.
#[derive(Debug, Clone)]
pub struct Profile {
    pub skip_confirms: bool,
    pub excluded_steps: Vec<String>,
    pub groups: Vec<String>,
}

/// A whole `runsteps.toml`.
#[derive(Debug, Clone)]
pub struct Config {
    pub metadata: Metadata,
    pub steps: Vec<Step>,
    pub profiles: StrMap<Profile>,
}

/// The view of an optional string.
pub open spec fn opt_view(o: Option<String>) -> Option<Seq<char>> {
    match o {
        Some(s) => Some(s@),
        None => None,
    }
}

/// The names of a list of steps.
pub open spec fn step_names(steps: Seq<Step>) -> Seq<Seq<char>> {
    steps.map_values(|s: Step| s.name@)
}


/// A step, every string taken by view.
pub struct StepView {
    pub name: Seq<char>,
    pub description: Seq<char>,
    pub command: Option<Seq<char>>,
    pub just_recipe: Option<Seq<char>>,
    pub just_no_deps: Option<bool>,
    pub group: Option<Seq<char>>,
    pub confirm: bool,
    pub depends_on: Seq<Seq<char>>,
    pub args: Seq<Seq<char>>,
    pub prompts: Seq<(Seq<char>, Seq<char>)>,
    pub raw: bool,
    pub env: Seq<(Seq<char>, Seq<char>)>,
    pub parallel: bool,
}

impl View for Step {
    type V = StepView;

    open spec fn view(&self) -> StepView {
        StepView {
            name: self.name@,
            description: self.description@,
            command: opt_view(self.command),
            just_recipe: opt_view(self.just_recipe),
            just_no_deps: self.just_no_deps,
            group: opt_view(self.group),
            confirm: self.confirm,
            depends_on: views(self.depends_on@),
            args: views(self.args@),
            prompts: string_entries(self.prompts),
            raw: self.raw,
            env: string_entries(self.env),
            parallel: self.parallel,
        }
    }
}

/// The views of a list of steps.
pub open spec fn step_views(steps: Seq<Step>) -> Seq<StepView> {
    steps.map_values(|s: Step| s@)
}

/// A copy of an optional string.
pub fn copy_opt(o: &Option<String>) -> (r: Option<String>)
    ensures
        opt_view(r) == opt_view(*o),
{
    match o {
        Some(s) => Some(copy_string(s)),
        None => None,
    }
}

/// A copy of a list of strings.
pub fn copy_strings(v: &Vec<String>) -> (r: Vec<String>)
    ensures
        views(r@) == views(v@),
{
    let mut r: Vec<String> = Vec::new();
    let mut i: usize = 0;
    while i < v.len()
        invariant
            i <= v@.len(),
            views(r@) == views(v@).take(i as int),
        decreases v@.len() - i,
    {
        let ghost before = views(r@);
        let s = copy_string(&v[i]);
        r.push(s);
        assert(views(r@) =~= before.push(s@));
        i = i + 1;
        assert(views(r@) =~= views(v@).take(i as int));
    }
    assert(views(v@).take(i as int) =~= views(v@));
    r
}

impl Step {
    /// A copy of the step.
    pub fn duplicate(&self) -> (r: Step)
        ensures
            r@ == self@,
    {
        Step {
            name: copy_string(&self.name),
            description: copy_string(&self.description),
            command: copy_opt(&self.command),
            just_recipe: copy_opt(&self.just_recipe),
            just_no_deps: self.just_no_deps,
            group: copy_opt(&self.group),
            confirm: self.confirm,
            depends_on: copy_strings(&self.depends_on),
            args: copy_strings(&self.args),
            prompts: self.prompts.duplicate(),
            raw: self.raw,
            env: self.env.duplicate(),
            parallel: self.parallel,
        }
    }
}

/// A profile, every string taken by view.
pub struct ProfileView {
    pub skip_confirms: bool,
    pub excluded_steps: Seq<Seq<char>>,
    pub groups: Seq<Seq<char>>,
}

impl View for Profile {
    type V = ProfileView;

    open spec fn view(&self) -> ProfileView {
        ProfileView {
            skip_confirms: self.skip_confirms,
            excluded_steps: views(self.excluded_steps@),
            groups: views(self.groups@),
        }
    }
}

impl Profile {
    /// A copy of the profile.
    pub fn duplicate(&self) -> (r: Profile)
        ensures
            r@ == self@,
    {
        Profile {
            skip_confirms: self.skip_confirms,
            excluded_steps: copy_strings(&self.excluded_steps),
            groups: copy_strings(&self.groups),
        }
    }
}

impl Default for Profile {
    /// The profile in force when none is named: it changes nothing.
    fn default() -> (r: Profile)
        ensures
            !r.skip_confirms,
            r@.excluded_steps.len() == 0,
            r@.groups.len() == 0,
    {
        Profile { skip_confirms: false, excluded_steps: Vec::new(), groups: Vec::new() }
    }
}

impl Step {
    /// `name: description`, the line the picker shows.
    pub fn display_line(&self) -> (r: String)
        ensures
            r@ == self.name@ + ": "@ + self.description@,
    {
        let mut r = copy_string(&self.name);
        r.append(": ");
        r.append(self.description.as_str());
        r
    }
}

// ---------------------------------------------------------------------------
// Validation
// ---------------------------------------------------------------------------

/// Why a config was refused, over views.
pub enum ConfigFailure {
    NoSteps,
    NeitherCommandNorRecipe(Seq<char>),
    BothCommandAndRecipe(Seq<char>),
    DuplicateName(Seq<char>),
    UnknownDependency { step: Seq<char>, dependency: Seq<char> },
}

/// Why a config was refused.
#[derive(Debug)]
pub enum ConfigError {
    NoSteps,
    NeitherCommandNorRecipe(String),
    BothCommandAndRecipe(String),
    DuplicateName(String),
    UnknownDependency { step: String, dependency: String },
}

impl View for ConfigError {
    type V = ConfigFailure;

    open spec fn view(&self) -> ConfigFailure {
        match self {
            ConfigError::NoSteps => ConfigFailure::NoSteps,
            ConfigError::NeitherCommandNorRecipe(s) => ConfigFailure::NeitherCommandNorRecipe(s@),
            ConfigError::BothCommandAndRecipe(s) => ConfigFailure::BothCommandAndRecipe(s@),
            ConfigError::DuplicateName(s) => ConfigFailure::DuplicateName(s@),
            ConfigError::UnknownDependency { step, dependency } => ConfigFailure::UnknownDependency {
                step: step@,
                dependency: dependency@,
            },
        }
    }
}

/// The message for a refused config.
pub open spec fn config_message(f: ConfigFailure) -> Seq<char> {
    match f {
        ConfigFailure::NoSteps => "Config has no steps"@,
        ConfigFailure::NeitherCommandNorRecipe(n) => "Step '"@ + n + "' has neither command nor just_recipe"@,
        ConfigFailure::BothCommandAndRecipe(n) => "Step '"@ + n + "' has both command and just_recipe; use exactly one"@,
        ConfigFailure::DuplicateName(n) => "Duplicate step name: '"@ + n + "'"@,
        ConfigFailure::UnknownDependency { step, dependency } => "Step '"@ + step
            + "' depends on unknown step '"@ + dependency + "'"@,
    }
}

impl ConfigError {
    /// The message of this error.
    pub fn message(&self) -> (m: String)
        ensures
            m@ == config_message(self@),
    {
        match self {
            ConfigError::NoSteps => String::from_str("Config has no steps"),
            ConfigError::NeitherCommandNorRecipe(n) => {
                let mut m = String::from_str("Step '");
                m.append(n.as_str());
                m.append("' has neither command nor just_recipe");
                m
            },
            ConfigError::BothCommandAndRecipe(n) => {
                let mut m = String::from_str("Step '");
                m.append(n.as_str());
                m.append("' has both command and just_recipe; use exactly one");
                m
            },
            ConfigError::DuplicateName(n) => {
                let mut m = String::from_str("Duplicate step name: '");
                m.append(n.as_str());
                m.append("'");
                m
            },
            ConfigError::UnknownDependency { step, dependency } => {
                let mut m = String::from_str("Step '");
                m.append(step.as_str());
                m.append("' depends on unknown step '");
                m.append(dependency.as_str());
                m.append("'");
                m
            },
        }
    }
}

/// Index of the first dependency of `deps` that is not among `names`, or -1.
pub open spec fn first_unknown_dep(deps: Seq<Seq<char>>, names: Seq<Seq<char>>, k: int) -> int
    decreases deps.len() - k,
{
    if k < 0 || k >= deps.len() {
        -1
    } else if !names.contains(deps[k]) {
        k
    } else {
        first_unknown_dep(deps, names, k + 1)
    }
}

/// What is wrong with step `i`, checked in this order: neither or both of
/// `command` and `just_recipe`; a name used by an earlier step; a dependency
/// on a name no step has.
pub open spec fn step_fault(steps: Seq<Step>, i: int) -> Option<ConfigFailure> {
    let s = steps[i];
    let names = step_names(steps);
    if s.command is None && s.just_recipe is None {
        Some(ConfigFailure::NeitherCommandNorRecipe(s.name@))
    } else if s.command is Some && s.just_recipe is Some {
        Some(ConfigFailure::BothCommandAndRecipe(s.name@))
    } else if names.take(i).contains(s.name@) {
        Some(ConfigFailure::DuplicateName(s.name@))
    } else if first_unknown_dep(views(s.depends_on@), names, 0) >= 0 {
        Some(ConfigFailure::UnknownDependency {
            step: s.name@,
            dependency: views(s.depends_on@)[first_unknown_dep(views(s.depends_on@), names, 0)],
        })
    } else {
        None
    }
}

/// The first fault of the steps from `i` on.
pub open spec fn first_fault(steps: Seq<Step>, i: int) -> Option<ConfigFailure>
    decreases steps.len() - i,
{
    if i < 0 || i >= steps.len() {
        None
    } else {
        match step_fault(steps, i) {
            Some(f) => Some(f),
            None => first_fault(steps, i + 1),
        }
    }
}

/// The outcome of validating a list of steps.
pub open spec fn validation(steps: Seq<Step>) -> Result<(), ConfigFailure> {
    if steps.len() == 0 {
        Err(ConfigFailure::NoSteps)
    } else {
        match first_fault(steps, 0) {
            Some(f) => Err(f),
            None => Ok(()),
        }
    }
}

/// A config that passes validation: nonempty, each step with exactly one of
/// `command` and `just_recipe`, distinct names, and dependencies that name steps.
pub open spec fn well_formed_steps(steps: Seq<Step>) -> bool {
    &&& steps.len() > 0
    &&& forall|i: int| 0 <= i < steps.len() ==> (#[trigger] steps[i].command is Some) != (steps[i].just_recipe is Some)
    &&& forall|i: int, j: int| 0 <= i < j < steps.len() ==> steps[i].name@ != steps[j].name@
    &&& forall|i: int, k: int| 0 <= i < steps.len() && 0 <= k < steps[i].depends_on@.len()
        ==> step_names(steps).contains(#[trigger] steps[i].depends_on@[k]@)
}

fn step_names_exec(steps: &Vec<Step>) -> (v: Vec<String>)
    ensures
        views(v@) == step_names(steps@),
{
    let mut v: Vec<String> = Vec::new();
    let mut i: usize = 0;
    while i < steps.len()
        invariant
            i <= steps@.len(),
            views(v@) == step_names(steps@).take(i as int),
        decreases steps@.len() - i,
    {
        let ghost before = views(v@);
        let n = copy_string(&steps[i].name);
        v.push(n);
        assert(views(v@) =~= before.push(n@));
        i = i + 1;
        assert(views(v@) =~= step_names(steps@).take(i as int));
    }
    assert(step_names(steps@).take(i as int) =~= step_names(steps@));
    v
}

fn unknown_dep(deps: &Vec<String>, names: &Vec<String>) -> (r: Option<usize>)
    ensures
        match r {
            Some(k) => k as int == first_unknown_dep(views(deps@), views(names@), 0) && k < deps@.len(),
            None => first_unknown_dep(views(deps@), views(names@), 0) == -1,
        },
{
    let mut k: usize = 0;
    while k < deps.len()
        invariant
            k <= deps@.len(),
            first_unknown_dep(views(deps@), views(names@), 0) == first_unknown_dep(views(deps@), views(names@), k as int),
        decreases deps@.len() - k,
    {
        assert(views(deps@)[k as int] == deps@[k as int]@);
        if !contains_string(names, deps[k].as_str()) {
            return Some(k);
        }
        k = k + 1;
    }
    None
}

impl Config {
    /// Checks the config: it has steps; each step has exactly one of `command`
    /// and `just_recipe`; step names are unique; every `depends_on` entry names
    /// a step. The first problem in step order is reported.
    pub fn validate(&self) -> (r: Result<(), ConfigError>)
        ensures
            match r {
                Ok(()) => validation(self.steps@) == Ok::<(), ConfigFailure>(()),
                Err(e) => validation(self.steps@) == Err::<(), ConfigFailure>(e@),
            },
    {
        if self.steps.len() == 0 {
            return Err(ConfigError::NoSteps);
        }
        let ghost steps = self.steps@;
        let names = step_names_exec(&self.steps);
        let mut seen: Vec<String> = Vec::new();
        let mut i: usize = 0;
        while i < self.steps.len()
            invariant
                steps == self.steps@,
                views(names@) == step_names(steps),
                i <= steps.len(),
                views(seen@) == step_names(steps).take(i as int),
                first_fault(steps, 0) == first_fault(steps, i as int),
            decreases steps.len() - i,
        {
            let step = &self.steps[i];
            assert(step_names(steps)[i as int] == step.name@);
            match (&step.command, &step.just_recipe) {
                (None, None) => {
                    return Err(ConfigError::NeitherCommandNorRecipe(copy_string(&step.name)));
                },
                (Some(_), Some(_)) => {
                    return Err(ConfigError::BothCommandAndRecipe(copy_string(&step.name)));
                },
                _ => {},
            }
            if contains_string(&seen, step.name.as_str()) {
                return Err(ConfigError::DuplicateName(copy_string(&step.name)));
            }
            match unknown_dep(&step.depends_on, &names) {
                Some(k) => {
                    assert(views(step.depends_on@)[k as int] == step.depends_on@[k as int]@);
                    return Err(ConfigError::UnknownDependency {
                        step: copy_string(&step.name),
                        dependency: copy_string(&step.depends_on[k]),
                    });
                },
                None => {},
            }
            let ghost before = views(seen@);
            let n = copy_string(&step.name);
            seen.push(n);
            assert(views(seen@) =~= before.push(n@));
            assert(step_names(steps).take(i + 1) =~= step_names(steps).take(i as int).push(n@));
            i = i + 1;
        }
        Ok(())
    }
}

// ---------------------------------------------------------------------------
// Key suggestions
// ---------------------------------------------------------------------------

/// The field names of `[metadata]` and `[[steps]]` that suggestions draw on.
pub open spec fn known_keys_spec() -> Seq<Seq<char>> {
    seq![
        "name"@,
        "description"@,
        "justfile"@,
        "working_directory"@,
        "command"@,
        "confirm"@,
        "depends_on"@,
        "group"@,
        "just_no_deps"@,
        "just_recipe"@
    ]
}

/// The top-level table names.
pub open spec fn top_level_keys_spec() -> Seq<Seq<char>> {
    seq!["metadata"@, "steps"@]
}

/// The field names of `[metadata]` and `[[steps]]` that suggestions draw on.
pub fn known_keys() -> (v: Vec<&'static str>)
    ensures
        str_views(v@) == known_keys_spec(),
{
    let mut v: Vec<&'static str> = Vec::new();
    v.push("name");
    v.push("description");
    v.push("justfile");
    v.push("working_directory");
    v.push("command");
    v.push("confirm");
    v.push("depends_on");
    v.push("group");
    v.push("just_no_deps");
    v.push("just_recipe");
    assert(str_views(v@) =~= known_keys_spec());
    v
}

/// The top-level table names.
pub fn top_level_keys() -> (v: Vec<&'static str>)
    ensures
        str_views(v@) == top_level_keys_spec(),
{
    let mut v: Vec<&'static str> = Vec::new();
    v.push("metadata");
    v.push("steps");
    assert(str_views(v@) =~= top_level_keys_spec());
    v
}

/// Damerau-Levenshtein distance between two character sequences as
/// `strsim::damerau_levenshtein` computes it.
pub uninterp spec fn damerau_levenshtein_distance(a: Seq<char>, b: Seq<char>) -> nat;

/// Calls `strsim::damerau_levenshtein`; its result is named, nothing more
/// is claimed of it.
#[verifier::external_body]
fn damerau_levenshtein(a: &str, b: &str) -> (d: usize)
    ensures
        d as nat == damerau_levenshtein_distance(a@, b@),
{
    strsim::damerau_levenshtein(a, b)
}

/// The largest distance at which a key is still suggested for `u`:
/// `max(2, ceil(byte length of u / 3))`.
pub open spec fn suggestion_threshold(u: Seq<char>) -> nat {
    let n = encode_utf8(u).len();
    let third = (n + 2) / 3;
    if third > 2 { third } else { 2 }
}

/// Index of the smallest of the distances `ds` that is at most `threshold`
/// (the first of equally small ones), or -1.
pub open spec fn closest_within(ds: Seq<nat>, threshold: nat) -> int
    decreases ds.len(),
{
    if ds.len() == 0 {
        -1
    } else {
        let p = closest_within(ds.drop_last(), threshold);
        let d = ds.last();
        if d > threshold {
            p
        } else if p < 0 {
            ds.len() - 1
        } else if d < ds[p] {
            ds.len() - 1
        } else {
            p
        }
    }
}

/// The distances from `u` to each of `keys`.
pub open spec fn key_distances(keys: Seq<Seq<char>>, u: Seq<char>) -> Seq<nat> {
    keys.map_values(|k: Seq<char>| damerau_levenshtein_distance(u, k))
}

/// Index of the key closest to `u` within the threshold (the first of equally
/// close keys), or -1.
pub open spec fn closest_key(keys: Seq<Seq<char>>, u: Seq<char>) -> int {
    closest_within(key_distances(keys, u), suggestion_threshold(u))
}

/// The key closest to `unknown` among `keys`, if one is within the threshold.
pub open spec fn suggestion(keys: Seq<Seq<char>>, u: Seq<char>) -> Option<Seq<char>> {
    if closest_key(keys, u) < 0 {
        None
    } else {
        Some(keys[closest_key(keys, u)])
    }
}

/// The index of the smallest distance within `threshold`, the first of equal
/// ones.
pub fn pick_closest(distances: &Vec<usize>, threshold: usize) -> (r: Option<usize>)
    ensures
        match r {
            Some(j) => closest_within(distances@.map_values(|d: usize| d as nat), threshold as nat) == j as int
                && j < distances@.len(),
            None => closest_within(distances@.map_values(|d: usize| d as nat), threshold as nat) == -1,
        },
{
    let ghost ds = distances@.map_values(|d: usize| d as nat);
    let mut best: Option<(usize, usize)> = None;
    let mut i: usize = 0;
    while i < distances.len()
        invariant
            ds == distances@.map_values(|d: usize| d as nat),
            i <= distances@.len(),
            match best {
                Some((j, d)) => closest_within(ds.take(i as int), threshold as nat) == j as int && j < i
                    && d == distances@[j as int],
                None => closest_within(ds.take(i as int), threshold as nat) == -1,
            },
        decreases distances@.len() - i,
    {
        let d: usize = distances[i];
        proof {
            let t = ds.take(i + 1);
            assert(t.drop_last() =~= ds.take(i as int));
            assert(t.last() == d as nat);
            match best {
                Some((j, bd)) => {
                    assert(t[j as int] == bd as nat);
                },
                None => {},
            }
        }
        if d <= threshold {
            match best {
                None => {
                    best = Some((i, d));
                },
                Some((j, bd)) => {
                    if d < bd {
                        best = Some((i, d));
                    }
                },
            }
        }
        i = i + 1;
    }
    assert(ds.take(i as int) =~= ds);
    match best {
        Some((j, _)) => Some(j),
        None => None,
    }
}

/// Suggests the key of `keys` nearest to `unknown` by Damerau-Levenshtein
/// distance, if that distance is at most `max(2, ceil(len / 3))` (`len` in
/// bytes); of equally near keys the first is taken.
pub fn suggest_from(unknown: &str, keys: &Vec<&'static str>) -> (r: Option<&'static str>)
    ensures
        match r {
            Some(k) => suggestion(str_views(keys@), unknown@) == Some(k@),
            None => suggestion(str_views(keys@), unknown@) is None,
        },
{
    let n: usize = unknown.as_bytes().len();
    let third: usize = n / 3 + (if n % 3 == 0 { 0 } else { 1 });
    let threshold: usize = if third > 2 { third } else { 2 };
    assert(threshold == suggestion_threshold(unknown@));
    let ghost kv = str_views(keys@);
    let mut distances: Vec<usize> = Vec::new();
    let mut i: usize = 0;
    while i < keys.len()
        invariant
            kv == str_views(keys@),
            i <= keys@.len(),
            distances@.map_values(|d: usize| d as nat) == key_distances(kv, unknown@).take(i as int),
        decreases keys@.len() - i,
    {
        let ghost before = distances@.map_values(|d: usize| d as nat);
        let d: usize = damerau_levenshtein(unknown, keys[i]);
        distances.push(d);
        assert(kv[i as int] == keys@[i as int]@);
        assert(distances@.map_values(|d: usize| d as nat) =~= before.push(d as nat));
        assert(distances@.map_values(|d: usize| d as nat) =~= key_distances(kv, unknown@).take(i + 1));
        i = i + 1;
    }
    assert(key_distances(kv, unknown@).take(i as int) =~= key_distances(kv, unknown@));
    match pick_closest(&distances, threshold) {
        Some(j) => Some(keys[j]),
        None => None,
    }
}

/// Suggests the nearest known field name for an unknown one.
pub fn suggest_key(unknown: &str) -> (r: Option<&'static str>)
    ensures
        match r {
            Some(k) => suggestion(known_keys_spec(), unknown@) == Some(k@),
            None => suggestion(known_keys_spec(), unknown@) is None,
        },
{
    let keys = known_keys();
    suggest_from(unknown, &keys)
}

/// `p` is a prefix of `s`.
pub open spec fn is_prefix(p: Seq<char>, s: Seq<char>) -> bool {
    p.len() <= s.len() && s.take(p.len() as int) == p
}

fn is_prefix_exec(p: &str, s: &str) -> (r: bool)
    ensures
        r == is_prefix(p@, s@),
{
    let pc = chars_of(p);
    let sc = chars_of(s);
    if pc.len() > sc.len() {
        return false;
    }
    let mut i: usize = 0;
    while i < pc.len()
        invariant
            pc@ == p@,
            sc@ == s@,
            pc@.len() <= sc@.len(),
            i <= pc@.len(),
            forall|j: int| 0 <= j < i ==> sc@[j] == pc@[j],
        decreases pc@.len() - i,
    {
        if pc[i] != sc[i] {
            assert(s@.take(p@.len() as int)[i as int] != p@[i as int]);
            return false;
        }
        i = i + 1;
    }
    assert(s@.take(p@.len() as int) =~= p@);
    true
}

/// Index of the first key that is a prefix of `u` or has `u` as a prefix, or -1.
pub open spec fn prefix_match(keys: Seq<Seq<char>>, u: Seq<char>, i: int) -> int
    decreases keys.len() - i,
{
    if i < 0 || i >= keys.len() {
        -1
    } else if is_prefix(u, keys[i]) || is_prefix(keys[i], u) {
        i
    } else {
        prefix_match(keys, u, i + 1)
    }
}

/// What `suggest_any_key` answers: a top-level table name that `u` is a
/// prefix of or extends; else the nearest top-level name; else the nearest
/// field name.
pub open spec fn any_key_suggestion(u: Seq<char>) -> Option<Seq<char>> {
    let top = top_level_keys_spec();
    if prefix_match(top, u, 0) >= 0 {
        Some(top[prefix_match(top, u, 0)])
    } else if suggestion(top, u) is Some {
        suggestion(top, u)
    } else {
        suggestion(known_keys_spec(), u)
    }
}

/// Suggests a key for an unknown one, drawing on table names and field names.
pub fn suggest_any_key(unknown: &str) -> (r: Option<&'static str>)
    ensures
        match r {
            Some(k) => any_key_suggestion(unknown@) == Some(k@),
            None => any_key_suggestion(unknown@) is None,
        },
{
    let top = top_level_keys();
    let ghost tv = str_views(top@);
    let mut i: usize = 0;
    while i < top.len()
        invariant
            tv == str_views(top@),
            tv == top_level_keys_spec(),
            i <= top@.len(),
            prefix_match(tv, unknown@, 0) == prefix_match(tv, unknown@, i as int),
        decreases top@.len() - i,
    {
        assert(tv[i as int] == top@[i as int]@);
        if is_prefix_exec(unknown, top[i]) || is_prefix_exec(top[i], unknown) {
            return Some(top[i]);
        }
        i = i + 1;
    }
    match suggest_from(unknown, &top) {
        Some(k) => Some(k),
        None => suggest_key(unknown),
    }
}

// ---------------------------------------------------------------------------
// Parse-error reports
// ---------------------------------------------------------------------------

/// "unknown field `".
pub open spec fn unknown_field_prefix() -> Seq<char> {
    "unknown field `"@
}

/// The field name in a TOML error message of the form
/// ``unknown field `X`, ...``.
pub open spec fn unknown_field_of(msg: Seq<char>) -> Option<Seq<char>> {
    let p = unknown_field_prefix();
    if is_prefix(p, msg) {
        let after = msg.skip(p.len() as int);
        let e = index_of_from(after, '`', 0);
        if e < 0 {
            None
        } else {
            Some(after.take(e))
        }
    } else {
        None
    }
}

/// Extracts `X` from a message that starts with ``unknown field `X` ``.
#[verifier::loop_isolation(false)]
pub fn extract_unknown_field(msg: &str) -> (r: Option<String>)
    ensures
        match r {
            Some(f) => unknown_field_of(msg@) == Some(f@),
            None => unknown_field_of(msg@) is None,
        },
{
    let prefix = "unknown field `";
    assert(prefix@ == unknown_field_prefix());
    if !is_prefix_exec(prefix, msg) {
        return None;
    }
    let pc = chars_of(prefix);
    let mc = chars_of(msg);
    let mut after: Vec<char> = Vec::new();
    let mut i: usize = pc.len();
    while i < mc.len()
        invariant
            pc@ == prefix@,
            mc@ == msg@,
            pc@.len() <= i <= mc@.len(),
            after@ == mc@.subrange(pc@.len() as int, i as int),
        decreases mc@.len() - i,
    {
        after.push(mc[i]);
        i = i + 1;
        assert(after@ =~= mc@.subrange(pc@.len() as int, i as int));
    }
    assert(after@ =~= msg@.skip(prefix@.len() as int));
    proof {
        crate::resolver::lemma_index_of_from(after@, '`', 0);
    }
    let mut e: usize = 0;
    while e < after.len()
        invariant
            e <= after@.len(),
            after@ == msg@.skip(prefix@.len() as int),
            is_prefix(prefix@, msg@),
            index_of_from(after@, '`', 0) == index_of_from(after@, '`', e as int),
        decreases after@.len() - e,
    {
        if after[e] == '`' {
            assert(index_of_from(after@, '`', e as int) == e);
            let mut f: Vec<char> = Vec::new();
            let mut k: usize = 0;
            while k < e
                invariant
                    k <= e < after@.len(),
                    f@ == after@.take(k as int),
                    after@ == msg@.skip(prefix@.len() as int),
                    is_prefix(prefix@, msg@),
                    prefix@ == unknown_field_prefix(),
                    index_of_from(after@, '`', 0) == e,
                decreases e - k,
            {
                f.push(after[k]);
                k = k + 1;
                assert(f@ =~= after@.take(k as int));
            }
            return Some(string_from_chars(&f));
        }
        e = e + 1;
    }
    None
}

/// Number of lines `str::lines` yields for the text `b`: one per `\n`, plus
/// one for an unterminated last line.
pub open spec fn line_count(b: Seq<u8>) -> nat {
    b.filter(|x: u8| x == 10u8).len() + (if b.len() > 0 && b.last() != 10u8 { 1nat } else { 0nat })
}

/// Index of the last `\n` in `b`, or -1.
pub open spec fn last_newline(b: Seq<u8>) -> int
    decreases b.len(),
{
    if b.len() == 0 {
        -1
    } else if b.last() == 10u8 {
        b.len() - 1
    } else {
        last_newline(b.drop_last())
    }
}

/// `path:line:col` for a byte offset `start` into `content`: the lines are
/// counted in the text before the offset, the column in bytes from the last
/// line break before it, both from 1.
pub open spec fn span_location(path: Seq<char>, content: Seq<u8>, start: nat) -> Seq<char> {
    let cut = if start < content.len() { start } else { content.len() };
    let before = content.take(cut as int);
    let nl = last_newline(before);
    let col: nat = if nl < 0 { start + 1 } else { (start - nl - 1 + 1) as nat };
    path + ":"@ + decimal(line_count(before)) + ":"@ + decimal(col)
}

proof fn lemma_last_newline_bound(b: Seq<u8>)
    ensures
        -1 <= last_newline(b) < b.len(),
    decreases b.len(),
{
    if b.len() > 0 && b.last() != 10u8 {
        lemma_last_newline_bound(b.drop_last());
    }
}

/// The location shown for a TOML error: `path:line:col` when the error has
/// a byte offset `start`, else the path alone.
pub fn error_location(path: &str, content: &str, start: Option<usize>) -> (r: String)
    requires
        start matches Some(s) ==> s < usize::MAX,
    ensures
        r@ == match start {
            Some(s) => span_location(path@, content.spec_bytes(), s as nat),
            None => path@,
        },
{
    match start {
        None => path.to_owned(),
        Some(s) => {
            let bytes = content.as_bytes();
            let cut: usize = if s < bytes.len() { s } else { bytes.len() };
            let ghost before = bytes@.take(cut as int);
            let mut newlines: usize = 0;
            let mut last_nl: Option<usize> = None;
            let mut i: usize = 0;
            while i < cut
                invariant
                    bytes@ == content.spec_bytes(),
                    cut == (if s < bytes@.len() { s as int } else { bytes@.len() as int }),
                    cut <= bytes@.len(),
                    before == bytes@.take(cut as int),
                    i <= cut,
                    newlines as nat == before.take(i as int).filter(|x: u8| x == 10u8).len(),
                    newlines as int + (if i > 0 && bytes@[i - 1] != 10u8 { 1int } else { 0int }) <= i,
                    match last_nl {
                        Some(p) => last_newline(before.take(i as int)) == p as int && p < i,
                        None => last_newline(before.take(i as int)) == -1,
                    },
                decreases cut - i,
            {
                proof {
                    let t = before.take(i + 1);
                    assert(t.drop_last() =~= before.take(i as int));
                    assert(t.last() == bytes@[i as int]);
                    reveal_with_fuel(Seq::filter, 1);
                }
                if bytes[i] == 10u8 {
                    newlines = newlines + 1;
                    last_nl = Some(i);
                }
                i = i + 1;
            }
            assert(before.take(cut as int) =~= before);
            let line: usize = if cut > 0 && bytes[cut - 1] != 10u8 { newlines + 1 } else { newlines };
            let col: usize = match last_nl {
                Some(p) => s - p - 1 + 1,
                None => s + 1,
            };
            let mut out: Vec<char> = chars_of(path);
            out.push(':');
            push_decimal(&mut out, line as u64);
            out.push(':');
            push_decimal(&mut out, col as u64);
            proof {
                let nl = last_newline(before);
                assert(line_count(before) == line as nat);
                assert(col as nat == (if nl < 0 { (s + 1) as nat } else { (s - nl - 1 + 1) as nat }));
                reveal_strlit(":");
                assert(out@ =~= span_location(path@, content.spec_bytes(), s as nat));
            }
            string_from_chars(&out)
        },
    }
}

/// The lines reported for a TOML error with message `msg` at `location`: an
/// unknown field gets a suggestion, or the list of known keys; any other
/// error is shown as it is.
pub open spec fn parse_report(msg: Seq<char>, location: Seq<char>) -> Seq<Seq<char>> {
    match unknown_field_of(msg) {
        Some(u) => {
            let head = "error: unknown field `"@ + u + "` in "@ + location;
            match any_key_suggestion(u) {
                Some(k) => seq![head, "  did you mean `"@ + k + "`?"@],
                None => seq![head, "  known keys: "@ + crate::graph::join(known_keys_spec(), ", "@)],
            }
        },
        None => seq!["error: invalid TOML in "@ + location + ": "@ + msg],
    }
}

/// The lines printed for a TOML error.
pub fn parse_error_report(msg: &str, location: &str) -> (r: Vec<String>)
    ensures
        views(r@) == parse_report(msg@, location@),
{
    let mut r: Vec<String> = Vec::new();
    match extract_unknown_field(msg) {
        Some(u) => {
            let mut head: Vec<char> = Vec::new();
            push_str(&mut head, "error: unknown field `");
            push_str(&mut head, u.as_str());
            push_str(&mut head, "` in ");
            push_str(&mut head, location);
            let h = string_from_chars(&head);
            let mut second: Vec<char> = Vec::new();
            match suggest_any_key(u.as_str()) {
                Some(k) => {
                    push_str(&mut second, "  did you mean `");
                    push_str(&mut second, k);
                    push_str(&mut second, "`?");
                },
                None => {
                    push_str(&mut second, "  known keys: ");
                    let keys = known_keys();
                    crate::graph::push_joined_strs(&mut second, &keys, ", ");
                },
            }
            let s2 = string_from_chars(&second);
            r.push(h);
            r.push(s2);
            assert(views(r@) =~= seq![h@, s2@]);
        },
        None => {
            let mut line: Vec<char> = Vec::new();
            push_str(&mut line, "error: invalid TOML in ");
            push_str(&mut line, location);
            push_str(&mut line, ": ");
            push_str(&mut line, msg);
            let l = string_from_chars(&line);
            r.push(l);
            assert(views(r@) =~= seq![l@]);
        },
    }
    r
}

proof fn lemma_first_unknown_dep(deps: Seq<Seq<char>>, names: Seq<Seq<char>>, k: int)
    requires
        0 <= k,
    ensures
        first_unknown_dep(deps, names, k) >= -1,
        first_unknown_dep(deps, names, k) == -1 <==> forall|j: int| k <= j < deps.len() ==> names.contains(#[trigger] deps[j]),
    decreases deps.len() - k,
{
    if k < deps.len() {
        lemma_first_unknown_dep(deps, names, k + 1);
    }
}

proof fn lemma_first_fault_none(steps: Seq<Step>, i: int)
    requires
        0 <= i,
    ensures
        first_fault(steps, i) is None <==> forall|j: int| i <= j < steps.len() ==> #[trigger] step_fault(steps, j) is None,
    decreases steps.len() - i,
{
    if i < steps.len() {
        lemma_first_fault_none(steps, i + 1);
    }
}

/// A config passes validation exactly when it is well formed: it has steps,
/// each step has exactly one of `command` and `just_recipe`, no two steps
/// share a name, and every dependency names a step.
pub proof fn law_validation_is_well_formedness(steps: Seq<Step>)
    ensures
        validation(steps) is Ok <==> well_formed_steps(steps),
{
    let names = step_names(steps);
    lemma_first_fault_none(steps, 0);
    if validation(steps) is Ok {
        assert forall|i: int| 0 <= i < steps.len() implies (#[trigger] steps[i].command is Some) != (steps[i].just_recipe is Some) by {
            assert(step_fault(steps, i) is None);
        }
        assert forall|i: int, j: int| 0 <= i < j < steps.len() implies steps[i].name@ != steps[j].name@ by {
            assert(step_fault(steps, j) is None);
            assert(names.take(j)[i] == steps[i].name@);
        }
        assert forall|i: int, k: int| 0 <= i < steps.len() && 0 <= k < steps[i].depends_on@.len()
            implies names.contains(#[trigger] steps[i].depends_on@[k]@) by {
            assert(step_fault(steps, i) is None);
            lemma_first_unknown_dep(views(steps[i].depends_on@), names, 0);
            assert(views(steps[i].depends_on@)[k] == steps[i].depends_on@[k]@);
        }
    }
    if well_formed_steps(steps) {
        assert forall|j: int| 0 <= j < steps.len() implies #[trigger] step_fault(steps, j) is None by {
            let s = steps[j];
            assert((s.command is Some) != (s.just_recipe is Some));
            if names.take(j).contains(s.name@) {
                let w = choose|w: int| 0 <= w < names.take(j).len() && names.take(j)[w] == s.name@;
                assert(steps[w].name@ != steps[j].name@);
            }
            lemma_first_unknown_dep(views(s.depends_on@), names, 0);
            assert forall|q: int| 0 <= q < views(s.depends_on@).len() implies names.contains(#[trigger] views(s.depends_on@)[q]) by {
                assert(views(s.depends_on@)[q] == s.depends_on@[q]@);
                assert(names.contains(steps[j].depends_on@[q]@));
            }
        }
    }
}

} // verus!
