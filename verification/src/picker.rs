//! Selecting steps: group filtering and the handling of dependencies that
//! the selection lacks.
use vstd::prelude::*;
use crate::config::{Step, StepView, step_views, opt_view};
use crate::text::{views, str_eq, contains_string, copy_string, push_str, string_from_chars};

verus! {

/// The step belongs to group `g`.
pub open spec fn in_group(s: StepView, g: Seq<char>) -> bool {
    s.group == Some(g)
}

/// The steps of group `g`, in their order.
pub open spec fn group_members(steps: Seq<StepView>, g: Seq<char>) -> Seq<StepView>
    decreases steps.len(),
{
    if steps.len() == 0 {
        seq![]
    } else if in_group(steps.last(), g) {
        group_members(steps.drop_last(), g).push(steps.last())
    } else {
        group_members(steps.drop_last(), g)
    }
}

/// The members of group `g` are exactly the steps whose group is `g`, in
/// their order.
pub proof fn law_group_members(steps: Seq<StepView>, g: Seq<char>)
    ensures
        group_members(steps, g) == steps.filter(|s: StepView| s.group == Some(g)),
    decreases steps.len(),
{
    reveal_with_fuel(Seq::filter, 1);
    if steps.len() > 0 {
        law_group_members(steps.drop_last(), g);
    }
}

pub open spec fn ref_views(v: Seq<&Step>) -> Seq<StepView> {
    v.map_values(|s: &Step| s@)
}

fn opt_eq(o: &Option<String>, g: &str) -> (r: bool)
    ensures
        r == (opt_view(*o) == Some(g@)),
{
    match o {
        Some(s) => str_eq(s.as_str(), g),
        None => false,
    }
}

/// The steps whose `group` is `group`, in config order.
pub fn filter_by_group<'a>(steps: &'a Vec<Step>, group: &str) -> (r: Vec<&'a Step>)
    ensures
        ref_views(r@) == group_members(step_views(steps@), group@),
{
    let ghost sv = step_views(steps@);
    let mut r: Vec<&'a Step> = Vec::new();
    let mut i: usize = 0;
    while i < steps.len()
        invariant
            sv == step_views(steps@),
            i <= steps@.len(),
            ref_views(r@) == group_members(sv.take(i as int), group@),
        decreases steps@.len() - i,
    {
        let s = &steps[i];
        let ghost before = ref_views(r@);
        let ghost t = sv.take(i + 1);
        assert(t.drop_last() =~= sv.take(i as int));
        assert(t.last() == s@);
        if opt_eq(&s.group, group) {
            r.push(s);
            assert(ref_views(r@) =~= before.push(s@));
        }
        i = i + 1;
    }
    assert(sv.take(i as int) =~= sv);
    r
}

/// Every dependency of the steps, in step order then list order.
pub open spec fn all_deps(steps: Seq<StepView>) -> Seq<Seq<char>>
    decreases steps.len(),
{
    if steps.len() == 0 {
        seq![]
    } else {
        all_deps(steps.drop_last()) + steps.last().depends_on
    }
}

/// The names of a list of step views.
pub open spec fn view_names(steps: Seq<StepView>) -> Seq<Seq<char>> {
    steps.map_values(|s: StepView| s.name)
}

/// `s` with later repeats dropped.
pub open spec fn dedup(s: Seq<Seq<char>>) -> Seq<Seq<char>>
    decreases s.len(),
{
    if s.len() == 0 {
        seq![]
    } else if dedup(s.drop_last()).contains(s.last()) {
        dedup(s.drop_last())
    } else {
        dedup(s.drop_last()).push(s.last())
    }
}

/// The dependencies of the selection that it does not contain, each once,
/// in the order they are first met.
pub open spec fn missing_deps(selected: Seq<StepView>) -> Seq<Seq<char>> {
    dedup(all_deps(selected).filter(|d: Seq<char>| !view_names(selected).contains(d)))
}

proof fn lemma_dedup_push(s: Seq<Seq<char>>, x: Seq<char>)
    ensures
        dedup(s.push(x)) == (if dedup(s).contains(x) { dedup(s) } else { dedup(s).push(x) }),
{
    assert(s.push(x).drop_last() =~= s);
}

proof fn lemma_filter_push(s: Seq<Seq<char>>, x: Seq<char>, names: Seq<Seq<char>>)
    ensures
        s.push(x).filter(|d: Seq<char>| !names.contains(d)) == (if !names.contains(x) {
            s.filter(|d: Seq<char>| !names.contains(d)).push(x)
        } else {
            s.filter(|d: Seq<char>| !names.contains(d))
        }),
{
    reveal_with_fuel(Seq::filter, 1);
    assert(s.push(x).drop_last() =~= s);
}

/// Names of a list of steps.
fn names_of(steps: &Vec<Step>) -> (v: Vec<String>)
    ensures
        views(v@) == view_names(step_views(steps@)),
{
    let mut v: Vec<String> = Vec::new();
    let mut i: usize = 0;
    while i < steps.len()
        invariant
            i <= steps@.len(),
            views(v@) == view_names(step_views(steps@)).take(i as int),
        decreases steps@.len() - i,
    {
        let ghost before = views(v@);
        let n = copy_string(&steps[i].name);
        v.push(n);
        assert(views(v@) =~= before.push(n@));
        i = i + 1;
        assert(views(v@) =~= view_names(step_views(steps@)).take(i as int));
    }
    assert(view_names(step_views(steps@)).take(i as int) =~= view_names(step_views(steps@)));
    v
}

/// The dependencies the selection lacks, each once, in first-met order.
pub fn missing_dependencies(selected: &Vec<Step>) -> (r: Vec<String>)
    ensures
        views(r@) == missing_deps(step_views(selected@)),
{
    let ghost sv = step_views(selected@);
    let names = names_of(selected);
    let ghost nm = view_names(sv);
    let mut missing: Vec<String> = Vec::new();
    let mut i: usize = 0;
    while i < selected.len()
        invariant
            sv == step_views(selected@),
            views(names@) == nm,
            nm == view_names(sv),
            i <= selected@.len(),
            views(missing@) == dedup(all_deps(sv.take(i as int)).filter(|d: Seq<char>| !nm.contains(d))),
        decreases selected@.len() - i,
    {
        let deps = &selected[i].depends_on;
        let ghost prefix = all_deps(sv.take(i as int));
        let mut k: usize = 0;
        assert(views(deps@).take(0) =~= Seq::<Seq<char>>::empty());
        assert(prefix + views(deps@).take(0) =~= prefix);
        while k < deps.len()
            invariant
                views(names@) == nm,
                k <= deps@.len(),
                views(missing@) == dedup((prefix + views(deps@).take(k as int)).filter(|d: Seq<char>| !nm.contains(d))),
            decreases deps@.len() - k,
        {
            let d = &deps[k];
            let ghost base = prefix + views(deps@).take(k as int);
            assert(prefix + views(deps@).take(k + 1) =~= base.push(d@));
            proof {
                lemma_filter_push(base, d@, nm);
            }
            let ghost f = base.filter(|x: Seq<char>| !nm.contains(x));
            if !contains_string(&names, d.as_str()) {
                proof {
                    lemma_dedup_push(f, d@);
                }
                if !contains_string(&missing, d.as_str()) {
                    let ghost before = views(missing@);
                    let c = copy_string(d);
                    missing.push(c);
                    assert(views(missing@) =~= before.push(c@));
                }
            }
            k = k + 1;
        }
        proof {
            let t = sv.take(i + 1);
            assert(t.drop_last() =~= sv.take(i as int));
            assert(t.last().depends_on == views(deps@));
            assert(views(deps@).take(deps@.len() as int) =~= views(deps@));
        }
        i = i + 1;
    }
    assert(sv.take(i as int) =~= sv);
    missing
}

/// Index of the first step named `d`, or -1.
pub open spec fn find_named(steps: Seq<StepView>, d: Seq<char>, i: int) -> int
    decreases steps.len() - i,
{
    if i < 0 || i >= steps.len() {
        -1
    } else if steps[i].name == d {
        i
    } else {
        find_named(steps, d, i + 1)
    }
}

/// Index of the first step depending on `d`, or -1.
pub open spec fn first_dependent(steps: Seq<StepView>, d: Seq<char>, i: int) -> int
    decreases steps.len() - i,
{
    if i < 0 || i >= steps.len() {
        -1
    } else if steps[i].depends_on.contains(d) {
        i
    } else {
        first_dependent(steps, d, i + 1)
    }
}

/// Where a dependency `d` goes: before the first selected step that needs it,
/// else at the front.
pub open spec fn insert_position(sel: Seq<StepView>, d: Seq<char>) -> int {
    if first_dependent(sel, d, 0) >= 0 {
        first_dependent(sel, d, 0)
    } else {
        0
    }
}

/// The selection after adding the step named `d` from `all` (if there is one).
pub open spec fn include_one(sel: Seq<StepView>, all: Seq<StepView>, d: Seq<char>) -> Seq<StepView> {
    let j = find_named(all, d, 0);
    if j < 0 {
        sel
    } else {
        sel.insert(insert_position(sel, d), all[j])
    }
}

/// The selection after adding each of `ds` in turn.
pub open spec fn include_all(sel: Seq<StepView>, all: Seq<StepView>, ds: Seq<Seq<char>>) -> Seq<StepView>
    decreases ds.len(),
{
    if ds.len() == 0 {
        sel
    } else {
        include_all(include_one(sel, all, ds[0]), all, ds.skip(1))
    }
}

pub proof fn lemma_find_named(steps: Seq<StepView>, d: Seq<char>, i: int)
    requires
        0 <= i,
    ensures
        find_named(steps, d, i) == -1 || (i <= find_named(steps, d, i) < steps.len()
            && steps[find_named(steps, d, i)].name == d),
        find_named(steps, d, i) == -1 ==> forall|k: int| i <= k < steps.len() ==> steps[k].name != d,
    decreases steps.len() - i,
{
    if i < steps.len() && steps[i].name != d {
        lemma_find_named(steps, d, i + 1);
    }
}

pub proof fn lemma_first_dependent(steps: Seq<StepView>, d: Seq<char>, i: int)
    requires
        0 <= i,
    ensures
        first_dependent(steps, d, i) == -1 || (i <= first_dependent(steps, d, i) < steps.len()
            && steps[first_dependent(steps, d, i)].depends_on.contains(d)
            && forall|k: int| i <= k < first_dependent(steps, d, i) ==> !steps[k].depends_on.contains(d)),
        first_dependent(steps, d, i) == -1 ==> forall|k: int| i <= k < steps.len() ==> !steps[k].depends_on.contains(d),
    decreases steps.len() - i,
{
    if i < steps.len() && !steps[i].depends_on.contains(d) {
        lemma_first_dependent(steps, d, i + 1);
    }
}

/// Index of the first step named `d`.
pub fn find_step_named(steps: &Vec<Step>, d: &str) -> (r: Option<usize>)
    ensures
        match r {
            Some(j) => j as int == find_named(step_views(steps@), d@, 0) && j < steps@.len(),
            None => find_named(step_views(steps@), d@, 0) == -1,
        },
{
    let ghost sv = step_views(steps@);
    let mut j: usize = 0;
    while j < steps.len()
        invariant
            sv == step_views(steps@),
            j <= steps@.len(),
            find_named(sv, d@, 0) == find_named(sv, d@, j as int),
        decreases steps@.len() - j,
    {
        if str_eq(steps[j].name.as_str(), d) {
            return Some(j);
        }
        j = j + 1;
    }
    None
}

/// Index of the first step that depends on `d`.
fn first_dependent_exec(steps: &Vec<Step>, d: &str) -> (r: Option<usize>)
    ensures
        match r {
            Some(j) => j as int == first_dependent(step_views(steps@), d@, 0) && j < steps@.len(),
            None => first_dependent(step_views(steps@), d@, 0) == -1,
        },
{
    let ghost sv = step_views(steps@);
    let mut j: usize = 0;
    while j < steps.len()
        invariant
            sv == step_views(steps@),
            j <= steps@.len(),
            first_dependent(sv, d@, 0) == first_dependent(sv, d@, j as int),
        decreases steps@.len() - j,
    {
        assert(sv[j as int].depends_on == views(steps@[j as int].depends_on@));
        if contains_string(&steps[j].depends_on, d) {
            return Some(j);
        }
        j = j + 1;
    }
    None
}

/// Adds the named dependencies to the selection: for each name in turn, the
/// first step of `all_steps` with that name is inserted before the first
/// selected step that depends on it, or at the front when none does. Names
/// with no step are skipped.
pub fn include_dependencies(selected: &mut Vec<Step>, all_steps: &Vec<Step>, missing: &Vec<String>)
    ensures
        step_views(final(selected)@) == include_all(step_views(old(selected)@), step_views(all_steps@), views(missing@)),
{
    let ghost all = step_views(all_steps@);
    let ghost ds = views(missing@);
    let mut m: usize = 0;
    assert(ds.skip(0) =~= ds);
    while m < missing.len()
        invariant
            all == step_views(all_steps@),
            ds == views(missing@),
            m <= missing@.len(),
            include_all(step_views(old(selected)@), all, ds) == include_all(step_views(selected@), all, ds.skip(m as int)),
        decreases missing@.len() - m,
    {
        let d = missing[m].as_str();
        assert(ds.skip(m as int)[0] == d@);
        assert(ds.skip(m as int).skip(1) =~= ds.skip(m + 1));
        let ghost sel = step_views(selected@);
        match find_step_named(all_steps, d) {
            None => {},
            Some(j) => {
                let pos = match first_dependent_exec(selected, d) {
                    Some(p) => p,
                    None => 0,
                };
                assert(pos as int == insert_position(sel, d@));
                let dup = all_steps[j].duplicate();
                selected.insert(pos, dup);
                assert(step_views(selected@) =~= sel.insert(pos as int, all[j as int]));
            },
        }
        m = m + 1;
    }
    assert(ds.skip(missing@.len() as int) =~= Seq::<Seq<char>>::empty());
}

/// The warning shown when selected steps depend on unselected ones.
pub fn missing_warning(missing: &Vec<String>) -> (r: String)
    ensures
        r@ == "\n  Warning: the following dependencies are not selected: "@
            + crate::graph::join(views(missing@), ", "@),
{
    let mut out: Vec<char> = Vec::new();
    push_str(&mut out, "\n  Warning: the following dependencies are not selected: ");
    crate::graph::push_joined(&mut out, missing, ", ");
    string_from_chars(&out)
}

proof fn lemma_include_one(sel: Seq<StepView>, all: Seq<StepView>, d: Seq<char>)
    ensures
        forall|i: int| 0 <= i < sel.len() ==> include_one(sel, all, d).contains(#[trigger] sel[i]),
        find_named(all, d, 0) >= 0 ==> exists|j: int| 0 <= j < include_one(sel, all, d).len()
            && (#[trigger] include_one(sel, all, d)[j]).name == d,
{
    lemma_find_named(all, d, 0);
    let j = find_named(all, d, 0);
    if j >= 0 {
        lemma_first_dependent(sel, d, 0);
        let p = insert_position(sel, d);
        assert(0 <= p <= sel.len());
        sel.insert_ensures(p, all[j]);
        let r = include_one(sel, all, d);
        assert forall|i: int| 0 <= i < sel.len() implies r.contains(#[trigger] sel[i]) by {
            if i < p {
                assert(r[i] == sel[i]);
            } else {
                assert(r[i + 1] == sel[i]);
            }
        }
        assert(r[p].name == d);
    }
}

/// Including missing dependencies keeps every selected step, and afterwards
/// each missing dependency that names a step is selected.
pub proof fn law_include_dependencies(sel: Seq<StepView>, all: Seq<StepView>, ds: Seq<Seq<char>>)
    ensures
        forall|i: int| 0 <= i < sel.len() ==> include_all(sel, all, ds).contains(#[trigger] sel[i]),
        forall|k: int| 0 <= k < ds.len() && find_named(all, #[trigger] ds[k], 0) >= 0 ==> exists|j: int|
            0 <= j < include_all(sel, all, ds).len() && include_all(sel, all, ds)[j].name == ds[k],
    decreases ds.len(),
{
    if ds.len() > 0 {
        let s1 = include_one(sel, all, ds[0]);
        let rest = ds.skip(1);
        lemma_include_one(sel, all, ds[0]);
        law_include_dependencies(s1, all, rest);
        let r = include_all(sel, all, ds);
        assert(r == include_all(s1, all, rest));
        assert forall|i: int| 0 <= i < sel.len() implies r.contains(#[trigger] sel[i]) by {
            assert(s1.contains(sel[i]));
            let w = choose|w: int| 0 <= w < s1.len() && s1[w] == sel[i];
            assert(r.contains(s1[w]));
        }
        assert forall|k: int| 0 <= k < ds.len() && find_named(all, #[trigger] ds[k], 0) >= 0 implies exists|j: int|
            0 <= j < r.len() && r[j].name == ds[k] by {
            if k == 0 {
                let w = choose|w: int| 0 <= w < s1.len() && (#[trigger] s1[w]).name == ds[0];
                assert(r.contains(s1[w]));
                let j = choose|j: int| 0 <= j < r.len() && r[j] == s1[w];
                assert(r[j].name == ds[k]);
            } else {
                assert(rest[k - 1] == ds[k]);
            }
        }
    }
}

/// Some step named `d` comes before every step of `sel` that depends on `d`.
pub open spec fn precedes_dependents(r: Seq<StepView>, sel: Seq<StepView>, d: Seq<char>) -> bool {
    exists|p: int| 0 <= p < r.len() && r[p].name == d && forall|q: int|
        0 <= q < r.len() && sel.contains(#[trigger] r[q]) && r[q].depends_on.contains(d) ==> p < q
}

proof fn lemma_insert_keeps_precedence(r: Seq<StepView>, sel: Seq<StepView>, d: Seq<char>, p2: int, x: StepView)
    requires
        precedes_dependents(r, sel, d),
        0 <= p2 <= r.len(),
        !sel.contains(x),
    ensures
        precedes_dependents(r.insert(p2, x), sel, d),
{
    let p = choose|p: int| 0 <= p < r.len() && r[p].name == d && forall|q: int|
        0 <= q < r.len() && sel.contains(#[trigger] r[q]) && r[q].depends_on.contains(d) ==> p < q;
    let r2 = r.insert(p2, x);
    r.insert_ensures(p2, x);
    let p1 = if p2 <= p { p + 1 } else { p };
    assert(r2[p1] == r[p]);
    assert forall|q: int| 0 <= q < r2.len() && sel.contains(#[trigger] r2[q]) && r2[q].depends_on.contains(d) implies p1 < q by {
        if q < p2 {
            assert(r2[q] == r[q]);
        } else if q > p2 {
            assert(r2[q] == r[q - 1]);
        }
    }
}

proof fn lemma_include_one_precedes(r: Seq<StepView>, all: Seq<StepView>, sel: Seq<StepView>, d: Seq<char>)
    requires
        find_named(all, d, 0) >= 0,
        forall|i: int| 0 <= i < sel.len() ==> (#[trigger] sel[i]).name != d,
    ensures
        precedes_dependents(include_one(r, all, d), sel, d),
{
    lemma_find_named(all, d, 0);
    lemma_first_dependent(r, d, 0);
    let j = find_named(all, d, 0);
    let p = insert_position(r, d);
    let r2 = include_one(r, all, d);
    r.insert_ensures(p, all[j]);
    assert(r2[p].name == d);
    assert forall|q: int| 0 <= q < r2.len() && sel.contains(#[trigger] r2[q]) && r2[q].depends_on.contains(d) implies p < q by {
        if q < p {
            assert(r2[q] == r[q]);
        } else if q == p {
            let w = choose|w: int| 0 <= w < sel.len() && sel[w] == r2[q];
            assert(sel[w].name == d);
        }
    }
}

proof fn lemma_include_all_precedes(r: Seq<StepView>, all: Seq<StepView>, sel: Seq<StepView>, ds: Seq<Seq<char>>)
    requires
        forall|k: int, i: int| 0 <= k < ds.len() && 0 <= i < sel.len() ==> (#[trigger] sel[i]).name != (#[trigger] ds[k]),
    ensures
        forall|k: int| 0 <= k < ds.len() && find_named(all, #[trigger] ds[k], 0) >= 0
            ==> precedes_dependents(include_all(r, all, ds), sel, ds[k]),
        forall|d0: Seq<char>| precedes_dependents(r, sel, d0) ==> #[trigger] precedes_dependents(include_all(r, all, ds), sel, d0),
    decreases ds.len(),
{
    if ds.len() > 0 {
        let d = ds[0];
        let r1 = include_one(r, all, d);
        let rest = ds.skip(1);
        assert(include_all(r, all, ds) == include_all(r1, all, rest));
        assert forall|k: int, i: int| 0 <= k < rest.len() && 0 <= i < sel.len() implies (#[trigger] sel[i]).name != (#[trigger] rest[k]) by {
            assert(rest[k] == ds[k + 1]);
        }
        lemma_include_all_precedes(r1, all, sel, rest);
        lemma_find_named(all, d, 0);
        assert forall|d0: Seq<char>| precedes_dependents(r, sel, d0) implies #[trigger] precedes_dependents(r1, sel, d0) by {
            if find_named(all, d, 0) >= 0 {
                lemma_first_dependent(r, d, 0);
                let x = all[find_named(all, d, 0)];
                if sel.contains(x) {
                    let w = choose|w: int| 0 <= w < sel.len() && sel[w] == x;
                    assert(sel[w].name != ds[0]);
                }
                lemma_insert_keeps_precedence(r, sel, d0, insert_position(r, d), x);
            }
        }
        if find_named(all, d, 0) >= 0 {
            assert forall|i: int| 0 <= i < sel.len() implies (#[trigger] sel[i]).name != d by {
                assert(sel[i].name != ds[0]);
            }
            lemma_include_one_precedes(r, all, sel, d);
        }
        assert forall|k: int| 0 <= k < ds.len() && find_named(all, #[trigger] ds[k], 0) >= 0
            implies precedes_dependents(include_all(r, all, ds), sel, ds[k]) by {
            if k > 0 {
                assert(rest[k - 1] == ds[k]);
            } else {
                assert(precedes_dependents(r1, sel, ds[0]));
            }
        }
    }
}

proof fn lemma_dedup_from(s: Seq<Seq<char>>)
    ensures
        forall|i: int| 0 <= i < dedup(s).len() ==> s.contains(#[trigger] dedup(s)[i]),
    decreases s.len(),
{
    if s.len() > 0 {
        let t = s.drop_last();
        lemma_dedup_from(t);
        assert forall|i: int| 0 <= i < dedup(s).len() implies s.contains(#[trigger] dedup(s)[i]) by {
            if i < dedup(t).len() {
                assert(dedup(s)[i] == dedup(t)[i]);
                let w = choose|w: int| 0 <= w < t.len() && t[w] == dedup(t)[i];
                assert(s[w] == t[w]);
            } else {
                assert(dedup(s)[i] == s.last());
                assert(s[s.len() - 1] == s.last());
            }
        }
    }
}

/// Including the missing dependencies puts each of them, when it names a
/// step, before every selected step that depends on it.
pub proof fn law_missing_dependencies_come_first(sel: Seq<StepView>, all: Seq<StepView>)
    ensures
        forall|k: int| 0 <= k < missing_deps(sel).len() && find_named(all, #[trigger] missing_deps(sel)[k], 0) >= 0
            ==> precedes_dependents(include_all(sel, all, missing_deps(sel)), sel, missing_deps(sel)[k]),
{
    let ds = missing_deps(sel);
    let names = view_names(sel);
    let pred = |d: Seq<char>| !names.contains(d);
    let f = all_deps(sel).filter(pred);
    lemma_dedup_from(f);
    assert forall|k: int, i: int| 0 <= k < ds.len() && 0 <= i < sel.len() implies (#[trigger] sel[i]).name != (#[trigger] ds[k]) by {
        assert(f.contains(ds[k]));
        let w = choose|w: int| 0 <= w < f.len() && f[w] == ds[k];
        all_deps(sel).lemma_filter_pred(pred, w);
        assert(!names.contains(f[w]));
        assert(names[i] == sel[i].name);
    }
    lemma_include_all_precedes(sel, all, sel, ds);
}

} // verus!
