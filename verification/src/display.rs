//! What the step listing shows: steps grouped by their `group`, groups in
//! order of first appearance, and the markers after a step's name.
use vstd::prelude::*;
use crate::config::{Step, StepView, step_views, opt_view, copy_opt};
use crate::graph::{join, push_joined};
use crate::text::{views, str_eq, string_from_chars, push_str};
use crate::runner::index_seq;

verus! {

/// The groups of `steps` in order of first appearance (`None` for steps
/// without a group).
pub open spec fn group_keys(steps: Seq<StepView>) -> Seq<Option<Seq<char>>>
    decreases steps.len(),
{
    if steps.len() == 0 {
        seq![]
    } else {
        let p = group_keys(steps.drop_last());
        if p.contains(steps.last().group) { p } else { p.push(steps.last().group) }
    }
}

/// The indices of the steps whose group is `k`, in order.
pub open spec fn members_with(steps: Seq<StepView>, k: Option<Seq<char>>) -> Seq<int>
    decreases steps.len(),
{
    if steps.len() == 0 {
        seq![]
    } else {
        let p = members_with(steps.drop_last(), k);
        if steps.last().group == k { p.push(steps.len() - 1) } else { p }
    }
}

proof fn lemma_group_keys(steps: Seq<StepView>)
    ensures
        group_keys(steps).no_duplicates(),
        forall|i: int| 0 <= i < steps.len() ==> group_keys(steps).contains(#[trigger] steps[i].group),
        forall|j: int| 0 <= j < group_keys(steps).len()
            ==> exists|i: int| 0 <= i < steps.len() && (#[trigger] steps[i]).group == #[trigger] group_keys(steps)[j],
    decreases steps.len(),
{
    if steps.len() > 0 {
        let t = steps.drop_last();
        lemma_group_keys(t);
        let p = group_keys(t);
        let k = group_keys(steps);
        assert forall|i: int| 0 <= i < steps.len() implies k.contains(#[trigger] steps[i].group) by {
            if i < t.len() {
                assert(t[i] == steps[i]);
                let w = choose|w: int| 0 <= w < p.len() && p[w] == t[i].group;
                assert(k[w] == p[w]);
            } else if !p.contains(steps.last().group) {
                assert(k[p.len() as int] == steps.last().group);
            }
        }
        assert forall|j: int| 0 <= j < k.len()
            implies exists|i: int| 0 <= i < steps.len() && (#[trigger] steps[i]).group == #[trigger] k[j] by {
            if j < p.len() {
                assert(k[j] == p[j]);
                let i = choose|i: int| 0 <= i < t.len() && (#[trigger] t[i]).group == p[j];
                assert(t[i] == steps[i]);
            } else {
                assert(steps[steps.len() - 1].group == k[j]);
            }
        }
    }
}

proof fn lemma_members_with(steps: Seq<StepView>, k: Option<Seq<char>>)
    ensures
        members_with(steps, k) == index_seq(steps.len() as int).filter(|i: int| steps[i].group == k),
    decreases steps.len(),
{
    reveal_with_fuel(Seq::filter, 1);
    if steps.len() > 0 {
        let t = steps.drop_last();
        lemma_members_with(t, k);
        let n = steps.len() as int;
        assert(index_seq(n).drop_last() =~= index_seq(n - 1));
        assert forall|i: int| 0 <= i < t.len() implies t[i] == steps[i] by {}
        let f1 = |i: int| t[i].group == k;
        let f2 = |i: int| steps[i].group == k;
        lemma_filter_same_on(index_seq(n - 1), f1, f2);
    }
}

proof fn lemma_filter_same_on(s: Seq<int>, f1: spec_fn(int) -> bool, f2: spec_fn(int) -> bool)
    requires
        forall|q: int| 0 <= q < s.len() ==> f1(#[trigger] s[q]) == f2(s[q]),
    ensures
        s.filter(f1) == s.filter(f2),
    decreases s.len(),
{
    reveal_with_fuel(Seq::filter, 1);
    if s.len() > 0 {
        let t = s.drop_last();
        assert forall|q: int| 0 <= q < t.len() implies f1(#[trigger] t[q]) == f2(t[q]) by {
            assert(t[q] == s[q]);
        }
        lemma_filter_same_on(t, f1, f2);
    }
}

/// The listing's groups: each group of a step appears once, and only groups
/// of steps appear; the members of a group are the indices of exactly the
/// steps of that group, in order.
pub proof fn law_step_groups(steps: Seq<StepView>, k: Option<Seq<char>>)
    ensures
        group_keys(steps).no_duplicates(),
        forall|i: int| 0 <= i < steps.len() ==> group_keys(steps).contains(#[trigger] steps[i].group),
        forall|j: int| 0 <= j < group_keys(steps).len()
            ==> exists|i: int| 0 <= i < steps.len() && (#[trigger] steps[i]).group == #[trigger] group_keys(steps)[j],
        members_with(steps, k) == index_seq(steps.len() as int).filter(|i: int| steps[i].group == k),
{
    lemma_group_keys(steps);
    lemma_members_with(steps, k);
}

/// Steps grouped for the listing: `groups[j]` and the indices of its steps,
/// `members[j]`.
#[derive(Debug)]
pub struct StepGroups {
    pub groups: Vec<Option<String>>,
    pub members: Vec<Vec<usize>>,
}

/// The views of a list of optional strings.
pub open spec fn opt_views(v: Seq<Option<String>>) -> Seq<Option<Seq<char>>> {
    v.map_values(|o: Option<String>| opt_view(o))
}

fn same_group(a: &Option<String>, b: &Option<String>) -> (r: bool)
    ensures
        r == (opt_view(*a) == opt_view(*b)),
{
    match (a, b) {
        (Some(x), Some(y)) => str_eq(x.as_str(), y.as_str()),
        (None, None) => true,
        _ => false,
    }
}

fn contains_group(v: &Vec<Option<String>>, g: &Option<String>) -> (r: bool)
    ensures
        r == opt_views(v@).contains(opt_view(*g)),
{
    let mut i: usize = 0;
    while i < v.len()
        invariant
            i <= v@.len(),
            forall|j: int| 0 <= j < i ==> opt_views(v@)[j] != opt_view(*g),
        decreases v@.len() - i,
    {
        if same_group(&v[i], g) {
            assert(opt_views(v@)[i as int] == opt_view(*g));
            return true;
        }
        i = i + 1;
    }
    false
}

/// The steps grouped as the listing shows them.
pub fn group_steps(steps: &Vec<Step>) -> (r: StepGroups)
    ensures
        opt_views(r.groups@) == group_keys(step_views(steps@)),
        r.members@.len() == r.groups@.len(),
        forall|j: int| 0 <= j < r.members@.len() ==> (#[trigger] r.members@[j])@.map_values(|x: usize| x as int)
            == members_with(step_views(steps@), group_keys(step_views(steps@))[j]),
{
    let ghost sv = step_views(steps@);
    // The groups, in order of first appearance.
    let mut groups: Vec<Option<String>> = Vec::new();
    let mut i: usize = 0;
    assert(sv.take(0) =~= Seq::<StepView>::empty());
    while i < steps.len()
        invariant
            sv == step_views(steps@),
            i <= steps@.len(),
            opt_views(groups@) == group_keys(sv.take(i as int)),
        decreases steps@.len() - i,
    {
        let ghost t = sv.take(i + 1);
        assert(t.drop_last() =~= sv.take(i as int));
        assert(t.last() == steps@[i as int]@);
        if !contains_group(&groups, &steps[i].group) {
            let ghost before = opt_views(groups@);
            let g = copy_opt(&steps[i].group);
            groups.push(g);
            assert(opt_views(groups@) =~= before.push(opt_view(g)));
        }
        i = i + 1;
    }
    assert(sv.take(i as int) =~= sv);
    let ghost keys = opt_views(groups@);
    // The members of each group.
    let mut members: Vec<Vec<usize>> = Vec::new();
    let mut j: usize = 0;
    while j < groups.len()
        invariant
            sv == step_views(steps@),
            keys == opt_views(groups@),
            keys == group_keys(sv),
            j <= groups@.len(),
            members@.len() == j,
            forall|q: int| 0 <= q < j ==> (#[trigger] members@[q])@.map_values(|x: usize| x as int)
                == members_with(sv, keys[q]),
        decreases groups@.len() - j,
    {
        let mut m: Vec<usize> = Vec::new();
        let mut k: usize = 0;
        assert(sv.take(0) =~= Seq::<StepView>::empty());
        assert(m@.map_values(|x: usize| x as int) =~= Seq::<int>::empty());
        while k < steps.len()
            invariant
                sv == step_views(steps@),
                keys == opt_views(groups@),
                j < groups@.len(),
                k <= steps@.len(),
                m@.map_values(|x: usize| x as int) == members_with(sv.take(k as int), keys[j as int]),
            decreases steps@.len() - k,
        {
            let ghost t = sv.take(k + 1);
            assert(t.drop_last() =~= sv.take(k as int));
            assert(t.last() == steps@[k as int]@);
            assert(keys[j as int] == opt_view(groups@[j as int]));
            let ghost before = m@.map_values(|x: usize| x as int);
            if same_group(&steps[k].group, &groups[j]) {
                m.push(k);
                assert(m@.map_values(|x: usize| x as int) =~= before.push(k as int));
            }
            k = k + 1;
        }
        assert(sv.take(k as int) =~= sv);
        members.push(m);
        j = j + 1;
    }
    StepGroups { groups, members }
}

/// The marker after a step that needs others: ` [needs: a, b]`, or nothing.
pub open spec fn needs_marker_text(deps: Seq<Seq<char>>) -> Seq<char> {
    if deps.len() == 0 {
        seq![]
    } else {
        " [needs: "@ + join(deps, ", "@) + "]"@
    }
}

/// The marker listing the step's dependencies.
pub fn needs_marker(step: &Step) -> (r: String)
    ensures
        r@ == needs_marker_text(step@.depends_on),
{
    let mut out: Vec<char> = Vec::new();
    if step.depends_on.len() > 0 {
        push_str(&mut out, " [needs: ");
        push_joined(&mut out, &step.depends_on, ", ");
        push_str(&mut out, "]");
    }
    string_from_chars(&out)
}

/// The marker after a step that asks for confirmation: ` [confirm]`, or nothing.
pub fn confirm_marker(step: &Step) -> (r: String)
    ensures
        r@ == if step.confirm { " [confirm]"@ } else { Seq::<char>::empty() },
{
    let mut out: Vec<char> = Vec::new();
    if step.confirm {
        push_str(&mut out, " [confirm]");
    }
    string_from_chars(&out)
}

} // verus!
