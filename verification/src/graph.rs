//! The dependency graph of `runsteps graph`: which steps to draw, cycle
//! detection and reporting, and the ASCII drawing in topological order.
use vstd::prelude::*;
use petgraph::graph::{DiGraph, NodeIndex};
use crate::config::{Config, Step, StepView, step_views};
use crate::picker::{in_group, all_deps, find_step_named};
use crate::text::{views, str_views, str_eq, contains_string, copy_string, chars_of, string_from_chars,
    push_str, push_chars};

verus! {

// ---------------------------------------------------------------------------
// The graph as plain values
// ---------------------------------------------------------------------------

/// Every edge has both ends among `n` nodes.
pub open spec fn edges_within(n: nat, edges: Seq<(usize, usize)>) -> bool {
    forall|i: int| 0 <= i < edges.len() ==> (#[trigger] edges[i]).0 < n && edges[i].1 < n
}

/// Bounds under which petgraph's default index type holds the graph.
pub open spec fn petgraph_bounds(n: usize, edges: Seq<(usize, usize)>) -> bool {
    &&& n < 0xffff_ffffusize
    &&& edges.len() < 0xffff_ffff
    &&& edges_within(n as nat, edges)
}

/// The successors of `v` in the order petgraph lists them: the most recently
/// added edge first.
pub open spec fn out_neighbors(edges: Seq<(usize, usize)>, v: usize) -> Seq<usize>
    decreases edges.len(),
{
    if edges.len() == 0 {
        seq![]
    } else if edges.last().0 == v {
        seq![edges.last().1] + out_neighbors(edges.drop_last(), v)
    } else {
        out_neighbors(edges.drop_last(), v)
    }
}

/// `order` lists each of the `n` nodes once, each before its successors.
pub open spec fn is_topological_order(n: nat, edges: Seq<(usize, usize)>, order: Seq<usize>) -> bool {
    &&& order.len() == n
    &&& forall|i: int| 0 <= i < order.len() ==> (#[trigger] order[i]) < n
    &&& order.no_duplicates()
    &&& forall|e: int| 0 <= e < edges.len() ==> exists|i: int, j: int|
        0 <= i < j < order.len() && order[i] == (#[trigger] edges[e]).0 && order[j] == edges[e].1
}

/// `p` is a walk along edges.
pub open spec fn is_walk(edges: Seq<(usize, usize)>, p: Seq<usize>) -> bool {
    forall|i: int| 0 <= i < p.len() - 1 ==> edges.contains((#[trigger] p[i], p[i + 1]))
}

/// Node `c` lies on a cycle.
pub open spec fn on_cycle(edges: Seq<(usize, usize)>, c: usize) -> bool {
    exists|p: Seq<usize>| p.len() >= 2 && p[0] == c && p.last() == c && #[trigger] is_walk(edges, p)
}

/// What `petgraph::algo::toposort` returns for the graph with nodes
/// `0..n` and the given edges, added in order.
pub uninterp spec fn toposort_result(n: usize, edges: Seq<(usize, usize)>) -> Result<Seq<usize>, usize>;

/// Calls `petgraph::algo::toposort` on a `DiGraph` with nodes `0..n` and the
/// edges in order. As its documentation says: on success every node comes
/// before its successors; otherwise the error names a node that lies on a
/// cycle (a self loop counts).
#[verifier::external_body]
fn petgraph_toposort(n: usize, edges: &Vec<(usize, usize)>) -> (r: Result<Vec<usize>, usize>)
    requires
        petgraph_bounds(n, edges@),
    ensures
        match r {
            Ok(o) => toposort_result(n, edges@) == Ok::<Seq<usize>, usize>(o@)
                && is_topological_order(n as nat, edges@, o@),
            Err(c) => toposort_result(n, edges@) == Err::<Seq<usize>, usize>(c) && c < n
                && on_cycle(edges@, c),
        },
{
    let mut g: DiGraph<(), ()> = DiGraph::with_capacity(n, edges.len());
    for _ in 0..n {
        g.add_node(());
    }
    for &(a, b) in edges.iter() {
        g.add_edge(NodeIndex::new(a), NodeIndex::new(b), ());
    }
    match petgraph::algo::toposort(&g, None) {
        Ok(v) => Ok(v.into_iter().map(|x| x.index()).collect()),
        Err(c) => Err(c.node_id().index()),
    }
}

/// Calls `Graph::neighbors` of petgraph on a `DiGraph` with nodes `0..n` and
/// the edges in order. As its source reads, outgoing edges form a list with
/// the newest edge at its head, so successors come newest edge first.
#[verifier::external_body]
fn petgraph_neighbors(n: usize, edges: &Vec<(usize, usize)>, v: usize) -> (r: Vec<usize>)
    requires
        petgraph_bounds(n, edges@),
        v < n,
    ensures
        r@ == out_neighbors(edges@, v),
{
    let mut g: DiGraph<(), ()> = DiGraph::with_capacity(n, edges.len());
    for _ in 0..n {
        g.add_node(());
    }
    for &(a, b) in edges.iter() {
        g.add_edge(NodeIndex::new(a), NodeIndex::new(b), ());
    }
    g.neighbors(NodeIndex::new(v)).map(|x| x.index()).collect()
}

proof fn lemma_out_neighbors_within(edges: Seq<(usize, usize)>, n: nat, v: usize)
    requires
        edges_within(n, edges),
    ensures
        forall|i: int| 0 <= i < out_neighbors(edges, v).len() ==> (#[trigger] out_neighbors(edges, v)[i]) < n,
    decreases edges.len(),
{
    if edges.len() > 0 {
        let t = edges.drop_last();
        assert forall|i: int| 0 <= i < t.len() implies (#[trigger] t[i]).0 < n && t[i].1 < n by {
            assert(t[i] == edges[i]);
        }
        lemma_out_neighbors_within(t, n, v);
        assert(edges.last() == edges[edges.len() - 1]);
        let r = out_neighbors(t, v);
        assert forall|i: int| 0 <= i < out_neighbors(edges, v).len() implies (#[trigger] out_neighbors(edges, v)[i]) < n by {
            if edges.last().0 == v {
                if i > 0 {
                    assert(out_neighbors(edges, v)[i] == r[i - 1]);
                }
            }
        }
    }
}

// ---------------------------------------------------------------------------
// Edges of a step list
// ---------------------------------------------------------------------------

/// Index of the last step named `d`, or -1 (a later step of the same name
/// shadows an earlier one).
pub open spec fn last_named(steps: Seq<StepView>, d: Seq<char>) -> int
    decreases steps.len(),
{
    if steps.len() == 0 {
        -1
    } else if steps.last().name == d {
        steps.len() - 1
    } else {
        last_named(steps.drop_last(), d)
    }
}

pub proof fn lemma_last_named(steps: Seq<StepView>, d: Seq<char>)
    ensures
        -1 <= last_named(steps, d) < steps.len(),
        last_named(steps, d) >= 0 ==> steps[last_named(steps, d)].name == d
            && forall|k: int| last_named(steps, d) < k < steps.len() ==> steps[k].name != d,
        last_named(steps, d) == -1 ==> forall|k: int| 0 <= k < steps.len() ==> steps[k].name != d,
    decreases steps.len(),
{
    if steps.len() > 0 && steps.last().name != d {
        let t = steps.drop_last();
        lemma_last_named(t, d);
        assert forall|k: int| 0 <= k < t.len() implies t[k] == steps[k] by {}
        if last_named(steps, d) >= 0 {
            assert forall|k: int| last_named(steps, d) < k < steps.len() implies steps[k].name != d by {
                if k < t.len() {
                    assert(t[k] == steps[k]);
                }
            }
        } else {
            assert forall|k: int| 0 <= k < steps.len() implies steps[k].name != d by {
                if k < t.len() {
                    assert(t[k] == steps[k]);
                }
            }
        }
    }
}

/// The edges `dependency -> step` contributed by the dependencies `deps` of step `i`.
pub open spec fn dep_edges(steps: Seq<StepView>, i: int, deps: Seq<Seq<char>>) -> Seq<(usize, usize)>
    decreases deps.len(),
{
    if deps.len() == 0 {
        seq![]
    } else if last_named(steps, deps.last()) >= 0 {
        dep_edges(steps, i, deps.drop_last()).push((last_named(steps, deps.last()) as usize, i as usize))
    } else {
        dep_edges(steps, i, deps.drop_last())
    }
}

/// The edges of the first `k` steps, in step order then dependency order.
pub open spec fn edges_upto(steps: Seq<StepView>, k: int) -> Seq<(usize, usize)>
    decreases k,
{
    if k <= 0 {
        seq![]
    } else {
        edges_upto(steps, k - 1) + dep_edges(steps, k - 1, steps[k - 1].depends_on)
    }
}

/// The edges of a step list: from each named dependency to the step.
pub open spec fn graph_edges(steps: Seq<StepView>) -> Seq<(usize, usize)> {
    edges_upto(steps, steps.len() as int)
}

/// Index of the last step named `d`.
pub fn last_named_exec(steps: &Vec<Step>, d: &str) -> (r: Option<usize>)
    ensures
        match r {
            Some(j) => j as int == last_named(step_views(steps@), d@),
            None => last_named(step_views(steps@), d@) == -1,
        },
{
    let ghost sv = step_views(steps@);
    let mut j: usize = steps.len();
    proof {
        lemma_take_all(sv);
    }
    while j > 0
        invariant
            sv == step_views(steps@),
            j <= steps@.len(),
            last_named(sv, d@) == last_named(sv.take(j as int), d@),
        decreases j,
    {
        let ghost t = sv.take(j as int);
        assert(t.drop_last() =~= sv.take(j - 1));
        if str_eq(steps[j - 1].name.as_str(), d) {
            return Some(j - 1);
        }
        j = j - 1;
    }
    assert(sv.take(0) =~= Seq::<StepView>::empty());
    None
}

proof fn lemma_take_all<A>(s: Seq<A>)
    ensures
        s.take(s.len() as int) == s,
{
    assert(s.take(s.len() as int) =~= s);
}

/// The edges of the graph over `steps`.
pub fn build_edges(steps: &Vec<Step>) -> (r: Vec<(usize, usize)>)
    ensures
        r@ == graph_edges(step_views(steps@)),
        edges_within(steps@.len() as nat, r@),
        r@.len() <= all_deps(step_views(steps@)).len(),
{
    let ghost sv = step_views(steps@);
    let mut r: Vec<(usize, usize)> = Vec::new();
    let mut i: usize = 0;
    proof {
        lemma_take_all(sv);
        assert(sv.take(0) =~= Seq::<StepView>::empty());
    }
    while i < steps.len()
        invariant
            sv == step_views(steps@),
            i <= steps@.len(),
            r@ == edges_upto(sv, i as int),
            edges_within(steps@.len() as nat, r@),
            r@.len() <= all_deps(sv.take(i as int)).len(),
        decreases steps@.len() - i,
    {
        let deps = &steps[i].depends_on;
        let ghost dv = views(deps@);
        assert(sv[i as int].depends_on == dv);
        let ghost base = r@;
        let mut k: usize = 0;
        assert(dv.take(0) =~= Seq::<Seq<char>>::empty());
        while k < deps.len()
            invariant
                sv == step_views(steps@),
                dv == views(deps@),
                i < steps@.len(),
                k <= deps@.len(),
                r@ == base + dep_edges(sv, i as int, dv.take(k as int)),
                edges_within(steps@.len() as nat, r@),
                r@.len() <= base.len() + k,
            decreases deps@.len() - k,
        {
            let ghost t = dv.take(k + 1);
            assert(t.drop_last() =~= dv.take(k as int));
            assert(t.last() == deps@[k as int]@);
            proof {
                lemma_last_named(sv, deps@[k as int]@);
            }
            match last_named_exec(steps, deps[k].as_str()) {
                Some(j) => {
                    r.push((j, i));
                    assert(r@ =~= base + dep_edges(sv, i as int, t));
                },
                None => {},
            }
            k = k + 1;
        }
        proof {
            lemma_take_all(dv);
            let t = sv.take(i + 1);
            assert(t.drop_last() =~= sv.take(i as int));
            assert(all_deps(t) == all_deps(sv.take(i as int)) + dv);
            assert(edges_upto(sv, i + 1) == edges_upto(sv, i as int) + dep_edges(sv, i as int, dv));
        }
        i = i + 1;
    }
    proof {
        lemma_take_all(sv);
    }
    r
}

// ---------------------------------------------------------------------------
// Tracing a cycle
// ---------------------------------------------------------------------------

/// Number of nodes not yet visited.
pub open spec fn unvisited(v: Seq<bool>) -> nat
    decreases v.len(),
{
    if v.len() == 0 {
        0
    } else {
        unvisited(v.drop_last()) + (if v.last() { 0nat } else { 1nat })
    }
}

/// Every node visited in `a` is visited in `b`.
pub open spec fn visits_grow(a: Seq<bool>, b: Seq<bool>) -> bool {
    a.len() == b.len() && forall|i: int| 0 <= i < a.len() && #[trigger] a[i] ==> b[i]
}

proof fn lemma_unvisited_mark(v: Seq<bool>, i: int)
    requires
        0 <= i < v.len(),
        !v[i],
    ensures
        unvisited(v.update(i, true)) + 1 == unvisited(v),
    decreases v.len(),
{
    let u = v.update(i, true);
    if i == v.len() - 1 {
        assert(u.drop_last() =~= v.drop_last());
    } else {
        assert(u.drop_last() =~= v.drop_last().update(i, true));
        lemma_unvisited_mark(v.drop_last(), i);
    }
}

proof fn lemma_unvisited_grow(a: Seq<bool>, b: Seq<bool>)
    requires
        visits_grow(a, b),
    ensures
        unvisited(b) <= unvisited(a),
    decreases a.len(),
{
    if a.len() > 0 {
        assert(visits_grow(a.drop_last(), b.drop_last()));
        lemma_unvisited_grow(a.drop_last(), b.drop_last());
    }
}

proof fn lemma_unvisited_pos(v: Seq<bool>, i: int)
    requires
        0 <= i < v.len(),
        !v[i],
    ensures
        unvisited(v) >= 1,
{
    lemma_unvisited_mark(v, i);
}

/// The depth-first search that traces a cycle through `start`: the node is
/// pushed on the path and marked, then its successors are tried in
/// neighbour order; a successor equal to `start` (away from the start
/// itself) closes the cycle; an unvisited one is searched in turn. A search
/// that fails pops its node. The result is (found, path, visited).
pub open spec fn trace_from(
    fuel: nat,
    edges: Seq<(usize, usize)>,
    start: usize,
    cur: usize,
    path: Seq<usize>,
    visited: Seq<bool>,
) -> (bool, Seq<usize>, Seq<bool>)
    decreases fuel, 0nat, 0nat,
{
    if fuel == 0 {
        (false, path, visited)
    } else {
        let r = trace_neighbors(
            (fuel - 1) as nat,
            edges,
            start,
            out_neighbors(edges, cur),
            path.push(cur),
            visited.update(cur as int, true),
        );
        if r.0 {
            r
        } else {
            (false, r.1.drop_last(), r.2)
        }
    }
}

/// The search over the successors `nbrs` of the node on top of the path.
pub open spec fn trace_neighbors(
    fuel: nat,
    edges: Seq<(usize, usize)>,
    start: usize,
    nbrs: Seq<usize>,
    path: Seq<usize>,
    visited: Seq<bool>,
) -> (bool, Seq<usize>, Seq<bool>)
    decreases fuel, 1nat, nbrs.len(),
{
    if nbrs.len() == 0 {
        (false, path, visited)
    } else if nbrs[0] == start && path.len() > 1 {
        (true, path.push(start), visited)
    } else if 0 <= nbrs[0] < visited.len() && !visited[nbrs[0] as int] {
        let r = trace_from(fuel, edges, start, nbrs[0], path, visited);
        if r.0 {
            r
        } else {
            trace_neighbors(fuel, edges, start, nbrs.skip(1), r.1, r.2)
        }
    } else {
        trace_neighbors(fuel, edges, start, nbrs.skip(1), path, visited)
    }
}

/// The search from `cur` (unvisited), with the graph and fuel as ghost context.
fn trace_exec(
    n: usize,
    edges: &Vec<(usize, usize)>,
    start: usize,
    cur: usize,
    path: &mut Vec<usize>,
    visited: &mut Vec<bool>,
    Ghost(fuel): Ghost<nat>,
) -> (found: bool)
    requires
        petgraph_bounds(n, edges@),
        start < n,
        cur < n,
        old(visited)@.len() == n,
        !old(visited)@[cur as int],
        fuel >= unvisited(old(visited)@),
        forall|k: int| 0 <= k < old(path)@.len() ==> (#[trigger] old(path)@[k]) < n,
    ensures
        (found, final(path)@, final(visited)@) == trace_from(fuel, edges@, start, cur, old(path)@, old(visited)@),
        forall|k: int| 0 <= k < final(path)@.len() ==> (#[trigger] final(path)@[k]) < n,
        visits_grow(old(visited)@, final(visited)@),
        !found ==> final(path)@ == old(path)@,
    decreases fuel, 0nat,
{
    proof {
        lemma_unvisited_pos(visited@, cur as int);
        lemma_unvisited_mark(visited@, cur as int);
    }
    let ghost path0 = path@;
    let ghost vis0 = visited@;
    path.push(cur);
    visited.set(cur, true);
    let nbrs = petgraph_neighbors(n, edges, cur);
    proof {
        lemma_out_neighbors_within(edges@, n as nat, cur);
    }
    let ghost f1 = (fuel - 1) as nat;
    let ghost p1 = path@;
    let ghost v1 = visited@;
    let mut i: usize = 0;
    assert(nbrs@.skip(0) =~= nbrs@);
    while i < nbrs.len()
        invariant
            petgraph_bounds(n, edges@),
            start < n,
            nbrs@ == out_neighbors(edges@, cur),
            forall|k: int| 0 <= k < nbrs@.len() ==> (#[trigger] nbrs@[k]) < n,
            i <= nbrs@.len(),
            visited@.len() == n,
            visits_grow(vis0, visited@),
            visits_grow(v1, visited@),
            f1 >= unvisited(visited@),
            path@ == p1,
            p1 == path0.push(cur),
            forall|k: int| 0 <= k < p1.len() ==> (#[trigger] p1[k]) < n,
            path0 == old(path)@,
            vis0 == old(visited)@,
            fuel > 0,
            f1 == fuel - 1,
            v1 == vis0.update(cur as int, true),
            cur < n,
            trace_neighbors(f1, edges@, start, out_neighbors(edges@, cur), p1, v1)
                == trace_neighbors(f1, edges@, start, nbrs@.skip(i as int), path@, visited@),
        decreases nbrs@.len() - i,
    {
        let nb: usize = nbrs[i];
        let ghost rest = nbrs@.skip(i as int);
        assert(rest[0] == nb);
        assert(rest.skip(1) =~= nbrs@.skip(i + 1));
        if nb == start && path.len() > 1 {
            path.push(start);
            return true;
        }
        if !visited[nb] {
            let ghost vb = visited@;
            let found = trace_exec(n, edges, start, nb, path, visited, Ghost(f1));
            proof {
                lemma_unvisited_grow(vb, visited@);
            }
            if found {
                return true;
            }
        }
        i = i + 1;
    }
    proof {
        assert(nbrs@.skip(nbrs@.len() as int) =~= Seq::<usize>::empty());
    }
    path.pop();
    proof {
        assert(path@ =~= path0);
    }
    false
}

/// The cycle traced from `start`, if the search finds one.
pub open spec fn traced_cycle(n: nat, edges: Seq<(usize, usize)>, start: usize) -> (bool, Seq<usize>) {
    let r = trace_from(n, edges, start, start, seq![], Seq::new(n, |i: int| false));
    (r.0, r.1)
}

proof fn lemma_unvisited_none(n: nat)
    ensures
        unvisited(Seq::new(n, |i: int| false)) == n,
    decreases n,
{
    if n > 0 {
        let s = Seq::new(n, |i: int| false);
        assert(s.drop_last() =~= Seq::new((n - 1) as nat, |i: int| false));
        lemma_unvisited_none((n - 1) as nat);
    }
}

/// Traces a cycle through `start` by depth-first search.
fn trace_cycle(n: usize, edges: &Vec<(usize, usize)>, start: usize) -> (r: (bool, Vec<usize>))
    requires
        petgraph_bounds(n, edges@),
        start < n,
    ensures
        (r.0, r.1@) == traced_cycle(n as nat, edges@, start),
        forall|k: int| 0 <= k < r.1@.len() ==> (#[trigger] r.1@[k]) < n,
{
    let mut visited: Vec<bool> = Vec::new();
    let mut i: usize = 0;
    while i < n
        invariant
            i <= n,
            visited@ == Seq::new(i as nat, |k: int| false),
        decreases n - i,
    {
        visited.push(false);
        i = i + 1;
        assert(visited@ =~= Seq::new(i as nat, |k: int| false));
    }
    proof {
        lemma_unvisited_none(n as nat);
    }
    let mut path: Vec<usize> = Vec::new();
    let found = trace_exec(n, edges, start, start, &mut path, &mut visited, Ghost(n as nat));
    (found, path)
}

/// `list` joined with `sep` between elements.
pub open spec fn join(list: Seq<Seq<char>>, sep: Seq<char>) -> Seq<char>
    decreases list.len(),
{
    if list.len() == 0 {
        seq![]
    } else if list.len() == 1 {
        list[0]
    } else {
        join(list.drop_last(), sep) + sep + list.last()
    }
}

/// Appends `items` joined with `sep`.
pub fn push_joined(out: &mut Vec<char>, items: &Vec<String>, sep: &str)
    ensures
        final(out)@ == old(out)@ + join(views(items@), sep@),
{
    let ghost iv = views(items@);
    let ghost start = out@;
    let mut i: usize = 0;
    assert(iv.take(0) =~= Seq::<Seq<char>>::empty());
    while i < items.len()
        invariant
            iv == views(items@),
            i <= items@.len(),
            out@ == start + join(iv.take(i as int), sep@),
        decreases items@.len() - i,
    {
        let ghost t = iv.take(i + 1);
        assert(t.drop_last() =~= iv.take(i as int));
        assert(t.last() == items@[i as int]@);
        if i > 0 {
            push_str(out, sep);
        }
        push_str(out, items[i].as_str());
        proof {
            if i == 0 {
                assert(t.len() == 1);
                assert(join(iv.take(0), sep@) =~= Seq::<char>::empty());
            }
            assert(out@ =~= start + join(t, sep@));
        }
        i = i + 1;
    }
    assert(iv.take(i as int) =~= iv);
}

/// Appends `items` joined with `sep`.
pub fn push_joined_strs(out: &mut Vec<char>, items: &Vec<&str>, sep: &str)
    ensures
        final(out)@ == old(out)@ + join(str_views(items@), sep@),
{
    let ghost iv = str_views(items@);
    let ghost start = out@;
    let mut i: usize = 0;
    assert(iv.take(0) =~= Seq::<Seq<char>>::empty());
    while i < items.len()
        invariant
            iv == str_views(items@),
            i <= items@.len(),
            out@ == start + join(iv.take(i as int), sep@),
        decreases items@.len() - i,
    {
        let ghost t = iv.take(i + 1);
        assert(t.drop_last() =~= iv.take(i as int));
        assert(t.last() == items@[i as int]@);
        if i > 0 {
            push_str(out, sep);
        }
        push_str(out, items[i]);
        proof {
            if i == 0 {
                assert(t.len() == 1);
                assert(join(iv.take(0), sep@) =~= Seq::<char>::empty());
            }
            assert(out@ =~= start + join(t, sep@));
        }
        i = i + 1;
    }
    assert(iv.take(i as int) =~= iv);
}

/// The names along a path of step indices.
pub open spec fn path_names(steps: Seq<StepView>, path: Seq<usize>) -> Seq<Seq<char>> {
    path.map_values(|i: usize| steps[i as int].name)
}

/// How a cycle through `start` is reported: the traced cycle's names joined
/// by ` → `, or the name of `start` when the search finds none.
pub open spec fn cycle_text(steps: Seq<StepView>, edges: Seq<(usize, usize)>, start: usize) -> Seq<char> {
    let t = traced_cycle(steps.len(), edges, start);
    if t.0 {
        join(path_names(steps, t.1), " → "@)
    } else {
        steps[start as int].name
    }
}

/// Describes a cycle through node `start` of the graph over `steps`.
pub fn format_cycle(steps: &Vec<Step>, edges: &Vec<(usize, usize)>, start: usize) -> (r: String)
    requires
        petgraph_bounds(steps@.len() as usize, edges@),
        start < steps@.len(),
    ensures
        r@ == cycle_text(step_views(steps@), edges@, start),
{
    let (found, path) = trace_cycle(steps.len(), edges, start);
    if found {
        let mut names: Vec<String> = Vec::new();
        let mut i: usize = 0;
        while i < path.len()
            invariant
                i <= path@.len(),
                forall|k: int| 0 <= k < path@.len() ==> (#[trigger] path@[k]) < steps@.len(),
                views(names@) == path_names(step_views(steps@), path@).take(i as int),
            decreases path@.len() - i,
        {
            let ghost before = views(names@);
            let nm = copy_string(&steps[path[i]].name);
            names.push(nm);
            assert(views(names@) =~= before.push(nm@));
            i = i + 1;
            assert(views(names@) =~= path_names(step_views(steps@), path@).take(i as int));
        }
        assert(path_names(step_views(steps@), path@).take(i as int) =~= path_names(step_views(steps@), path@));
        let mut out: Vec<char> = Vec::new();
        push_joined(&mut out, &names, " → ");
        assert(out@ =~= join(views(names@), " → "@));
        string_from_chars(&out)
    } else {
        copy_string(&steps[start].name)
    }
}

// ---------------------------------------------------------------------------
// The steps drawn for a group
// ---------------------------------------------------------------------------

/// The step named `a` (the last of that name) depends on `b`.
pub open spec fn expands_to(steps: Seq<StepView>, a: Seq<char>, b: Seq<char>) -> bool {
    last_named(steps, a) >= 0 && steps[last_named(steps, a)].depends_on.contains(b)
}

/// `c` is a chain of names, each a dependency of the one before.
pub open spec fn is_dep_chain(steps: Seq<StepView>, c: Seq<Seq<char>>) -> bool {
    c.len() >= 1 && forall|i: int| 0 <= i < c.len() - 1 ==> expands_to(steps, #[trigger] c[i], c[i + 1])
}

/// Some step of group `g` is named `x`.
pub open spec fn group_has_name(steps: Seq<StepView>, g: Seq<char>, x: Seq<char>) -> bool {
    exists|i: int| 0 <= i < steps.len() && in_group(#[trigger] steps[i], g) && steps[i].name == x
}

/// `x` is the name of a step of group `g` or a transitive dependency of one.
pub open spec fn in_closure(steps: Seq<StepView>, g: Seq<char>, x: Seq<char>) -> bool {
    exists|c: Seq<Seq<char>>| #[trigger] is_dep_chain(steps, c) && group_has_name(steps, g, c[0]) && c.last() == x
}

/// The steps among `prefix` whose names are in the closure of group `g` over `all`.
pub open spec fn closure_members(prefix: Seq<StepView>, all: Seq<StepView>, g: Seq<char>) -> Seq<StepView>
    decreases prefix.len(),
{
    if prefix.len() == 0 {
        seq![]
    } else if in_closure(all, g, prefix.last().name) {
        closure_members(prefix.drop_last(), all, g).push(prefix.last())
    } else {
        closure_members(prefix.drop_last(), all, g)
    }
}

/// Every name in the list: step names of the group, then all dependencies.
pub open spec fn name_universe(steps: Seq<StepView>) -> Seq<Seq<char>> {
    steps.map_values(|s: StepView| s.name) + all_deps(steps)
}

proof fn lemma_all_deps_contains(steps: Seq<StepView>, j: int, k: int)
    requires
        0 <= j < steps.len(),
        0 <= k < steps[j].depends_on.len(),
    ensures
        all_deps(steps).contains(steps[j].depends_on[k]),
    decreases steps.len(),
{
    let d = steps[j].depends_on[k];
    if j == steps.len() - 1 {
        let a = all_deps(steps.drop_last());
        assert(all_deps(steps)[a.len() + k] == d);
    } else {
        let t = steps.drop_last();
        assert(t[j] == steps[j]);
        lemma_all_deps_contains(t, j, k);
        let w = choose|w: int| 0 <= w < all_deps(t).len() && all_deps(t)[w] == d;
        assert(all_deps(steps)[w] == d);
    }
}

proof fn lemma_nodup_bound(s: Seq<Seq<char>>, u: Seq<Seq<char>>)
    requires
        s.no_duplicates(),
        forall|i: int| 0 <= i < s.len() ==> u.contains(#[trigger] s[i]),
    ensures
        s.len() <= u.len(),
{
    broadcast use vstd::seq_lib::group_seq_properties;
    broadcast use vstd::set::group_set_axioms;
    s.unique_seq_to_set();
    u.lemma_cardinality_of_set();
    assert forall|x: Seq<char>| s.to_set().contains(x) implies u.to_set().contains(x) by {
        let i = choose|i: int| 0 <= i < s.len() && s[i] == x;
        assert(u.contains(s[i]));
    }
    vstd::set_lib::lemma_len_subset(s.to_set(), u.to_set());
}

/// Every chain from a member of the closure-closed set stays in it.
proof fn lemma_chain_in_closed(steps: Seq<StepView>, inc: Seq<Seq<char>>, c: Seq<Seq<char>>, k: int)
    requires
        is_dep_chain(steps, c),
        inc.contains(c[0]),
        0 <= k < c.len(),
        forall|x: Seq<char>, d: Seq<char>| inc.contains(x) && #[trigger] expands_to(steps, x, d) ==> inc.contains(d),
    ensures
        inc.contains(c[k]),
    decreases k,
{
    if k > 0 {
        lemma_chain_in_closed(steps, inc, c, k - 1);
        assert(expands_to(steps, c[k - 1], c[k]));
    }
}

proof fn lemma_closure_filter(prefix: Seq<StepView>, all: Seq<StepView>, g: Seq<char>)
    ensures
        closure_members(prefix, all, g) == prefix.filter(|s: StepView| in_closure(all, g, s.name)),
    decreases prefix.len(),
{
    reveal_with_fuel(Seq::filter, 1);
    if prefix.len() > 0 {
        lemma_closure_filter(prefix.drop_last(), all, g);
    }
}

/// The steps drawn for a group are the config's steps, in order, whose names
/// are in the group's closure; every step of the group is in it, and the
/// closure holds every dependency of each of its names.
pub proof fn law_group_closure(steps: Seq<StepView>, g: Seq<char>)
    ensures
        closure_members(steps, steps, g) == steps.filter(|s: StepView| in_closure(steps, g, s.name)),
        forall|i: int| 0 <= i < steps.len() && (#[trigger] steps[i]).group == Some(g) ==> in_closure(steps, g, steps[i].name),
        forall|x: Seq<char>, d: Seq<char>| in_closure(steps, g, x) && #[trigger] expands_to(steps, x, d)
            ==> #[trigger] in_closure(steps, g, d),
{
    lemma_closure_filter(steps, steps, g);
    assert forall|i: int| 0 <= i < steps.len() && (#[trigger] steps[i]).group == Some(g)
        implies in_closure(steps, g, steps[i].name) by {
        let c = seq![steps[i].name];
        assert(in_group(steps[i], g));
        assert(group_has_name(steps, g, c[0]));
        assert(is_dep_chain(steps, c));
    }
    assert forall|x: Seq<char>, d: Seq<char>| in_closure(steps, g, x) && #[trigger] expands_to(steps, x, d)
        implies #[trigger] in_closure(steps, g, d) by {
        let c = choose|c: Seq<Seq<char>>| #[trigger] is_dep_chain(steps, c) && group_has_name(steps, g, c[0]) && c.last() == x;
        let c2 = c.push(d);
        assert forall|i: int| 0 <= i < c2.len() - 1 implies expands_to(steps, #[trigger] c2[i], c2[i + 1]) by {
            if i < c.len() - 1 {
                assert(c2[i] == c[i] && c2[i + 1] == c[i + 1]);
                assert(expands_to(steps, c[i], c[i + 1]));
            } else {
                assert(c2[i] == x);
            }
        }
        assert(is_dep_chain(steps, c2));
        assert(c2[0] == c[0]);
    }
}

fn group_of_eq(step: &Step, g: &str) -> (r: bool)
    ensures
        r == in_group(step@, g@),
{
    match &step.group {
        Some(x) => str_eq(x.as_str(), g),
        None => false,
    }
}

/// The steps of group `group` and, transitively, the steps they depend on,
/// in config order.
pub fn select_group_closure(steps: &Vec<Step>, group: &str) -> (r: Vec<Step>)
    ensures
        step_views(r@) == closure_members(step_views(steps@), step_views(steps@), group@),
{
    let ghost sv = step_views(steps@);
    let ghost g = group@;
    let ghost u = name_universe(sv);
    let mut included: Vec<String> = Vec::new();
    // Start from the names of the group's steps.
    let mut i: usize = 0;
    while i < steps.len()
        invariant
            sv == step_views(steps@),
            g == group@,
            u == name_universe(sv),
            i <= steps@.len(),
            views(included@).no_duplicates(),
            forall|k: int| 0 <= k < included@.len() ==> in_closure(sv, g, #[trigger] views(included@)[k]),
            forall|k: int| 0 <= k < included@.len() ==> u.contains(#[trigger] views(included@)[k]),
            forall|k: int| 0 <= k < i && in_group(sv[k], g) ==> views(included@).contains(#[trigger] sv[k].name),
        decreases steps@.len() - i,
    {
        let ghost before = views(included@);
        assert(sv[i as int] == steps@[i as int]@);
        let ing = group_of_eq(&steps[i], group);
        let already = contains_string(&included, steps[i].name.as_str());
        if ing && !already {
            let nm = copy_string(&steps[i].name);
            included.push(nm);
            proof {
                assert(views(included@) =~= before.push(nm@));
                assert(in_group(sv[i as int], g) && sv[i as int].name == nm@);
                let c = seq![nm@];
                assert(is_dep_chain(sv, c));
                assert(group_has_name(sv, g, c[0]));
                assert(in_closure(sv, g, nm@));
                assert(u[i as int] == nm@);
            }
        }
        proof {
            assert forall|k: int| 0 <= k < i + 1 && in_group(sv[k], g) implies views(included@).contains(#[trigger] sv[k].name) by {
                if k < i || already {
                    assert(before.contains(sv[k].name));
                    let w = choose|w: int| 0 <= w < before.len() && before[w] == sv[k].name;
                    assert(views(included@)[w] == sv[k].name);
                } else {
                    assert(views(included@)[before.len() as int] == sv[k].name);
                }
            }
        }
        i = i + 1;
    }
    // Close the set under dependencies: each name is expanded once, and names
    // it adds are expanded later in the same pass.
    let mut w: usize = 0;
    while w < included.len()
        invariant
            sv == step_views(steps@),
            g == group@,
            u == name_universe(sv),
            w <= included@.len(),
            views(included@).no_duplicates(),
            forall|k: int| 0 <= k < included@.len() ==> in_closure(sv, g, #[trigger] views(included@)[k]),
            forall|k: int| 0 <= k < included@.len() ==> u.contains(#[trigger] views(included@)[k]),
            forall|k: int| 0 <= k < steps@.len() && in_group(sv[k], g) ==> views(included@).contains(#[trigger] sv[k].name),
            forall|k: int, d: Seq<char>| 0 <= k < w && #[trigger] expands_to(sv, views(included@)[k], d)
                ==> views(included@).contains(d),
        decreases u.len() - w,
    {
        proof {
            lemma_nodup_bound(views(included@), u);
        }
        let x = copy_string(&included[w]);
        assert(x@ == views(included@)[w as int]);
        proof {
            lemma_last_named(sv, x@);
        }
        match last_named_exec(steps, x.as_str()) {
            None => {},
            Some(j) => {
                let deps = &steps[j].depends_on;
                assert(sv[j as int].depends_on == views(deps@));
                let mut k: usize = 0;
                while k < deps.len()
                    invariant
                        sv == step_views(steps@),
                        u == name_universe(sv),
                        j < steps@.len(),
                        j as int == last_named(sv, x@),
                        sv[j as int].depends_on == views(deps@),
                        x@ == views(included@)[w as int],
                        w < included@.len(),
                        k <= deps@.len(),
                        views(included@).no_duplicates(),
                        in_closure(sv, g, x@),
                        forall|q: int| 0 <= q < included@.len() ==> in_closure(sv, g, #[trigger] views(included@)[q]),
                        forall|q: int| 0 <= q < included@.len() ==> u.contains(#[trigger] views(included@)[q]),
                        forall|q: int| 0 <= q < steps@.len() && in_group(sv[q], g) ==> views(included@).contains(#[trigger] sv[q].name),
                        forall|q: int, d: Seq<char>| 0 <= q < w && #[trigger] expands_to(sv, views(included@)[q], d)
                            ==> views(included@).contains(d),
                        forall|q: int| 0 <= q < k ==> views(included@).contains(#[trigger] views(deps@)[q]),
                    decreases deps@.len() - k,
                {
                    let d = &deps[k];
                    assert(views(deps@)[k as int] == d@);
                    let ghost before = views(included@);
                    if !contains_string(&included, d.as_str()) {
                        let dc = copy_string(d);
                        included.push(dc);
                        proof {
                            assert(views(included@) =~= before.push(dc@));
                            // d is in the closure: extend x's chain by d.
                            let c = choose|c: Seq<Seq<char>>| #[trigger] is_dep_chain(sv, c) && group_has_name(sv, g, c[0]) && c.last() == x@;
                            let c2 = c.push(dc@);
                            assert(expands_to(sv, x@, dc@));
                            assert forall|t: int| 0 <= t < c2.len() - 1 implies expands_to(sv, #[trigger] c2[t], c2[t + 1]) by {
                                if t < c.len() - 1 {
                                    assert(c2[t] == c[t] && c2[t + 1] == c[t + 1]);
                                } else {
                                    assert(c2[t] == x@);
                                }
                            }
                            assert(is_dep_chain(sv, c2));
                            assert(in_closure(sv, g, dc@));
                            lemma_all_deps_contains(sv, j as int, k as int);
                            let a = all_deps(sv);
                            let nm = sv.map_values(|s: StepView| s.name);
                            let wd = choose|wd: int| 0 <= wd < a.len() && a[wd] == dc@;
                            assert(u[nm.len() + wd] == dc@);
                        }
                    }
                    proof {
                        assert forall|q: int| 0 <= q < included@.len() implies in_closure(sv, g, #[trigger] views(included@)[q]) by {
                            if q < before.len() {
                                assert(views(included@)[q] == before[q]);
                            }
                        }
                        assert forall|q: int| 0 <= q < included@.len() implies u.contains(#[trigger] views(included@)[q]) by {
                            if q < before.len() {
                                assert(views(included@)[q] == before[q]);
                            }
                        }
                        assert forall|q: int| 0 <= q < steps@.len() && in_group(sv[q], g) implies views(included@).contains(#[trigger] sv[q].name) by {
                            assert(before.contains(sv[q].name));
                            let z = choose|z: int| 0 <= z < before.len() && before[z] == sv[q].name;
                            assert(views(included@)[z] == sv[q].name);
                        }
                        assert forall|q: int, e: Seq<char>| 0 <= q < w && #[trigger] expands_to(sv, views(included@)[q], e)
                            implies views(included@).contains(e) by {
                            assert(views(included@)[q] == before[q]);
                            assert(before.contains(e));
                            let z = choose|z: int| 0 <= z < before.len() && before[z] == e;
                            assert(views(included@)[z] == e);
                        }
                        assert forall|q: int| 0 <= q < k + 1 implies views(included@).contains(#[trigger] views(deps@)[q]) by {
                            if q < k {
                                assert(before.contains(views(deps@)[q]));
                                let z = choose|z: int| 0 <= z < before.len() && before[z] == views(deps@)[q];
                                assert(views(included@)[z] == views(deps@)[q]);
                            } else {
                                if before.contains(d@) {
                                    let z = choose|z: int| 0 <= z < before.len() && before[z] == d@;
                                    assert(views(included@)[z] == d@);
                                } else {
                                    assert(views(included@)[before.len() as int] == d@);
                                }
                            }
                        }
                        assert(views(included@)[w as int] == before[w as int]);
                    }
                    k = k + 1;
                }
            },
        }
        proof {
            assert forall|q: int, d: Seq<char>| 0 <= q < w + 1 && #[trigger] expands_to(sv, views(included@)[q], d)
                implies views(included@).contains(d) by {
                if q == w {
                    let j = last_named(sv, x@);
                    assert(sv[j].depends_on.contains(d));
                    let z = choose|z: int| 0 <= z < sv[j].depends_on.len() && sv[j].depends_on[z] == d;
                }
            }
        }
        w = w + 1;
    }
    // The set is closed, so it holds every name of the closure.
    let ghost inc = views(included@);
    assert forall|x: Seq<char>| in_closure(sv, g, x) implies inc.contains(x) by {
        let c = choose|c: Seq<Seq<char>>| #[trigger] is_dep_chain(sv, c) && group_has_name(sv, g, c[0]) && c.last() == x;
        let m = choose|m: int| 0 <= m < sv.len() && in_group(#[trigger] sv[m], g) && sv[m].name == c[0];
        assert(inc.contains(sv[m].name));
        assert forall|y: Seq<char>, d: Seq<char>| inc.contains(y) && #[trigger] expands_to(sv, y, d) implies inc.contains(d) by {
            let q = choose|q: int| 0 <= q < inc.len() && inc[q] == y;
            assert(expands_to(sv, inc[q], d));
        }
        lemma_chain_in_closed(sv, inc, c, c.len() - 1);
    }
    // Keep the steps whose names are in the set, in config order.
    let mut r: Vec<Step> = Vec::new();
    let mut s: usize = 0;
    assert(sv.take(0) =~= Seq::<StepView>::empty());
    while s < steps.len()
        invariant
            sv == step_views(steps@),
            inc == views(included@),
            s <= steps@.len(),
            forall|q: int| 0 <= q < inc.len() ==> in_closure(sv, g, #[trigger] inc[q]),
            forall|x: Seq<char>| in_closure(sv, g, x) ==> inc.contains(x),
            step_views(r@) == closure_members(sv.take(s as int), sv, g),
        decreases steps@.len() - s,
    {
        let ghost t = sv.take(s + 1);
        assert(t.drop_last() =~= sv.take(s as int));
        assert(t.last() == steps@[s as int]@);
        let ghost before = step_views(r@);
        let keep = contains_string(&included, steps[s].name.as_str());
        proof {
            if keep {
                let z = choose|z: int| 0 <= z < inc.len() && inc[z] == steps@[s as int].name@;
                assert(in_closure(sv, g, inc[z]));
            }
        }
        if keep {
            let dup = steps[s].duplicate();
            r.push(dup);
            assert(step_views(r@) =~= before.push(dup@));
        }
        s = s + 1;
    }
    assert(sv.take(s as int) =~= sv);
    r
}

// ---------------------------------------------------------------------------
// The ASCII drawing
// ---------------------------------------------------------------------------

/// The escape sequence that starts dim text.
pub open spec fn dim_on() -> Seq<char> {
    seq!['\x1b', '[', '2', 'm']
}

/// The escape sequence that resets styling.
pub open spec fn style_reset() -> Seq<char> {
    seq!['\x1b', '[', '0', 'm']
}

/// Renders `s` dim through `console::style(..).dim()`. As console's source
/// shows, the text is wrapped in the dim and reset escapes when colours are
/// enabled for stdout, and left as it is otherwise; which of the two comes
/// back depends on the terminal and the environment, so it is not stated.
#[verifier::external_body]
fn dimmed(s: &str) -> (r: String)
    ensures
        r@ == s@ || r@ == dim_on() + s@ + style_reset(),
{
    console::style(s).dim().to_string()
}

/// The text after a step's name that lists its dependencies: nothing when it
/// has none, else a space and `← a, b`, possibly dimmed.
pub open spec fn note_ok(deps: Seq<Seq<char>>, note: Seq<char>) -> bool {
    if deps.len() == 0 {
        note == Seq::<char>::empty()
    } else {
        let plain = "← "@ + join(deps, ", "@);
        note == " "@ + plain || note == " "@ + dim_on() + plain + style_reset()
    }
}

/// One node of the drawing.
pub open spec fn drawn_line(name: Seq<char>, note: Seq<char>, last: bool) -> Seq<char> {
    (if last { "└─"@ } else { "├─"@ }) + " "@ + name + note + "\n"@ + (if last {
        Seq::<char>::empty()
    } else {
        "│\n"@
    })
}

/// The first `k` lines of the drawing of `names` with their notes.
pub open spec fn drawn_prefix(names: Seq<Seq<char>>, notes: Seq<Seq<char>>, k: int) -> Seq<char>
    decreases k,
{
    if k <= 0 {
        Seq::<char>::empty()
    } else {
        drawn_prefix(names, notes, k - 1) + drawn_line(names[k - 1], notes[k - 1], k - 1 == names.len() - 1)
    }
}

/// The drawing: one line per name, `├─` before each but the last, `└─`
/// before the last, and a `│` line between consecutive nodes.
pub open spec fn drawing(names: Seq<Seq<char>>, notes: Seq<Seq<char>>) -> Seq<char> {
    drawn_prefix(names, notes, names.len() as int)
}

/// Draws `names` in order, each followed by its note.
pub fn draw_lines(names: &Vec<String>, notes: &Vec<String>) -> (r: String)
    requires
        names@.len() == notes@.len(),
    ensures
        r@ == drawing(views(names@), views(notes@)),
{
    let ghost nv = views(names@);
    let ghost tv = views(notes@);
    let mut out: Vec<char> = Vec::new();
    let mut i: usize = 0;
    while i < names.len()
        invariant
            nv == views(names@),
            tv == views(notes@),
            names@.len() == notes@.len(),
            i <= names@.len(),
            out@ == drawn_prefix(nv, tv, i as int),
        decreases names@.len() - i,
    {
        let last = i + 1 == names.len();
        let ghost before = out@;
        if last {
            push_str(&mut out, "└─");
        } else {
            push_str(&mut out, "├─");
        }
        push_str(&mut out, " ");
        push_str(&mut out, names[i].as_str());
        push_str(&mut out, notes[i].as_str());
        push_str(&mut out, "\n");
        if !last {
            push_str(&mut out, "│\n");
        }
        proof {
            assert(nv[i as int] == names@[i as int]@);
            assert(tv[i as int] == notes@[i as int]@);
            assert(out@ =~= before + drawn_line(nv[i as int], tv[i as int], last));
        }
        i = i + 1;
    }
    string_from_chars(&out)
}

/// The dependency note of one step, as `dimmed` renders it.
fn dep_note(deps: &Vec<String>) -> (r: String)
    ensures
        note_ok(views(deps@), r@),
{
    if deps.len() == 0 {
        let empty: Vec<char> = Vec::new();
        return string_from_chars(&empty);
    }
    let mut plain: Vec<char> = Vec::new();
    push_str(&mut plain, "← ");
    push_joined(&mut plain, deps, ", ");
    let ps = string_from_chars(&plain);
    let d = dimmed(ps.as_str());
    let mut out: Vec<char> = Vec::new();
    push_str(&mut out, " ");
    push_str(&mut out, d.as_str());
    proof {
        assert(plain@ =~= "← "@ + join(views(deps@), ", "@));
        if d@ == ps@ {
            assert(out@ =~= " "@ + ("← "@ + join(views(deps@), ", "@)));
        } else {
            assert(out@ =~= " "@ + dim_on() + ("← "@ + join(views(deps@), ", "@)) + style_reset());
        }
    }
    string_from_chars(&out)
}

/// The first index at or after `i` of a step named `d` exists when one at
/// `j >= i` does.
proof fn lemma_find_named_found(steps: Seq<StepView>, d: Seq<char>, i: int, j: int)
    requires
        0 <= i <= j < steps.len(),
        steps[j].name == d,
    ensures
        i <= crate::picker::find_named(steps, d, i) <= j,
        steps[crate::picker::find_named(steps, d, i)].name == d,
    decreases j - i,
{
    if steps[i].name != d {
        lemma_find_named_found(steps, d, i + 1, j);
    }
}

/// The dependencies shown for node `v`: those of the first step that bears
/// its name.
pub open spec fn shown_deps(steps: Seq<StepView>, v: usize) -> Seq<Seq<char>> {
    steps[crate::picker::find_named(steps, steps[v as int].name, 0)].depends_on
}

/// The names of the nodes in `order`.
pub open spec fn order_names(steps: Seq<StepView>, order: Seq<usize>) -> Seq<Seq<char>> {
    order.map_values(|v: usize| steps[v as int].name)
}

/// What drawing `steps` in topological order gives, for some choice of the
/// notes' styling.
pub open spec fn drawn_as(steps: Seq<StepView>, order: Seq<usize>, s: Seq<char>) -> bool {
    exists|notes: Seq<Seq<char>>|
        notes.len() == order.len()
        && (forall|i: int| 0 <= i < notes.len() ==> note_ok(shown_deps(steps, order[i]), #[trigger] notes[i]))
        && s == drawing(order_names(steps, order), notes)
}

/// Why a graph cannot be drawn.
#[derive(Debug, Clone)]
pub enum GraphError {
    /// The dependencies form a cycle; `path` names it.
    Cycle { path: String },
}

impl GraphError {
    /// The error as shown to the user.
    pub fn message(&self) -> (r: String)
        ensures
            match self {
                GraphError::Cycle { path } => r@ == "cycle detected: "@ + path@,
            },
    {
        match self {
            GraphError::Cycle { path } => {
                let mut out: Vec<char> = Vec::new();
                push_str(&mut out, "cycle detected: ");
                push_str(&mut out, path.as_str());
                string_from_chars(&out)
            },
        }
    }
}

/// The outcome of drawing `steps`: empty for no steps; when the graph has a
/// cycle, the cycle through the node that toposort reports (a node that lies
/// on a cycle); else the drawing in the topological order toposort found,
/// every step once and each after the steps it depends on.
pub open spec fn draw_outcome(steps: Seq<StepView>, r: Result<Seq<char>, Seq<char>>) -> bool {
    let n = steps.len();
    let edges = graph_edges(steps);
    if n == 0 {
        r == Ok::<Seq<char>, Seq<char>>(Seq::<char>::empty())
    } else {
        match toposort_result(n as usize, edges) {
            Ok(order) => is_topological_order(n, edges, order) && r is Ok && drawn_as(steps, order, r->Ok_0),
            Err(c) => on_cycle(edges, c) && r == Err::<Seq<char>, Seq<char>>(cycle_text(steps, edges, c)),
        }
    }
}

/// The view of a drawing result.
pub open spec fn draw_view(r: Result<String, GraphError>) -> Result<Seq<char>, Seq<char>> {
    match r {
        Ok(s) => Ok(s@),
        Err(GraphError::Cycle { path }) => Err(path@),
    }
}

/// What follows toposort: the cycle it reports, or the drawing in the order
/// it found.
pub fn draw_sorted(steps: &Vec<Step>, edges: &Vec<(usize, usize)>, sorted: Result<Vec<usize>, usize>) -> (r: Result<String, GraphError>)
    requires
        petgraph_bounds(steps@.len() as usize, edges@),
        match sorted {
            Ok(o) => forall|i: int| 0 <= i < o@.len() ==> (#[trigger] o@[i]) < steps@.len(),
            Err(c) => c < steps@.len(),
        },
    ensures
        match sorted {
            Ok(o) => r is Ok && drawn_as(step_views(steps@), o@, draw_view(r)->Ok_0),
            Err(c) => draw_view(r) == Err::<Seq<char>, Seq<char>>(cycle_text(step_views(steps@), edges@, c)),
        },
{
    let ghost sv = step_views(steps@);
    let n: usize = steps.len();
    match sorted {
        Err(c) => {
            let path = format_cycle(steps, edges, c);
            Err(GraphError::Cycle { path })
        },
        Ok(order) => {
            let mut names: Vec<String> = Vec::new();
            let mut notes: Vec<String> = Vec::new();
            let mut i: usize = 0;
            while i < order.len()
                invariant
                    sv == step_views(steps@),
                    n == steps@.len(),
                    forall|k: int| 0 <= k < order@.len() ==> (#[trigger] order@[k]) < steps@.len(),
                    i <= order@.len(),
                    names@.len() == i,
                    notes@.len() == i,
                    views(names@) == order_names(sv, order@).take(i as int),
                    forall|k: int| 0 <= k < i ==> note_ok(shown_deps(sv, order@[k]), #[trigger] views(notes@)[k]),
                decreases order@.len() - i,
            {
                let v: usize = order[i];
                assert(order@[i as int] < n);
                let nm = copy_string(&steps[v].name);
                proof {
                    assert(sv[v as int] == steps@[v as int]@);
                    lemma_find_named_found(sv, sv[v as int].name, 0, v as int);
                }
                let j = find_step_named(steps, steps[v].name.as_str());
                let jj = match j {
                    Some(x) => x,
                    None => { proof { assert(false); } 0 },
                };
                assert(sv[jj as int] == steps@[jj as int]@);
                let note = dep_note(&steps[jj].depends_on);
                let ghost nb = views(names@);
                let ghost tb = views(notes@);
                names.push(nm);
                notes.push(note);
                proof {
                    assert(views(names@) =~= nb.push(nm@));
                    assert(views(notes@) =~= tb.push(note@));
                    assert(views(names@) =~= order_names(sv, order@).take(i + 1));
                    assert forall|k: int| 0 <= k < i + 1 implies note_ok(shown_deps(sv, order@[k]), #[trigger] views(notes@)[k]) by {
                        if k < i {
                            assert(views(notes@)[k] == tb[k]);
                        }
                    }
                }
                i = i + 1;
            }
            let s = draw_lines(&names, &notes);
            proof {
                assert(views(names@) =~= order_names(sv, order@));
                let nts = views(notes@);
                assert(nts.len() == order@.len());
                assert(forall|k: int| 0 <= k < nts.len() ==> note_ok(shown_deps(sv, order@[k]), #[trigger] nts[k]));
                assert(s@ == drawing(order_names(sv, order@), nts));
            }
            Ok(s)
        },
    }
}

/// Draws the given steps.
fn draw_steps(steps: &Vec<Step>) -> (r: Result<String, GraphError>)
    requires
        steps@.len() < 0xffff_ffff,
        all_deps(step_views(steps@)).len() < 0xffff_ffff,
    ensures
        draw_outcome(step_views(steps@), draw_view(r)),
{
    let n: usize = steps.len();
    if n == 0 {
        let empty: Vec<char> = Vec::new();
        return Ok(string_from_chars(&empty));
    }
    let edges = build_edges(steps);
    let sorted = petgraph_toposort(n, &edges);
    draw_sorted(steps, &edges, sorted)
}

/// Drawing a group's closure never draws more steps or edges than there are.
proof fn lemma_closure_bounds(prefix: Seq<StepView>, all: Seq<StepView>, g: Seq<char>)
    ensures
        closure_members(prefix, all, g).len() <= prefix.len(),
        all_deps(closure_members(prefix, all, g)).len() <= all_deps(prefix).len(),
    decreases prefix.len(),
{
    if prefix.len() > 0 {
        lemma_closure_bounds(prefix.drop_last(), all, g);
        let c = closure_members(prefix.drop_last(), all, g);
        if in_closure(all, g, prefix.last().name) {
            assert(c.push(prefix.last()).drop_last() =~= c);
        }
    }
}

/// The view of an optional group filter.
pub open spec fn filter_view(o: Option<&str>) -> Option<Seq<char>> {
    match o {
        Some(g) => Some(g@),
        None => None,
    }
}

/// The steps drawn: all of them, or the closure of the filter group.
pub open spec fn selection(steps: Seq<StepView>, filter: Option<Seq<char>>) -> Seq<StepView> {
    match filter {
        Some(g) => closure_members(steps, steps, g),
        None => steps,
    }
}

/// Draws the dependency graph of `config`, or of the steps of
/// `filter_group` and their transitive dependencies; a cycle is an error.
pub fn render_ascii(config: &Config, filter_group: Option<&str>) -> (r: Result<String, GraphError>)
    requires
        config.steps@.len() < 0xffff_ffff,
        all_deps(step_views(config.steps@)).len() < 0xffff_ffff,
    ensures
        draw_outcome(selection(step_views(config.steps@), filter_view(filter_group)), draw_view(r)),
{
    match filter_group {
        Some(g) => {
            let sel = select_group_closure(&config.steps, g);
            proof {
                let sv = step_views(config.steps@);
                lemma_closure_bounds(sv, sv, g@);
            }
            draw_steps(&sel)
        },
        None => draw_steps(&config.steps),
    }
}

} // verus!
