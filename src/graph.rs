//! The dependency graph as the contracts see it: tasks by id, an edge from
//! each task to each of its dependencies, and reachability along edges.
use vstd::prelude::*;
use crate::item::{insert_sorted, lemma_insert_sorted, strictly_increasing, KanbanId, TaskView};

verus! {

/// Tasks by id.
pub type TaskGraph = Map<KanbanId, TaskView>;

/// Each task of `g` stands under its own id.
pub open spec fn keyed_by_id(g: TaskGraph) -> bool {
    forall|k: KanbanId| #[trigger] g.contains_key(k) ==> g[k].id == k
}

/// The dependencies of `x`; none where `x` is not a task of `g`.
pub open spec fn deps(g: TaskGraph, x: KanbanId) -> Seq<KanbanId> {
    if g.contains_key(x) {
        g[x].child_tasks
    } else {
        Seq::empty()
    }
}

/// `a` depends directly on `b`.
pub open spec fn edge(g: TaskGraph, a: KanbanId, b: KanbanId) -> bool {
    deps(g, a).contains(b)
}

/// `p` is a walk along edges (one vertex at least).
pub open spec fn is_path(g: TaskGraph, p: Seq<KanbanId>) -> bool {
    &&& p.len() >= 1
    &&& forall|i: int| #![trigger p[i]] 0 <= i < p.len() - 1 ==> edge(g, p[i], p[i + 1])
}

/// `b` is reachable from `a` in zero or more steps.
pub open spec fn reaches(g: TaskGraph, a: KanbanId, b: KanbanId) -> bool {
    exists|p: Seq<KanbanId>| #[trigger] is_path(g, p) && p[0] == a && p.last() == b
}

/// `b` is reachable from `a` in one step or more: `a` depends on `b`,
/// directly or through other tasks.
pub open spec fn reaches_by_step(g: TaskGraph, a: KanbanId, b: KanbanId) -> bool {
    exists|c: KanbanId| #[trigger] edge(g, a, c) && reaches(g, c, b)
}

/// No task depends on itself, directly or through others.
pub open spec fn acyclic(g: TaskGraph) -> bool {
    forall|x: KanbanId| !#[trigger] reaches_by_step(g, x, x)
}

/// Every dependency of a member of `s` is in `s`.
pub open spec fn closed_under(g: TaskGraph, s: Set<KanbanId>) -> bool {
    forall|x: KanbanId, c: KanbanId| s.contains(x) && #[trigger] edge(g, x, c) ==> s.contains(c)
}

/// Each vertex reaches itself.
pub proof fn lemma_reaches_refl(g: TaskGraph, a: KanbanId)
    ensures
        reaches(g, a, a),
{
    let p = seq![a];
    assert(is_path(g, p));
}

/// A walk followed by one more edge.
pub proof fn lemma_reaches_push(g: TaskGraph, a: KanbanId, b: KanbanId, c: KanbanId)
    requires
        reaches(g, a, b),
        edge(g, b, c),
    ensures
        reaches(g, a, c),
{
    let p = choose|p: Seq<KanbanId>| #[trigger] is_path(g, p) && p[0] == a && p.last() == b;
    let q = p.push(c);
    assert forall|i: int| #![trigger q[i]] 0 <= i < q.len() - 1 implies edge(g, q[i], q[i + 1]) by {
        if i < p.len() - 1 {
            assert(q[i] == p[i] && q[i + 1] == p[i + 1]);
        }
    }
    assert(is_path(g, q));
}

/// One edge followed by a walk.
pub proof fn lemma_reaches_prepend(g: TaskGraph, a: KanbanId, b: KanbanId, c: KanbanId)
    requires
        edge(g, a, b),
        reaches(g, b, c),
    ensures
        reaches(g, a, c),
{
    let p = choose|p: Seq<KanbanId>| #[trigger] is_path(g, p) && p[0] == b && p.last() == c;
    let q = seq![a] + p;
    assert forall|i: int| #![trigger q[i]] 0 <= i < q.len() - 1 implies edge(g, q[i], q[i + 1]) by {
        if i > 0 {
            assert(q[i] == p[i - 1] && q[i + 1] == p[i]);
        }
    }
    assert(is_path(g, q));
}

/// A set that holds `a` and is closed under edges holds all that `a` reaches.
pub proof fn lemma_closed_holds_reachable(g: TaskGraph, s: Set<KanbanId>, a: KanbanId, b: KanbanId)
    requires
        s.contains(a),
        closed_under(g, s),
        reaches(g, a, b),
    ensures
        s.contains(b),
{
    let p = choose|p: Seq<KanbanId>| #[trigger] is_path(g, p) && p[0] == a && p.last() == b;
    lemma_path_in_closed(g, s, p, p.len() - 1);
}

proof fn lemma_path_in_closed(g: TaskGraph, s: Set<KanbanId>, p: Seq<KanbanId>, k: int)
    requires
        is_path(g, p),
        s.contains(p[0]),
        closed_under(g, s),
        0 <= k < p.len(),
    ensures
        s.contains(p[k]),
    decreases k,
{
    if k > 0 {
        lemma_path_in_closed(g, s, p, k - 1);
        assert(edge(g, p[k - 1], p[k]));
    }
}

/// `g` with the edge from `a` to `b` added to `a`'s sorted dependencies.
pub open spec fn with_edge(g: TaskGraph, a: KanbanId, b: KanbanId) -> TaskGraph {
    g.insert(a, g[a].with_children(insert_sorted(g[a].child_tasks, b)))
}

proof fn lemma_reach_along(g: TaskGraph, a: KanbanId, p: Seq<KanbanId>, k: int)
    requires
        is_path(g, p),
        reaches(g, a, p[0]),
        0 <= k < p.len(),
    ensures
        reaches(g, a, p[k]),
    decreases k,
{
    if k > 0 {
        lemma_reach_along(g, a, p, k - 1);
        assert(edge(g, p[k - 1], p[k]));
        lemma_reaches_push(g, a, p[k - 1], p[k]);
    }
}

/// Reachability is transitive.
pub proof fn lemma_reaches_trans(g: TaskGraph, a: KanbanId, b: KanbanId, c: KanbanId)
    requires
        reaches(g, a, b),
        reaches(g, b, c),
    ensures
        reaches(g, a, c),
{
    let p = choose|p: Seq<KanbanId>| #[trigger] is_path(g, p) && p[0] == b && p.last() == c;
    lemma_reach_along(g, a, p, p.len() - 1);
}

/// Every edge of `h` is one of `g`, so every walk of `h` is one of `g`.
pub proof fn lemma_subgraph_reaches(g: TaskGraph, h: TaskGraph, a: KanbanId, b: KanbanId)
    requires
        forall|x: KanbanId, c: KanbanId| #[trigger] edge(h, x, c) ==> edge(g, x, c),
        reaches(h, a, b),
    ensures
        reaches(g, a, b),
{
    let p = choose|p: Seq<KanbanId>| #[trigger] is_path(h, p) && p[0] == a && p.last() == b;
    assert forall|i: int| #![trigger p[i]] 0 <= i < p.len() - 1 implies edge(g, p[i], p[i + 1]) by {
        assert(edge(h, p[i], p[i + 1]));
    }
    assert(is_path(g, p));
}

proof fn lemma_edge_of_with_edge(g: TaskGraph, a: KanbanId, b: KanbanId)
    requires
        g.contains_key(a),
        strictly_increasing(g[a].child_tasks),
    ensures
        forall|x: KanbanId, c: KanbanId| #[trigger] edge(with_edge(g, a, b), x, c)
            <==> edge(g, x, c) || (x == a && c == b),
{
    lemma_insert_sorted(g[a].child_tasks, b);
    let h = with_edge(g, a, b);
    assert forall|x: KanbanId, c: KanbanId| #[trigger] edge(h, x, c) <==> edge(g, x, c) || (x == a && c == b) by {
        if x == a {
            assert(deps(h, x) == insert_sorted(g[a].child_tasks, b));
            assert(insert_sorted(g[a].child_tasks, b).contains(c) <==> g[a].child_tasks.contains(c) || c == b);
        } else {
            assert(deps(h, x) == deps(g, x));
        }
    }
}

proof fn lemma_reach_with_edge(g: TaskGraph, a: KanbanId, b: KanbanId, u: KanbanId, p: Seq<KanbanId>, k: int)
    requires
        forall|x: KanbanId, c: KanbanId| #[trigger] edge(with_edge(g, a, b), x, c)
            <==> edge(g, x, c) || (x == a && c == b),
        is_path(with_edge(g, a, b), p),
        p[0] == u,
        0 <= k < p.len(),
    ensures
        reaches(g, u, p[k]) || (reaches(g, u, a) && reaches(g, b, p[k])),
    decreases k,
{
    if k == 0 {
        lemma_reaches_refl(g, u);
    } else {
        lemma_reach_with_edge(g, a, b, u, p, k - 1);
        let w = p[k - 1];
        let v = p[k];
        assert(edge(with_edge(g, a, b), w, v));
        if edge(g, w, v) {
            if reaches(g, u, w) {
                lemma_reaches_push(g, u, w, v);
            } else {
                lemma_reaches_push(g, b, w, v);
            }
        } else {
            assert(w == a && v == b);
            if reaches(g, u, w) {
                lemma_reaches_refl(g, b);
            } else {
                lemma_reaches_refl(g, b);
            }
        }
    }
}

/// Adding the edge `a -> b` keeps a graph acyclic when `a` is not reachable
/// from `b`: a new cycle would have to lead from `b` back to `a`.
pub proof fn lemma_checked_edge_keeps_acyclic(g: TaskGraph, a: KanbanId, b: KanbanId)
    requires
        acyclic(g),
        g.contains_key(a),
        strictly_increasing(g[a].child_tasks),
        !reaches(g, b, a),
    ensures
        acyclic(with_edge(g, a, b)),
{
    let h = with_edge(g, a, b);
    lemma_edge_of_with_edge(g, a, b);
    assert forall|x: KanbanId| !#[trigger] reaches_by_step(h, x, x) by {
        if reaches_by_step(h, x, x) {
            let c = choose|c: KanbanId| #[trigger] edge(h, x, c) && reaches(h, c, x);
            let p = choose|p: Seq<KanbanId>| #[trigger] is_path(h, p) && p[0] == c && p.last() == x;
            lemma_reach_with_edge(g, a, b, c, p, p.len() - 1);
            if edge(g, x, c) {
                if reaches(g, c, x) {
                    assert(reaches_by_step(g, x, x));
                } else {
                    lemma_reaches_prepend(g, x, c, a);
                    lemma_reaches_trans(g, b, x, a);
                }
            } else {
                assert(x == a && c == b);
                if reaches(g, c, x) {
                } else {
                }
            }
        }
    }
}

} // verus!
