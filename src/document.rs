//! The document: every task by id, the priority weights and the category
//! styles, with the store operations and the graph queries.
use vstd::prelude::*;
use crate::graph::{
    acyclic, closed_under, deps, edge, lemma_checked_edge_keeps_acyclic, lemma_closed_holds_reachable,
    lemma_reaches_push, lemma_reaches_refl, lemma_subgraph_reaches, reaches, reaches_by_step, with_edge,
    TaskGraph,
};
use crate::item::{other_than, strictly_increasing, KanbanId, KanbanItem, TaskView};
use crate::time_tracking::TimeRecords;
use crate::undo::{CreationEvent, DeletionEvent, ModificationEvent, UndoItem};

verus! {

/// Where a task stands.
#[derive(PartialEq, Eq, Structural, Debug, Clone, Copy)]
pub enum Status {
    /// Not completed, and some dependency is not completed.
    Blocked,
    /// Carries a completion mark.
    Completed,
    /// Not completed, and every dependency is completed.
    Ready,
}

/// How a task stands to another one.
#[derive(PartialEq, Eq, Structural, Debug, Clone, Copy)]
pub enum TaskRelation {
    Unrelated,
    /// The other task depends, directly or not, on the target.
    ChildOf,
    /// The target depends, directly or not, on the other task.
    ParentOf,
    TheItemItself,
}

/// Presentation hints of a category, and whether tasks created as
/// dependencies of a task in the category take the category too.
#[derive(Clone, Copy, Debug)]
pub struct KanbanCategoryStyle {
    /// Bit pattern of the stroke width, a single-precision number that only
    /// the presentation reads.
    pub panel_stroke_width: Option<u32>,
    pub panel_stroke_color: Option<[u8; 4]>,
    pub panel_fill: Option<[u8; 4]>,
    pub text_color: Option<[u8; 4]>,
    pub children_inherit_category: bool,
}

/// The style given to a category when a task first names it.
pub open spec fn plain_style() -> KanbanCategoryStyle {
    KanbanCategoryStyle {
        panel_stroke_width: None,
        panel_stroke_color: None,
        panel_fill: None,
        text_color: None,
        children_inherit_category: false,
    }
}

impl Default for KanbanCategoryStyle {
    fn default() -> (r: Self)
        ensures
            r == plain_style(),
    {
        KanbanCategoryStyle {
            panel_stroke_width: None,
            panel_stroke_color: None,
            panel_fill: None,
            text_color: None,
            children_inherit_category: false,
        }
    }
}

/// The ids of a sequence of tasks increase strictly.
pub open spec fn ids_increasing(s: Seq<TaskView>) -> bool {
    forall|i: int, j: int| 0 <= i < j < s.len() ==> s[i].id < s[j].id
}

/// Some task of `s` has this id.
pub open spec fn has_id(s: Seq<TaskView>, id: KanbanId) -> bool {
    exists|i: int| 0 <= i < s.len() && #[trigger] s[i].id == id
}

/// The tasks of `s` by id.
pub open spec fn graph_of(s: Seq<TaskView>) -> TaskGraph {
    Map::new(
        |id: KanbanId| has_id(s, id),
        |id: KanbanId| s[choose|i: int| 0 <= i < s.len() && #[trigger] s[i].id == id],
    )
}

/// Names of a list of pairs keyed by text.
pub open spec fn names_unique<V>(s: Seq<(Seq<char>, V)>) -> bool {
    forall|i: int, j: int| 0 <= i < j < s.len() ==> s[i].0 != s[j].0
}

/// The pairs of `s` as a map.
pub open spec fn pairs_map<V>(s: Seq<(Seq<char>, V)>) -> Map<Seq<char>, V> {
    Map::new(
        |k: Seq<char>| exists|i: int| 0 <= i < s.len() && #[trigger] s[i].0 == k,
        |k: Seq<char>| s[choose|i: int| 0 <= i < s.len() && #[trigger] s[i].0 == k].1,
    )
}

/// The value of `o` in `m`, zero where `o` is absent or unknown.
pub open spec fn weight_of(m: Map<Seq<char>, i32>, o: Option<Seq<char>>) -> i32 {
    match o {
        Some(p) => if m.contains_key(p) {
            m[p]
        } else {
            0
        },
        None => 0,
    }
}

/// The status of `id` in `g`. Completed with a completion mark; otherwise
/// Ready when every dependency that is a task of `g` is completed.
pub open spec fn status_of(g: TaskGraph, id: KanbanId) -> Status {
    if g[id].completed is Some {
        Status::Completed
    } else if forall|c: KanbanId|
        #![trigger g[id].child_tasks.contains(c)]
        g[id].child_tasks.contains(c) && g.contains_key(c) ==> g[c].completed is Some {
        Status::Ready
    } else {
        Status::Blocked
    }
}

proof fn lemma_graph_at(s: Seq<TaskView>, i: int)
    requires
        ids_increasing(s),
        0 <= i < s.len(),
    ensures
        graph_of(s).contains_key(s[i].id),
        graph_of(s)[s[i].id] == s[i],
{
    let id = s[i].id;
    assert(has_id(s, id));
    let j = choose|j: int| 0 <= j < s.len() && #[trigger] s[j].id == id;
    if j < i {
        assert(s[j].id < s[i].id);
    } else if j > i {
        assert(s[i].id < s[j].id);
    }
}

/// `x` put into `r` before the first pair of greater weight.
pub open spec fn insert_by_weight(r: Seq<(Seq<char>, i32)>, x: (Seq<char>, i32)) -> Seq<(Seq<char>, i32)>
    decreases r.len(),
{
    if r.len() == 0 {
        seq![x]
    } else if r[0].1 > x.1 {
        seq![x] + r
    } else {
        seq![r[0]] + insert_by_weight(r.drop_first(), x)
    }
}

/// The pairs by weight, lightest first, equal weights in their order.
pub open spec fn sorted_by_weight(s: Seq<(Seq<char>, i32)>) -> Seq<(Seq<char>, i32)>
    decreases s.len(),
{
    if s.len() == 0 {
        Seq::empty()
    } else {
        insert_by_weight(sorted_by_weight(s.drop_last()), s.last())
    }
}

proof fn lemma_weight_insert_at(r: Seq<(Seq<char>, i32)>, x: (Seq<char>, i32), k: int)
    requires
        0 <= k <= r.len(),
        forall|j: int| 0 <= j < k ==> r[j].1 <= x.1,
        k < r.len() ==> r[k].1 > x.1,
    ensures
        insert_by_weight(r, x) == r.insert(k, x),
    decreases k,
{
    if r.len() == 0 {
        assert(r.insert(k, x) =~= seq![x]);
    } else if k == 0 {
        assert(r.insert(0, x) =~= seq![x] + r);
    } else {
        let d = r.drop_first();
        assert forall|j: int| 0 <= j < k - 1 implies d[j].1 <= x.1 by {
            assert(d[j] == r[j + 1]);
        }
        if k < r.len() {
            assert(d[k - 1] == r[k]);
        }
        lemma_weight_insert_at(d, x, k - 1);
        assert(r.insert(k, x) =~= seq![r[0]] + d.insert(k - 1, x));
    }
}

/// The ids of the tasks of `s` that satisfy `p`, in order.
pub open spec fn select_ids(s: Seq<TaskView>, p: spec_fn(TaskView) -> bool) -> Seq<KanbanId>
    decreases s.len(),
{
    if s.len() == 0 {
        Seq::empty()
    } else {
        let r = select_ids(s.drop_last(), p);
        if p(s.last()) {
            r.push(s.last().id)
        } else {
            r
        }
    }
}

/// One more task: `select_ids` of a longer prefix.
pub proof fn lemma_select_step(s: Seq<TaskView>, p: spec_fn(TaskView) -> bool, i: int)
    requires
        0 <= i < s.len(),
    ensures
        select_ids(s.take(i + 1), p) == if p(s[i]) {
            select_ids(s.take(i), p).push(s[i].id)
        } else {
            select_ids(s.take(i), p)
        },
{
    assert(s.take(i + 1).drop_last() =~= s.take(i));
    assert(s.take(i + 1).last() == s[i]);
}

/// What `select_ids` holds, and that it keeps the order of ids.
pub proof fn lemma_select_ids(s: Seq<TaskView>, p: spec_fn(TaskView) -> bool)
    requires
        ids_increasing(s),
    ensures
        forall|x: KanbanId| #[trigger] select_ids(s, p).contains(x)
            <==> exists|i: int| 0 <= i < s.len() && #[trigger] s[i].id == x && p(s[i]),
        strictly_increasing(select_ids(s, p)),
        select_ids(s, p).len() <= s.len(),
    decreases s.len(),
{
    if s.len() > 0 {
        let d = s.drop_last();
        assert forall|a: int, b: int| 0 <= a < b < d.len() implies d[a].id < d[b].id by {
            assert(d[a] == s[a] && d[b] == s[b]);
        }
        lemma_select_ids(d, p);
        let r = select_ids(d, p);
        let l = s.last();
        crate::item::lemma_push_contains(r, l.id);
        assert forall|x: KanbanId| #[trigger] select_ids(s, p).contains(x)
            <==> exists|i: int| 0 <= i < s.len() && #[trigger] s[i].id == x && p(s[i]) by {
            if exists|i: int| 0 <= i < s.len() && #[trigger] s[i].id == x && p(s[i]) {
                let i = choose|i: int| 0 <= i < s.len() && #[trigger] s[i].id == x && p(s[i]);
                if i < s.len() - 1 {
                    assert(d[i] == s[i]);
                }
            }
            if r.contains(x) {
                let i = choose|i: int| 0 <= i < d.len() && #[trigger] d[i].id == x && p(d[i]);
                assert(s[i] == d[i]);
            }
        }
        if p(l) {
            assert forall|a: int, b: int| 0 <= a < b < r.push(l.id).len() implies r.push(l.id)[a] < r.push(l.id)[b] by {
                if b == r.len() {
                    assert(r.contains(r[a]));
                    let i = choose|i: int| 0 <= i < d.len() && #[trigger] d[i].id == r[a] && p(d[i]);
                    assert(s[i].id < s[s.len() - 1].id);
                } else {
                    assert(r.push(l.id)[a] == r[a] && r.push(l.id)[b] == r[b]);
                }
            }
        }
    }
}

/// A well-formed document keys each task by its id, and each of its tasks is
/// well formed.
pub proof fn lemma_graph_wf(d: &KanbanDocument)
    requires
        d.wf(),
    ensures
        crate::graph::keyed_by_id(d.graph()),
        forall|k: KanbanId| #[trigger] d.graph().contains_key(k) ==> d.graph()[k].wf(),
{
    assert forall|k: KanbanId| #[trigger] d.graph().contains_key(k) implies d.graph()[k].id == k && d.graph()[k].wf() by {
        let j = choose|j: int| 0 <= j < d.task_seq().len() && #[trigger] d.task_seq()[j].id == k;
        lemma_graph_at(d.task_seq(), j);
    }
}

/// A completed task is Completed whatever its dependencies; an uncompleted
/// task without dependencies is Ready.
pub proof fn lemma_status_basic(g: TaskGraph, id: KanbanId)
    requires
        g.contains_key(id),
    ensures
        g[id].completed is Some ==> status_of(g, id) == Status::Completed,
        g[id].completed is None && g[id].child_tasks.len() == 0 ==> status_of(g, id) == Status::Ready,
{
}

/// An uncompleted task whose one dependency is not completed is Blocked,
/// and completing that dependency makes it Ready.
pub proof fn lemma_status_derivation(g: TaskGraph, id: KanbanId, d: KanbanId, t: i64)
    requires
        g.contains_key(id),
        g.contains_key(d),
        d != id,
        g[id].completed is None,
        g[id].child_tasks.to_set() == set![d],
        g[d].completed is None,
    ensures
        status_of(g, id) == Status::Blocked,
        status_of(g.insert(d, TaskView { completed: Some(t), ..g[d] }), id) == Status::Ready,
{
    assert(g[id].child_tasks.to_set().contains(d));
    assert(g[id].child_tasks.contains(d));
    let h = g.insert(d, TaskView { completed: Some(t), ..g[d] });
    assert(h[id] == g[id]);
    assert forall|c: KanbanId|
        #![trigger h[id].child_tasks.contains(c)]
        h[id].child_tasks.contains(c) && h.contains_key(c) implies h[c].completed is Some by {
        assert(g[id].child_tasks.to_set().contains(c));
    }
}

/// In tasks without cycles, an uncompleted task whose one dependency is not
/// completed is Blocked, and completing that dependency makes it Ready.
pub proof fn lemma_status_derivation_acyclic(g: TaskGraph, id: KanbanId, d: KanbanId, t: i64)
    requires
        acyclic(g),
        g.contains_key(id),
        g.contains_key(d),
        g[id].completed is None,
        g[id].child_tasks.to_set() == set![d],
        g[d].completed is None,
    ensures
        status_of(g, id) == Status::Blocked,
        status_of(g.insert(d, TaskView { completed: Some(t), ..g[d] }), id) == Status::Ready,
{
    if d == id {
        assert(g[id].child_tasks.to_set().contains(d));
        assert(edge(g, id, id));
        lemma_reaches_refl(g, id);
        assert(reaches_by_step(g, id, id));
    }
    lemma_status_derivation(g, id, d, t);
}

/// A dependency that `can_add_as_child` accepted keeps the tasks free of
/// cycles: where the tasks with `parent` and `child` put in have no cycle,
/// adding `child` to `parent`'s dependencies closes none.
pub proof fn lemma_accepted_edge_keeps_acyclic(d: &KanbanDocument, parent: TaskView, child: TaskView)
    requires
        d.wf(),
        parent.wf(),
        acyclic(d.graph_over(Some(parent), Some(child))),
        parent.id != child.id,
        !reaches(d.graph_over(Some(parent), Some(child)), child.id, parent.id),
    ensures
        acyclic(with_edge(d.graph_over(Some(parent), Some(child)), parent.id, child.id)),
{
    let g = d.graph_over(Some(parent), Some(child));
    assert(g.contains_key(parent.id) && g[parent.id] == parent);
    lemma_checked_edge_keeps_acyclic(g, parent.id, child.id);
}

/// Removing a task closes no cycle: what is left has fewer edges.
pub proof fn lemma_remove_keeps_acyclic(g: TaskGraph, id: KanbanId)
    requires
        acyclic(g),
    ensures
        acyclic(unlinked(g, id)),
{
    let h = unlinked(g, id);
    assert forall|x: KanbanId, c: KanbanId| #[trigger] edge(h, x, c) implies edge(g, x, c) by {
        g[x].child_tasks.lemma_filter_contains_rev(other_than(id), c);
    }
    assert forall|x: KanbanId| !#[trigger] reaches_by_step(h, x, x) by {
        if reaches_by_step(h, x, x) {
            let c = choose|c: KanbanId| #[trigger] edge(h, x, c) && reaches(h, c, x);
            lemma_subgraph_reaches(g, h, c, x);
            assert(edge(g, x, c));
            assert(reaches_by_step(g, x, x));
        }
    }
}

/// A well-formed document holds as many tasks as its graph has ids.
pub proof fn lemma_task_count(d: &KanbanDocument)
    requires
        d.wf(),
    ensures
        d.graph().dom().finite(),
        d.graph().dom().len() == d.task_seq().len(),
{
    let s = d.task_seq();
    let ids = s.map_values(|t: TaskView| t.id);
    assert(ids.no_duplicates()) by {
        assert forall|a: int, b: int| 0 <= a < ids.len() && 0 <= b < ids.len() && a != b implies ids[a] != ids[b] by {
            if a < b {
                assert(s[a].id < s[b].id);
            } else {
                assert(s[b].id < s[a].id);
            }
        }
    }
    assert forall|k: KanbanId| d.graph().dom().contains(k) <==> ids.to_set().contains(k) by {
        if has_id(s, k) {
            let j = choose|j: int| 0 <= j < s.len() && #[trigger] s[j].id == k;
            assert(ids[j] == k);
        }
        if ids.contains(k) {
            let j = choose|j: int| 0 <= j < ids.len() && ids[j] == k;
            assert(s[j].id == k);
        }
    }
    assert(d.graph().dom() =~= ids.to_set());
    ids.unique_seq_to_set();
    vstd::seq_lib::seq_to_set_is_finite(ids);
}

/// Where task `s[i]` stands in `graph_of(s)`.
pub proof fn lemma_graph_at_pub(s: Seq<TaskView>, i: int)
    requires
        ids_increasing(s),
        0 <= i < s.len(),
    ensures
        graph_of(s).contains_key(s[i].id),
        graph_of(s)[s[i].id] == s[i],
{
    lemma_graph_at(s, i);
}

proof fn lemma_pairs_at<V>(s: Seq<(Seq<char>, V)>, i: int)
    requires
        names_unique(s),
        0 <= i < s.len(),
    ensures
        pairs_map(s).contains_key(s[i].0),
        pairs_map(s)[s[i].0] == s[i].1,
{
    let k = s[i].0;
    assert(s[i].0 == k);
    let j = choose|j: int| 0 <= j < s.len() && #[trigger] s[j].0 == k;
    if j != i {
        if j < i {
            assert(s[j].0 != s[i].0);
        } else {
            assert(s[i].0 != s[j].0);
        }
    }
}

/// Replacing the task at one position by a task with the same id.
proof fn lemma_graph_update(s: Seq<TaskView>, i: int, v: TaskView)
    requires
        ids_increasing(s),
        0 <= i < s.len(),
        s[i].id == v.id,
    ensures
        ids_increasing(s.update(i, v)),
        graph_of(s.update(i, v)) == graph_of(s).insert(v.id, v),
{
    let t = s.update(i, v);
    let h = graph_of(s).insert(v.id, v);
    assert forall|a: int, b: int| 0 <= a < b < t.len() implies t[a].id < t[b].id by {
        assert(t[a].id == s[a].id && t[b].id == s[b].id);
    }
    assert forall|k: KanbanId| graph_of(t).contains_key(k) <==> h.contains_key(k) by {
        if has_id(t, k) {
            let j = choose|j: int| 0 <= j < t.len() && #[trigger] t[j].id == k;
            assert(s[j].id == k);
        }
        if has_id(s, k) {
            let j = choose|j: int| 0 <= j < s.len() && #[trigger] s[j].id == k;
            assert(t[j].id == k);
        }
        if k == v.id {
            assert(t[i].id == k);
        }
    }
    assert forall|k: KanbanId| graph_of(t).contains_key(k) implies graph_of(t)[k] == h[k] by {
        let j = choose|j: int| 0 <= j < t.len() && #[trigger] t[j].id == k;
        lemma_graph_at(t, j);
        if j != i {
            lemma_graph_at(s, j);
        }
    }
    assert(graph_of(t) =~= h);
}

/// Inserting a task at the position that keeps the ids sorted.
proof fn lemma_graph_insert(s: Seq<TaskView>, pos: int, v: TaskView)
    requires
        ids_increasing(s),
        0 <= pos <= s.len(),
        forall|k: int| 0 <= k < pos ==> s[k].id < v.id,
        forall|k: int| pos <= k < s.len() ==> s[k].id > v.id,
    ensures
        ids_increasing(s.insert(pos, v)),
        graph_of(s.insert(pos, v)) == graph_of(s).insert(v.id, v),
        !has_id(s, v.id),
{
    let t = s.insert(pos, v);
    let h = graph_of(s).insert(v.id, v);
    assert forall|a: int, b: int| 0 <= a < b < t.len() implies t[a].id < t[b].id by {
        if b < pos {
        } else if b == pos {
        } else if a < pos {
            assert(t[b] == s[b - 1]);
        } else if a == pos {
            assert(t[b] == s[b - 1]);
        } else {
            assert(t[a] == s[a - 1] && t[b] == s[b - 1]);
        }
    }
    if has_id(s, v.id) {
        let j = choose|j: int| 0 <= j < s.len() && #[trigger] s[j].id == v.id;
    }
    assert forall|k: KanbanId| graph_of(t).contains_key(k) <==> h.contains_key(k) by {
        if has_id(t, k) {
            let j = choose|j: int| 0 <= j < t.len() && #[trigger] t[j].id == k;
            if j < pos {
                assert(s[j].id == k);
            } else if j > pos {
                assert(s[j - 1].id == k);
            }
        }
        if has_id(s, k) {
            let j = choose|j: int| 0 <= j < s.len() && #[trigger] s[j].id == k;
            if j < pos {
                assert(t[j].id == k);
            } else {
                assert(t[j + 1].id == k);
            }
        }
        if k == v.id {
            assert(t[pos].id == k);
        }
    }
    assert forall|k: KanbanId| graph_of(t).contains_key(k) implies graph_of(t)[k] == h[k] by {
        let j = choose|j: int| 0 <= j < t.len() && #[trigger] t[j].id == k;
        lemma_graph_at(t, j);
        if j < pos {
            lemma_graph_at(s, j);
        } else if j > pos {
            lemma_graph_at(s, j - 1);
        }
    }
    assert(graph_of(t) =~= h);
}

/// Removing the task at one position.
proof fn lemma_graph_remove(s: Seq<TaskView>, pos: int)
    requires
        ids_increasing(s),
        0 <= pos < s.len(),
    ensures
        ids_increasing(s.remove(pos)),
        graph_of(s.remove(pos)) == graph_of(s).remove(s[pos].id),
{
    let t = s.remove(pos);
    let x = s[pos].id;
    let h = graph_of(s).remove(x);
    assert forall|a: int, b: int| 0 <= a < b < t.len() implies t[a].id < t[b].id by {
        if b < pos {
        } else if a < pos {
            assert(t[b] == s[b + 1]);
        } else {
            assert(t[a] == s[a + 1] && t[b] == s[b + 1]);
        }
    }
    assert forall|k: KanbanId| graph_of(t).contains_key(k) <==> h.contains_key(k) by {
        if has_id(t, k) {
            let j = choose|j: int| 0 <= j < t.len() && #[trigger] t[j].id == k;
            if j < pos {
                assert(s[j].id == k);
                assert(s[j].id < s[pos].id);
            } else {
                assert(s[j + 1].id == k);
                assert(s[pos].id < s[j + 1].id);
            }
        }
        if has_id(s, k) && k != x {
            let j = choose|j: int| 0 <= j < s.len() && #[trigger] s[j].id == k;
            if j < pos {
                assert(t[j].id == k);
            } else {
                assert(j != pos);
                assert(t[j - 1].id == k);
            }
        }
    }
    assert forall|k: KanbanId| graph_of(t).contains_key(k) implies graph_of(t)[k] == h[k] by {
        let j = choose|j: int| 0 <= j < t.len() && #[trigger] t[j].id == k;
        lemma_graph_at(t, j);
        if j < pos {
            lemma_graph_at(s, j);
        } else {
            lemma_graph_at(s, j + 1);
        }
    }
    assert(graph_of(t) =~= h);
}

/// What removing task `id` leaves: the other tasks, with `id` taken out of
/// their dependencies.
pub open spec fn unlinked(g: TaskGraph, id: KanbanId) -> TaskGraph {
    Map::new(
        |k: KanbanId| g.contains_key(k) && k != id,
        |k: KanbanId| g[k].with_children(g[k].child_tasks.filter(other_than(id))),
    )
}

/// The tasks of `g` that depend directly on `id`.
pub open spec fn parents_in(g: TaskGraph, id: KanbanId) -> Set<KanbanId> {
    Set::new(|p: KanbanId| g.contains_key(p) && g[p].child_tasks.contains(id))
}

/// `r` is the id that allocation picks in `s` with the counter at `c`: the
/// first free id from `c` upwards, or, when every id from `c` to the largest
/// is taken, the first free id from the smallest.
pub open spec fn allocated(s: Seq<TaskView>, c: KanbanId, r: KanbanId) -> bool {
    &&& !has_id(s, r)
    &&& if all_taken(s, c as int, i32::MAX as int) {
        all_taken(s, i32::MIN as int, r - 1)
    } else {
        c <= r && all_taken(s, c as int, r - 1)
    }
}

/// The counter after allocating `r`.
pub open spec fn after(r: KanbanId) -> KanbanId {
    if r == i32::MAX {
        i32::MIN
    } else {
        (r + 1) as i32
    }
}

/// No id in `[lo, hi]` is free in `s`.
pub open spec fn all_taken(s: Seq<TaskView>, lo: int, hi: int) -> bool {
    forall|k: KanbanId| lo <= k <= hi ==> has_id(s, k)
}

/// `g` with task `t` put in, where there is one.
pub open spec fn overlay(g: TaskGraph, t: Option<TaskView>) -> TaskGraph {
    match t {
        Some(v) => g.insert(v.id, v),
        None => g,
    }
}

/// The view of an optional task.
pub open spec fn opt_view(t: Option<&KanbanItem>) -> Option<TaskView> {
    match t {
        Some(v) => Some(v@),
        None => None,
    }
}

/// Some vertex of `starts` reaches `y`.
pub open spec fn reached_from(g: TaskGraph, starts: Seq<KanbanId>, y: KanbanId) -> bool {
    exists|s0: KanbanId| starts.contains(s0) && #[trigger] reaches(g, s0, y)
}

/// The dependencies of every task of `s`, one list after another.
pub open spec fn all_children(s: Seq<TaskView>) -> Seq<KanbanId>
    decreases s.len(),
{
    if s.len() == 0 {
        Seq::empty()
    } else {
        all_children(s.drop_last()) + s.last().child_tasks
    }
}

proof fn lemma_all_children(s: Seq<TaskView>, i: int, c: KanbanId)
    requires
        0 <= i < s.len(),
        s[i].child_tasks.contains(c),
    ensures
        all_children(s).contains(c),
    decreases s.len(),
{
    let a = all_children(s.drop_last());
    let l = s.last().child_tasks;
    assert(all_children(s) == a + l);
    if i == s.len() - 1 {
        let k = choose|k: int| 0 <= k < l.len() && l[k] == c;
        assert((a + l)[a.len() + k] == c);
    } else {
        assert(s.drop_last()[i] == s[i]);
        lemma_all_children(s.drop_last(), i, c);
        let k = choose|k: int| 0 <= k < a.len() && a[k] == c;
        assert((a + l)[k] == c);
    }
}

/// Push onto `stack` each id of `ch` that `seen` lacks.
fn push_unseen(stack: &mut Vec<KanbanId>, seen: &Vec<KanbanId>, ch: &Vec<KanbanId>)
    ensures
        forall|y: KanbanId|
            #![trigger final(stack)@.contains(y)]
            #![trigger old(stack)@.contains(y)]
            #![trigger ch@.contains(y)]
            final(stack)@.contains(y) <==> old(stack)@.contains(y) || (ch@.contains(y) && !seen@.contains(y)),
        forall|c: KanbanId| #[trigger] ch@.contains(c) ==> seen@.contains(c) || final(stack)@.contains(c),
{
    let m = ch.len();
    let mut j: usize = 0;
    while j < m
        invariant
            m == ch@.len(),
            0 <= j <= m,
            forall|y: KanbanId| #[trigger] stack@.contains(y) ==> old(stack)@.contains(y)
                || (ch@.take(j as int).contains(y) && !seen@.contains(y)),
            forall|y: KanbanId| #[trigger] old(stack)@.contains(y) ==> stack@.contains(y),
            forall|y: KanbanId| #[trigger] ch@.take(j as int).contains(y) && !seen@.contains(y) ==> stack@.contains(y),
            forall|k: int| 0 <= k < j ==> seen@.contains(#[trigger] ch@[k]) || stack@.contains(ch@[k]),
        decreases m - j,
    {
        let c = ch[j];
        let ghost stack0 = stack@;
        let ghost t0 = ch@.take(j as int);
        let ghost t1 = ch@.take(j as int + 1);
        proof {
            assert(ch@[j as int] == c);
            assert(t1 =~= t0.push(c));
            assert forall|y: KanbanId| t1.contains(y) <==> t0.contains(y) || y == c by {
                if t1.contains(y) && y != c {
                    let k = choose|k: int| 0 <= k < t1.len() && t1[k] == y;
                    assert(t0[k] == y);
                }
                if t0.contains(y) {
                    let k = choose|k: int| 0 <= k < t0.len() && t0[k] == y;
                    assert(t1[k] == y);
                }
                if y == c {
                    assert(t1[j as int] == y);
                }
            }
        }
        let already = crate::item::contains_id(seen, c);
        if !already {
            stack.push(c);
            proof {
                assert(stack@[stack@.len() - 1] == c);
                assert forall|y: KanbanId| stack@.contains(y) <==> stack0.contains(y) || y == c by {
                    if stack0.contains(y) {
                        let k = choose|k: int| 0 <= k < stack0.len() && stack0[k] == y;
                        assert(stack@[k] == y);
                    }
                    if stack@.contains(y) && y != c {
                        let k = choose|k: int| 0 <= k < stack@.len() && stack@[k] == y;
                        assert(stack0[k] == y);
                    }
                }
            }
        }
        assert forall|y: KanbanId| stack@.contains(y) <==> old(stack)@.contains(y)
            || (t1.contains(y) && !seen@.contains(y)) by {
            assert(stack0.contains(y) ==> old(stack)@.contains(y) || (t0.contains(y) && !seen@.contains(y)));
            assert(old(stack)@.contains(y) ==> stack0.contains(y));
            assert(t0.contains(y) && !seen@.contains(y) ==> stack0.contains(y));
            assert(t1.contains(y) <==> t0.contains(y) || y == c);
            if !already {
                assert(stack@.contains(y) <==> stack0.contains(y) || y == c);
            } else {
                assert(stack@ == stack0);
            }
        }
        assert forall|y: KanbanId| #[trigger] stack@.contains(y) implies old(stack)@.contains(y)
            || (t1.contains(y) && !seen@.contains(y)) by {}
        assert forall|y: KanbanId| #[trigger] old(stack)@.contains(y) implies stack@.contains(y) by {
            assert(stack0.contains(y));
        }
        assert forall|y: KanbanId| #[trigger] t1.contains(y) && !seen@.contains(y) implies stack@.contains(y) by {}
        assert(ch@.take((j + 1) as int) == t1);
        assert forall|k: int| 0 <= k < j + 1 implies seen@.contains(#[trigger] ch@[k]) || stack@.contains(ch@[k]) by {
            if k < j {
                assert(stack0.contains(ch@[k]) ==> stack@.contains(ch@[k]));
            }
        }
        j = j + 1;
    }
    proof {
        assert(ch@.take(m as int) =~= ch@);
        assert forall|c: KanbanId| ch@.contains(c) implies seen@.contains(c) || stack@.contains(c) by {
            let k = choose|k: int| 0 <= k < ch@.len() && ch@[k] == c;
        }
    }
}

/// The state of the search for what `st` reaches: `seen` and `stack` lie in
/// the finite set `u` and are reached; every start is in one of them; every
/// dependency of a seen vertex is in one of them.
#[verifier::opaque]
spec fn dfs_inv(g: TaskGraph, st: Seq<KanbanId>, u: Set<KanbanId>, seen: Seq<KanbanId>, stack: Seq<KanbanId>) -> bool {
    &&& u.finite()
    &&& seen.no_duplicates()
    &&& forall|x: KanbanId| #[trigger] seen.contains(x) ==> u.contains(x) && reached_from(g, st, x)
    &&& forall|x: KanbanId| #[trigger] stack.contains(x) ==> u.contains(x) && reached_from(g, st, x)
    &&& forall|x: KanbanId| #[trigger] st.contains(x) ==> seen.contains(x) || stack.contains(x)
    &&& forall|x: KanbanId, c: KanbanId| seen.contains(x) && #[trigger] edge(g, x, c) ==> seen.contains(c) || stack.contains(c)
}

proof fn lemma_concat_contains(a: Seq<KanbanId>, b: Seq<KanbanId>)
    ensures
        forall|y: KanbanId| #[trigger] b.contains(y) ==> (a + b).to_set().contains(y),
        forall|y: KanbanId| #[trigger] a.contains(y) ==> (a + b).to_set().contains(y),
{
    assert forall|y: KanbanId| #[trigger] b.contains(y) implies (a + b).to_set().contains(y) by {
        let k = choose|k: int| 0 <= k < b.len() && b[k] == y;
        assert((a + b)[a.len() + k] == y);
    }
    assert forall|y: KanbanId| #[trigger] a.contains(y) implies (a + b).to_set().contains(y) by {
        let k = choose|k: int| 0 <= k < a.len() && a[k] == y;
        assert((a + b)[k] == y);
    }
}

proof fn lemma_dfs_init(g: TaskGraph, st: Seq<KanbanId>, u: Set<KanbanId>)
    requires
        u.finite(),
        forall|y: KanbanId| #[trigger] st.contains(y) ==> u.contains(y),
    ensures
        dfs_inv(g, st, u, Seq::empty(), st),
{
    reveal(dfs_inv);
    assert forall|x: KanbanId| #[trigger] st.contains(x) implies u.contains(x) && reached_from(g, st, x) by {
        lemma_reaches_refl(g, x);
    }
}

proof fn lemma_dfs_pop_seen(g: TaskGraph, st: Seq<KanbanId>, u: Set<KanbanId>, seen: Seq<KanbanId>, stack: Seq<KanbanId>, x: KanbanId)
    requires
        dfs_inv(g, st, u, seen, stack.push(x)),
        seen.contains(x),
    ensures
        dfs_inv(g, st, u, seen, stack),
{
    reveal(dfs_inv);
    crate::item::lemma_push_contains(stack, x);
    assert forall|y: KanbanId| #[trigger] stack.contains(y) implies u.contains(y) && reached_from(g, st, y) by {
        assert(stack.push(x).contains(y));
    }
    assert forall|y: KanbanId| #[trigger] st.contains(y) implies seen.contains(y) || stack.contains(y) by {
        assert(seen.contains(y) || stack.push(x).contains(y));
    }
    assert forall|y: KanbanId, c: KanbanId| seen.contains(y) && #[trigger] edge(g, y, c) implies seen.contains(c) || stack.contains(c) by {
        assert(seen.contains(c) || stack.push(x).contains(c));
    }
}

proof fn lemma_dfs_visit(
    g: TaskGraph,
    st: Seq<KanbanId>,
    u: Set<KanbanId>,
    seen: Seq<KanbanId>,
    stack: Seq<KanbanId>,
    x: KanbanId,
    ch: Seq<KanbanId>,
    stack1: Seq<KanbanId>,
)
    requires
        dfs_inv(g, st, u, seen, stack.push(x)),
        !seen.contains(x),
        forall|c: KanbanId| #[trigger] edge(g, x, c) <==> ch.contains(c),
        forall|c: KanbanId| #[trigger] ch.contains(c) ==> u.contains(c),
        forall|y: KanbanId| #[trigger] stack1.contains(y) <==> stack.contains(y) || (ch.contains(y) && !seen.push(x).contains(y)),
        forall|c: KanbanId| #[trigger] ch.contains(c) ==> seen.push(x).contains(c) || stack1.contains(c),
    ensures
        dfs_inv(g, st, u, seen.push(x), stack1),
        seen.push(x).len() <= u.len(),
{
    reveal(dfs_inv);
    let s1 = seen.push(x);
    crate::item::lemma_push_contains(stack, x);
    crate::item::lemma_push_contains(seen, x);
    crate::item::lemma_push_no_dup(seen, x);
    assert(stack.push(x).contains(x));
    assert forall|y: KanbanId| #[trigger] stack1.contains(y) implies u.contains(y) && reached_from(g, st, y) by {
        if !stack.contains(y) {
            assert(edge(g, x, y));
            let s0 = choose|s0: KanbanId| st.contains(s0) && #[trigger] reaches(g, s0, x);
            lemma_reaches_push(g, s0, x, y);
        } else {
            assert(stack.push(x).contains(y));
        }
    }
    assert forall|y: KanbanId| #[trigger] s1.contains(y) implies u.contains(y) && reached_from(g, st, y) by {
        if y != x {
            assert(seen.contains(y));
        }
    }
    assert forall|y: KanbanId| #[trigger] st.contains(y) implies s1.contains(y) || stack1.contains(y) by {
        assert(seen.contains(y) || stack.push(x).contains(y));
    }
    assert forall|y: KanbanId, c: KanbanId| s1.contains(y) && #[trigger] edge(g, y, c) implies s1.contains(c) || stack1.contains(c) by {
        if y == x {
            assert(ch.contains(c));
        } else {
            assert(seen.contains(y));
            assert(seen.contains(c) || stack.push(x).contains(c));
        }
    }
    s1.unique_seq_to_set();
    assert(s1.to_set().subset_of(u));
    vstd::set_lib::lemma_len_subset(s1.to_set(), u);
}

proof fn lemma_dfs_done(g: TaskGraph, st: Seq<KanbanId>, u: Set<KanbanId>, seen: Seq<KanbanId>)
    requires
        dfs_inv(g, st, u, seen, Seq::empty()),
    ensures
        forall|y: KanbanId| seen.contains(y) <==> reached_from(g, st, y),
{
    reveal(dfs_inv);
    assert forall|y: KanbanId| reached_from(g, st, y) implies seen.contains(y) by {
        let s0 = choose|s0: KanbanId| st.contains(s0) && #[trigger] reaches(g, s0, y);
        assert(seen.contains(s0) || Seq::<KanbanId>::empty().contains(s0));
        assert forall|a: KanbanId, c: KanbanId| seen.to_set().contains(a) && #[trigger] edge(g, a, c) implies seen.to_set().contains(c) by {
            assert(seen.contains(c) || Seq::<KanbanId>::empty().contains(c));
        }
        assert(closed_under(g, seen.to_set()));
        lemma_closed_holds_reachable(g, seen.to_set(), s0, y);
    }
}

/// How `target` stands to `other` in `g`.
pub open spec fn relation_of(g: TaskGraph, target: KanbanId, other: KanbanId) -> TaskRelation {
    if target == other {
        TaskRelation::TheItemItself
    } else if reaches_by_step(g, other, target) {
        TaskRelation::ChildOf
    } else if reaches_by_step(g, target, other) {
        TaskRelation::ParentOf
    } else {
        TaskRelation::Unrelated
    }
}

/// The predicate that keeps the tasks that depend directly on `id`.
pub open spec fn depends_on(id: KanbanId) -> spec_fn(TaskView) -> bool {
    |t: TaskView| t.child_tasks.contains(id)
}

/// A task with this id and nothing else.
pub open spec fn fresh_task(id: KanbanId) -> TaskView {
    TaskView {
        id,
        name: Seq::empty(),
        description: Seq::empty(),
        completed: None,
        category: None,
        priority: None,
        tags: Seq::empty(),
        child_tasks: Seq::empty(),
        time_records: Seq::empty(),
    }
}

proof fn lemma_single_start(g: TaskGraph, c: KanbanId)
    ensures
        forall|y: KanbanId| reached_from(g, seq![c], y) <==> reaches(g, c, y),
{
    assert forall|y: KanbanId| reached_from(g, seq![c], y) <==> reaches(g, c, y) by {
        if reaches(g, c, y) {
            assert(seq![c][0] == c);
            assert(seq![c].contains(c));
        }
    }
}

proof fn lemma_pairs_update<V>(s: Seq<(Seq<char>, V)>, i: int, v: V)
    requires
        names_unique(s),
        0 <= i < s.len(),
    ensures
        names_unique(s.update(i, (s[i].0, v))),
        pairs_map(s.update(i, (s[i].0, v))) == pairs_map(s).insert(s[i].0, v),
{
    let t = s.update(i, (s[i].0, v));
    assert forall|a: int, b: int| 0 <= a < b < t.len() implies t[a].0 != t[b].0 by {
        assert(t[a].0 == s[a].0 && t[b].0 == s[b].0);
    }
    let h = pairs_map(s).insert(s[i].0, v);
    assert forall|k: Seq<char>| pairs_map(t).contains_key(k) <==> h.contains_key(k) by {
        if exists|j: int| 0 <= j < t.len() && #[trigger] t[j].0 == k {
            let j = choose|j: int| 0 <= j < t.len() && #[trigger] t[j].0 == k;
            assert(s[j].0 == k);
        }
        if exists|j: int| 0 <= j < s.len() && #[trigger] s[j].0 == k {
            let j = choose|j: int| 0 <= j < s.len() && #[trigger] s[j].0 == k;
            assert(t[j].0 == k);
        }
    }
    assert forall|k: Seq<char>| pairs_map(t).contains_key(k) implies pairs_map(t)[k] == h[k] by {
        let j = choose|j: int| 0 <= j < t.len() && #[trigger] t[j].0 == k;
        lemma_pairs_at(t, j);
        if j != i {
            lemma_pairs_at(s, j);
        }
    }
    assert(pairs_map(t) =~= h);
}

proof fn lemma_pairs_push<V>(s: Seq<(Seq<char>, V)>, k0: Seq<char>, v: V)
    requires
        names_unique(s),
        !pairs_map(s).contains_key(k0),
    ensures
        names_unique(s.push((k0, v))),
        pairs_map(s.push((k0, v))) == pairs_map(s).insert(k0, v),
{
    let t = s.push((k0, v));
    assert forall|a: int, b: int| 0 <= a < b < t.len() implies t[a].0 != t[b].0 by {
        if b == s.len() {
            assert(s[a].0 == t[a].0);
        }
    }
    let h = pairs_map(s).insert(k0, v);
    assert forall|k: Seq<char>| pairs_map(t).contains_key(k) <==> h.contains_key(k) by {
        if exists|j: int| 0 <= j < t.len() && #[trigger] t[j].0 == k {
            let j = choose|j: int| 0 <= j < t.len() && #[trigger] t[j].0 == k;
            if j < s.len() {
                assert(s[j].0 == k);
            }
        }
        if exists|j: int| 0 <= j < s.len() && #[trigger] s[j].0 == k {
            let j = choose|j: int| 0 <= j < s.len() && #[trigger] s[j].0 == k;
            assert(t[j].0 == k);
        }
        if k == k0 {
            assert(t[s.len() as int].0 == k);
        }
    }
    assert forall|k: Seq<char>| pairs_map(t).contains_key(k) implies pairs_map(t)[k] == h[k] by {
        let j = choose|j: int| 0 <= j < t.len() && #[trigger] t[j].0 == k;
        lemma_pairs_at(t, j);
        if j < s.len() {
            lemma_pairs_at(s, j);
        }
    }
    assert(pairs_map(t) =~= h);
}

/// The document. Tasks are kept sorted by id; priority and category names
/// are distinct.
#[derive(Clone, Debug)]
pub struct KanbanDocument {
    tasks: Vec<KanbanItem>,
    priorities: Vec<(String, i32)>,
    categories: Vec<(String, KanbanCategoryStyle)>,
    next_id: KanbanId,
}

impl KanbanDocument {
    /// The tasks in increasing order of id.
    pub closed spec fn task_seq(&self) -> Seq<TaskView> {
        self.tasks@.map_values(|t: KanbanItem| t@)
    }

    /// The priority weights, in the order they were first set.
    pub closed spec fn priority_seq(&self) -> Seq<(Seq<char>, i32)> {
        self.priorities@.map_values(|p: (String, i32)| (p.0@, p.1))
    }

    /// The category styles, in the order they were first set.
    pub closed spec fn category_seq(&self) -> Seq<(Seq<char>, KanbanCategoryStyle)> {
        self.categories@.map_values(|p: (String, KanbanCategoryStyle)| (p.0@, p.1))
    }

    /// The id that allocation tries first.
    pub closed spec fn next_id_spec(&self) -> KanbanId {
        self.next_id
    }

    /// The tasks by id.
    pub open spec fn graph(&self) -> TaskGraph {
        graph_of(self.task_seq())
    }

    pub open spec fn priority_map(&self) -> Map<Seq<char>, i32> {
        pairs_map(self.priority_seq())
    }

    pub open spec fn category_map(&self) -> Map<Seq<char>, KanbanCategoryStyle> {
        pairs_map(self.category_seq())
    }

    /// Tasks sorted by id, each well formed; names distinct.
    pub open spec fn wf(&self) -> bool {
        &&& ids_increasing(self.task_seq())
        &&& forall|i: int| 0 <= i < self.task_seq().len() ==> (#[trigger] self.task_seq()[i]).wf()
        &&& names_unique(self.priority_seq())
        &&& names_unique(self.category_seq())
    }

    /// An empty document with the weights High 10, Medium 5 and Low 1.
    pub fn new() -> (r: Self)
        ensures
            r.wf(),
            r.task_seq() == Seq::<TaskView>::empty(),
            r.category_seq() == Seq::<(Seq<char>, KanbanCategoryStyle)>::empty(),
            r.priority_seq() == seq![("High"@, 10i32), ("Medium"@, 5i32), ("Low"@, 1i32)],
            r.next_id_spec() == 0,
    {
        let mut priorities: Vec<(String, i32)> = Vec::new();
        priorities.push(("High".to_string(), 10));
        priorities.push(("Medium".to_string(), 5));
        priorities.push(("Low".to_string(), 1));
        let r = KanbanDocument { tasks: Vec::new(), priorities, categories: Vec::new(), next_id: 0 };
        proof {
            reveal_strlit("High");
            reveal_strlit("Medium");
            reveal_strlit("Low");
            assert(r.task_seq() =~= Seq::<TaskView>::empty());
            assert(r.category_seq() =~= Seq::<(Seq<char>, KanbanCategoryStyle)>::empty());
            assert(r.priority_seq() =~= seq![("High"@, 10i32), ("Medium"@, 5i32), ("Low"@, 1i32)]);
            assert("High"@.len() == 4 && "Medium"@.len() == 6 && "Low"@.len() == 3);
            assert(names_unique(r.priority_seq()));
        }
        r
    }

    /// A document with no tasks, weights or styles.
    pub fn empty() -> (r: Self)
        ensures
            r.wf(),
            r.task_seq() == Seq::<TaskView>::empty(),
            r.priority_seq() == Seq::<(Seq<char>, i32)>::empty(),
            r.category_seq() == Seq::<(Seq<char>, KanbanCategoryStyle)>::empty(),
            r.next_id_spec() == 0,
    {
        let r = KanbanDocument { tasks: Vec::new(), priorities: Vec::new(), categories: Vec::new(), next_id: 0 };
        assert(r.task_seq() =~= Seq::<TaskView>::empty());
        assert(r.priority_seq() =~= Seq::<(Seq<char>, i32)>::empty());
        assert(r.category_seq() =~= Seq::<(Seq<char>, KanbanCategoryStyle)>::empty());
        r
    }

    /// Position of the task with this id.
    fn index_of(&self, id: KanbanId) -> (r: Option<usize>)
        ensures
            match r {
                Some(i) => i < self.task_seq().len() && self.task_seq()[i as int].id == id,
                None => !has_id(self.task_seq(), id),
            },
    {
        let n = self.tasks.len();
        let mut i: usize = 0;
        while i < n
            invariant
                n == self.tasks@.len(),
                0 <= i <= n,
                forall|k: int| 0 <= k < i ==> self.task_seq()[k].id != id,
            decreases n - i,
        {
            if self.tasks[i].id == id {
                return Some(i);
            }
            i = i + 1;
        }
        None
    }

    /// The task with this id, if there is one.
    pub fn get_task(&self, id: KanbanId) -> (r: Option<&KanbanItem>)
        requires
            self.wf(),
        ensures
            match r {
                Some(t) => self.graph().contains_key(id) && t@ == self.graph()[id],
                None => !self.graph().contains_key(id),
            },
    {
        match self.index_of(id) {
            Some(i) => {
                proof {
                    lemma_graph_at(self.task_seq(), i as int);
                }
                Some(&self.tasks[i])
            },
            None => None,
        }
    }

    /// Allocate an id that no task has: the first free id from the counter
    /// upwards, or, when every id from there to the largest is taken, the
    /// first free id from the smallest. The counter moves past it.
    pub fn get_next_id(&mut self) -> (r: KanbanId)
        requires
            old(self).wf(),
            old(self).task_seq().len() < 0x1_0000_0000,
        ensures
            final(self).wf(),
            !final(self).graph().contains_key(r),
            final(self).task_seq() == old(self).task_seq(),
            final(self).priority_seq() == old(self).priority_seq(),
            final(self).category_seq() == old(self).category_seq(),
            final(self).next_id_spec() == after(r),
            allocated(old(self).task_seq(), old(self).next_id_spec(), r),
    {
        let ghost s = self.task_seq();
        let n = self.tasks.len();
        let c = self.next_id;
        let mut p: usize = 0;
        while p < n && self.tasks[p].id < c
            invariant
                n == self.tasks@.len(),
                s == self.task_seq(),
                c == self.next_id,
                0 <= p <= n,
                forall|k: int| 0 <= k < p ==> s[k].id < c,
            decreases n - p,
        {
            p = p + 1;
        }
        let ghost start_pos = p as int;
        let mut cand: i64 = c as i64;
        while p < n && self.tasks[p].id as i64 == cand
            invariant
                n == self.tasks@.len(),
                s == self.task_seq(),
                ids_increasing(s),
                c == self.next_id,
                start_pos <= p <= n,
                cand == c + (p - start_pos),
                forall|k: int| 0 <= k < start_pos ==> s[k].id < c,
                start_pos < n ==> s[start_pos].id >= c,
                p > start_pos ==> s[p - 1].id == cand - 1,
                all_taken(s, c as int, cand - 1),
            decreases n - p,
        {
            assert(has_id(s, cand as KanbanId)) by {
                assert(s[p as int].id == cand);
            }
            assert forall|k: KanbanId| c <= k <= cand implies has_id(s, k) by {
                if k == cand {
                    assert(s[p as int].id == k);
                }
            }
            p = p + 1;
            cand = cand + 1;
        }
        let r: KanbanId;
        if cand <= i32::MAX as i64 {
            r = cand as KanbanId;
            proof {
                if has_id(s, r) {
                    let j = choose|j: int| 0 <= j < s.len() && #[trigger] s[j].id == r;
                    if j < start_pos {
                    } else if j < p {
                        assert(s[j].id <= s[p - 1].id);
                    } else if j == p {
                    } else {
                        assert(s[p as int].id < s[j].id);
                        if p > start_pos {
                            assert(s[p - 1].id < s[p as int].id);
                        }
                    }
                }
            }
        } else {
            let mut q: usize = 0;
            while q < n && self.tasks[q].id as i64 == i32::MIN as i64 + q as i64
                invariant
                    n == self.tasks@.len(),
                    n < 0x1_0000_0000,
                    s == self.task_seq(),
                    ids_increasing(s),
                    0 <= q <= n,
                    forall|k: int| 0 <= k < q ==> s[k].id == i32::MIN + k,
                    all_taken(s, i32::MIN as int, i32::MIN + q - 1),
                decreases n - q,
            {
                assert forall|k: KanbanId| i32::MIN <= k <= i32::MIN + q implies has_id(s, k) by {
                    if k == i32::MIN + q {
                        assert(s[q as int].id == k);
                    }
                }
                q = q + 1;
            }
            r = (i32::MIN as i64 + q as i64) as KanbanId;
            proof {
                if has_id(s, r) {
                    let j = choose|j: int| 0 <= j < s.len() && #[trigger] s[j].id == r;
                    if j < q {
                    } else if j == q {
                    } else {
                        assert(s[q as int].id < s[j].id);
                        if q > 0 {
                            assert(s[q - 1].id < s[q as int].id);
                        } else {
                            assert(s[q as int].id >= i32::MIN);
                        }
                    }
                }
            }
        }
        self.next_id = if r == i32::MAX { i32::MIN } else { r + 1 };
        r
    }

    /// Insert `item`, or replace the task with its id. Returns the event that
    /// undoes it: the former value where there was one, else the creation. A
    /// category that no style names yet gets the plain style.
    pub fn replace_task(&mut self, item: &KanbanItem) -> (r: UndoItem)
        requires
            old(self).wf(),
            item@.wf(),
        ensures
            final(self).wf(),
            final(self).graph() == old(self).graph().insert(item.id, item@),
            final(self).task_seq().len() == old(self).task_seq().len() + if old(self).graph().contains_key(item.id) {
                0int
            } else {
                1int
            },
            final(self).priority_seq() == old(self).priority_seq(),
            final(self).next_id_spec() == old(self).next_id_spec(),
            match item@.category {
                Some(c) => if old(self).category_map().contains_key(c) {
                    final(self).category_seq() == old(self).category_seq()
                } else {
                    final(self).category_seq() == old(self).category_seq().push((c, plain_style()))
                },
                None => final(self).category_seq() == old(self).category_seq(),
            },
            match r {
                UndoItem::Modification(me) => old(self).graph().contains_key(item.id)
                    && me.former_item@ == old(self).graph()[item.id],
                UndoItem::Create(ce) => !old(self).graph().contains_key(item.id)
                    && ce.parent_id is None && ce.new_task@ == item@,
                UndoItem::Delete(_) => false,
            },
    {
        let ghost s = self.task_seq();
        let n = self.tasks.len();
        let mut pos: usize = 0;
        while pos < n && self.tasks[pos].id < item.id
            invariant
                n == self.tasks@.len(),
                s == self.task_seq(),
                0 <= pos <= n,
                forall|k: int| 0 <= k < pos ==> s[k].id < item.id,
            decreases n - pos,
        {
            pos = pos + 1;
        }
        let result;
        if pos < n && self.tasks[pos].id == item.id {
            let former = self.tasks[pos].snapshot();
            proof {
                lemma_graph_at(s, pos as int);
                lemma_graph_update(s, pos as int, item@);
            }
            self.tasks.set(pos, item.snapshot());
            assert(self.task_seq() =~= s.update(pos as int, item@));
            result = UndoItem::Modification(ModificationEvent { former_item: former });
        } else {
            proof {
                assert forall|k: int| pos <= k < s.len() implies s[k].id > item.id by {
                    if k > pos {
                        assert(s[pos as int].id < s[k].id);
                    }
                }
                lemma_graph_insert(s, pos as int, item@);
            }
            self.tasks.insert(pos, item.snapshot());
            assert(self.task_seq() =~= s.insert(pos as int, item@));
            result = UndoItem::Create(CreationEvent { parent_id: None, new_task: item.snapshot() });
        }
        assert forall|i: int| 0 <= i < self.task_seq().len() implies (#[trigger] self.task_seq()[i]).wf() by {
            if self.task_seq()[i].id != item.id {
                lemma_graph_at(self.task_seq(), i);
                let j = choose|j: int| 0 <= j < s.len() && #[trigger] s[j].id == self.task_seq()[i].id;
                lemma_graph_at(s, j);
            }
        }
        match &item.category {
            Some(c) => {
                if self.category_index(c).is_none() {
                    let ghost cs = self.category_seq();
                    self.categories.push((c.clone(), KanbanCategoryStyle::default()));
                    assert(self.category_seq() =~= cs.push((c@, plain_style())));
                }
            },
            None => {},
        }
        result
    }

    /// Position of the style of category `name`.
    fn category_index(&self, name: &String) -> (r: Option<usize>)
        requires
            names_unique(self.category_seq()),
        ensures
            match r {
                Some(i) => i < self.category_seq().len() && self.category_seq()[i as int].0 == name@,
                None => !self.category_map().contains_key(name@),
            },
            r is Some <==> self.category_map().contains_key(name@),
    {
        let n = self.categories.len();
        let mut i: usize = 0;
        while i < n
            invariant
                n == self.categories@.len(),
                names_unique(self.category_seq()),
                0 <= i <= n,
                forall|k: int| 0 <= k < i ==> self.category_seq()[k].0 != name@,
            decreases n - i,
        {
            if self.categories[i].0 == *name {
                proof {
                    lemma_pairs_at(self.category_seq(), i as int);
                }
                return Some(i);
            }
            i = i + 1;
        }
        None
    }

    /// Remove `item`'s task and take its id out of every dependency set.
    /// The event carries the task as it was stored (`item` itself where no
    /// task has its id) and, in increasing order, the ids of the tasks that
    /// depended on it.
    pub fn remove_task(&mut self, item: &KanbanItem) -> (r: UndoItem)
        requires
            old(self).wf(),
        ensures
            final(self).wf(),
            final(self).graph() == unlinked(old(self).graph(), item.id),
            final(self).task_seq().len() == old(self).task_seq().len() - if old(self).graph().contains_key(item.id) {
                1int
            } else {
                0int
            },
            final(self).priority_seq() == old(self).priority_seq(),
            final(self).category_seq() == old(self).category_seq(),
            final(self).next_id_spec() == old(self).next_id_spec(),
            match r {
                UndoItem::Delete(de) => de.former_item@ == (if old(self).graph().contains_key(item.id) {
                    old(self).graph()[item.id]
                } else {
                    item@
                })
                    && strictly_increasing(de.parent_ids@)
                    && de.parent_ids@.to_set() == parents_in(old(self).graph(), item.id),
                _ => false,
            },
    {
        let former = match self.index_of(item.id) {
            Some(p) => {
                proof {
                    lemma_graph_at(self.task_seq(), p as int);
                }
                self.tasks[p].snapshot()
            },
            None => item.snapshot(),
        };
        let ghost s = self.task_seq();
        let ghost g = self.graph();
        let id = item.id;
        let n = self.tasks.len();
        let mut parents: Vec<KanbanId> = Vec::new();
        let mut i: usize = 0;
        while i < n
            invariant
                n == self.tasks@.len(),
                s.len() == n,
                id == item.id,
                ids_increasing(s),
                forall|k: int| 0 <= k < n ==> (#[trigger] s[k]).wf(),
                0 <= i <= n,
                forall|k: int| 0 <= k < i ==> #[trigger] self.task_seq()[k] == s[k].with_children(s[k].child_tasks.filter(other_than(id))),
                forall|k: int| i <= k < n ==> #[trigger] self.task_seq()[k] == s[k],
                strictly_increasing(parents@),
                forall|x: KanbanId| parents@.contains(x) <==> exists|k: int| 0 <= k < i && #[trigger] s[k].id == x && s[k].child_tasks.contains(id),
                forall|k: int| 0 <= k < parents@.len() ==> exists|j: int| 0 <= j < i && #[trigger] s[j].id == #[trigger] parents@[k],
                self.priority_seq() == old(self).priority_seq(),
                self.category_seq() == old(self).category_seq(),
                self.next_id == old(self).next_id,
            decreases n - i,
        {
            assert(self.task_seq()[i as int] == s[i as int]);
            assert(self.tasks@[i as int].child_tasks@ == s[i as int].child_tasks);
            let has = crate::item::contains_id(&self.tasks[i].child_tasks, id);
            if has {
                let mut t = self.tasks[i].snapshot();
                t.remove_child(item);
                let ghost before = self.task_seq();
                self.tasks.set(i, t);
                assert(self.task_seq() =~= before.update(i as int, t@));
                let tid = self.tasks[i].id;
                proof {
                    assert(self.task_seq()[i as int].id == tid);
                    assert(tid == s[i as int].id);
                    assert forall|k: int| 0 <= k < parents@.len() implies parents@[k] < tid by {
                        let j = choose|j: int| 0 <= j < i && #[trigger] s[j].id == #[trigger] parents@[k];
                        assert(s[j].id < s[i as int].id);
                    }
                }
                let ghost before_parents = parents@;
                parents.push(tid);
                proof {
                    assert(s[i as int].child_tasks.contains(id));
                    assert forall|x: KanbanId| parents@.contains(x) <==> exists|k: int| 0 <= k < i + 1 && #[trigger] s[k].id == x && s[k].child_tasks.contains(id) by {
                        if x == tid {
                            assert(parents@[parents@.len() - 1] == x);
                            assert(s[i as int].id == x);
                        }
                        if parents@.contains(x) && x != tid {
                            let m = choose|m: int| 0 <= m < parents@.len() && parents@[m] == x;
                            assert(before_parents[m] == x);
                            assert(before_parents.contains(x));
                        }
                        if before_parents.contains(x) {
                            let m = choose|m: int| 0 <= m < before_parents.len() && before_parents[m] == x;
                            assert(parents@[m] == x);
                        }
                        if exists|k: int| 0 <= k < i + 1 && #[trigger] s[k].id == x && s[k].child_tasks.contains(id) {
                            let k = choose|k: int| 0 <= k < i + 1 && #[trigger] s[k].id == x && s[k].child_tasks.contains(id);
                            if k < i {
                                assert(before_parents.contains(x));
                            }
                        }
                    }
                    assert forall|k: int| 0 <= k < parents@.len() implies exists|j: int| 0 <= j < i + 1 && #[trigger] s[j].id == #[trigger] parents@[k] by {
                        if k == parents@.len() - 1 {
                            assert(s[i as int].id == parents@[k]);
                        } else {
                            assert(parents@[k] == before_parents[k]);
                        }
                    }
                }
            } else {
                proof {
                    crate::item::lemma_filter_absent(s[i as int].child_tasks, id);
                    assert(s[i as int].with_children(s[i as int].child_tasks) == s[i as int]);
                    assert forall|x: KanbanId| parents@.contains(x) <==> exists|k: int| 0 <= k < i + 1 && #[trigger] s[k].id == x && s[k].child_tasks.contains(id) by {
                        if exists|k: int| 0 <= k < i + 1 && #[trigger] s[k].id == x && s[k].child_tasks.contains(id) {
                            let k = choose|k: int| 0 <= k < i + 1 && #[trigger] s[k].id == x && s[k].child_tasks.contains(id);
                            assert(k != i);
                        }
                    }
                }
            }
            i = i + 1;
        }
        let ghost s2 = self.task_seq();
        let ghost g2 = Map::new(
            |k: KanbanId| g.contains_key(k),
            |k: KanbanId| g[k].with_children(g[k].child_tasks.filter(other_than(id))),
        );
        proof {
            assert(ids_increasing(s2)) by {
                assert forall|a: int, b: int| 0 <= a < b < s2.len() implies s2[a].id < s2[b].id by {
                    assert(s2[a].id == s[a].id && s2[b].id == s[b].id);
                }
            }
            assert forall|k: KanbanId| graph_of(s2).contains_key(k) <==> g2.contains_key(k) by {
                if has_id(s2, k) {
                    let j = choose|j: int| 0 <= j < s2.len() && #[trigger] s2[j].id == k;
                    assert(s[j].id == k);
                }
                if has_id(s, k) {
                    let j = choose|j: int| 0 <= j < s.len() && #[trigger] s[j].id == k;
                    assert(s2[j].id == k);
                }
            }
            assert forall|k: KanbanId| graph_of(s2).contains_key(k) implies graph_of(s2)[k] == g2[k] by {
                let j = choose|j: int| 0 <= j < s2.len() && #[trigger] s2[j].id == k;
                lemma_graph_at(s2, j);
                lemma_graph_at(s, j);
            }
            assert(graph_of(s2) =~= g2);
            assert forall|x: KanbanId| parents@.to_set().contains(x) <==> parents_in(g, id).contains(x) by {
                if parents@.contains(x) {
                    let k = choose|k: int| 0 <= k < n && #[trigger] s[k].id == x && s[k].child_tasks.contains(id);
                    lemma_graph_at(s, k);
                }
                if parents_in(g, id).contains(x) {
                    let k = choose|k: int| 0 <= k < s.len() && #[trigger] s[k].id == x;
                    lemma_graph_at(s, k);
                }
            }
            assert(parents@.to_set() =~= parents_in(g, id));
        }
        match self.index_of(id) {
            Some(pos) => {
                proof {
                    lemma_graph_remove(s2, pos as int);
                    assert(s[pos as int].id == id);
                    lemma_graph_at(s, pos as int);
                }
                self.tasks.remove(pos);
                assert(self.task_seq() =~= s2.remove(pos as int));
                assert(unlinked(g, id) =~= g2.remove(id));
            },
            None => {
                assert(unlinked(g, id) =~= g2);
                proof {
                    if has_id(s, id) {
                        let j = choose|j: int| 0 <= j < s.len() && #[trigger] s[j].id == id;
                        assert(s2[j].id == id);
                    }
                }
            },
        }
        assert forall|i: int| 0 <= i < self.task_seq().len() implies (#[trigger] self.task_seq()[i]).wf() by {
            let t = self.task_seq()[i];
            lemma_graph_at(self.task_seq(), i);
            let j = choose|j: int| 0 <= j < s.len() && #[trigger] s[j].id == t.id;
            lemma_graph_at(s, j);
            assert(unlinked(g, id)[t.id] == t);
            let f = other_than(id);
            assert forall|a: int, b: int| 0 <= a < b < t.child_tasks.len() implies t.child_tasks[a] < t.child_tasks[b] by {
                crate::item::lemma_filter_sorted(s[j].child_tasks, id);
            }
        }
        UndoItem::Delete(DeletionEvent { former_item: former, parent_ids: parents })
    }

    /// The tasks by id, with `second` and then `first` put in: tasks that an
    /// edit holds but has not written back yet.
    pub open spec fn graph_over(&self, first: Option<TaskView>, second: Option<TaskView>) -> TaskGraph {
        overlay(overlay(self.graph(), second), first)
    }

    /// The dependencies of `id` in `graph_over`, none where it is no task.
    fn deps_of<'a>(&'a self, first: Option<&'a KanbanItem>, second: Option<&'a KanbanItem>, id: KanbanId) -> (r: Option<&'a Vec<KanbanId>>)
        requires
            self.wf(),
        ensures
            match r {
                Some(v) => v@ == deps(self.graph_over(opt_view(first), opt_view(second)), id),
                None => deps(self.graph_over(opt_view(first), opt_view(second)), id) == Seq::<KanbanId>::empty(),
            },
            forall|c: KanbanId| #[trigger] deps(self.graph_over(opt_view(first), opt_view(second)), id).contains(c)
                ==> self.universe(opt_view(first), opt_view(second)).contains(c),
    {
        let ghost g = self.graph_over(opt_view(first), opt_view(second));
        if let Some(f) = first {
            if f.id == id {
                proof {
                    assert forall|c: KanbanId| #[trigger] deps(g, id).contains(c) implies self.universe(opt_view(first), opt_view(second)).contains(c) by {
                        let k = choose|k: int| 0 <= k < f.child_tasks@.len() && f.child_tasks@[k] == c;
                        let u = f.child_tasks@ + self.second_children(opt_view(second)) + all_children(self.task_seq());
                        assert(u[k] == c);
                    }
                }
                return Some(&f.child_tasks);
            }
        }
        if let Some(t) = second {
            if t.id == id {
                proof {
                    assert forall|c: KanbanId| #[trigger] deps(g, id).contains(c) implies self.universe(opt_view(first), opt_view(second)).contains(c) by {
                        let k = choose|k: int| 0 <= k < t.child_tasks@.len() && t.child_tasks@[k] == c;
                        let a = self.first_children(opt_view(first));
                        let u = a + t.child_tasks@ + all_children(self.task_seq());
                        assert(u[a.len() + k] == c);
                    }
                }
                return Some(&t.child_tasks);
            }
        }
        match self.index_of(id) {
            Some(i) => {
                proof {
                    lemma_graph_at(self.task_seq(), i as int);
                    assert forall|c: KanbanId| #[trigger] deps(g, id).contains(c) implies self.universe(opt_view(first), opt_view(second)).contains(c) by {
                        lemma_all_children(self.task_seq(), i as int, c);
                        let a = self.first_children(opt_view(first)) + self.second_children(opt_view(second));
                        let b = all_children(self.task_seq());
                        let k = choose|k: int| 0 <= k < b.len() && b[k] == c;
                        assert((a + b)[a.len() + k] == c);
                    }
                }
                Some(&self.tasks[i].child_tasks)
            },
            None => None,
        }
    }

    pub open spec fn first_children(&self, first: Option<TaskView>) -> Seq<KanbanId> {
        match first {
            Some(f) => f.child_tasks,
            None => Seq::empty(),
        }
    }

    pub open spec fn second_children(&self, second: Option<TaskView>) -> Seq<KanbanId> {
        match second {
            Some(f) => f.child_tasks,
            None => Seq::empty(),
        }
    }

    /// Every id that a dependency list of `graph_over` names.
    pub open spec fn universe(&self, first: Option<TaskView>, second: Option<TaskView>) -> Seq<KanbanId> {
        self.first_children(first) + self.second_children(second) + all_children(self.task_seq())
    }

    /// Every id reachable, in zero steps or more, from one of `starts` in
    /// `graph_over(first, second)`.
    fn reachable(&self, first: Option<&KanbanItem>, second: Option<&KanbanItem>, starts: Vec<KanbanId>) -> (seen: Vec<KanbanId>)
        requires
            self.wf(),
        ensures
            forall|y: KanbanId| seen@.contains(y)
                <==> reached_from(self.graph_over(opt_view(first), opt_view(second)), starts@, y),
    {
        let ghost g = self.graph_over(opt_view(first), opt_view(second));
        let ghost un = self.universe(opt_view(first), opt_view(second));
        let ghost st = starts@;
        let ghost u = (st + un).to_set();
        proof {
            vstd::seq_lib::seq_to_set_is_finite(st + un);
            lemma_concat_contains(st, un);
            lemma_dfs_init(g, st, u);
        }
        let mut stack = starts;
        let mut seen: Vec<KanbanId> = Vec::new();
        while stack.len() > 0
            invariant
                self.wf(),
                g == self.graph_over(opt_view(first), opt_view(second)),
                un == self.universe(opt_view(first), opt_view(second)),
                u == (st + un).to_set(),
                forall|y: KanbanId| #[trigger] un.contains(y) ==> u.contains(y),
                dfs_inv(g, st, u, seen@, stack@),
                seen@.len() <= u.len(),
            decreases u.len() - seen@.len(), stack@.len(),
        {
            let ghost before = stack@;
            let x = stack.pop().unwrap();
            assert(before == stack@.push(x));
            let already = crate::item::contains_id(&seen, x);
            if already {
                proof {
                    lemma_dfs_pop_seen(g, st, u, seen@, stack@, x);
                }
                continue;
            }
            let ghost seen0 = seen@;
            let ghost stack0 = stack@;
            seen.push(x);
            match self.deps_of(first, second, x) {
                Some(ch) => {
                    push_unseen(&mut stack, &seen, ch);
                    proof {
                        assert(seen@ == seen0.push(x));
                        assert forall|c: KanbanId| #[trigger] edge(g, x, c) <==> ch@.contains(c) by {}
                        assert forall|c: KanbanId| #[trigger] ch@.contains(c) implies u.contains(c) by {
                            assert(deps(g, x).contains(c));
                            assert(un.contains(c));
                        }
                        lemma_dfs_visit(g, st, u, seen0, stack0, x, ch@, stack@);
                    }
                },
                None => {
                    proof {
                        assert(seen@ == seen0.push(x));
                        assert forall|c: KanbanId| #[trigger] edge(g, x, c) <==> Seq::<KanbanId>::empty().contains(c) by {}
                        lemma_dfs_visit(g, st, u, seen0, stack0, x, Seq::empty(), stack@);
                    }
                },
            }
        }
        proof {
            assert(stack@ =~= Seq::<KanbanId>::empty());
            lemma_dfs_done(g, st, u, seen@);
        }
        seen
    }

    /// Whether `child` can become a dependency of `parent` without closing a
    /// cycle: they differ, and `parent` is not reachable from `child`. Both
    /// may be edits not yet written back: their values stand in for what
    /// the document holds under their ids.
    pub fn can_add_as_child(&self, parent: &KanbanItem, child: &KanbanItem) -> (r: bool)
        requires
            self.wf(),
        ensures
            r == (parent.id != child.id && !reaches(self.graph_over(Some(parent@), Some(child@)), child.id, parent.id)),
    {
        if parent.id == child.id {
            return false;
        }
        let mut starts: Vec<KanbanId> = Vec::new();
        starts.push(child.id);
        assert(starts@ =~= seq![child.id]);
        let seen = self.reachable(Some(parent), Some(child), starts);
        proof {
            lemma_single_start(self.graph_over(Some(parent@), Some(child@)), child.id);
        }
        !crate::item::contains_id(&seen, parent.id)
    }

    /// The status of task `id`.
    pub fn task_status(&self, id: &KanbanId) -> (r: Status)
        requires
            self.wf(),
            self.graph().contains_key(*id),
        ensures
            r == status_of(self.graph(), *id),
    {
        let t = self.get_task(*id).unwrap();
        if t.completed.is_some() {
            return Status::Completed;
        }
        let n = t.child_tasks.len();
        let mut i: usize = 0;
        while i < n
            invariant
                self.wf(),
                n == t.child_tasks@.len(),
                self.graph().contains_key(*id),
                t@ == self.graph()[*id],
                t.completed is None,
                0 <= i <= n,
                forall|k: int| 0 <= k < i ==> !self.graph().contains_key(#[trigger] t.child_tasks@[k])
                    || self.graph()[t.child_tasks@[k]].completed is Some,
            decreases n - i,
        {
            let c = t.child_tasks[i];
            if let Some(ct) = self.get_task(c) {
                if ct.completed.is_none() {
                    assert(t.child_tasks@[i as int] == c);
                    assert(self.graph()[*id].child_tasks.contains(c));
                    assert(self.graph().contains_key(c));
                    assert(self.graph()[c].completed is None);
                    return Status::Blocked;
                }
            }
            i = i + 1;
        }
        assert forall|c: KanbanId| #![trigger self.graph()[*id].child_tasks.contains(c)]
            self.graph()[*id].child_tasks.contains(c) && self.graph().contains_key(c) implies self.graph()[c].completed is Some by {
            let k = choose|k: int| 0 <= k < t.child_tasks@.len() && t.child_tasks@[k] == c;
        }
        Status::Ready
    }

    /// How `target` stands to `other`.
    pub fn get_relation(&self, target: KanbanId, other: KanbanId) -> (r: TaskRelation)
        requires
            self.wf(),
            self.graph().contains_key(target),
            self.graph().contains_key(other),
        ensures
            r == relation_of(self.graph(), target, other),
    {
        if target == other {
            return TaskRelation::TheItemItself;
        }
        let task_a = self.get_task(target).unwrap();
        let task_b = self.get_task(other).unwrap();
        if task_a.is_child_of(task_b, self) {
            return TaskRelation::ChildOf;
        }
        if task_b.is_child_of(task_a, self) {
            return TaskRelation::ParentOf;
        }
        TaskRelation::Unrelated
    }

    /// The weight of the task's priority; zero where it has none or the
    /// name has no weight.
    pub fn task_priority_value(&self, task: &i32) -> (r: i32)
        requires
            self.wf(),
            self.graph().contains_key(*task),
        ensures
            r == weight_of(self.priority_map(), self.graph()[*task].priority),
    {
        let t = self.get_task(*task).unwrap();
        match &t.priority {
            Some(name) => match self.priority_index(name) {
                Some(i) => {
                    proof {
                        lemma_pairs_at(self.priority_seq(), i as int);
                    }
                    self.priorities[i].1
                },
                None => 0,
            },
            None => 0,
        }
    }

    /// Position of the weight of priority `name`.
    fn priority_index(&self, name: &String) -> (r: Option<usize>)
        requires
            names_unique(self.priority_seq()),
        ensures
            match r {
                Some(i) => i < self.priority_seq().len() && self.priority_seq()[i as int].0 == name@,
                None => !self.priority_map().contains_key(name@),
            },
    {
        let n = self.priorities.len();
        let mut i: usize = 0;
        while i < n
            invariant
                n == self.priorities@.len(),
                names_unique(self.priority_seq()),
                0 <= i <= n,
                forall|k: int| 0 <= k < i ==> self.priority_seq()[k].0 != name@,
            decreases n - i,
        {
            if self.priorities[i].0 == *name {
                return Some(i);
            }
            i = i + 1;
        }
        None
    }

    /// The tasks that depend directly on `id`, in increasing order of id.
    pub fn parents_of(&self, id: KanbanId) -> (r: Vec<&KanbanItem>)
        ensures
            r@.map_values(|t: &KanbanItem| t@) == self.task_seq().filter(depends_on(id)),
    {
        let ghost s = self.task_seq();
        let mut r: Vec<&KanbanItem> = Vec::new();
        let n = self.tasks.len();
        let mut i: usize = 0;
        while i < n
            invariant
                n == self.tasks@.len(),
                s == self.task_seq(),
                0 <= i <= n,
                r@.map_values(|t: &KanbanItem| t@) == s.take(i as int).filter(depends_on(id)),
            decreases n - i,
        {
            let t = &self.tasks[i];
            proof {
                assert(s.take(i as int + 1) == s.take(i as int).push(t@));
                s.take(i as int).lemma_filter_push(t@, depends_on(id));
                assert(t.child_tasks@ == s[i as int].child_tasks);
            }
            let ghost r0 = r@;
            if crate::item::contains_id(&t.child_tasks, id) {
                r.push(t);
                assert(r@.map_values(|t: &KanbanItem| t@) =~= r0.map_values(|t: &KanbanItem| t@).push(t@));
            }
            i = i + 1;
        }
        assert(s.take(n as int) =~= s);
        r
    }

    /// Set the style of category `name`.
    pub fn replace_category_style(&mut self, name: &str, style: KanbanCategoryStyle)
        requires
            old(self).wf(),
        ensures
            final(self).wf(),
            final(self).category_map() == old(self).category_map().insert(name@, style),
            final(self).task_seq() == old(self).task_seq(),
            final(self).priority_seq() == old(self).priority_seq(),
            final(self).next_id_spec() == old(self).next_id_spec(),
    {
        let key = name.to_owned();
        let ghost cs = self.category_seq();
        match self.category_index(&key) {
            Some(i) => {
                self.categories.set(i, (key, style));
                proof {
                    assert(self.category_seq() =~= cs.update(i as int, (name@, style)));
                    lemma_pairs_update(cs, i as int, style);
                }
            },
            None => {
                self.categories.push((key, style));
                proof {
                    assert(self.category_seq() =~= cs.push((name@, style)));
                    lemma_pairs_push(cs, name@, style);
                }
            },
        }
    }

    /// Set the weight of priority `name`.
    pub fn set_priority(&mut self, name: &str, value: i32)
        requires
            old(self).wf(),
        ensures
            final(self).wf(),
            final(self).priority_map() == old(self).priority_map().insert(name@, value),
            final(self).task_seq() == old(self).task_seq(),
            final(self).category_seq() == old(self).category_seq(),
            final(self).next_id_spec() == old(self).next_id_spec(),
    {
        let key = name.to_owned();
        let ghost ps = self.priority_seq();
        match self.priority_index(&key) {
            Some(i) => {
                self.priorities.set(i, (key, value));
                proof {
                    assert(self.priority_seq() =~= ps.update(i as int, (name@, value)));
                    lemma_pairs_update(ps, i as int, value);
                }
            },
            None => {
                self.priorities.push((key, value));
                proof {
                    assert(self.priority_seq() =~= ps.push((name@, value)));
                    lemma_pairs_push(ps, name@, value);
                }
            },
        }
    }

    /// The style of category `name`, if it has one.
    pub fn get_category_style(&self, name: &String) -> (r: Option<KanbanCategoryStyle>)
        requires
            self.wf(),
        ensures
            match r {
                Some(st) => self.category_map().contains_key(name@) && st == self.category_map()[name@],
                None => !self.category_map().contains_key(name@),
            },
    {
        match self.category_index(name) {
            Some(i) => {
                proof {
                    lemma_pairs_at(self.category_seq(), i as int);
                }
                Some(self.categories[i].1)
            },
            None => None,
        }
    }

    /// The priority weights, lightest first; equal weights in the order
    /// they were first set.
    pub fn get_sorted_priorities(&self) -> (r: Vec<(String, i32)>)
        ensures
            r@.map_values(|p: (String, i32)| (p.0@, p.1)) == sorted_by_weight(self.priority_seq()),
    {
        let ghost v = self.priority_seq();
        let n = self.priorities.len();
        let mut r: Vec<(String, i32)> = Vec::new();
        let mut i: usize = 0;
        while i < n
            invariant
                n == self.priorities@.len(),
                v == self.priority_seq(),
                0 <= i <= n,
                r@.map_values(|p: (String, i32)| (p.0@, p.1)) == sorted_by_weight(v.take(i as int)),
            decreases n - i,
        {
            let x = (self.priorities[i].0.clone(), self.priorities[i].1);
            let ghost rv = r@.map_values(|p: (String, i32)| (p.0@, p.1));
            let m = r.len();
            let mut k: usize = 0;
            while k < m && r[k].1 <= x.1
                invariant
                    m == r@.len(),
                    rv == r@.map_values(|p: (String, i32)| (p.0@, p.1)),
                    0 <= k <= m,
                    forall|j: int| 0 <= j < k ==> rv[j].1 <= x.1,
                decreases m - k,
            {
                k = k + 1;
            }
            proof {
                assert(v.take(i as int + 1).drop_last() =~= v.take(i as int));
                assert(v.take(i as int + 1).last() == (x.0@, x.1));
                lemma_weight_insert_at(rv, (x.0@, x.1), k as int);
            }
            r.insert(k, x);
            assert(r@.map_values(|p: (String, i32)| (p.0@, p.1)) =~= rv.insert(k as int, (x.0@, x.1)));
            i = i + 1;
        }
        assert(v.take(n as int) =~= v);
        r
    }

    /// The priority weights, in the order they were first set.
    pub fn get_priorities(&self) -> (r: &Vec<(String, i32)>)
        ensures
            r@.map_values(|p: (String, i32)| (p.0@, p.1)) == self.priority_seq(),
    {
        &self.priorities
    }

    /// The category styles, in the order they were first set.
    pub fn get_categories(&self) -> (r: &Vec<(String, KanbanCategoryStyle)>)
        ensures
            r@.map_values(|p: (String, KanbanCategoryStyle)| (p.0@, p.1)) == self.category_seq(),
    {
        &self.categories
    }

    /// The id that allocation tries first.
    pub fn get_next_id_counter(&self) -> (r: KanbanId)
        ensures
            r == self.next_id_spec(),
    {
        self.next_id
    }

    /// Set the id that allocation tries first, as a loaded document had it.
    pub fn set_next_id_counter(&mut self, id: KanbanId)
        requires
            old(self).wf(),
        ensures
            final(self).wf(),
            final(self).next_id_spec() == id,
            final(self).task_seq() == old(self).task_seq(),
            final(self).priority_seq() == old(self).priority_seq(),
            final(self).category_seq() == old(self).category_seq(),
    {
        self.next_id = id;
    }

    /// Create a task with a fresh id, put it in the document and return a
    /// copy of it.
    pub fn get_new_task(&mut self) -> (r: KanbanItem)
        requires
            old(self).wf(),
            old(self).task_seq().len() < 0x1_0000_0000,
        ensures
            final(self).wf(),
            !old(self).graph().contains_key(r.id),
            r@ == fresh_task(r.id),
            allocated(old(self).task_seq(), old(self).next_id_spec(), r.id),
            final(self).next_id_spec() == after(r.id),
            final(self).graph() == old(self).graph().insert(r.id, r@),
            final(self).task_seq().len() == old(self).task_seq().len() + 1,
            final(self).priority_seq() == old(self).priority_seq(),
            final(self).category_seq() == old(self).category_seq(),
    {
        let new_task = KanbanItem::new(self);
        self.replace_task(&new_task);
        new_task
    }

    /// Every id reachable from `start`, in zero steps or more.
    pub fn reachable_from(&self, start: KanbanId) -> (r: Vec<KanbanId>)
        requires
            self.wf(),
        ensures
            forall|y: KanbanId| r@.contains(y) <==> reaches(self.graph(), start, y),
    {
        let mut starts: Vec<KanbanId> = Vec::new();
        starts.push(start);
        assert(starts@ =~= seq![start]);
        let r = self.reachable(None, None, starts);
        proof {
            assert(self.graph_over(None, None) == self.graph());
            lemma_single_start(self.graph(), start);
        }
        r
    }

    /// Every task, in increasing order of id.
    pub fn get_tasks(&self) -> (r: &Vec<KanbanItem>)
        ensures
            r@.map_values(|t: KanbanItem| t@) == self.task_seq(),
    {
        &self.tasks
    }
}

} // verus!

verus! {

impl KanbanItem {
    /// An empty task with a fresh id of `document`.
    pub fn new(document: &mut KanbanDocument) -> (r: Self)
        requires
            old(document).wf(),
            old(document).task_seq().len() < 0x1_0000_0000,
        ensures
            final(document).wf(),
            r@ == fresh_task(r.id),
            !final(document).graph().contains_key(r.id),
            allocated(old(document).task_seq(), old(document).next_id_spec(), r.id),
            final(document).next_id_spec() == after(r.id),
            final(document).task_seq() == old(document).task_seq(),
            final(document).priority_seq() == old(document).priority_seq(),
            final(document).category_seq() == old(document).category_seq(),
    {
        let id = document.get_next_id();
        let r = KanbanItem {
            id,
            name: String::new(),
            description: String::new(),
            completed: None,
            category: None,
            priority: None,
            tags: Vec::new(),
            child_tasks: Vec::new(),
            time_records: TimeRecords::new(),
        };
        assert(r@.tags =~= Seq::<Seq<char>>::empty());
        assert(r@ =~= fresh_task(id));
        r
    }

    /// Take `parent`'s category where its style says that dependencies
    /// created under it inherit it.
    pub fn inherit(&mut self, parent: &KanbanItem, document: &KanbanDocument)
        requires
            document.wf(),
        ensures
            match parent@.category {
                Some(c) => if document.category_map().contains_key(c)
                    && document.category_map()[c].children_inherit_category {
                    final(self)@ == (TaskView { category: Some(c), ..old(self)@ })
                } else {
                    final(self)@ == old(self)@
                },
                None => final(self)@ == old(self)@,
            },
    {
        if let Some(category) = &parent.category {
            if let Some(style) = document.get_category_style(category) {
                if style.children_inherit_category {
                    self.category = Some(category.clone());
                }
            }
        }
    }

    /// Whether `parent`'s task in `document` depends on `self`, directly
    /// or through other tasks.
    pub fn is_child_of(&self, parent: &Self, document: &KanbanDocument) -> (r: bool)
        requires
            document.wf(),
        ensures
            r == reaches_by_step(document.graph(), parent.id, self.id),
    {
        let ghost g = document.graph();
        match document.get_task(parent.id) {
            Some(t) => {
                let starts = crate::item::copy_ids(&t.child_tasks);
                let seen = document.reachable(None, None, starts);
                assert(document.graph_over(None, None) == g);
                let r = crate::item::contains_id(&seen, self.id);
                proof {
                    if r {
                        let s0 = choose|s0: KanbanId| t.child_tasks@.contains(s0) && #[trigger] reaches(g, s0, self.id);
                        assert(edge(g, parent.id, s0));
                    }
                    if reaches_by_step(g, parent.id, self.id) {
                        let c = choose|c: KanbanId| #[trigger] edge(g, parent.id, c) && reaches(g, c, self.id);
                        assert(reached_from(g, t.child_tasks@, self.id));
                    }
                }
                r
            },
            None => {
                assert(!reaches_by_step(g, parent.id, self.id));
                false
            },
        }
    }
}

} // verus!

verus! {

impl Default for KanbanDocument {
    fn default() -> (r: Self)
        ensures
            r.wf(),
            r.task_seq() == Seq::<TaskView>::empty(),
            r.priority_seq() == Seq::<(Seq<char>, i32)>::empty(),
            r.category_seq() == Seq::<(Seq<char>, KanbanCategoryStyle)>::empty(),
            r.next_id_spec() == 0,
    {
        KanbanDocument::empty()
    }
}

} // verus!
