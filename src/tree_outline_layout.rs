//! The outline view: tasks that nothing depends on at the top, each
//! followed, level by level, by what it depends on.
use vstd::prelude::*;
use crate::document::{lemma_graph_at_pub, lemma_select_step, select_ids, KanbanDocument};
use crate::filter::KanbanFilter;
use crate::graph::TaskGraph;
use crate::item::{KanbanId, KanbanItem, TaskView};
use crate::sorting::{sort_ids, sorted_by, ItemSort, SortRule};

verus! {

/// Task `t` is a dependency of no task of `s`.
pub open spec fn is_root(s: Seq<TaskView>) -> spec_fn(TaskView) -> bool {
    |t: TaskView| !exists|u: int| 0 <= u < s.len() && #[trigger] s[u].child_tasks.contains(t.id)
}

/// The entry for task `id` is listed: it is a task, passes `f`, and is not
/// a completed one that `ex` leaves out.
pub open spec fn keep(g: TaskGraph, f: KanbanFilter, ex: bool, id: KanbanId) -> bool {
    g.contains_key(id) && !(ex && g[id].completed is Some) && f.holds(g[id], g)
}

/// The ids of `c` that are tasks of `g`, in order.
pub open spec fn present(g: TaskGraph, c: Seq<KanbanId>) -> Seq<KanbanId>
    decreases c.len(),
{
    if c.len() == 0 {
        Seq::empty()
    } else if g.contains_key(c.last()) {
        present(g, c.drop_last()).push(c.last())
    } else {
        present(g, c.drop_last())
    }
}

/// Each id with depth `d`.
pub open spec fn with_depth(ids: Seq<KanbanId>, d: u32) -> Seq<(KanbanId, u32)> {
    ids.map_values(|i: KanbanId| (i, d))
}

/// The listed entries of a level.
pub open spec fn kept(level: Seq<(KanbanId, u32)>, g: TaskGraph, f: KanbanFilter, ex: bool) -> Seq<(KanbanId, u32)>
    decreases level.len(),
{
    if level.len() == 0 {
        Seq::empty()
    } else if keep(g, f, ex, level.last().0) {
        kept(level.drop_last(), g, f, ex).push(level.last())
    } else {
        kept(level.drop_last(), g, f, ex)
    }
}

/// The next level: for each listed entry in turn, its dependencies that
/// are tasks, sorted, one level deeper.
pub open spec fn next_level(level: Seq<(KanbanId, u32)>, sort: ItemSort, g: TaskGraph, f: KanbanFilter, ex: bool) -> Seq<(KanbanId, u32)>
    decreases level.len(),
{
    if level.len() == 0 {
        Seq::empty()
    } else if keep(g, f, ex, level.last().0) {
        next_level(level.drop_last(), sort, g, f, ex) + with_depth(
            sorted_by(SortRule::Item(sort), g, present(g, g[level.last().0].child_tasks)),
            (level.last().1 + 1) as u32,
        )
    } else {
        next_level(level.drop_last(), sort, g, f, ex)
    }
}

/// The listed entries of `levels` levels from `level` on.
pub open spec fn outline(level: Seq<(KanbanId, u32)>, sort: ItemSort, g: TaskGraph, f: KanbanFilter, ex: bool, levels: nat) -> Seq<(KanbanId, u32)>
    decreases levels,
{
    if levels == 0 {
        Seq::empty()
    } else {
        kept(level, g, f, ex) + outline(next_level(level, sort, g, f, ex), sort, g, f, ex, (levels - 1) as nat)
    }
}

/// How many levels an outline of `n` tasks lists. Without cycles no path
/// is longer, so no level beyond is ever filled.
pub open spec fn level_count(n: int) -> nat {
    if n < 0xffff_ffff {
        n as nat
    } else {
        0xffff_ffff
    }
}

#[derive(Clone, Debug)]
pub struct TreeOutline {
    toplevel_items: Vec<KanbanId>,
    /// Each listed task with its depth.
    cache: Vec<(KanbanId, u32)>,
    focused_id: Option<KanbanId>,
    pub exclude_completed: bool,
}

impl TreeOutline {
    pub closed spec fn roots(&self) -> Seq<KanbanId> {
        self.toplevel_items@
    }

    pub closed spec fn rows(&self) -> Seq<(KanbanId, u32)> {
        self.cache@
    }

    pub closed spec fn focus(&self) -> Option<KanbanId> {
        self.focused_id
    }

    pub closed spec fn excludes_completed(&self) -> bool {
        self.exclude_completed
    }

    /// An empty outline.
    pub fn new() -> (r: TreeOutline)
        ensures
            r.roots() == Seq::<KanbanId>::empty(),
            r.rows() == Seq::<(KanbanId, u32)>::empty(),
            r.focus() is None,
            !r.excludes_completed(),
    {
        TreeOutline { toplevel_items: Vec::new(), cache: Vec::new(), focused_id: None, exclude_completed: false }
    }

    /// The listed tasks with their depths, in order.
    pub fn entries(&self) -> (r: &Vec<(KanbanId, u32)>)
        ensures
            r@ == self.rows(),
    {
        &self.cache
    }

    /// Remember the task to show the outline from.
    pub fn set_focus(&mut self, id: KanbanId)
        ensures
            final(self).focus() == Some(id),
            final(self).rows() == old(self).rows(),
            final(self).roots() == old(self).roots(),
            final(self).excludes_completed() == old(self).excludes_completed(),
    {
        self.focused_id = Some(id);
    }

    /// Rebuild the outline: the roots are the tasks that no task depends
    /// on; from them, level by level, each listed task is followed by its
    /// dependencies sorted by `sort`. A task that `filter` or the completed
    /// flag leaves out is dropped with everything listed only below it.
    pub fn update(&mut self, document: &KanbanDocument, sort: ItemSort, filter: &KanbanFilter)
        requires
            document.wf(),
            filter.usable_with(document.graph()),
        ensures
            final(self).roots() == select_ids(document.task_seq(), is_root(document.task_seq())),
            final(self).rows() == outline(
                with_depth(sorted_by(SortRule::Item(sort), document.graph(), final(self).roots()), 0),
                sort, document.graph(), *filter, old(self).excludes_completed(), level_count(document.task_seq().len() as int),
            ),
            final(self).excludes_completed() == old(self).excludes_completed(),
            final(self).focus() == old(self).focus(),
    {
        let tasks = document.get_tasks();
        let ghost s = document.task_seq();
        let ghost g = document.graph();
        let ghost f = *filter;
        let n = tasks.len();
        let mut below: Vec<KanbanId> = Vec::new();
        let mut i: usize = 0;
        while i < n
            invariant
                document.wf(),
                filter.usable_with(document.graph()),
                f == *filter,
                n == tasks@.len(),
                s == document.task_seq(),
                g == document.graph(),
                tasks@.map_values(|t: KanbanItem| t@) == s,
                0 <= i <= n,
                forall|y: KanbanId| below@.contains(y) <==> exists|u: int| 0 <= u < i && #[trigger] s[u].child_tasks.contains(y),
            decreases n - i,
        {
            proof {
                assert(tasks@[i as int]@ == s[i as int]);
                lemma_graph_at_pub(s, i as int);
            }
            let c = &tasks[i].child_tasks;
            let m = c.len();
            let mut k: usize = 0;
            let ghost b0 = below@;
            while k < m
                invariant
                    m == c@.len(),
                    c@ == s[i as int].child_tasks,
                    0 <= k <= m,
                    forall|y: KanbanId|
                        #![trigger below@.contains(y)]
                        #![trigger b0.contains(y)]
                        #![trigger c@.take(k as int).contains(y)]
                        below@.contains(y) <==> b0.contains(y) || c@.take(k as int).contains(y),
                decreases m - k,
            {
                let ghost bk = below@;
                below.push(c[k]);
                proof {
                    let x = c@[k as int];
                    let t0 = c@.take(k as int);
                    crate::item::lemma_push_contains(bk, x);
                    crate::item::lemma_push_contains(t0, x);
                    assert(c@.take(k as int + 1) == t0.push(x));
                    assert forall|y: KanbanId|
                        #![trigger below@.contains(y)]
                        #![trigger b0.contains(y)]
                        #![trigger c@.take(k as int + 1).contains(y)]
                        below@.contains(y) <==> b0.contains(y) || c@.take(k as int + 1).contains(y) by {
                        assert(below@.contains(y) <==> bk.contains(y) || y == x);
                        assert(bk.contains(y) <==> b0.contains(y) || t0.contains(y));
                        assert(t0.push(x).contains(y) <==> t0.contains(y) || y == x);
                    }
                }
                k = k + 1;
            }
            proof {
                assert(c@.take(m as int) =~= c@);
                assert forall|y: KanbanId| below@.contains(y) <==> exists|u: int| 0 <= u < i + 1 && #[trigger] s[u].child_tasks.contains(y) by {
                    assert(below@.contains(y) <==> b0.contains(y) || c@.contains(y));
                    if c@.contains(y) {
                        assert(s[i as int].child_tasks.contains(y));
                    }
                    if b0.contains(y) {
                        let u = choose|u: int| 0 <= u < i && #[trigger] s[u].child_tasks.contains(y);
                    }
                    if exists|u: int| 0 <= u < i + 1 && #[trigger] s[u].child_tasks.contains(y) {
                        let u = choose|u: int| 0 <= u < i + 1 && #[trigger] s[u].child_tasks.contains(y);
                        if u < i {
                            assert(b0.contains(y));
                        }
                    }
                }
            }
            i = i + 1;
        }
        let mut roots: Vec<KanbanId> = Vec::new();
        let mut i: usize = 0;
        while i < n
            invariant
                document.wf(),
                n == tasks@.len(),
                s == document.task_seq(),
                g == document.graph(),
                tasks@.map_values(|t: KanbanItem| t@) == s,
                0 <= i <= n,
                forall|y: KanbanId| below@.contains(y) <==> exists|u: int| 0 <= u < n && #[trigger] s[u].child_tasks.contains(y),
                roots@ == select_ids(s.take(i as int), is_root(s)),
            decreases n - i,
        {
            let id = tasks[i].id;
            proof {
                assert(tasks@[i as int]@ == s[i as int]);
                lemma_select_step(s, is_root(s), i as int);
            }
            if !crate::item::contains_id(&below, id) {
                roots.push(id);
            }
            i = i + 1;
        }
        assert(s.take(n as int) =~= s);
        proof {
            crate::document::lemma_select_ids(s, is_root(s));
            assert forall|j: int| 0 <= j < roots@.len() implies g.contains_key(#[trigger] roots@[j]) by {
                assert(roots@.contains(roots@[j]));
                let u = choose|u: int| 0 <= u < s.len() && #[trigger] s[u].id == roots@[j] && is_root(s)(s[u]);
                lemma_graph_at_pub(s, u);
            }
        }
        self.toplevel_items = roots;
        self.bfs(document, sort, filter);
    }

    /// List the outline from the current roots.
    fn bfs(&mut self, document: &KanbanDocument, sort: ItemSort, filter: &KanbanFilter)
        requires
            document.wf(),
            filter.usable_with(document.graph()),
            forall|i: int| 0 <= i < old(self).roots().len() ==> document.graph().contains_key(#[trigger] old(self).roots()[i]),
        ensures
            final(self).rows() == outline(
                with_depth(sorted_by(SortRule::Item(sort), document.graph(), old(self).roots()), 0),
                sort, document.graph(), *filter, old(self).excludes_completed(), level_count(document.task_seq().len() as int),
            ),
            final(self).roots() == old(self).roots(),
            final(self).excludes_completed() == old(self).excludes_completed(),
            final(self).focus() == old(self).focus(),
    {
        let ghost g = document.graph();
        let ghost f = *filter;
        let ex = self.exclude_completed;
        let mut first = crate::item::copy_ids(&self.toplevel_items);
        assert(first@ == old(self).roots());
        sort_ids(SortRule::Item(sort), &mut first, document);
        let mut level: Vec<(KanbanId, u32)> = Vec::new();
        let m = first.len();
        let mut k: usize = 0;
        while k < m
            invariant
                m == first@.len(),
                0 <= k <= m,
                level@ == with_depth(first@.take(k as int), 0),
            decreases m - k,
        {
            level.push((first[k], 0));
            k = k + 1;
            assert(level@ =~= with_depth(first@.take(k as int), 0));
        }
        assert(first@.take(m as int) =~= first@);
        let ghost level0 = level@;
        let n = document.get_tasks().len();
        let levels: usize = if n < 0xffff_ffff { n } else { 0xffff_ffff };
        assert(levels as nat == level_count(document.task_seq().len() as int));
        let mut cache: Vec<(KanbanId, u32)> = Vec::new();
        let mut lvl: usize = 0;
        while lvl < levels
            invariant
                document.wf(),
                filter.usable_with(document.graph()),
                g == document.graph(),
                f == *filter,
                0 <= lvl <= levels,
                levels <= 0xffff_ffff,
                forall|i: int| 0 <= i < level@.len() ==> (#[trigger] level@[i]).1 == lvl,
                cache@ + outline(level@, sort, g, f, ex, (levels - lvl) as nat) == outline(level0, sort, g, f, ex, levels as nat),
            decreases levels - lvl,
        {
            let ghost cache0 = cache@;
            let mut next: Vec<(KanbanId, u32)> = Vec::new();
            let w = level.len();
            let mut i: usize = 0;
            while i < w
                invariant
                    document.wf(),
                    filter.usable_with(document.graph()),
                    g == document.graph(),
                    f == *filter,
                    w == level@.len(),
                    lvl < levels,
                    levels <= 0xffff_ffff,
                    forall|i: int| 0 <= i < level@.len() ==> (#[trigger] level@[i]).1 == lvl,
                    0 <= i <= w,
                    cache@ == cache0 + kept(level@.take(i as int), g, f, ex),
                    next@ == next_level(level@.take(i as int), sort, g, f, ex),
                    forall|j: int| 0 <= j < next@.len() ==> (#[trigger] next@[j]).1 == lvl + 1,
                decreases w - i,
            {
                let e = level[i];
                proof {
                    assert(level@.take(i as int + 1).drop_last() =~= level@.take(i as int));
                    assert(level@.take(i as int + 1).last() == e);
                }
                let listed = match document.get_task(e.0) {
                    Some(t) => !(ex && t.completed.is_some()) && filter.matches(t, document),
                    None => false,
                };
                if listed {
                    cache.push(e);
                    let t = document.get_task(e.0).unwrap();
                    let c = &t.child_tasks;
                    let mut pc: Vec<KanbanId> = Vec::new();
                    let cm = c.len();
                    let mut a: usize = 0;
                    while a < cm
                        invariant
                            document.wf(),
                            g == document.graph(),
                            cm == c@.len(),
                            0 <= a <= cm,
                            pc@ == present(g, c@.take(a as int)),
                            forall|j: int| 0 <= j < pc@.len() ==> g.contains_key(#[trigger] pc@[j]),
                        decreases cm - a,
                    {
                        proof {
                            assert(c@.take(a as int + 1).drop_last() =~= c@.take(a as int));
                            assert(c@.take(a as int + 1).last() == c@[a as int]);
                        }
                        if document.get_task(c[a]).is_some() {
                            pc.push(c[a]);
                        }
                        a = a + 1;
                    }
                    assert(c@.take(cm as int) =~= c@);
                    sort_ids(SortRule::Item(sort), &mut pc, document);
                    let d: u32 = e.1 + 1;
                    let ghost base = next@;
                    let pm = pc.len();
                    let mut b: usize = 0;
                    while b < pm
                        invariant
                            pm == pc@.len(),
                            0 <= b <= pm,
                            d == lvl + 1,
                            forall|j: int| 0 <= j < base.len() ==> (#[trigger] base[j]).1 == lvl + 1,
                            next@ == base + with_depth(pc@.take(b as int), d),
                        decreases pm - b,
                    {
                        next.push((pc[b], d));
                        b = b + 1;
                        assert(next@ =~= base + with_depth(pc@.take(b as int), d));
                    }
                    assert(pc@.take(pm as int) =~= pc@);
                    assert forall|j: int| 0 <= j < next@.len() implies (#[trigger] next@[j]).1 == lvl + 1 by {
                        if j >= base.len() {
                            assert(next@[j] == (pc@[j - base.len()], d));
                        }
                    }
                    assert(cache@ =~= cache0 + kept(level@.take(i as int + 1), g, f, ex));
                } else {
                    assert(cache@ =~= cache0 + kept(level@.take(i as int + 1), g, f, ex));
                }
                i = i + 1;
            }
            proof {
                assert(level@.take(w as int) =~= level@);
                let k = (levels - lvl) as nat;
                assert(outline(level@, sort, g, f, ex, k) == kept(level@, g, f, ex) + outline(next@, sort, g, f, ex, (k - 1) as nat));
                assert(cache0 + outline(level@, sort, g, f, ex, k) =~= cache@ + outline(next@, sort, g, f, ex, (k - 1) as nat));
            }
            level = next;
            lvl = lvl + 1;
        }
        assert(cache@ =~= cache@ + outline(level@, sort, g, f, ex, 0));
        self.cache = cache;
    }
}

} // verus!
