//! The view caches that presentation switches between, each rebuilt from
//! the document on demand.
use vstd::prelude::*;
use crate::document::{
    has_id, lemma_graph_at_pub, lemma_select_ids, lemma_select_step, select_ids,
    status_of, KanbanDocument, Status, TaskRelation,
};
use crate::filter::KanbanFilter;
use crate::focused_layout::{related_as, Focus};
use crate::graph::TaskGraph;
use crate::item::{KanbanId, KanbanItem, TaskView};
use crate::queue_view::{is_queue_for, QueueState};
use crate::search::{is_ranking, search_scores, SearchState};
use crate::sorting::{sort_ids, sorted_by, ItemSort, SortRule};
use crate::tree_outline_layout::{is_root, level_count, outline, with_depth, TreeOutline};

verus! {

/// The predicate of the tasks of status `st` that pass `f`.
pub open spec fn in_bucket(g: TaskGraph, f: KanbanFilter, st: Status) -> spec_fn(TaskView) -> bool {
    |t: TaskView| status_of(g, t.id) == st && f.holds(t, g)
}

/// The ids of the tasks of `d` of status `st` that pass `f`, in increasing
/// order of id.
pub open spec fn bucket(d: &KanbanDocument, f: KanbanFilter, st: Status) -> Seq<KanbanId> {
    select_ids(d.task_seq(), in_bucket(d.graph(), f, st))
}

/// Fill the three columns, Ready, Blocked and Completed, with the ids of
/// the tasks of that status that pass `filter`.
pub fn update_columnar(columnar_cache: &mut [Vec<KanbanId>; 3], document: &KanbanDocument, filter: &KanbanFilter)
    requires
        document.wf(),
        filter.usable_with(document.graph()),
    ensures
        final(columnar_cache)@[0]@ == bucket(document, *filter, Status::Ready),
        final(columnar_cache)@[1]@ == bucket(document, *filter, Status::Blocked),
        final(columnar_cache)@[2]@ == bucket(document, *filter, Status::Completed),
{
    let tasks = document.get_tasks();
    let ghost s = document.task_seq();
    let ghost g = document.graph();
    let ghost f = *filter;
    let mut ready: Vec<KanbanId> = Vec::new();
    let mut blocked: Vec<KanbanId> = Vec::new();
    let mut completed: Vec<KanbanId> = Vec::new();
    let n = tasks.len();
    let mut i: usize = 0;
    while i < n
        invariant
            document.wf(),
            filter.usable_with(document.graph()),
            f == *filter,
            n == tasks@.len(),
            s == document.task_seq(),
            g == document.graph(),
            tasks@.map_values(|t: KanbanItem| t@) == s,
            0 <= i <= n,
            ready@ == select_ids(s.take(i as int), in_bucket(g, f, Status::Ready)),
            blocked@ == select_ids(s.take(i as int), in_bucket(g, f, Status::Blocked)),
            completed@ == select_ids(s.take(i as int), in_bucket(g, f, Status::Completed)),
        decreases n - i,
    {
        let task = &tasks[i];
        proof {
            assert(s[i as int] == task@);
            lemma_graph_at_pub(s, i as int);
            lemma_select_step(s, in_bucket(g, f, Status::Ready), i as int);
            lemma_select_step(s, in_bucket(g, f, Status::Blocked), i as int);
            lemma_select_step(s, in_bucket(g, f, Status::Completed), i as int);
        }
        let status = document.task_status(&task.id);
        if filter.matches(task, document) {
            match status {
                Status::Ready => ready.push(task.id),
                Status::Blocked => blocked.push(task.id),
                Status::Completed => completed.push(task.id),
            }
        }
        i = i + 1;
    }
    assert(s.take(n as int) =~= s);
    *columnar_cache = [ready, blocked, completed];
}

/// With no filter, the three columns hold every task exactly once.
pub proof fn lemma_buckets_partition(d: &KanbanDocument)
    requires
        d.wf(),
    ensures
        bucket(d, KanbanFilter::NoFilter, Status::Ready).len() + bucket(d, KanbanFilter::NoFilter, Status::Blocked).len()
            + bucket(d, KanbanFilter::NoFilter, Status::Completed).len() == d.task_seq().len(),
        forall|x: KanbanId| #[trigger] has_id(d.task_seq(), x) ==> {
            ||| bucket(d, KanbanFilter::NoFilter, Status::Ready).contains(x)
            ||| bucket(d, KanbanFilter::NoFilter, Status::Blocked).contains(x)
            ||| bucket(d, KanbanFilter::NoFilter, Status::Completed).contains(x)
        },
        forall|x: KanbanId| !(#[trigger] bucket(d, KanbanFilter::NoFilter, Status::Ready).contains(x)
            && bucket(d, KanbanFilter::NoFilter, Status::Blocked).contains(x)),
        forall|x: KanbanId| !(#[trigger] bucket(d, KanbanFilter::NoFilter, Status::Ready).contains(x)
            && bucket(d, KanbanFilter::NoFilter, Status::Completed).contains(x)),
        forall|x: KanbanId| !(#[trigger] bucket(d, KanbanFilter::NoFilter, Status::Blocked).contains(x)
            && bucket(d, KanbanFilter::NoFilter, Status::Completed).contains(x)),
        bucket(d, KanbanFilter::NoFilter, Status::Ready).no_duplicates(),
        bucket(d, KanbanFilter::NoFilter, Status::Blocked).no_duplicates(),
        bucket(d, KanbanFilter::NoFilter, Status::Completed).no_duplicates(),
{
    let s = d.task_seq();
    let g = d.graph();
    let f = KanbanFilter::NoFilter;
    let pr = in_bucket(g, f, Status::Ready);
    let pb = in_bucket(g, f, Status::Blocked);
    let pc = in_bucket(g, f, Status::Completed);
    lemma_select_ids(s, pr);
    lemma_select_ids(s, pb);
    lemma_select_ids(s, pc);
    lemma_bucket_lengths(s, g);
    assert forall|x: KanbanId| #[trigger] has_id(s, x) implies {
        ||| select_ids(s, pr).contains(x)
        ||| select_ids(s, pb).contains(x)
        ||| select_ids(s, pc).contains(x)
    } by {
        let i = choose|i: int| 0 <= i < s.len() && #[trigger] s[i].id == x;
        assert(s[i].id == x);
    }
    assert forall|x: KanbanId| !(#[trigger] select_ids(s, pr).contains(x) && select_ids(s, pb).contains(x)) by {
        if select_ids(s, pr).contains(x) && select_ids(s, pb).contains(x) {
            let i = choose|i: int| 0 <= i < s.len() && #[trigger] s[i].id == x && pr(s[i]);
            let j = choose|j: int| 0 <= j < s.len() && #[trigger] s[j].id == x && pb(s[j]);
        }
    }
    assert forall|x: KanbanId| !(#[trigger] select_ids(s, pr).contains(x) && select_ids(s, pc).contains(x)) by {
        if select_ids(s, pr).contains(x) && select_ids(s, pc).contains(x) {
            let i = choose|i: int| 0 <= i < s.len() && #[trigger] s[i].id == x && pr(s[i]);
            let j = choose|j: int| 0 <= j < s.len() && #[trigger] s[j].id == x && pc(s[j]);
        }
    }
    assert forall|x: KanbanId| !(#[trigger] select_ids(s, pb).contains(x) && select_ids(s, pc).contains(x)) by {
        if select_ids(s, pb).contains(x) && select_ids(s, pc).contains(x) {
            let i = choose|i: int| 0 <= i < s.len() && #[trigger] s[i].id == x && pb(s[i]);
            let j = choose|j: int| 0 <= j < s.len() && #[trigger] s[j].id == x && pc(s[j]);
        }
    }
}

proof fn lemma_bucket_lengths(s: Seq<TaskView>, g: TaskGraph)
    ensures
        select_ids(s, in_bucket(g, KanbanFilter::NoFilter, Status::Ready)).len()
            + select_ids(s, in_bucket(g, KanbanFilter::NoFilter, Status::Blocked)).len()
            + select_ids(s, in_bucket(g, KanbanFilter::NoFilter, Status::Completed)).len() == s.len(),
    decreases s.len(),
{
    if s.len() > 0 {
        lemma_bucket_lengths(s.drop_last(), g);
    }
}

/// The cache of the view on show.
pub enum KanbanDocumentLayout {
    Queue(QueueState),
    Columnar([Vec<KanbanId>; 3]),
    Search(SearchState),
    Focused(Focus),
    TreeOutline(TreeOutline),
}

impl KanbanDocumentLayout {
    /// Tell the view that tasks were added or removed: the search results
    /// are dropped so that the next update recomputes them.
    pub fn inform_of_new_items(&mut self)
        ensures
            match (*old(self), *final(self)) {
                (KanbanDocumentLayout::Search(a), KanbanDocumentLayout::Search(b)) => b.matched() == Seq::<KanbanId>::empty()
                    && b.prompt() == a.prompt() && b.former_prompt() == a.former_prompt(),
                (KanbanDocumentLayout::Search(_), _) => false,
                _ => *final(self) == *old(self),
            },
    {
        if let KanbanDocumentLayout::Search(x) = self {
            x.force_update();
        }
    }

    /// Rebuild the cache of the view on show from `document`.
    pub fn update_cache(&mut self, document: &KanbanDocument, sort: &ItemSort, filter: &KanbanFilter)
        requires
            document.wf(),
            filter.usable_with(document.graph()),
            *old(self) matches KanbanDocumentLayout::Focused(fo) ==> (fo.cares_about matches Some(x) ==> document.graph().contains_key(x)),
        ensures
            match (*old(self), *final(self)) {
                (KanbanDocumentLayout::Queue(_), KanbanDocumentLayout::Queue(q)) => is_queue_for(document, q.cached_ready@),
                (KanbanDocumentLayout::Columnar(_), KanbanDocumentLayout::Columnar(c)) =>
                    c@[0]@ == bucket(document, *filter, Status::Ready)
                    && c@[1]@ == bucket(document, *filter, Status::Blocked)
                    && c@[2]@ == bucket(document, *filter, Status::Completed),
                (KanbanDocumentLayout::Search(a), KanbanDocumentLayout::Search(b)) => b.prompt() == a.prompt() && if a.prompt() == a.former_prompt() && a.matched().len() > 0 {
                    b.matched() == a.matched() && b.former_prompt() == a.former_prompt()
                } else {
                    b.former_prompt() == a.prompt() && is_ranking(search_scores(document.task_seq(), a.prompt()), b.matched())
                },
                (KanbanDocumentLayout::Focused(a), KanbanDocumentLayout::Focused(b)) => b.cares_about == a.cares_about && match a.cares_about {
                    Some(x) => b.children@ == select_ids(document.task_seq(), related_as(document.graph(), x, TaskRelation::ParentOf))
                        && b.ancestors@ == select_ids(document.task_seq(), related_as(document.graph(), x, TaskRelation::ChildOf)),
                    None => b.children@ == a.children@ && b.ancestors@ == a.ancestors@,
                },
                (KanbanDocumentLayout::TreeOutline(a), KanbanDocumentLayout::TreeOutline(b)) =>
                    b.roots() == select_ids(document.task_seq(), is_root(document.task_seq()))
                    && b.rows() == outline(
                        with_depth(sorted_by(SortRule::Item(*sort), document.graph(), b.roots()), 0),
                        *sort, document.graph(), *filter, a.excludes_completed(), level_count(document.task_seq().len() as int),
                    ),
                _ => false,
            },
    {
        match self {
            KanbanDocumentLayout::Queue(x) => x.update(document),
            KanbanDocumentLayout::Columnar(array) => update_columnar(array, document, filter),
            KanbanDocumentLayout::Search(search_state) => search_state.update(document),
            KanbanDocumentLayout::Focused(focus) => focus.update(document),
            KanbanDocumentLayout::TreeOutline(tree) => tree.update(document, *sort, filter),
        }
    }

    /// Sort the lists of the columnar and focus views by `sort`; the other
    /// views keep their own order.
    pub fn sort_cache(&mut self, document: &KanbanDocument, sort: &ItemSort)
        requires
            document.wf(),
            *old(self) matches KanbanDocumentLayout::Columnar(c) ==> forall|k: int, i: int|
                0 <= k < 3 && 0 <= i < c@[k]@.len() ==> document.graph().contains_key(#[trigger] c@[k]@[i]),
            *old(self) matches KanbanDocumentLayout::Focused(fo) ==> (forall|i: int|
                0 <= i < fo.children@.len() ==> document.graph().contains_key(#[trigger] fo.children@[i]))
                && (forall|i: int| 0 <= i < fo.ancestors@.len() ==> document.graph().contains_key(#[trigger] fo.ancestors@[i])),
        ensures
            match (*old(self), *final(self)) {
                (KanbanDocumentLayout::Columnar(a), KanbanDocumentLayout::Columnar(b)) =>
                    forall|k: int| 0 <= k < 3 ==> #[trigger] b@[k]@ == sorted_by(SortRule::Item(*sort), document.graph(), a@[k]@),
                (KanbanDocumentLayout::Focused(a), KanbanDocumentLayout::Focused(b)) =>
                    b.cares_about == a.cares_about
                    && b.children@ == sorted_by(SortRule::Item(*sort), document.graph(), a.children@)
                    && b.ancestors@ == sorted_by(SortRule::Item(*sort), document.graph(), a.ancestors@),
                (KanbanDocumentLayout::Columnar(_), _) => false,
                (KanbanDocumentLayout::Focused(_), _) => false,
                _ => *final(self) == *old(self),
            },
    {
        match self {
            KanbanDocumentLayout::Columnar(array) => {
                let mut a0 = crate::item::copy_ids(&array[0]);
                let mut a1 = crate::item::copy_ids(&array[1]);
                let mut a2 = crate::item::copy_ids(&array[2]);
                assert(a0@ == array@[0]@ && a1@ == array@[1]@ && a2@ == array@[2]@);
                sort_ids(SortRule::Item(*sort), &mut a0, document);
                sort_ids(SortRule::Item(*sort), &mut a1, document);
                sort_ids(SortRule::Item(*sort), &mut a2, document);
                *array = [a0, a1, a2];
            },
            KanbanDocumentLayout::Focused(focus) => {
                sort.sort_by(&mut focus.children, document);
                sort.sort_by(&mut focus.ancestors, document);
            },
            _ => {},
        }
    }
}

} // verus!
