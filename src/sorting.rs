//! Orders in which views list tasks.
use vstd::prelude::*;
use std::cmp::Ordering;
use crate::document::KanbanDocument;
use crate::graph::TaskGraph;
use crate::item::{KanbanId, KanbanItem, TaskView};
use crate::text::{compare_text, text_cmp};

verus! {

/// A sort order picked by the user.
#[derive(PartialEq, Eq, Structural, Clone, Copy, Debug)]
pub enum ItemSort {
    /// Keep the order as it is.
    Unsorted,
    /// By id, which is the order of creation.
    Id,
    Name,
    Category,
    Completed,
}

/// Integers in their order.
pub open spec fn int_cmp(a: int, b: int) -> Ordering {
    if a < b {
        Ordering::Less
    } else if a > b {
        Ordering::Greater
    } else {
        Ordering::Equal
    }
}

/// Optional texts: absent first, then by text.
pub open spec fn opt_text_cmp(a: Option<Seq<char>>, b: Option<Seq<char>>) -> Ordering {
    match (a, b) {
        (None, None) => Ordering::Equal,
        (None, Some(_)) => Ordering::Less,
        (Some(_), None) => Ordering::Greater,
        (Some(x), Some(y)) => text_cmp(x, y),
    }
}

/// Optional times: absent first, then earliest first.
pub open spec fn opt_time_cmp(a: Option<i64>, b: Option<i64>) -> Ordering {
    match (a, b) {
        (None, None) => Ordering::Equal,
        (None, Some(_)) => Ordering::Less,
        (Some(_), None) => Ordering::Greater,
        (Some(x), Some(y)) => int_cmp(x as int, y as int),
    }
}

/// How `a` compares with `b` under `sort`.
pub open spec fn item_cmp(sort: ItemSort, a: TaskView, b: TaskView) -> Ordering {
    match sort {
        ItemSort::Unsorted => Ordering::Equal,
        ItemSort::Id => int_cmp(a.id as int, b.id as int),
        ItemSort::Name => text_cmp(a.name, b.name),
        ItemSort::Category => opt_text_cmp(a.category, b.category),
        ItemSort::Completed => opt_time_cmp(a.completed, b.completed),
    }
}

/// Completed tasks after the others, and among them the earliest first.
pub open spec fn completed_last_cmp(a: TaskView, b: TaskView) -> Ordering {
    match (a.completed, b.completed) {
        (Some(x), Some(y)) => int_cmp(x as int, y as int),
        (Some(_), None) => Ordering::Greater,
        (None, Some(_)) => Ordering::Less,
        (None, None) => Ordering::Equal,
    }
}

/// A way to order ids of tasks.
#[derive(Clone, Copy)]
pub enum SortRule {
    Item(ItemSort),
    /// Completed tasks last; ids that are no task after all others.
    CompletedLast,
}

/// How id `a` compares with id `b` under `rule` in `g`.
pub open spec fn id_cmp(rule: SortRule, g: TaskGraph, a: KanbanId, b: KanbanId) -> Ordering {
    match rule {
        SortRule::Item(sort) => item_cmp(sort, g[a], g[b]),
        SortRule::CompletedLast => if g.contains_key(a) {
            if g.contains_key(b) {
                completed_last_cmp(g[a], g[b])
            } else {
                Ordering::Less
            }
        } else if g.contains_key(b) {
            Ordering::Greater
        } else {
            Ordering::Equal
        },
    }
}

/// `x` put into `r` before the first element that comes after it.
pub open spec fn insert_by(rule: SortRule, g: TaskGraph, r: Seq<KanbanId>, x: KanbanId) -> Seq<KanbanId>
    decreases r.len(),
{
    if r.len() == 0 {
        seq![x]
    } else if id_cmp(rule, g, r[0], x) == Ordering::Greater {
        seq![x] + r
    } else {
        seq![r[0]] + insert_by(rule, g, r.drop_first(), x)
    }
}

/// `ids` in the order of `rule`, equal ones in their former order: each id
/// in turn put before the first of those placed so far that comes after it.
pub open spec fn sorted_by(rule: SortRule, g: TaskGraph, ids: Seq<KanbanId>) -> Seq<KanbanId>
    decreases ids.len(),
{
    if ids.len() == 0 {
        Seq::empty()
    } else {
        insert_by(rule, g, sorted_by(rule, g, ids.drop_last()), ids.last())
    }
}

proof fn lemma_insert_by_at(rule: SortRule, g: TaskGraph, r: Seq<KanbanId>, x: KanbanId, k: int)
    requires
        0 <= k <= r.len(),
        forall|j: int| 0 <= j < k ==> id_cmp(rule, g, #[trigger] r[j], x) != Ordering::Greater,
        k < r.len() ==> id_cmp(rule, g, r[k], x) == Ordering::Greater,
    ensures
        insert_by(rule, g, r, x) == r.insert(k, x),
    decreases k,
{
    if r.len() == 0 {
        assert(r.insert(k, x) =~= seq![x]);
    } else if k == 0 {
        assert(r.insert(0, x) =~= seq![x] + r);
    } else {
        let d = r.drop_first();
        assert forall|j: int| 0 <= j < k - 1 implies id_cmp(rule, g, #[trigger] d[j], x) != Ordering::Greater by {
            assert(d[j] == r[j + 1]);
        }
        if k < r.len() {
            assert(d[k - 1] == r[k]);
        }
        assert(r[0] == r[0]);
        assert(id_cmp(rule, g, r[0], x) != Ordering::Greater);
        lemma_insert_by_at(rule, g, d, x, k - 1);
        assert(r.insert(k, x) =~= seq![r[0]] + d.insert(k - 1, x));
    }
}

/// Sort `ids` by `rule`; see `sorted_by`.
pub fn sort_ids(rule: SortRule, ids: &mut Vec<KanbanId>, document: &KanbanDocument)
    requires
        document.wf(),
        rule is Item ==> forall|i: int| 0 <= i < old(ids)@.len() ==> document.graph().contains_key(#[trigger] old(ids)@[i]),
    ensures
        final(ids)@ == sorted_by(rule, document.graph(), old(ids)@),
{
    let ghost g = document.graph();
    let ghost v = ids@;
    let n = ids.len();
    let mut r: Vec<KanbanId> = Vec::new();
    let mut i: usize = 0;
    while i < n
        invariant
            document.wf(),
            g == document.graph(),
            n == v.len(),
            ids@ == v,
            rule is Item ==> forall|i: int| 0 <= i < v.len() ==> g.contains_key(#[trigger] v[i]),
            0 <= i <= n,
            r@ == sorted_by(rule, g, v.take(i as int)),
            rule is Item ==> forall|j: int| 0 <= j < r@.len() ==> g.contains_key(#[trigger] r@[j]),
        decreases n - i,
    {
        let x = ids[i];
        let m = r.len();
        let mut k: usize = 0;
        let mut found = false;
        while k < m && !found
            invariant
                found ==> k < m && id_cmp(rule, g, r@[k as int], x) == Ordering::Greater,
                document.wf(),
                g == document.graph(),
                m == r@.len(),
                0 <= k <= m,
                rule is Item ==> g.contains_key(x),
                rule is Item ==> forall|j: int| 0 <= j < r@.len() ==> g.contains_key(#[trigger] r@[j]),
                forall|j: int| 0 <= j < k ==> id_cmp(rule, g, #[trigger] r@[j], x) != Ordering::Greater,
            decreases m - k, if found { 0int } else { 1int },
        {
            if let Ordering::Greater = compare_ids(rule, document, r[k], x) {
                found = true;
            } else {
                k = k + 1;
            }
        }
        proof {
            lemma_insert_by_at(rule, g, r@, x, k as int);
            assert(v.take(i as int + 1).drop_last() =~= v.take(i as int));
            assert(v.take(i as int + 1).last() == x);
        }
        let ghost r0 = r@;
        r.insert(k, x);
        proof {
            if rule is Item {
                assert forall|j: int| 0 <= j < r@.len() implies g.contains_key(#[trigger] r@[j]) by {
                    if j < k {
                        assert(r@[j] == r0[j]);
                    } else if j > k {
                        assert(r@[j] == r0[j - 1]);
                    }
                }
            }
        }
        i = i + 1;
    }
    assert(v.take(n as int) =~= v);
    *ids = r;
}

/// Compare ids `a` and `b` under `rule`.
fn compare_ids(rule: SortRule, document: &KanbanDocument, a: KanbanId, b: KanbanId) -> (r: Ordering)
    requires
        document.wf(),
        rule is Item ==> document.graph().contains_key(a) && document.graph().contains_key(b),
    ensures
        r == id_cmp(rule, document.graph(), a, b),
{
    match rule {
        SortRule::Item(sort) => {
            let ta = document.get_task(a).unwrap();
            let tb = document.get_task(b).unwrap();
            sort.cmp_by(ta, tb)
        },
        SortRule::CompletedLast => {
            match (document.get_task(a), document.get_task(b)) {
                (Some(ta), Some(tb)) => task_comparison_completed_last(ta, tb),
                (Some(_), None) => Ordering::Less,
                (None, Some(_)) => Ordering::Greater,
                (None, None) => Ordering::Equal,
            }
        },
    }
}

fn cmp_int(a: i64, b: i64) -> (r: Ordering)
    ensures
        r == int_cmp(a as int, b as int),
{
    if a < b {
        Ordering::Less
    } else if a > b {
        Ordering::Greater
    } else {
        Ordering::Equal
    }
}

impl ItemSort {
    /// How `a` compares with `b` under this order.
    pub fn cmp_by(&self, a: &KanbanItem, b: &KanbanItem) -> (r: Ordering)
        ensures
            r == item_cmp(*self, a@, b@),
    {
        match self {
            ItemSort::Unsorted => Ordering::Equal,
            ItemSort::Id => cmp_int(a.id as i64, b.id as i64),
            ItemSort::Name => compare_text(a.name.as_str(), b.name.as_str()),
            ItemSort::Category => match (&a.category, &b.category) {
                (None, None) => Ordering::Equal,
                (None, Some(_)) => Ordering::Less,
                (Some(_), None) => Ordering::Greater,
                (Some(x), Some(y)) => compare_text(x.as_str(), y.as_str()),
            },
            ItemSort::Completed => match (a.completed, b.completed) {
                (None, None) => Ordering::Equal,
                (None, Some(_)) => Ordering::Less,
                (Some(_), None) => Ordering::Greater,
                (Some(x), Some(y)) => cmp_int(x, y),
            },
        }
    }

    /// Sort `ids`, all of them tasks of `document`, by this order; equal
    /// ones keep their order.
    pub fn sort_by(&self, ids: &mut Vec<KanbanId>, document: &KanbanDocument)
        requires
            document.wf(),
            forall|i: int| 0 <= i < old(ids)@.len() ==> document.graph().contains_key(#[trigger] old(ids)@[i]),
        ensures
            final(ids)@ == sorted_by(SortRule::Item(*self), document.graph(), old(ids)@),
    {
        sort_ids(SortRule::Item(*self), ids, document);
    }
}

/// Completed tasks after the others, and among them the earliest first.
pub fn task_comparison_completed_last(a: &KanbanItem, b: &KanbanItem) -> (r: Ordering)
    ensures
        r == completed_last_cmp(a@, b@),
{
    match (a.completed, b.completed) {
        (Some(x), Some(y)) => cmp_int(x, y),
        (Some(_), None) => Ordering::Greater,
        (None, Some(_)) => Ordering::Less,
        (None, None) => Ordering::Equal,
    }
}

/// Sort `ids` with completed tasks last; ids that are no task of
/// `document` go after all others.
pub fn sort_completed_last(document: &KanbanDocument, ids: &mut Vec<KanbanId>)
    requires
        document.wf(),
    ensures
        final(ids)@ == sorted_by(SortRule::CompletedLast, document.graph(), old(ids)@),
{
    sort_ids(SortRule::CompletedLast, ids, document);
}

} // verus!
