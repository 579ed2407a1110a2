//! Undo events: what a store mutation hands back so that it can be reversed,
//! and the bounded log that keeps the most recent of them.
use vstd::prelude::*;
use circular_buffer::CircularBuffer;
use crate::document::{parents_in, unlinked, KanbanDocument};
use crate::graph::{keyed_by_id, TaskGraph};
use crate::item::{
    insert_sorted, lemma_filter_absent, lemma_insert_sorted, lemma_sorted_unique, other_than,
    strictly_increasing, KanbanId, KanbanItem, TaskView,
};

verus! {

/// A task was created; undoing removes it.
#[derive(Debug)]
pub struct CreationEvent {
    pub parent_id: Option<KanbanId>,
    pub new_task: KanbanItem,
}

/// A task was removed; undoing puts it back and re-adds it to the
/// dependency set of each task that had it.
#[derive(Debug)]
pub struct DeletionEvent {
    pub former_item: KanbanItem,
    pub parent_ids: Vec<KanbanId>,
}

/// A task was replaced; undoing restores the former value.
#[derive(Debug)]
pub struct ModificationEvent {
    pub former_item: KanbanItem,
}

#[derive(Debug)]
pub enum UndoItem {
    Create(CreationEvent),
    Delete(DeletionEvent),
    Modification(ModificationEvent),
}

/// An undo event as the contracts speak of it.
pub ghost enum UndoView {
    Create(Option<KanbanId>, TaskView),
    Delete(TaskView, Seq<KanbanId>),
    Modification(TaskView),
}

impl View for UndoItem {
    type V = UndoView;

    open spec fn view(&self) -> UndoView {
        match self {
            UndoItem::Create(ce) => UndoView::Create(ce.parent_id, ce.new_task@),
            UndoItem::Delete(de) => UndoView::Delete(de.former_item@, de.parent_ids@),
            UndoItem::Modification(me) => UndoView::Modification(me.former_item@),
        }
    }
}

/// `g` where each task of `ps` has `x` added to its dependencies.
pub open spec fn relink(g: TaskGraph, ps: Set<KanbanId>, x: KanbanId) -> TaskGraph {
    Map::new(
        |k: KanbanId| g.contains_key(k),
        |k: KanbanId| if ps.contains(k) {
            g[k].with_children(insert_sorted(g[k].child_tasks, x))
        } else {
            g[k]
        },
    )
}

/// The tasks by id after undoing `u` on `g`.
pub open spec fn undone(g: TaskGraph, u: UndoView) -> TaskGraph {
    match u {
        UndoView::Create(_, t) => unlinked(g, t.id),
        UndoView::Delete(t, ps) => relink(g.insert(t.id, t), ps.to_set(), t.id),
        UndoView::Modification(t) => g.insert(t.id, t),
    }
}

/// The snapshots that an event holds are well formed.
pub open spec fn event_wf(u: UndoView) -> bool {
    match u {
        UndoView::Create(_, t) => t.wf(),
        UndoView::Delete(t, _) => t.wf(),
        UndoView::Modification(t) => t.wf(),
    }
}

/// The event that recording `b` right after `a` leaves in place of both, if
/// they merge: a creation followed by a change of the same task is one
/// creation, of the value before that change.
pub open spec fn merged(a: UndoView, b: UndoView) -> Option<UndoView> {
    match (a, b) {
        (UndoView::Create(p, t), UndoView::Modification(m)) => if t.id == m.id {
            Some(UndoView::Create(p, m))
        } else {
            None
        },
        _ => None,
    }
}

/// Putting in a sorted list an id it holds changes nothing.
pub proof fn lemma_insert_sorted_present(s: Seq<KanbanId>, x: KanbanId)
    requires
        strictly_increasing(s),
        s.contains(x),
    ensures
        insert_sorted(s, x) == s,
{
    lemma_insert_sorted(s, x);
    assert forall|y: KanbanId| insert_sorted(s, x).contains(y) <==> s.contains(y) by {}
    lemma_sorted_unique(insert_sorted(s, x), s);
}

impl CreationEvent {
    /// Remove the created task.
    pub fn undo(&self, document: &mut KanbanDocument)
        requires
            old(document).wf(),
        ensures
            final(document).wf(),
            final(document).graph() == unlinked(old(document).graph(), self.new_task.id),
    {
        document.remove_task(&self.new_task);
    }
}

impl DeletionEvent {
    /// Put the removed task back and re-add it to each former parent that
    /// is still in the document.
    pub fn undo(&self, document: &mut KanbanDocument)
        requires
            old(document).wf(),
            self.former_item@.wf(),
        ensures
            final(document).wf(),
            final(document).graph() == relink(
                old(document).graph().insert(self.former_item.id, self.former_item@),
                self.parent_ids@.to_set(),
                self.former_item.id,
            ),
    {
        let x = self.former_item.id;
        document.replace_task(&self.former_item);
        let ghost g1 = document.graph();
        proof {
            crate::document::lemma_graph_wf(document);
        }
        assert(relink(g1, Set::empty(), x) =~= g1);
        let n = self.parent_ids.len();
        let mut i: usize = 0;
        while i < n
            invariant
                n == self.parent_ids@.len(),
                0 <= i <= n,
                x == self.former_item.id,
                document.wf(),
                forall|k: KanbanId| #[trigger] g1.contains_key(k) ==> g1[k].wf(),
                document.graph() == relink(g1, self.parent_ids@.take(i as int).to_set(), x),
            decreases n - i,
        {
            let p = self.parent_ids[i];
            let ghost ps = self.parent_ids@.take(i as int).to_set();
            assert(self.parent_ids@.take(i as int + 1).to_set() =~= ps.insert(p)) by {
                assert(self.parent_ids@.take(i as int + 1) == self.parent_ids@.take(i as int).push(p));
                crate::item::lemma_push_contains(self.parent_ids@.take(i as int), p);
            }
            let ghost before = document.graph();
            match document.get_task(p) {
                Some(t) => {
                    let mut c = t.snapshot();
                    proof {
                        let j = choose|j: int| 0 <= j < document.task_seq().len() && #[trigger] document.task_seq()[j].id == p;
                        crate::document::lemma_graph_at_pub(document.task_seq(), j);
                    }
                    c.add_child(&self.former_item);
                    document.replace_task(&c);
                    proof {
                        let r2 = relink(g1, ps.insert(p), x);
                        if ps.contains(p) {
                            lemma_insert_sorted(g1[p].child_tasks, x);
                            lemma_insert_sorted_present(insert_sorted(g1[p].child_tasks, x), x);
                        }
                        assert(document.graph() =~= r2);
                    }
                },
                None => {
                    assert(relink(g1, ps.insert(p), x) =~= before);
                },
            }
            i = i + 1;
        }
        assert(self.parent_ids@.take(n as int) =~= self.parent_ids@);
    }
}

impl ModificationEvent {
    /// Put the former value back.
    pub fn undo(&self, document: &mut KanbanDocument)
        requires
            old(document).wf(),
            self.former_item@.wf(),
        ensures
            final(document).wf(),
            final(document).graph() == old(document).graph().insert(self.former_item.id, self.former_item@),
    {
        document.replace_task(&self.former_item);
    }
}

impl UndoItem {
    /// Reverse the event on `document`.
    pub fn undo(&self, document: &mut KanbanDocument)
        requires
            old(document).wf(),
            event_wf(self@),
        ensures
            final(document).wf(),
            final(document).graph() == undone(old(document).graph(), self@),
    {
        match self {
            UndoItem::Create(ce) => ce.undo(document),
            UndoItem::Delete(de) => de.undo(document),
            UndoItem::Modification(me) => me.undo(document),
        }
    }

    /// The single event that stands for this one followed by `other`, if
    /// the two merge.
    pub fn merge(&self, other: &Self) -> (r: Option<Self>)
        ensures
            match r {
                Some(u) => merged(self@, other@) == Some(u@),
                None => merged(self@, other@) is None,
            },
    {
        match self {
            UndoItem::Create(ce) => match other {
                UndoItem::Modification(me) => {
                    if ce.new_task.id == me.former_item.id {
                        Some(UndoItem::Create(CreationEvent {
                            new_task: me.former_item.snapshot(),
                            parent_id: ce.parent_id,
                        }))
                    } else {
                        None
                    }
                },
                _ => None,
            },
            _ => None,
        }
    }
}

/// Undoing a creation of a task that nothing depends on removes it and
/// leaves every other task as it was.
pub proof fn lemma_undo_create_round_trip(g0: TaskGraph, x: TaskView)
    requires
        !g0.contains_key(x.id),
        forall|k: KanbanId| #[trigger] g0.contains_key(k) ==> !g0[k].child_tasks.contains(x.id),
    ensures
        undone(g0.insert(x.id, x), UndoView::Create(None, x)) == g0,
{
    let g1 = g0.insert(x.id, x);
    let r = unlinked(g1, x.id);
    assert forall|k: KanbanId| r.contains_key(k) implies r[k] == g0[k] by {
        lemma_filter_absent(g0[k].child_tasks, x.id);
    }
    assert(r =~= g0);
}

/// Undoing a change of a task restores its former value exactly.
pub proof fn lemma_undo_modify_round_trip(g0: TaskGraph, x: TaskView)
    requires
        keyed_by_id(g0),
        g0.contains_key(x.id),
    ensures
        undone(g0.insert(x.id, x), UndoView::Modification(g0[x.id])) == g0,
{
    assert(g0.insert(x.id, x).insert(x.id, g0[x.id]) =~= g0);
}

/// Undoing the removal of a task restores it and re-adds it to every task
/// that depended on it, which leaves the tasks exactly as before.
pub proof fn lemma_undo_delete_round_trip(g0: TaskGraph, id: KanbanId, parent_ids: Seq<KanbanId>)
    requires
        keyed_by_id(g0),
        g0.contains_key(id),
        forall|k: KanbanId| #[trigger] g0.contains_key(k) ==> strictly_increasing(g0[k].child_tasks),
        parent_ids.to_set() == parents_in(g0, id),
    ensures
        undone(unlinked(g0, id), UndoView::Delete(g0[id], parent_ids)) == g0,
{
    let g1 = unlinked(g0, id).insert(id, g0[id]);
    let ps = parents_in(g0, id);
    let r = relink(g1, ps, id);
    assert forall|k: KanbanId| r.contains_key(k) implies r[k] == g0[k] by {
        let c0 = g0[k].child_tasks;
        if k == id {
            if ps.contains(k) {
                lemma_insert_sorted_present(c0, id);
            }
        } else if ps.contains(k) {
            let f = c0.filter(other_than(id));
            crate::item::lemma_filter_sorted(c0, id);
            lemma_insert_sorted(f, id);
            assert forall|y: KanbanId| insert_sorted(f, id).contains(y) <==> c0.contains(y) by {
                if c0.contains(y) && y != id {
                    let j = choose|j: int| 0 <= j < c0.len() && c0[j] == y;
                    c0.lemma_filter_contains(other_than(id), j);
                }
                if f.contains(y) {
                    c0.lemma_filter_contains_rev(other_than(id), y);
                }
            }
            lemma_sorted_unique(insert_sorted(f, id), c0);
        } else {
            lemma_filter_absent(c0, id);
        }
    }
    assert(r =~= g0);
}

/// How many events the log keeps; older ones are dropped.
pub const UNDO_CAPACITY: usize = 35;

#[verifier::external_type_specification]
#[verifier::external_body]
#[verifier::reject_recursive_types(T)]
pub struct ExCircularBuffer<const N: usize, T>(CircularBuffer<N, T>);

/// The events that a buffer holds, oldest first.
pub uninterp spec fn undo_entries(b: CircularBuffer<35, UndoItem>) -> Seq<UndoItem>;

/// Relies on `CircularBuffer::new`: the buffer starts empty.
#[verifier::external_body]
fn buffer_new() -> (r: CircularBuffer<35, UndoItem>)
    ensures
        undo_entries(r) == Seq::<UndoItem>::empty(),
{
    CircularBuffer::new()
}

/// Relies on `CircularBuffer::push_back`: the item goes to the back; when
/// the buffer is full the front item is dropped to make room.
#[verifier::external_body]
fn buffer_push(b: &mut CircularBuffer<35, UndoItem>, item: UndoItem)
    ensures
        undo_entries(*old(b)).len() < 35 ==> undo_entries(*final(b)) == undo_entries(*old(b)).push(item),
        undo_entries(*old(b)).len() >= 35 ==> undo_entries(*final(b)) == undo_entries(*old(b)).drop_first().push(item),
{
    b.push_back(item)
}

/// Relies on `CircularBuffer::pop_back`: removes and returns the back item,
/// or returns `None` when the buffer is empty.
#[verifier::external_body]
fn buffer_pop(b: &mut CircularBuffer<35, UndoItem>) -> (r: Option<UndoItem>)
    ensures
        undo_entries(*old(b)).len() == 0 ==> r is None && undo_entries(*final(b)) == undo_entries(*old(b)),
        undo_entries(*old(b)).len() > 0 ==> r == Some(undo_entries(*old(b)).last())
            && undo_entries(*final(b)) == undo_entries(*old(b)).drop_last(),
{
    b.pop_back()
}

/// Relies on `CircularBuffer::len`: the number of items held.
#[verifier::external_body]
fn buffer_len(b: &CircularBuffer<35, UndoItem>) -> (r: usize)
    ensures
        r == undo_entries(*b).len(),
{
    b.len()
}

/// `s` with `u` appended, the oldest event dropped when the log is full.
pub open spec fn bounded_push(s: Seq<UndoView>, u: UndoView) -> Seq<UndoView> {
    if s.len() < UNDO_CAPACITY {
        s.push(u)
    } else {
        s.drop_first().push(u)
    }
}

/// The log after recording `u`: merged into the last event where the two
/// merge, appended otherwise.
pub open spec fn recorded(s: Seq<UndoView>, u: UndoView) -> Seq<UndoView> {
    if s.len() > 0 && merged(s.last(), u) is Some {
        s.drop_last().push(merged(s.last(), u).unwrap())
    } else {
        bounded_push(s, u)
    }
}

/// The most recent undo events, oldest first, at most `UNDO_CAPACITY`.
pub struct UndoLog {
    buffer: CircularBuffer<35, UndoItem>,
}

impl UndoLog {
    pub closed spec fn entries(&self) -> Seq<UndoItem> {
        undo_entries(self.buffer)
    }

    pub open spec fn view(&self) -> Seq<UndoView> {
        self.entries().map_values(|u: UndoItem| u@)
    }

    /// Within capacity, every event well formed.
    pub open spec fn wf(&self) -> bool {
        &&& self.view().len() <= UNDO_CAPACITY
        &&& forall|i: int| 0 <= i < self.view().len() ==> event_wf(#[trigger] self.view()[i])
    }

    /// An empty log.
    pub fn new() -> (r: Self)
        ensures
            r.wf(),
            r.view() == Seq::<UndoView>::empty(),
    {
        let r = UndoLog { buffer: buffer_new() };
        assert(r.view() =~= Seq::<UndoView>::empty());
        r
    }

    /// Whether there is nothing to undo.
    pub fn is_empty(&self) -> (r: bool)
        ensures
            r == (self.view().len() == 0),
    {
        buffer_len(&self.buffer) == 0
    }

    /// Record the event that a store mutation returned.
    pub fn record(&mut self, item: UndoItem)
        requires
            old(self).wf(),
            event_wf(item@),
        ensures
            final(self).wf(),
            final(self).view() == recorded(old(self).view(), item@),
    {
        let ghost s = self.view();
        let ghost e = self.entries();
        match buffer_pop(&mut self.buffer) {
            Some(last) => {
                assert(last@ == s.last());
                assert(self.view() =~= s.drop_last());
                match last.merge(&item) {
                    Some(combined) => {
                        buffer_push(&mut self.buffer, combined);
                        assert(self.view() =~= s.drop_last().push(combined@));
                        proof {
                            assert(event_wf(combined@)) by {
                                assert(event_wf(item@));
                            }
                            assert forall|i: int| 0 <= i < self.view().len() implies event_wf(#[trigger] self.view()[i]) by {
                                if i < s.len() - 1 {
                                    assert(self.view()[i] == s[i]);
                                }
                            }
                        }
                    },
                    None => {
                        buffer_push(&mut self.buffer, last);
                        assert(self.view() =~= s);
                        let ghost s1 = self.view();
                        buffer_push(&mut self.buffer, item);
                        proof {
                            if s1.len() < UNDO_CAPACITY {
                                assert(self.view() =~= s1.push(item@));
                            } else {
                                assert(self.view() =~= s1.drop_first().push(item@));
                            }
                            assert forall|i: int| 0 <= i < self.view().len() implies event_wf(#[trigger] self.view()[i]) by {
                                if i < self.view().len() - 1 {
                                    if s1.len() < UNDO_CAPACITY {
                                        assert(self.view()[i] == s1[i]);
                                    } else {
                                        assert(self.view()[i] == s1[i + 1]);
                                    }
                                }
                            }
                        }
                    },
                }
            },
            None => {
                buffer_push(&mut self.buffer, item);
                assert(self.view() =~= s.push(item@));
            },
        }
    }

    /// Append an event without merging it into the last one.
    pub fn push(&mut self, item: UndoItem)
        requires
            old(self).wf(),
            event_wf(item@),
        ensures
            final(self).wf(),
            final(self).view() == bounded_push(old(self).view(), item@),
    {
        let ghost s = self.view();
        buffer_push(&mut self.buffer, item);
        proof {
            if s.len() < UNDO_CAPACITY {
                assert(self.view() =~= s.push(item@));
            } else {
                assert(self.view() =~= s.drop_first().push(item@));
            }
            assert forall|i: int| 0 <= i < self.view().len() implies event_wf(#[trigger] self.view()[i]) by {
                if i < self.view().len() - 1 {
                    if s.len() < UNDO_CAPACITY {
                        assert(self.view()[i] == s[i]);
                    } else {
                        assert(self.view()[i] == s[i + 1]);
                    }
                }
            }
        }
    }

    /// Undo the most recent event on `document`; nothing happens when the
    /// log is empty.
    pub fn undo(&mut self, document: &mut KanbanDocument)
        requires
            old(self).wf(),
            old(document).wf(),
        ensures
            final(self).wf(),
            final(document).wf(),
            old(self).view().len() == 0 ==> final(self).view() == old(self).view()
                && final(document).graph() == old(document).graph(),
            old(self).view().len() > 0 ==> final(self).view() == old(self).view().drop_last()
                && final(document).graph() == undone(old(document).graph(), old(self).view().last()),
    {
        let ghost s = self.view();
        match buffer_pop(&mut self.buffer) {
            Some(item) => {
                assert(item@ == s.last());
                assert(self.view() =~= s.drop_last());
                assert(event_wf(s[s.len() - 1]));
                item.undo(document);
                assert forall|i: int| 0 <= i < self.view().len() implies event_wf(#[trigger] self.view()[i]) by {
                    assert(self.view()[i] == s[i]);
                }
            },
            None => {},
        }
    }
}

} // verus!
