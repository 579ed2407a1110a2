//! A working session: the document, its undo log and the view on show, and
//! how the user's intents change them.
use vstd::prelude::*;
use crate::document::{
    fresh_task, lemma_accepted_edge_keeps_acyclic, lemma_graph_wf, lemma_remove_keeps_acyclic,
    parents_in, plain_style, unlinked, KanbanDocument,
};
use crate::document_layout::KanbanDocumentLayout;
use crate::focused_layout::Focus;
use crate::graph::{acyclic, edge, keyed_by_id, lemma_subgraph_reaches, reaches, reaches_by_step, with_edge, TaskGraph};
use crate::item::{insert_sorted, strictly_increasing, KanbanId, KanbanItem, TaskView};
use crate::time_tracking::{now_millis, timestamp_ok};
use crate::undo::{bounded_push, event_wf, recorded, CreationEvent, UndoItem, UndoLog, UndoView};

verus! {

/// What the user asked of one task shown in a view.
#[derive(Clone, Copy, Debug, PartialEq, Eq, Structural)]
pub enum SummaryAction {
    NoAction,
    OpenEditor(KanbanId),
    /// Create a task that the given one depends on.
    CreateChildOf(KanbanId),
    /// Toggle the completion mark.
    MarkCompleted(KanbanId),
    FocusOn(KanbanId),
    /// Make the second task a dependency of the first.
    AddChildTo(KanbanId, KanbanId),
    UpdateLayout,
}

/// What an editor asks for.
#[derive(Debug)]
pub enum EditorRequest {
    NoRequest,
    /// Write back a new task created under the first one.
    NewItem(KanbanItem, KanbanItem),
    OpenItem(KanbanItem),
    DeleteItem(KanbanItem),
    UpdateItem(KanbanItem),
}

/// `t` with the completion mark toggled: set to `now` where there was none.
pub open spec fn toggled_completion(t: TaskView, now: i64) -> TaskView {
    TaskView { completed: if t.completed is Some { None } else { Some(now) }, ..t }
}

/// `t` after taking `parent`'s category where the style of that category
/// says that dependencies created under it inherit it.
pub open spec fn inherited(t: TaskView, parent: TaskView, cats: Map<Seq<char>, crate::document::KanbanCategoryStyle>) -> TaskView {
    match parent.category {
        Some(c) => if cats.contains_key(c) && cats[c].children_inherit_category {
            TaskView { category: Some(c), ..t }
        } else {
            t
        },
        None => t,
    }
}

/// Each task id that `a` names is a task of `g`.
pub open spec fn action_ok(a: SummaryAction, g: TaskGraph) -> bool {
    match a {
        SummaryAction::OpenEditor(id) => g.contains_key(id),
        SummaryAction::CreateChildOf(id) => g.contains_key(id),
        SummaryAction::MarkCompleted(id) => g.contains_key(id),
        SummaryAction::AddChildTo(p, c) => g.contains_key(p) && g.contains_key(c),
        _ => true,
    }
}

/// The view after being told of new tasks.
pub open spec fn informed(a: KanbanDocumentLayout, b: KanbanDocumentLayout) -> bool {
    match (a, b) {
        (KanbanDocumentLayout::Search(x), KanbanDocumentLayout::Search(y)) => y.matched() == Seq::<KanbanId>::empty()
            && y.prompt() == x.prompt() && y.former_prompt() == x.former_prompt(),
        (KanbanDocumentLayout::Search(_), _) => false,
        _ => b == a,
    }
}

/// The event that writing `t` into `g` returns.
pub open spec fn replace_event(g: TaskGraph, t: TaskView) -> UndoView {
    if g.contains_key(t.id) {
        UndoView::Modification(g[t.id])
    } else {
        UndoView::Create(None, t)
    }
}

/// The tasks that a request carries are well formed.
pub open spec fn request_ok(q: &EditorRequest) -> bool {
    match q {
        EditorRequest::NewItem(_, t) => t@.wf(),
        EditorRequest::DeleteItem(t) => t@.wf(),
        EditorRequest::UpdateItem(t) => t@.wf(),
        _ => true,
    }
}

/// The tasks of `g` with `t` put in and `t` added to `p`'s dependencies.
pub open spec fn with_new_child(g: TaskGraph, p: KanbanId, t: TaskView) -> TaskGraph {
    g.insert(t.id, t).insert(p, g[p].with_children(insert_sorted(g[p].child_tasks, t.id)))
}

proof fn lemma_same_edges_acyclic(g: TaskGraph, h: TaskGraph)
    requires
        acyclic(g),
        forall|x: KanbanId, c: KanbanId| #[trigger] edge(h, x, c) ==> edge(g, x, c),
    ensures
        acyclic(h),
{
    assert forall|x: KanbanId| !#[trigger] reaches_by_step(h, x, x) by {
        if reaches_by_step(h, x, x) {
            let c = choose|c: KanbanId| #[trigger] edge(h, x, c) && reaches(h, c, x);
            lemma_subgraph_reaches(g, h, c, x);
            assert(edge(g, x, c));
            assert(reaches_by_step(g, x, x));
        }
    }
}

/// What acting on `a` with the clock at `now` does to session `s0`,
/// leaving `s1` and returning `r`.
pub open spec fn summary_done(s0: KanbanSession, s1: KanbanSession, a: SummaryAction, now: i64, r: Option<KanbanItem>) -> bool {
    &&& (a matches SummaryAction::NoAction ==> r is None
            && s1.document.graph() == s0.document.graph() && s1.undo.view() == s0.undo.view())
    &&& (a matches SummaryAction::OpenEditor(id) ==> r matches Some(t) && t@ == s0.document.graph()[id]
            && s1.document.graph() == s0.document.graph() && s1.undo.view() == s0.undo.view())
    &&& (a matches SummaryAction::CreateChildOf(id) ==> r matches Some(t) && !s0.document.graph().contains_key(t.id)
            && t@ == inherited(fresh_task(t.id), s0.document.graph()[id], s0.document.category_map())
            && s1.document.graph() == with_new_child(s0.document.graph(), id, t@)
            && s1.undo.view() == recorded(
                bounded_push(s0.undo.view(), UndoView::Modification(s0.document.graph()[id])),
                UndoView::Create(Some(id), t@),
            )
            && informed(s0.current_layout, s1.current_layout)
            && s1.layout_cache_needs_updating && s1.modified_since_last_saved)
    &&& (a matches SummaryAction::MarkCompleted(id) ==> r is None
            && s1.document.graph() == s0.document.graph().insert(id, toggled_completion(s0.document.graph()[id], now))
            && s1.undo.view() == recorded(s0.undo.view(), UndoView::Modification(s0.document.graph()[id]))
            && s1.layout_cache_needs_updating)
    &&& (a matches SummaryAction::FocusOn(id) ==> r is None
            && s1.document.graph() == s0.document.graph() && s1.undo.view() == s0.undo.view()
            && s1.layout_cache_needs_updating
            && match (s0.current_layout, s1.current_layout) {
                (KanbanDocumentLayout::TreeOutline(x), KanbanDocumentLayout::TreeOutline(y)) => y.focus() == Some(id)
                    && y.rows() == x.rows() && y.roots() == x.roots() && y.excludes_completed() == x.excludes_completed(),
                (KanbanDocumentLayout::TreeOutline(_), _) => false,
                (_, KanbanDocumentLayout::Focused(f)) => f.cares_about == Some(id)
                    && f.children@ == Seq::<KanbanId>::empty() && f.ancestors@ == Seq::<KanbanId>::empty(),
                _ => false,
            })
    &&& (a matches SummaryAction::AddChildTo(p, c) ==> r is None && s1.layout_cache_needs_updating
            && s1.modified_since_last_saved
            && if p != c && !reaches(s0.document.graph(), c, p) {
                s1.document.graph() == with_edge(s0.document.graph(), p, c)
                    && s1.undo.view() == recorded(s0.undo.view(), UndoView::Modification(s0.document.graph()[p]))
            } else {
                s1.document.graph() == s0.document.graph() && s1.undo.view() == s0.undo.view()
            })
    &&& (a matches SummaryAction::UpdateLayout ==> r is None
            && s1.document.graph() == s0.document.graph() && s1.undo.view() == s0.undo.view()
            && s1.layout_cache_needs_updating)
}

pub struct KanbanSession {
    pub document: KanbanDocument,
    pub undo: UndoLog,
    pub current_layout: KanbanDocumentLayout,
    pub layout_cache_needs_updating: bool,
    pub modified_since_last_saved: bool,
}

impl KanbanSession {
    pub open spec fn wf(&self) -> bool {
        self.document.wf() && self.undo.wf()
    }

    /// An empty document in the columnar view, with nothing to undo.
    pub fn new() -> (r: Self)
        ensures
            r.wf(),
            r.document.graph() == Map::<KanbanId, TaskView>::empty(),
            r.document.task_seq().len() == 0,
            r.undo.view() == Seq::<UndoView>::empty(),
            r.layout_cache_needs_updating,
            !r.modified_since_last_saved,
    {
        let r = KanbanSession {
            document: KanbanDocument::default(),
            undo: UndoLog::new(),
            current_layout: KanbanDocumentLayout::Columnar([Vec::new(), Vec::new(), Vec::new()]),
            layout_cache_needs_updating: true,
            modified_since_last_saved: false,
        };
        assert(r.document.graph() =~= Map::<KanbanId, TaskView>::empty());
        r
    }

    /// Record an undo event, merging it into the last one where they merge.
    pub fn record_undo(&mut self, item: UndoItem)
        requires
            old(self).wf(),
            event_wf(item@),
        ensures
            final(self).wf(),
            final(self).undo.view() == recorded(old(self).undo.view(), item@),
            final(self).document == old(self).document,
    {
        self.undo.record(item);
    }

    /// Undo the most recent event.
    pub fn undo(&mut self)
        requires
            old(self).wf(),
        ensures
            final(self).wf(),
            old(self).undo.view().len() == 0 ==> final(self).undo.view() == old(self).undo.view()
                && final(self).document.graph() == old(self).document.graph(),
            old(self).undo.view().len() > 0 ==> final(self).undo.view() == old(self).undo.view().drop_last()
                && final(self).document.graph() == crate::undo::undone(old(self).document.graph(), old(self).undo.view().last()),
    {
        self.undo.undo(&mut self.document);
    }

    /// Act on `action` with the clock reading `now`. Returns the task to
    /// open an editor for, if any. A dependency is added only where it
    /// closes no cycle, so tasks without cycles stay so.
    pub fn handle_summary_action_at(&mut self, action: &SummaryAction, now: i64) -> (r: Option<KanbanItem>)
        requires
            old(self).wf(),
            action_ok(*action, old(self).document.graph()),
            action matches SummaryAction::CreateChildOf(_) ==> old(self).document.task_seq().len() < 0xffff_ffff,
        ensures
            final(self).wf(),
            acyclic(old(self).document.graph()) ==> acyclic(final(self).document.graph()),
            summary_done(*old(self), *final(self), *action, now, r),
    {
        let ghost g = self.document.graph();
        proof {
            lemma_graph_wf(&self.document);
        }
        match *action {
            SummaryAction::NoAction => None,
            SummaryAction::OpenEditor(id) => Some(self.document.get_task(id).unwrap().snapshot()),
            SummaryAction::CreateChildOf(id) => {
                let mut new_task = self.document.get_new_task();
                let ghost g1 = self.document.graph();
                let mut task_copy = self.document.get_task(id).unwrap().snapshot();
                assert(task_copy@ == g[id]);
                new_task.inherit(&task_copy, &self.document);
                self.document.replace_task(&new_task);
                let child_creation = UndoItem::Create(CreationEvent { parent_id: Some(id), new_task: new_task.snapshot() });
                task_copy.add_child(&new_task);
                let parent_change = self.document.replace_task(&task_copy);
                proof {
                    assert(g1.insert(new_task.id, new_task@).insert(id, task_copy@) =~= with_new_child(g, id, new_task@));
                }
                self.undo.push(parent_change);
                self.undo.record(child_creation);
                self.layout_cache_needs_updating = true;
                self.modified_since_last_saved = true;
                self.current_layout.inform_of_new_items();
                proof {
                    let t = new_task@;
                    let h = g.insert(t.id, t);
                    if acyclic(g) {
                        assert forall|x: KanbanId, y: KanbanId| #[trigger] edge(h, x, y) implies edge(g, x, y) by {
                            if x == t.id {
                                assert(t.child_tasks.len() == 0);
                            }
                        }
                        lemma_same_edges_acyclic(g, h);
                        if reaches(h, t.id, id) {
                            let q = choose|q: Seq<KanbanId>| #[trigger] crate::graph::is_path(h, q) && q[0] == t.id && q.last() == id;
                            if q.len() > 1 {
                                assert(edge(h, q[0], q[1]));
                            }
                        }
                        assert(h[id] == g[id]);
                        crate::graph::lemma_checked_edge_keeps_acyclic(h, id, t.id);
                        assert(with_edge(h, id, t.id) =~= with_new_child(g, id, t));
                    }
                }
                Some(new_task)
            },
            SummaryAction::MarkCompleted(id) => {
                let mut task = self.document.get_task(id).unwrap().snapshot();
                task.completed = match task.completed {
                    Some(_) => None,
                    None => Some(now),
                };
                assert(task@ == toggled_completion(g[id], now));
                let undo = self.document.replace_task(&task);
                self.undo.record(undo);
                self.layout_cache_needs_updating = true;
                proof {
                    if acyclic(g) {
                        let h = self.document.graph();
                        assert forall|x: KanbanId, y: KanbanId| #[trigger] edge(h, x, y) implies edge(g, x, y) by {}
                        lemma_same_edges_acyclic(g, h);
                    }
                }
                None
            },
            SummaryAction::FocusOn(id) => {
                if let KanbanDocumentLayout::TreeOutline(t_o) = &mut self.current_layout {
                    t_o.set_focus(id);
                } else {
                    self.current_layout = KanbanDocumentLayout::Focused(Focus::new(id));
                }
                self.layout_cache_needs_updating = true;
                None
            },
            SummaryAction::AddChildTo(parent, child) => {
                let p = self.document.get_task(parent).unwrap();
                let c = self.document.get_task(child).unwrap();
                proof {
                    assert(self.document.graph_over(Some(p@), Some(c@)) =~= g);
                }
                if self.document.can_add_as_child(p, c) {
                    let mut task = p.snapshot();
                    task.add_child(c);
                    proof {
                        if acyclic(g) {
                            lemma_accepted_edge_keeps_acyclic(&self.document, g[parent], g[child]);
                        }
                    }
                    let undo = self.document.replace_task(&task);
                    assert(self.document.graph() =~= with_edge(g, parent, child));
                    self.undo.record(undo);
                }
                self.layout_cache_needs_updating = true;
                self.modified_since_last_saved = true;
                None
            },
            SummaryAction::UpdateLayout => {
                self.layout_cache_needs_updating = true;
                None
            },
        }
    }

    /// Act on an editor's request. Returns the task to open an editor for,
    /// if any.
    pub fn handle_editor_request(&mut self, request: &EditorRequest) -> (r: Option<KanbanItem>)
        requires
            old(self).wf(),
            request_ok(request),
        ensures
            final(self).wf(),
            request is NoRequest ==> r is None && final(self).document.graph() == old(self).document.graph()
                && final(self).undo.view() == old(self).undo.view(),
            request matches EditorRequest::NewItem(parent, t) ==> r matches Some(x)
                && x@ == inherited(t@, parent@, old(self).document.category_map())
                && final(self).document.graph() == old(self).document.graph().insert(x.id, x@)
                && final(self).undo.view() == recorded(old(self).undo.view(), replace_event(old(self).document.graph(), x@))
                && informed(old(self).current_layout, final(self).current_layout)
                && final(self).layout_cache_needs_updating && final(self).modified_since_last_saved,
            request matches EditorRequest::OpenItem(t) ==> r matches Some(x) && x@ == t@
                && final(self).document.graph() == old(self).document.graph() && final(self).undo.view() == old(self).undo.view(),
            request matches EditorRequest::DeleteItem(t) ==> r is None
                && final(self).document.graph() == unlinked(old(self).document.graph(), t.id)
                && (exists|ps: Seq<KanbanId>| strictly_increasing(ps) && ps.to_set() == parents_in(old(self).document.graph(), t.id)
                    && final(self).undo.view() == recorded(old(self).undo.view(), UndoView::Delete(
                        if old(self).document.graph().contains_key(t.id) { old(self).document.graph()[t.id] } else { t@ },
                        ps,
                    )))
                && informed(old(self).current_layout, final(self).current_layout)
                && final(self).layout_cache_needs_updating && final(self).modified_since_last_saved
                && (acyclic(old(self).document.graph()) ==> acyclic(final(self).document.graph())),
            request matches EditorRequest::UpdateItem(t) ==> r is None
                && final(self).document.graph() == old(self).document.graph().insert(t.id, t@)
                && final(self).undo.view() == recorded(old(self).undo.view(), replace_event(old(self).document.graph(), t@))
                && final(self).layout_cache_needs_updating && final(self).modified_since_last_saved,
    {
        let ghost g = self.document.graph();
        match request {
            EditorRequest::NoRequest => None,
            EditorRequest::NewItem(parent, new_task) => {
                let mut t = new_task.snapshot();
                t.inherit(parent, &self.document);
                let undo = self.document.replace_task(&t);
                self.undo.record(undo);
                self.layout_cache_needs_updating = true;
                self.modified_since_last_saved = true;
                self.current_layout.inform_of_new_items();
                Some(t)
            },
            EditorRequest::OpenItem(item) => Some(item.snapshot()),
            EditorRequest::DeleteItem(item) => {
                proof {
                    lemma_graph_wf(&self.document);
                }
                let undo = self.document.remove_task(item);
                self.undo.record(undo);
                self.layout_cache_needs_updating = true;
                self.modified_since_last_saved = true;
                self.current_layout.inform_of_new_items();
                proof {
                    if acyclic(g) {
                        lemma_remove_keeps_acyclic(g, item.id);
                    }
                }
                None
            },
            EditorRequest::UpdateItem(item) => {
                let undo = self.document.replace_task(item);
                self.undo.record(undo);
                self.modified_since_last_saved = true;
                self.layout_cache_needs_updating = true;
                None
            },
        }
    }

    /// Act on `action` now; see `handle_summary_action_at`.
    pub fn handle_summary_action(&mut self, action: &SummaryAction) -> (r: Option<KanbanItem>)
        requires
            old(self).wf(),
            action_ok(*action, old(self).document.graph()),
            action matches SummaryAction::CreateChildOf(_) ==> old(self).document.task_seq().len() < 0xffff_ffff,
        ensures
            final(self).wf(),
            acyclic(old(self).document.graph()) ==> acyclic(final(self).document.graph()),
            exists|now: i64| timestamp_ok(now) && summary_done(*old(self), *final(self), *action, now, r),
    {
        let now = now_millis();
        self.handle_summary_action_at(action, now)
    }
}

} // verus!
