//! The focus view: for one task, the tasks it depends on and the tasks that
//! depend on it.
use vstd::prelude::*;
use crate::document::{
    lemma_graph_at_pub, lemma_select_step, relation_of, select_ids, KanbanDocument, TaskRelation,
};
use crate::graph::TaskGraph;
use crate::item::{KanbanId, KanbanItem, TaskView};

verus! {

/// The predicate of the tasks that stand to `x` as `rel` says.
pub open spec fn related_as(g: TaskGraph, x: KanbanId, rel: TaskRelation) -> spec_fn(TaskView) -> bool {
    |t: TaskView| t.id != x && relation_of(g, x, t.id) == rel
}

#[derive(Clone, Debug)]
pub struct Focus {
    pub cares_about: Option<KanbanId>,
    /// The tasks that the focused task depends on, directly or not.
    pub children: Vec<KanbanId>,
    /// The tasks that depend on the focused task, directly or not.
    pub ancestors: Vec<KanbanId>,
}

impl Focus {
    /// Focus on task `id`, with nothing computed yet.
    pub fn new(id: KanbanId) -> (r: Focus)
        ensures
            r.cares_about == Some(id),
            r.children@ == Seq::<KanbanId>::empty(),
            r.ancestors@ == Seq::<KanbanId>::empty(),
    {
        Focus { cares_about: Some(id), children: Vec::new(), ancestors: Vec::new() }
    }

    /// Recompute both lists from `document`, in increasing order of id.
    pub fn update(&mut self, document: &KanbanDocument)
        requires
            document.wf(),
            old(self).cares_about matches Some(x) ==> document.graph().contains_key(x),
        ensures
            final(self).cares_about == old(self).cares_about,
            match old(self).cares_about {
                Some(x) => final(self).children@ == select_ids(document.task_seq(), related_as(document.graph(), x, TaskRelation::ParentOf))
                    && final(self).ancestors@ == select_ids(document.task_seq(), related_as(document.graph(), x, TaskRelation::ChildOf)),
                None => final(self).children@ == old(self).children@ && final(self).ancestors@ == old(self).ancestors@,
            },
    {
        let subject = match self.cares_about {
            Some(x) => x,
            None => return,
        };
        let tasks = document.get_tasks();
        let ghost s = document.task_seq();
        let ghost g = document.graph();
        let mut children: Vec<KanbanId> = Vec::new();
        let mut ancestors: Vec<KanbanId> = Vec::new();
        let n = tasks.len();
        let mut i: usize = 0;
        while i < n
            invariant
                document.wf(),
                n == tasks@.len(),
                s == document.task_seq(),
                g == document.graph(),
                g.contains_key(subject),
                tasks@.map_values(|t: KanbanItem| t@) == s,
                0 <= i <= n,
                children@ == select_ids(s.take(i as int), related_as(g, subject, TaskRelation::ParentOf)),
                ancestors@ == select_ids(s.take(i as int), related_as(g, subject, TaskRelation::ChildOf)),
            decreases n - i,
        {
            let id = tasks[i].id;
            proof {
                assert(s[i as int].id == id);
                lemma_graph_at_pub(s, i as int);
                lemma_select_step(s, related_as(g, subject, TaskRelation::ParentOf), i as int);
                lemma_select_step(s, related_as(g, subject, TaskRelation::ChildOf), i as int);
            }
            if id != subject {
                let rel = document.get_relation(subject, id);
                if rel == TaskRelation::ChildOf {
                    ancestors.push(id);
                } else if rel == TaskRelation::ParentOf {
                    children.push(id);
                }
            }
            i = i + 1;
        }
        assert(s.take(n as int) =~= s);
        self.children = children;
        self.ancestors = ancestors;
    }
}

} // verus!
