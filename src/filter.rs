//! Filters that a view applies to the tasks it lists.
use vstd::prelude::*;
use crate::document::{relation_of, KanbanDocument, TaskRelation};
use crate::graph::TaskGraph;
use crate::item::{searchable, KanbanId, KanbanItem, TaskView};
use crate::text::{has_substring, text_contains};

verus! {

#[derive(Clone, Debug, PartialEq)]
pub enum KanbanFilter {
    NoFilter,
    /// The searchable text holds the string.
    ContainsString(String),
    /// The category is the string.
    MatchesCategory(String),
    /// The task is the given one, depends on it or is depended on by it.
    RelatedTo(KanbanId),
    /// Completed, or not completed.
    CompletionStatus(bool),
}

impl Default for KanbanFilter {
    fn default() -> (r: Self)
        ensures
            r is NoFilter,
    {
        KanbanFilter::NoFilter
    }
}

impl KanbanFilter {
    /// Whether task `t` of `g` passes the filter.
    pub open spec fn holds(&self, t: TaskView, g: TaskGraph) -> bool {
        match self {
            KanbanFilter::NoFilter => true,
            KanbanFilter::ContainsString(s) => has_substring(searchable(t), s@),
            KanbanFilter::MatchesCategory(c) => t.category == Some(c@),
            KanbanFilter::RelatedTo(id) => relation_of(g, *id, t.id) != TaskRelation::Unrelated,
            KanbanFilter::CompletionStatus(done) => if *done {
                t.completed is Some
            } else {
                t.completed is None
            },
        }
    }

    /// The filter can be asked of the tasks of `g`: a task it relates to
    /// is one of them.
    pub open spec fn usable_with(&self, g: TaskGraph) -> bool {
        match self {
            KanbanFilter::RelatedTo(id) => g.contains_key(*id),
            _ => true,
        }
    }

    /// Whether `item` passes the filter; relatedness is asked of a task of
    /// `document`.
    pub fn matches(&self, item: &KanbanItem, document: &KanbanDocument) -> (r: bool)
        requires
            document.wf(),
            self.usable_with(document.graph()),
            self is RelatedTo ==> document.graph().contains_key(item.id),
        ensures
            r == self.holds(item@, document.graph()),
    {
        match self {
            KanbanFilter::NoFilter => true,
            KanbanFilter::ContainsString(s) => {
                let mut text = String::new();
                item.fill_searchable_buffer(&mut text);
                assert(text@ =~= searchable(item@));
                text_contains(text.as_str(), s.as_str())
            },
            KanbanFilter::MatchesCategory(category) => match &item.category {
                Some(c) => *c == *category,
                None => false,
            },
            KanbanFilter::RelatedTo(id) => document.get_relation(*id, item.id) != TaskRelation::Unrelated,
            KanbanFilter::CompletionStatus(done) => {
                if *done {
                    item.completed.is_some()
                } else {
                    item.completed.is_none()
                }
            },
        }
    }
}

} // verus!
