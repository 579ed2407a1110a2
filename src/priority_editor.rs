//! The state of the priority editor: a weight being typed in.
use vstd::prelude::*;
use crate::document::KanbanDocument;

verus! {

pub struct PriorityEditor {
    pub name: String,
    pub current_value: i32,
    pub open: bool,
}

impl PriorityEditor {
    /// An empty, closed editor.
    pub fn new() -> (r: Self)
        ensures
            r.name@ == Seq::<char>::empty(),
            r.current_value == 0,
            !r.open,
    {
        PriorityEditor { name: String::new(), current_value: 0, open: false }
    }

    /// Give the typed-in name the typed-in weight, then clear both. Nothing
    /// happens while the name is empty. Returns whether the weights changed.
    pub fn add_to(&mut self, document: &mut KanbanDocument) -> (r: bool)
        requires
            old(document).wf(),
        ensures
            final(document).wf(),
            r == (old(self).name@.len() > 0),
            r ==> final(document).priority_map() == old(document).priority_map().insert(old(self).name@, old(self).current_value)
                && final(self).name@ == Seq::<char>::empty() && final(self).current_value == 0,
            !r ==> final(document).priority_map() == old(document).priority_map() && final(self).name@ == old(self).name@
                && final(self).current_value == old(self).current_value,
            final(document).task_seq() == old(document).task_seq(),
            final(self).open == old(self).open,
    {
        if self.name.as_str().is_empty() {
            return false;
        }
        document.set_priority(self.name.as_str(), self.current_value);
        self.name = String::new();
        self.current_value = 0;
        true
    }
}

} // verus!
