//! The queue view: the ready tasks, most urgent first.
use vstd::prelude::*;
use crate::document::{lemma_graph_at_pub, status_of, weight_of, KanbanDocument, Status};
use crate::item::{KanbanId, KanbanItem, TaskView};
use crate::ordering::{ranks_above, rank_desc};

verus! {

/// The priority weight of task `id` of `d`.
pub open spec fn weight(d: &KanbanDocument, id: KanbanId) -> i32 {
    weight_of(d.priority_map(), d.graph()[id].priority)
}

spec fn pair_ids_has(p: Seq<(i64, KanbanId)>, x: KanbanId) -> bool {
    exists|k: int| 0 <= k < p.len() && #[trigger] p[k].1 == x
}

spec fn ready_in_prefix(s: Seq<TaskView>, g: crate::graph::TaskGraph, i: int, x: KanbanId) -> bool {
    exists|m: int| 0 <= m < i && #[trigger] s[m].id == x && status_of(g, x) == Status::Ready
}

/// `q` lists the ready tasks of `d` by weight and then by id, largest first.
pub open spec fn is_queue_for(d: &KanbanDocument, q: Seq<KanbanId>) -> bool {
    &&& forall|id: KanbanId| q.contains(id) <==> d.graph().contains_key(id) && status_of(d.graph(), id) == Status::Ready
    &&& forall|i: int, j: int| 0 <= i < j < q.len() ==> ranks_above(
        (weight(d, q[i]) as i64, q[i]),
        (weight(d, q[j]) as i64, q[j]),
    )
}

/// The ready tasks of `d`, as ids, by weight and then by id, largest first.
#[derive(Clone, Debug)]
pub struct QueueState {
    pub cached_ready: Vec<KanbanId>,
}

impl Default for QueueState {
    fn default() -> (r: Self)
        ensures
            r.cached_ready@ == Seq::<KanbanId>::empty(),
    {
        Self::new()
    }
}

impl QueueState {
    /// An empty queue.
    pub fn new() -> (r: Self)
        ensures
            r.cached_ready@ == Seq::<KanbanId>::empty(),
    {
        QueueState { cached_ready: Vec::new() }
    }

    /// Rebuild the queue from `document`.
    pub fn update(&mut self, document: &KanbanDocument)
        requires
            document.wf(),
        ensures
            is_queue_for(document, final(self).cached_ready@),
    {
        let tasks = document.get_tasks();
        let ghost s = document.task_seq();
        let ghost g = document.graph();
        let n = tasks.len();
        let mut pairs: Vec<(i64, KanbanId)> = Vec::new();
        let mut i: usize = 0;
        while i < n
            invariant
                document.wf(),
                n == tasks@.len(),
                s == document.task_seq(),
                g == document.graph(),
                tasks@.map_values(|t: KanbanItem| t@) == s,
                0 <= i <= n,
                forall|k: int| 0 <= k < pairs@.len() ==> g.contains_key(#[trigger] pairs@[k].1)
                    && pairs@[k].0 == weight(document, pairs@[k].1) as i64,
                forall|a: int, b: int| 0 <= a < b < pairs@.len() ==> pairs@[a].1 < pairs@[b].1,
                forall|k: int| 0 <= k < pairs@.len() ==> exists|m: int| 0 <= m < i && s[m].id == #[trigger] pairs@[k].1,
                forall|id: KanbanId| #![trigger pair_ids_has(pairs@, id)] #![trigger ready_in_prefix(s, g, i as int, id)]
                    pair_ids_has(pairs@, id) <==> ready_in_prefix(s, g, i as int, id),
            decreases n - i,
        {
            let id = tasks[i].id;
            proof {
                assert(s[i as int].id == id);
                lemma_graph_at_pub(s, i as int);
            }
            let ghost earlier = pairs@;
            if document.task_status(&id) == Status::Ready {
                let w = document.task_priority_value(&id);
                pairs.push((w as i64, id));
                proof {
                    assert forall|a: int, b: int| 0 <= a < b < pairs@.len() implies pairs@[a].1 < pairs@[b].1 by {
                        if b == pairs@.len() - 1 {
                            let m = choose|m: int| 0 <= m < i && s[m].id == #[trigger] earlier[a].1;
                            assert(pairs@[a] == earlier[a]);
                            assert(s[m].id < s[i as int].id);
                        } else {
                            assert(pairs@[a] == earlier[a] && pairs@[b] == earlier[b]);
                        }
                    }
                    assert forall|k: int| 0 <= k < pairs@.len() implies exists|m: int| 0 <= m < i + 1 && s[m].id == #[trigger] pairs@[k].1 by {
                        if k < earlier.len() {
                            assert(pairs@[k] == earlier[k]);
                            let m = choose|m: int| 0 <= m < i && s[m].id == #[trigger] earlier[k].1;
                        } else {
                            assert(s[i as int].id == pairs@[k].1);
                        }
                    }
                    assert forall|x: KanbanId| #![trigger pair_ids_has(pairs@, x)] #![trigger ready_in_prefix(s, g, i + 1, x)]
                        pair_ids_has(pairs@, x) <==> ready_in_prefix(s, g, i + 1, x) by {
                        if pair_ids_has(pairs@, x) {
                            let k = choose|k: int| 0 <= k < pairs@.len() && #[trigger] pairs@[k].1 == x;
                            if k < earlier.len() {
                                assert(earlier[k].1 == x);
                                assert(pair_ids_has(earlier, x));
                                assert(ready_in_prefix(s, g, i as int, x));
                            } else {
                                assert(s[i as int].id == x);
                            }
                        }
                        if ready_in_prefix(s, g, i + 1, x) {
                            let m = choose|m: int| 0 <= m < i + 1 && #[trigger] s[m].id == x && status_of(g, x) == Status::Ready;
                            if m < i {
                                assert(ready_in_prefix(s, g, i as int, x));
                                assert(pair_ids_has(earlier, x));
                                let k = choose|k: int| 0 <= k < earlier.len() && #[trigger] earlier[k].1 == x;
                                assert(pairs@[k].1 == x);
                            } else {
                                assert(pairs@[pairs@.len() - 1].1 == x);
                            }
                        }
                    }
                }
            } else {
                proof {
                    assert forall|x: KanbanId| #![trigger pair_ids_has(pairs@, x)] #![trigger ready_in_prefix(s, g, i + 1, x)]
                        pair_ids_has(pairs@, x) <==> ready_in_prefix(s, g, i + 1, x) by {
                        if ready_in_prefix(s, g, i + 1, x) {
                            let m = choose|m: int| 0 <= m < i + 1 && #[trigger] s[m].id == x && status_of(g, x) == Status::Ready;
                            if m == i {
                                assert(false);
                            }
                            assert(ready_in_prefix(s, g, i as int, x));
                        }
                        if pair_ids_has(pairs@, x) {
                            assert(ready_in_prefix(s, g, i as int, x));
                            let m = choose|m: int| 0 <= m < i && #[trigger] s[m].id == x && status_of(g, x) == Status::Ready;
                            assert(ready_in_prefix(s, g, i + 1, x));
                        }
                    }
                    assert forall|k: int| 0 <= k < pairs@.len() implies exists|m: int| 0 <= m < i + 1 && s[m].id == #[trigger] pairs@[k].1 by {
                        let m = choose|m: int| 0 <= m < i && s[m].id == #[trigger] pairs@[k].1;
                    }
                }
            }
            i = i + 1;
        }
        let sorted = rank_desc(&pairs);
        let mut ids: Vec<KanbanId> = Vec::new();
        let m = sorted.len();
        let mut j: usize = 0;
        while j < m
            invariant
                m == sorted@.len(),
                0 <= j <= m,
                ids@.len() == j,
                forall|k: int| 0 <= k < j ==> ids@[k] == #[trigger] sorted@[k].1,
            decreases m - j,
        {
            ids.push(sorted[j].1);
            j = j + 1;
        }
        proof {
            assert forall|x: KanbanId| ids@.contains(x) <==> g.contains_key(x) && status_of(g, x) == Status::Ready by {
                if ids@.contains(x) {
                    let k = choose|k: int| 0 <= k < ids@.len() && ids@[k] == x;
                    assert(sorted@.contains(sorted@[k]));
                    assert(pairs@.contains(sorted@[k]));
                    let a = choose|a: int| 0 <= a < pairs@.len() && pairs@[a] == sorted@[k];
                    assert(pairs@[a].1 == x);
                    assert(pair_ids_has(pairs@, x));
                    assert(ready_in_prefix(s, g, n as int, x));
                    let mm = choose|mm: int| 0 <= mm < n && #[trigger] s[mm].id == x && status_of(g, x) == Status::Ready;
                    lemma_graph_at_pub(s, mm);
                }
                if g.contains_key(x) && status_of(g, x) == Status::Ready {
                    let mm = choose|mm: int| 0 <= mm < s.len() && #[trigger] s[mm].id == x;
                    assert(ready_in_prefix(s, g, n as int, x));
                    assert(pair_ids_has(pairs@, x));
                    let a = choose|a: int| 0 <= a < pairs@.len() && #[trigger] pairs@[a].1 == x;
                    assert(pairs@.contains(pairs@[a]));
                    assert(sorted@.contains(pairs@[a]));
                    let k = choose|k: int| 0 <= k < sorted@.len() && sorted@[k] == pairs@[a];
                    assert(ids@[k] == x);
                }
            }
            assert forall|k: int| 0 <= k < sorted@.len() implies g.contains_key(sorted@[k].1)
                && sorted@[k].0 == weight(document, sorted@[k].1) as i64 by {
                assert(sorted@.contains(sorted@[k]));
                assert(pairs@.contains(sorted@[k]));
                let a = choose|a: int| 0 <= a < pairs@.len() && pairs@[a] == sorted@[k];
            }
            assert forall|a: int, b: int| 0 <= a < b < ids@.len() implies ranks_above(
                (weight(document, ids@[a]) as i64, ids@[a]),
                (weight(document, ids@[b]) as i64, ids@[b]),
            ) by {
                assert(ids@[a] == sorted@[a].1 && ids@[b] == sorted@[b].1);
                assert(sorted@[a].0 == weight(document, sorted@[a].1) as i64);
                assert(sorted@[b].0 == weight(document, sorted@[b].1) as i64);
                assert(ranks_above(sorted@[a], sorted@[b]));
            }
        }
        self.cached_ready = ids;
    }
}

} // verus!
