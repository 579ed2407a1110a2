//! The search view: the tasks whose searchable text matches a fuzzy query,
//! best match first.
use vstd::prelude::*;
use nucleo_matcher::pattern::{CaseMatching, Normalization, Pattern};
use nucleo_matcher::{Config, Matcher, Utf32Str};
use crate::document::KanbanDocument;
use crate::item::{searchable, KanbanId, KanbanItem, TaskView};
use crate::ordering::{lemma_ranked_unique, rank_desc, ranked};

verus! {

#[verifier::external_type_specification]
#[verifier::external_body]
pub struct ExMatcher(Matcher);

/// The fuzzy score of `text` against `query`, `None` where it does not match.
pub uninterp spec fn fuzzy_score_of(query: Seq<char>, text: Seq<char>) -> Option<u32>;

/// Relies on nucleo-matcher's `Matcher::new` with the default configuration.
#[verifier::external_body]
fn new_matcher() -> Matcher {
    Matcher::new(Config::DEFAULT)
}

/// `text` is short enough for the matcher: at most `u32::MAX` bytes of
/// UTF-8, the longest text that nucleo-matcher scores.
pub open spec fn fits_matcher(text: Seq<char>) -> bool {
    vstd::utf8::encode_utf8(text).len() <= u32::MAX
}

/// Relies on nucleo-matcher: `Pattern::parse` of the query with smart case
/// and smart normalization, scored against the text by `Pattern::score`.
/// The score depends on the query and the text alone. The matcher asserts
/// that the text is at most `u32::MAX` units long; an ASCII text is passed
/// as bytes, so the bound is on the UTF-8 length.
#[verifier::external_body]
fn fuzzy_score(matcher: &mut Matcher, query: &str, text: &str) -> (r: Option<u32>)
    requires
        fits_matcher(text@),
    ensures
        r == fuzzy_score_of(query@, text@),
{
    let pattern = Pattern::parse(query, CaseMatching::Smart, Normalization::Smart);
    let mut buf: Vec<char> = Vec::new();
    pattern.score(Utf32Str::new(text, &mut buf), matcher)
}

/// The (score, id) pairs of the entries that matched, in order.
pub open spec fn scored_pairs(scored: Seq<(KanbanId, Option<u32>)>) -> Seq<(i64, KanbanId)>
    decreases scored.len(),
{
    if scored.len() == 0 {
        Seq::empty()
    } else {
        let rest = scored_pairs(scored.drop_last());
        match scored.last().1 {
            Some(s) => rest.push((s as i64, scored.last().0)),
            None => rest,
        }
    }
}

/// `r` lists the ids that matched, by score and then by id, largest first.
pub open spec fn is_ranking(scored: Seq<(KanbanId, Option<u32>)>, r: Seq<KanbanId>) -> bool {
    exists|p: Seq<(i64, KanbanId)>|
        ranked(p) && (forall|x: (i64, KanbanId)| #[trigger] p.contains(x) <==> scored_pairs(scored).contains(x))
            && r == p.map_values(|x: (i64, KanbanId)| x.1)
}

/// The score of each task of `s` against `q`; a task whose searchable text
/// is too long for the matcher does not match.
pub open spec fn search_scores(s: Seq<TaskView>, q: Seq<char>) -> Seq<(KanbanId, Option<u32>)> {
    s.map_values(|t: TaskView| (t.id, score_if_fits(q, searchable(t))))
}

/// The score of `text` against `q`; a text too long for the matcher does
/// not match.
pub open spec fn score_if_fits(q: Seq<char>, text: Seq<char>) -> Option<u32> {
    if fits_matcher(text) {
        fuzzy_score_of(q, text)
    } else {
        None
    }
}

proof fn lemma_scored_pairs(scored: Seq<(KanbanId, Option<u32>)>)
    ensures
        forall|x: (i64, KanbanId)| #[trigger] scored_pairs(scored).contains(x)
            <==> exists|k: int| 0 <= k < scored.len() && scored[k].0 == x.1 && #[trigger] scored[k].1 == Some(x.0 as u32)
                && 0 <= x.0 <= u32::MAX,
        forall|k: int| 0 <= k < scored_pairs(scored).len() ==> exists|m: int| 0 <= m < scored.len() && #[trigger] scored[m].0 == #[trigger] scored_pairs(scored)[k].1,
    decreases scored.len(),
{
    if scored.len() > 0 {
        let d = scored.drop_last();
        lemma_scored_pairs(d);
        let rest = scored_pairs(d);
        let l = scored.last();
        match l.1 {
            Some(s) => {
                crate::item::lemma_push_contains(rest, (s as i64, l.0));
            },
            None => {},
        }
        assert forall|x: (i64, KanbanId)| #[trigger] scored_pairs(scored).contains(x)
            <==> exists|k: int| 0 <= k < scored.len() && scored[k].0 == x.1 && #[trigger] scored[k].1 == Some(x.0 as u32)
                && 0 <= x.0 <= u32::MAX by {
            if exists|k: int| 0 <= k < scored.len() && scored[k].0 == x.1 && #[trigger] scored[k].1 == Some(x.0 as u32) && 0 <= x.0 <= u32::MAX {
                let k = choose|k: int| 0 <= k < scored.len() && scored[k].0 == x.1 && #[trigger] scored[k].1 == Some(x.0 as u32) && 0 <= x.0 <= u32::MAX;
                if k < scored.len() - 1 {
                    assert(d[k] == scored[k]);
                }
            }
            if rest.contains(x) {
                let k = choose|k: int| 0 <= k < d.len() && d[k].0 == x.1 && #[trigger] d[k].1 == Some(x.0 as u32) && 0 <= x.0 <= u32::MAX;
                assert(scored[k] == d[k]);
            }
        }
        assert forall|k: int| 0 <= k < scored_pairs(scored).len() implies exists|m: int| 0 <= m < scored.len() && #[trigger] scored[m].0 == #[trigger] scored_pairs(scored)[k].1 by {
            if k < rest.len() {
                let m = choose|m: int| 0 <= m < d.len() && #[trigger] d[m].0 == rest[k].1;
                assert(scored[m] == d[m]);
                assert(scored_pairs(scored)[k] == rest[k]);
            } else {
                assert(scored[scored.len() - 1].0 == scored_pairs(scored)[k].1);
            }
        }
    }
}

/// The ids of `scored` that matched, ordered by score and then by id,
/// largest first.
pub fn rank_matches(scored: &Vec<(KanbanId, Option<u32>)>) -> (r: Vec<KanbanId>)
    requires
        forall|i: int, j: int| 0 <= i < j < scored@.len() ==> scored@[i].0 != scored@[j].0,
    ensures
        is_ranking(scored@, r@),
{
    let mut pairs: Vec<(i64, KanbanId)> = Vec::new();
    let n = scored.len();
    let mut i: usize = 0;
    while i < n
        invariant
            n == scored@.len(),
            forall|a: int, b: int| 0 <= a < b < scored@.len() ==> scored@[a].0 != scored@[b].0,
            0 <= i <= n,
            pairs@ == scored_pairs(scored@.take(i as int)),
        decreases n - i,
    {
        assert(scored@.take(i as int + 1).drop_last() =~= scored@.take(i as int));
        match scored[i].1 {
            Some(sc) => {
                pairs.push((sc as i64, scored[i].0));
            },
            None => {},
        }
        i = i + 1;
    }
    assert(scored@.take(n as int) =~= scored@);
    proof {
        lemma_scored_pairs(scored@);
        assert forall|a: int, b: int| 0 <= a < b < pairs@.len() implies pairs@[a].1 != pairs@[b].1 by {
            lemma_scored_pairs_order(scored@, a, b);
        }
    }
    let sorted = rank_desc(&pairs);
    let mut ids: Vec<KanbanId> = Vec::new();
    let m = sorted.len();
    let mut j: usize = 0;
    while j < m
        invariant
            m == sorted@.len(),
            0 <= j <= m,
            ids@ == sorted@.take(j as int).map_values(|x: (i64, KanbanId)| x.1),
        decreases m - j,
    {
        ids.push(sorted[j].1);
        j = j + 1;
        assert(ids@ =~= sorted@.take(j as int).map_values(|x: (i64, KanbanId)| x.1));
    }
    assert(sorted@.take(m as int) =~= sorted@);
    assert(is_ranking(scored@, ids@));
    ids
}

proof fn lemma_scored_pairs_order(scored: Seq<(KanbanId, Option<u32>)>, a: int, b: int)
    requires
        forall|i: int, j: int| 0 <= i < j < scored.len() ==> scored[i].0 != scored[j].0,
        0 <= a < b < scored_pairs(scored).len(),
    ensures
        scored_pairs(scored)[a].1 != scored_pairs(scored)[b].1,
    decreases scored.len(),
{
    let d = scored.drop_last();
    let rest = scored_pairs(d);
    lemma_scored_pairs(d);
    if b < rest.len() {
        assert(scored_pairs(scored)[a] == rest[a] && scored_pairs(scored)[b] == rest[b]);
        lemma_scored_pairs_order(d, a, b);
    } else {
        assert(scored_pairs(scored)[a] == rest[a]);
        let m = choose|m: int| 0 <= m < d.len() && #[trigger] d[m].0 == rest[a].1;
        assert(scored[m] == d[m]);
        assert(scored_pairs(scored)[b].1 == scored.last().0);
    }
}

/// The same scores rank the same way: a query asked twice of an unchanged
/// document lists the same ids in the same order.
pub proof fn lemma_ranking_unique(scored: Seq<(KanbanId, Option<u32>)>, r1: Seq<KanbanId>, r2: Seq<KanbanId>)
    requires
        is_ranking(scored, r1),
        is_ranking(scored, r2),
    ensures
        r1 == r2,
{
    let ranked_a = choose|p: Seq<(i64, KanbanId)>|
        ranked(p) && (forall|x: (i64, KanbanId)| #[trigger] p.contains(x) <==> scored_pairs(scored).contains(x))
            && r1 == p.map_values(|x: (i64, KanbanId)| x.1);
    let ranked_b = choose|p: Seq<(i64, KanbanId)>|
        ranked(p) && (forall|x: (i64, KanbanId)| #[trigger] p.contains(x) <==> scored_pairs(scored).contains(x))
            && r2 == p.map_values(|x: (i64, KanbanId)| x.1);
    lemma_ranked_unique(ranked_a, ranked_b);
}

/// The search cache: the query, the query the results were computed for,
/// and the matched ids.
pub struct SearchState {
    pub matched_ids: Vec<KanbanId>,
    pub search_prompt: String,
    former_search_prompt: String,
    matcher: Matcher,
}

impl SearchState {
    /// The query that `matched_ids` answers.
    pub closed spec fn former_prompt(&self) -> Seq<char> {
        self.former_search_prompt@
    }

    /// The matched ids.
    pub closed spec fn matched(&self) -> Seq<KanbanId> {
        self.matched_ids@
    }

    /// The query.
    pub closed spec fn prompt(&self) -> Seq<char> {
        self.search_prompt@
    }

    /// An empty query with no results.
    pub fn new() -> (r: Self)
        ensures
            r.matched() == Seq::<KanbanId>::empty(),
            r.prompt() == Seq::<char>::empty(),
            r.former_prompt() == Seq::<char>::empty(),
    {
        SearchState {
            matched_ids: Vec::new(),
            search_prompt: String::new(),
            former_search_prompt: String::new(),
            matcher: new_matcher(),
        }
    }

    /// Drop the results so that the next update recomputes them.
    pub fn force_update(&mut self)
        ensures
            final(self).matched() == Seq::<KanbanId>::empty(),
            final(self).prompt() == old(self).prompt(),
            final(self).former_prompt() == old(self).former_prompt(),
    {
        self.matched_ids.clear();
    }

    /// Recompute the results, unless the query is the one they answer and
    /// they are not empty.
    pub fn update(&mut self, document: &KanbanDocument)
        requires
            document.wf(),
        ensures
            final(self).prompt() == old(self).prompt(),
            if old(self).prompt() == old(self).former_prompt() && old(self).matched().len() > 0 {
                final(self).matched() == old(self).matched() && final(self).former_prompt() == old(self).former_prompt()
            } else {
                final(self).former_prompt() == old(self).prompt()
                    && is_ranking(search_scores(document.task_seq(), old(self).prompt()), final(self).matched())
            },
    {
        if self.search_prompt == self.former_search_prompt && self.matched_ids.len() > 0 {
            return;
        }
        let tasks = document.get_tasks();
        let ghost s = document.task_seq();
        let ghost q = self.search_prompt@;
        let n = tasks.len();
        let mut scored: Vec<(KanbanId, Option<u32>)> = Vec::new();
        let mut i: usize = 0;
        while i < n
            invariant
                document.wf(),
                n == tasks@.len(),
                s == document.task_seq(),
                tasks@.map_values(|t: KanbanItem| t@) == s,
                q == self.search_prompt@,
                0 <= i <= n,
                scored@ == search_scores(s, q).take(i as int),
            decreases n - i,
        {
            let mut text = String::new();
            tasks[i].fill_searchable_buffer(&mut text);
            let blob = text.as_str();
            let bytes = blob.as_bytes().len();
            assert(blob@ == text@);
            let sc = if bytes <= u32::MAX as usize {
                fuzzy_score(&mut self.matcher, self.search_prompt.as_str(), blob)
            } else {
                None
            };
            proof {
                assert(text@ =~= searchable(s[i as int]));
            }
            scored.push((tasks[i].id, sc));
            i = i + 1;
            assert(scored@ =~= search_scores(s, q).take(i as int));
        }
        assert(search_scores(s, q).take(n as int) =~= search_scores(s, q));
        proof {
            assert forall|a: int, b: int| 0 <= a < b < scored@.len() implies scored@[a].0 != scored@[b].0 by {
                assert(scored@[a].0 == s[a].id && scored@[b].0 == s[b].id);
            }
        }
        self.matched_ids = rank_matches(&scored);
        self.former_search_prompt = self.search_prompt.clone();
    }
}

impl Default for SearchState {
    fn default() -> (r: Self)
        ensures
            r.matched() == Seq::<KanbanId>::empty(),
            r.prompt() == Seq::<char>::empty(),
    {
        Self::new()
    }
}

} // verus!
