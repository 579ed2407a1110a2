//! A single task and its set of dependencies.
use vstd::prelude::*;
use crate::text::{has_substring, push_text, text_contains};
use crate::time_tracking::{copy_opt_text, opt_text, log_wf, TimeLogView, TimeRecords};

verus! {

/// Identifier of a task within a document.
pub type KanbanId = i32;

/// `s` is sorted in strictly increasing order, hence free of duplicates.
pub open spec fn strictly_increasing(s: Seq<KanbanId>) -> bool {
    forall|i: int, j: int| 0 <= i < j < s.len() ==> s[i] < s[j]
}

/// The predicate that keeps every id but `x`.
pub open spec fn other_than(x: KanbanId) -> spec_fn(KanbanId) -> bool {
    |c: KanbanId| c != x
}

/// Filtering out an id that is absent changes nothing.
pub proof fn lemma_filter_absent(s: Seq<KanbanId>, x: KanbanId)
    requires
        !s.contains(x),
    ensures
        s.filter(other_than(x)) == s,
    decreases s.len(),
{
    reveal(Seq::filter);
    if s.len() > 0 {
        let d = s.drop_last();
        if d.contains(x) {
            let k = choose|k: int| 0 <= k < d.len() && #[trigger] d[k] == x;
            assert(s[k] == x);
        }
        lemma_filter_absent(d, x);
        assert(s.last() != x);
        assert(d.push(s.last()) == s);
    }
}

/// Filtering keeps a sorted list sorted.
pub proof fn lemma_filter_sorted(s: Seq<KanbanId>, x: KanbanId)
    requires
        strictly_increasing(s),
    ensures
        strictly_increasing(s.filter(other_than(x))),
        forall|k: int| 0 <= k < s.filter(other_than(x)).len() ==> s.contains(#[trigger] s.filter(other_than(x))[k]),
    decreases s.len(),
{
    reveal(Seq::filter);
    if s.len() > 0 {
        let d = s.drop_last();
        lemma_filter_sorted(d, x);
        let fd = d.filter(other_than(x));
        assert forall|k: int| 0 <= k < fd.len() implies fd[k] < s.last() by {
            assert(d.contains(fd[k]));
            let m = choose|m: int| 0 <= m < d.len() && d[m] == fd[k];
            assert(s[m] == d[m]);
        }
        assert forall|k: int| 0 <= k < s.filter(other_than(x)).len() implies s.contains(#[trigger] s.filter(other_than(x))[k]) by {
            let v = s.filter(other_than(x))[k];
            if k < fd.len() {
                assert(d.contains(fd[k]));
                let m = choose|m: int| 0 <= m < d.len() && d[m] == fd[k];
                assert(s[m] == v);
            } else {
                assert(s[s.len() - 1] == v);
            }
        }
    }
}

/// `s` with `x` put in its sorted place, unless it holds `x` already.
pub open spec fn insert_sorted(s: Seq<KanbanId>, x: KanbanId) -> Seq<KanbanId>
    decreases s.len(),
{
    if s.len() == 0 {
        seq![x]
    } else if s[0] == x {
        s
    } else if x < s[0] {
        seq![x] + s
    } else {
        seq![s[0]] + insert_sorted(s.drop_first(), x)
    }
}

/// `insert_sorted` keeps a sorted list sorted and adds exactly `x`.
pub proof fn lemma_insert_sorted(s: Seq<KanbanId>, x: KanbanId)
    requires
        strictly_increasing(s),
    ensures
        strictly_increasing(insert_sorted(s, x)),
        insert_sorted(s, x).to_set() == s.to_set().insert(x),
        forall|y: KanbanId| #[trigger] insert_sorted(s, x).contains(y) <==> s.contains(y) || y == x,
        insert_sorted(s, x).len() > 0 && s.len() > 0 ==> insert_sorted(s, x)[0] == if x < s[0] { x } else { s[0] },
        s.len() == 0 ==> insert_sorted(s, x)[0] == x,
    decreases s.len(),
{
    let r = insert_sorted(s, x);
    if s.len() == 0 {
        assert(r == seq![x]);
        assert(r[0] == x);
        assert(r.contains(x));
        assert forall|y: KanbanId| #[trigger] r.contains(y) <==> s.contains(y) || y == x by {
            if r.contains(y) {
                let k = choose|k: int| 0 <= k < r.len() && r[k] == y;
            }
        }
    } else if s[0] == x {
        assert(s.contains(x));
    } else if x < s[0] {
        assert forall|y: KanbanId| #[trigger] r.contains(y) <==> s.contains(y) || y == x by {
            if r.contains(y) && y != x {
                let k = choose|k: int| 0 <= k < r.len() && r[k] == y;
                assert(s[k - 1] == y);
            }
            if s.contains(y) {
                let k = choose|k: int| 0 <= k < s.len() && s[k] == y;
                assert(r[k + 1] == y);
            }
            if y == x {
                assert(r[0] == y);
            }
        }
        assert forall|a: int, b: int| 0 <= a < b < r.len() implies r[a] < r[b] by {
            if a > 0 {
                assert(r[a] == s[a - 1] && r[b] == s[b - 1]);
            } else {
                assert(r[b] == s[b - 1]);
                assert(s[0] <= s[b - 1]);
            }
        }
    } else {
        let d = s.drop_first();
        assert forall|a: int, b: int| 0 <= a < b < d.len() implies d[a] < d[b] by {
            assert(d[a] == s[a + 1] && d[b] == s[b + 1]);
        }
        lemma_insert_sorted(d, x);
        let t = insert_sorted(d, x);
        assert(r == seq![s[0]] + t);
        assert forall|y: KanbanId| #[trigger] r.contains(y) <==> s.contains(y) || y == x by {
            if r.contains(y) && y != s[0] {
                let k = choose|k: int| 0 <= k < r.len() && r[k] == y;
                assert(t[k - 1] == y);
                assert(t.contains(y));
                if d.contains(y) {
                    let m = choose|m: int| 0 <= m < d.len() && d[m] == y;
                    assert(s[m + 1] == y);
                }
            }
            if s.contains(y) {
                let k = choose|k: int| 0 <= k < s.len() && s[k] == y;
                if k == 0 {
                    assert(r[0] == y);
                } else {
                    assert(d[k - 1] == y);
                    assert(t.contains(y));
                    let m = choose|m: int| 0 <= m < t.len() && t[m] == y;
                    assert(r[m + 1] == y);
                }
            }
            if y == x {
                assert(t.contains(x));
                let m = choose|m: int| 0 <= m < t.len() && t[m] == x;
                assert(r[m + 1] == y);
            }
            if y == s[0] {
                assert(r[0] == y);
            }
        }
        assert forall|a: int, b: int| 0 <= a < b < r.len() implies r[a] < r[b] by {
            if a > 0 {
                assert(r[a] == t[a - 1] && r[b] == t[b - 1]);
            } else {
                assert(r[b] == t[b - 1]);
                assert(t.contains(t[b - 1]));
                if d.contains(t[b - 1]) {
                    let m = choose|m: int| 0 <= m < d.len() && d[m] == t[b - 1];
                    assert(s[m + 1] == t[b - 1]);
                }
            }
        }
    }
    assert(r.to_set() =~= s.to_set().insert(x));
}

/// Two sorted lists with the same members are equal.
pub proof fn lemma_sorted_unique(a: Seq<KanbanId>, b: Seq<KanbanId>)
    requires
        strictly_increasing(a),
        strictly_increasing(b),
        forall|y: KanbanId| a.contains(y) <==> b.contains(y),
    ensures
        a == b,
    decreases a.len(),
{
    if a.len() == 0 {
        if b.len() > 0 {
            assert(b.contains(b[0]));
        }
        assert(a =~= b);
    } else {
        assert(a.contains(a[0]));
        assert(b.len() > 0);
        assert(b.contains(b[0]));
        let ka = choose|k: int| 0 <= k < a.len() && a[k] == b[0];
        let kb = choose|k: int| 0 <= k < b.len() && b[k] == a[0];
        if ka > 0 {
            assert(a[0] < a[ka]);
        }
        if kb > 0 {
            assert(b[0] < b[kb]);
        }
        assert(a[0] == b[0]);
        let da = a.drop_first();
        let db = b.drop_first();
        assert forall|y: KanbanId| da.contains(y) <==> db.contains(y) by {
            if da.contains(y) {
                let k = choose|k: int| 0 <= k < da.len() && da[k] == y;
                assert(a[k + 1] == y);
                assert(a[0] < a[k + 1]);
                assert(b.contains(y));
                let m = choose|m: int| 0 <= m < b.len() && b[m] == y;
                assert(m != 0);
                assert(db[m - 1] == y);
            }
            if db.contains(y) {
                let k = choose|k: int| 0 <= k < db.len() && db[k] == y;
                assert(b[k + 1] == y);
                assert(b[0] < b[k + 1]);
                assert(a.contains(y));
                let m = choose|m: int| 0 <= m < a.len() && a[m] == y;
                assert(m != 0);
                assert(da[m - 1] == y);
            }
        }
        assert forall|i: int, j: int| 0 <= i < j < da.len() implies da[i] < da[j] by {
            assert(da[i] == a[i + 1] && da[j] == a[j + 1]);
        }
        assert forall|i: int, j: int| 0 <= i < j < db.len() implies db[i] < db[j] by {
            assert(db[i] == b[i + 1] && db[j] == b[j + 1]);
        }
        lemma_sorted_unique(da, db);
        assert(a =~= seq![a[0]] + da);
        assert(b =~= seq![b[0]] + db);
    }
}

/// What a sequence holds after a push.
pub proof fn lemma_push_contains<A>(s: Seq<A>, x: A)
    ensures
        forall|y: A| #[trigger] s.push(x).contains(y) <==> s.contains(y) || y == x,
{
    assert forall|y: A| #[trigger] s.push(x).contains(y) <==> s.contains(y) || y == x by {
        if s.push(x).contains(y) && y != x {
            let k = choose|k: int| 0 <= k < s.push(x).len() && s.push(x)[k] == y;
            assert(s[k] == y);
        }
        if s.contains(y) {
            let k = choose|k: int| 0 <= k < s.len() && s[k] == y;
            assert(s.push(x)[k] == y);
        }
        if y == x {
            assert(s.push(x)[s.len() as int] == y);
        }
    }
}

/// Pushing a new element keeps a sequence free of duplicates.
pub proof fn lemma_push_no_dup<A>(s: Seq<A>, x: A)
    requires
        s.no_duplicates(),
        !s.contains(x),
    ensures
        s.push(x).no_duplicates(),
{
    let t = s.push(x);
    assert forall|a: int, b: int| 0 <= a < t.len() && 0 <= b < t.len() && a != b implies t[a] != t[b] by {
        if a == s.len() {
            assert(s.contains(t[b]));
        } else if b == s.len() {
            assert(s.contains(t[a]));
        } else {
            assert(t[a] == s[a] && t[b] == s[b]);
        }
    }
}

/// Whether `v` holds `x`.
pub fn contains_id(v: &Vec<KanbanId>, x: KanbanId) -> (r: bool)
    ensures
        r == v@.contains(x),
{
    let n = v.len();
    let mut i: usize = 0;
    while i < n
        invariant
            n == v@.len(),
            0 <= i <= n,
            forall|k: int| 0 <= k < i ==> v@[k] != x,
        decreases n - i,
    {
        if v[i] == x {
            assert(v@[i as int] == x);
            return true;
        }
        i = i + 1;
    }
    false
}

/// The value of a task as the contracts speak of it.
pub ghost struct TaskView {
    pub id: KanbanId,
    pub name: Seq<char>,
    pub description: Seq<char>,
    pub completed: Option<i64>,
    pub category: Option<Seq<char>>,
    pub priority: Option<Seq<char>>,
    pub tags: Seq<Seq<char>>,
    pub child_tasks: Seq<KanbanId>,
    pub time_records: TimeLogView,
}

impl TaskView {
    /// The same task with another dependency list.
    pub open spec fn with_children(self, c: Seq<KanbanId>) -> TaskView {
        TaskView { child_tasks: c, ..self }
    }

    /// Dependencies sorted and distinct; time entries well formed.
    pub open spec fn wf(self) -> bool {
        strictly_increasing(self.child_tasks) && log_wf(self.time_records)
    }
}

/// View of a list of texts.
pub open spec fn texts(v: Seq<String>) -> Seq<Seq<char>> {
    v.map_values(|s: String| s@)
}

/// Copy a list of texts.
pub fn copy_texts(v: &Vec<String>) -> (r: Vec<String>)
    ensures
        texts(r@) == texts(v@),
{
    let mut r: Vec<String> = Vec::new();
    let n = v.len();
    let mut i: usize = 0;
    while i < n
        invariant
            n == v.len(),
            0 <= i <= n,
            r@.len() == i,
            forall|k: int| 0 <= k < i ==> (#[trigger] r@[k])@ == v@[k]@,
        decreases n - i,
    {
        r.push(v[i].clone());
        i = i + 1;
    }
    assert(texts(r@) =~= texts(v@));
    r
}

/// Copy a list of ids.
pub fn copy_ids(v: &Vec<KanbanId>) -> (r: Vec<KanbanId>)
    ensures
        r@ == v@,
{
    let mut r: Vec<KanbanId> = Vec::new();
    let n = v.len();
    let mut i: usize = 0;
    while i < n
        invariant
            n == v.len(),
            0 <= i <= n,
            r@ == v@.take(i as int),
        decreases n - i,
    {
        r.push(v[i]);
        i = i + 1;
        assert(r@ =~= v@.take(i as int));
    }
    assert(v@.take(n as int) =~= v@);
    r
}

/// A task. Its `child_tasks` are the tasks it depends on: they must be
/// completed before it becomes workable.
#[derive(Clone, Debug)]
pub struct KanbanItem {
    pub id: KanbanId,
    pub name: String,
    pub description: String,
    /// Completion time, in milliseconds since the Unix epoch.
    pub completed: Option<i64>,
    pub category: Option<String>,
    pub priority: Option<String>,
    pub tags: Vec<String>,
    /// Dependencies, kept sorted by id without duplicates.
    pub child_tasks: Vec<KanbanId>,
    pub time_records: TimeRecords,
}

impl View for KanbanItem {
    type V = TaskView;

    open spec fn view(&self) -> TaskView {
        TaskView {
            id: self.id,
            name: self.name@,
            description: self.description@,
            completed: self.completed,
            category: opt_text(self.category),
            priority: opt_text(self.priority),
            tags: texts(self.tags@),
            child_tasks: self.child_tasks@,
            time_records: self.time_records@,
        }
    }
}

impl KanbanItem {
    /// Dependencies sorted and distinct; time entries well formed.
    pub open spec fn wf(&self) -> bool {
        self@.wf()
    }

    /// A value copy of the task.
    pub fn snapshot(&self) -> (r: Self)
        ensures
            r@ == self@,
    {
        KanbanItem {
            id: self.id,
            name: self.name.clone(),
            description: self.description.clone(),
            completed: self.completed,
            category: copy_opt_text(&self.category),
            priority: copy_opt_text(&self.priority),
            tags: copy_texts(&self.tags),
            child_tasks: copy_ids(&self.child_tasks),
            time_records: self.time_records.snapshot(),
        }
    }

    /// Add `child` to the dependencies; nothing changes if it is already one.
    pub fn add_child(&mut self, child: &Self)
        ensures
            final(self).child_tasks@.to_set() == old(self).child_tasks@.to_set().insert(child.id),
            old(self).wf() ==> final(self).wf(),
            old(self).wf() ==> final(self).child_tasks@ == insert_sorted(old(self).child_tasks@, child.id),
            old(self).child_tasks@.contains(child.id) ==> final(self).child_tasks@ == old(self).child_tasks@,
            final(self)@ == old(self)@.with_children(final(self).child_tasks@),
    {
        let id = child.id;
        let n = self.child_tasks.len();
        let mut i: usize = 0;
        while i < n
            invariant
                n == self.child_tasks.len(),
                id == child.id,
                self.child_tasks@ == old(self).child_tasks@,
                0 <= i <= n,
                forall|k: int| 0 <= k < i ==> self.child_tasks@[k] != id,
            decreases n - i,
        {
            if self.child_tasks[i] == id {
                assert(old(self).child_tasks@[i as int] == id);
                assert(old(self).child_tasks@.contains(id));
                assert(old(self).child_tasks@.to_set().contains(id));
                assert(old(self).child_tasks@.to_set().insert(id) =~= old(self).child_tasks@.to_set());
                proof {
                    if old(self).wf() {
                        lemma_insert_sorted(old(self).child_tasks@, id);
                        assert forall|y: KanbanId| old(self).child_tasks@.contains(y) <==> insert_sorted(old(self).child_tasks@, id).contains(y) by {}
                        lemma_sorted_unique(old(self).child_tasks@, insert_sorted(old(self).child_tasks@, id));
                    }
                }
                return;
            }
            i = i + 1;
        }
        assert(!old(self).child_tasks@.contains(id));
        let mut pos: usize = 0;
        while pos < n && self.child_tasks[pos] < id
            invariant
                n == self.child_tasks.len(),
                id == child.id,
                self.child_tasks@ == old(self).child_tasks@,
                !old(self).child_tasks@.contains(id),
                0 <= pos <= n,
                old(self).wf() ==> forall|k: int| 0 <= k < pos ==> self.child_tasks@[k] < id,
            decreases n - pos,
        {
            pos = pos + 1;
        }
        self.child_tasks.insert(pos, id);
        proof {
            let s = old(self).child_tasks@;
            let t = self.child_tasks@;
            assert(t == s.insert(pos as int, id));
            assert forall|x: KanbanId| t.to_set().contains(x) <==> s.to_set().insert(id).contains(x) by {
                if t.contains(x) {
                    let k = choose|k: int| 0 <= k < t.len() && t[k] == x;
                    if k < pos {
                        assert(s[k] == x);
                    } else if k > pos {
                        assert(s[k - 1] == x);
                    }
                }
                if s.contains(x) {
                    let k = choose|k: int| 0 <= k < s.len() && s[k] == x;
                    if k < pos {
                        assert(t[k] == x);
                    } else {
                        assert(t[k + 1] == x);
                    }
                }
                if x == id {
                    assert(t[pos as int] == id);
                }
            }
            assert(t.to_set() =~= s.to_set().insert(id));
            if old(self).wf() {
                assert forall|a: int, b: int| 0 <= a < b < t.len() implies t[a] < t[b] by {
                    if pos < n {
                        assert(s[pos as int] >= id);
                        assert(s[pos as int] != id);
                    }
                }
                lemma_insert_sorted(s, id);
                assert forall|y: KanbanId| t.contains(y) <==> insert_sorted(s, id).contains(y) by {
                    assert(t.to_set().contains(y) <==> s.to_set().insert(id).contains(y));
                }
                lemma_sorted_unique(t, insert_sorted(s, id));
            }
        }
    }

    /// Remove `other` from the dependencies; returns whether it was one.
    pub fn remove_child(&mut self, other: &Self) -> (found: bool)
        ensures
            found == old(self).child_tasks@.contains(other.id),
            final(self).child_tasks@ == old(self).child_tasks@.filter(other_than(other.id)),
            final(self).child_tasks@.to_set() == old(self).child_tasks@.to_set().remove(other.id),
            old(self).wf() ==> final(self).wf(),
            final(self)@ == old(self)@.with_children(final(self).child_tasks@),
    {
        let id = other.id;
        let ghost s = self.child_tasks@;
        let ghost f = other_than(id);
        let mut kept: Vec<KanbanId> = Vec::new();
        let mut found = false;
        let n = self.child_tasks.len();
        let mut i: usize = 0;
        while i < n
            invariant
                n == self.child_tasks.len(),
                self.child_tasks@ == s,
                s == old(self).child_tasks@,
                f == other_than(id),
                0 <= i <= n,
                kept@ == s.take(i as int).filter(f),
                found == s.take(i as int).contains(id),
                old(self).wf() ==> strictly_increasing(kept@),
                old(self).wf() && kept@.len() > 0 ==> exists|j: int| 0 <= j < i && kept@.last() == s[j],
            decreases n - i,
        {
            let x = self.child_tasks[i];
            proof {
                let t0 = s.take(i as int);
                let t1 = s.take(i as int + 1);
                assert(t1 == t0.push(x));
                t0.lemma_filter_push(x, f);
                if t1.contains(id) && x != id {
                    let k = choose|k: int| 0 <= k < t1.len() && #[trigger] t1[k] == id;
                    assert(t0[k] == id);
                }
                if t0.contains(id) {
                    let k = choose|k: int| 0 <= k < t0.len() && #[trigger] t0[k] == id;
                    assert(t1[k] == id);
                }
                if x == id {
                    assert(t1[i as int] == id);
                }
            }
            if x == id {
                found = true;
            } else {
                kept.push(x);
            }
            proof {
                let t0 = s.take(i as int);
                let t1 = s.take(i as int + 1);
                if x == id {
                    assert(!f(x));
                    assert(t1.filter(f) == t0.filter(f));
                } else {
                    assert(f(x));
                    assert(t1.filter(f) == t0.filter(f).push(x));
                }
            }
            i = i + 1;
        }
        assert(s.take(n as int) == s);
        self.child_tasks = kept;
        proof {
            let t = self.child_tasks@;
            assert forall|x: KanbanId| t.to_set().contains(x) <==> s.to_set().remove(id).contains(x) by {
                if s.contains(x) && x != id {
                    let k = choose|k: int| 0 <= k < s.len() && s[k] == x;
                    s.lemma_filter_contains(f, k);
                }
                if t.contains(x) {
                    s.lemma_filter_contains_rev(f, x);
                    let k = choose|k: int| 0 <= k < t.len() && t[k] == x;
                    s.lemma_filter_pred(f, k);
                }
            }
            assert(t.to_set() =~= s.to_set().remove(id));
        }
        found
    }
}

/// An optional text, empty where absent.
pub open spec fn text_or_empty(o: Option<Seq<char>>) -> Seq<char> {
    match o {
        Some(t) => t,
        None => Seq::empty(),
    }
}

/// The tags, each followed by a space.
pub open spec fn tags_text(tags: Seq<Seq<char>>) -> Seq<char>
    decreases tags.len(),
{
    if tags.len() == 0 {
        Seq::empty()
    } else {
        tags_text(tags.drop_last()) + tags.last() + seq![' ']
    }
}

/// The text that full-text search reads: name, category, priority,
/// description and tags, each followed by a space.
pub open spec fn searchable(t: TaskView) -> Seq<char> {
    t.name + seq![' '] + text_or_empty(t.category) + seq![' '] + text_or_empty(t.priority) + seq![' ']
        + t.description + seq![' '] + tags_text(t.tags)
}

/// `q` occurs in the name or the description, or is one of the tags.
pub open spec fn matches_text(t: TaskView, q: Seq<char>) -> bool {
    has_substring(t.name, q) || has_substring(t.description, q) || t.tags.contains(q)
}

impl KanbanItem {
    /// Whether `other` occurs in the name or the description, or is a tag.
    pub fn matches(&self, other: &str) -> (r: bool)
        ensures
            r == matches_text(self@, other@),
    {
        if text_contains(self.name.as_str(), other) {
            return true;
        }
        if text_contains(self.description.as_str(), other) {
            return true;
        }
        let o = other.to_owned();
        let n = self.tags.len();
        let mut i: usize = 0;
        while i < n
            invariant
                n == self.tags@.len(),
                o@ == other@,
                0 <= i <= n,
                forall|k: int| 0 <= k < i ==> self@.tags[k] != other@,
            decreases n - i,
        {
            if self.tags[i] == o {
                assert(self@.tags[i as int] == other@);
                return true;
            }
            i = i + 1;
        }
        false
    }

    /// Append the searchable text of the task to `output`.
    pub fn fill_searchable_buffer(&self, output: &mut String)
        ensures
            final(output)@ == old(output)@ + searchable(self@),
    {
        proof {
            reveal_strlit(" ");
            reveal_strlit("");
        }
        let ghost o = output@;
        push_text(output, self.name.as_str());
        push_text(output, " ");
        match &self.category {
            Some(c) => push_text(output, c.as_str()),
            None => push_text(output, ""),
        }
        push_text(output, " ");
        match &self.priority {
            Some(p) => push_text(output, p.as_str()),
            None => push_text(output, ""),
        }
        push_text(output, " ");
        push_text(output, self.description.as_str());
        push_text(output, " ");
        let ghost head = output@;
        assert(head =~= o + self@.name + seq![' '] + text_or_empty(self@.category) + seq![' ']
            + text_or_empty(self@.priority) + seq![' '] + self@.description + seq![' ']);
        let n = self.tags.len();
        let mut i: usize = 0;
        while i < n
            invariant
                n == self.tags@.len(),
                0 <= i <= n,
                output@ == head + tags_text(self@.tags.take(i as int)),
            decreases n - i,
        {
            push_text(output, self.tags[i].as_str());
            push_text(output, " ");
            proof {
                reveal_strlit(" ");
                let t1 = self@.tags.take(i as int + 1);
                assert(t1.drop_last() =~= self@.tags.take(i as int));
                assert(t1.last() == self.tags@[i as int]@);
                assert(tags_text(t1) == tags_text(t1.drop_last()) + t1.last() + seq![' ']);
            }
            assert(output@ =~= head + tags_text(self@.tags.take(i as int + 1)));
            i = i + 1;
        }
        assert(self@.tags.take(n as int) =~= self@.tags);
        assert(output@ =~= o + searchable(self@));
    }
}

} // verus!
