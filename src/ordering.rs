//! Ordering of ids by an integer key, largest first.
use vstd::prelude::*;
use crate::item::KanbanId;

verus! {

/// `a` comes before `b`: a larger key, or an equal key and a larger id.
pub open spec fn ranks_above(a: (i64, KanbanId), b: (i64, KanbanId)) -> bool {
    a.0 > b.0 || (a.0 == b.0 && a.1 > b.1)
}

/// Strictly descending by key, then by id.
pub open spec fn ranked(s: Seq<(i64, KanbanId)>) -> bool {
    forall|i: int, j: int| 0 <= i < j < s.len() ==> ranks_above(s[i], s[j])
}

/// No two pairs share an id.
pub open spec fn ids_distinct(s: Seq<(i64, KanbanId)>) -> bool {
    forall|i: int, j: int| 0 <= i < j < s.len() ==> s[i].1 != s[j].1
}

/// The pairs of `v`, sorted by key and then by id, largest first.
pub fn rank_desc(v: &Vec<(i64, KanbanId)>) -> (r: Vec<(i64, KanbanId)>)
    requires
        ids_distinct(v@),
    ensures
        ranked(r@),
        r@.len() == v@.len(),
        forall|x: (i64, KanbanId)| r@.contains(x) <==> v@.contains(x),
{
    let mut r: Vec<(i64, KanbanId)> = Vec::new();
    let n = v.len();
    let mut i: usize = 0;
    while i < n
        invariant
            n == v@.len(),
            ids_distinct(v@),
            0 <= i <= n,
            ranked(r@),
            r@.len() == i,
            forall|x: (i64, KanbanId)| r@.contains(x) <==> v@.take(i as int).contains(x),
        decreases n - i,
    {
        let x = v[i];
        let m = r.len();
        let mut k: usize = 0;
        while k < m && !(x.0 > r[k].0 || (x.0 == r[k].0 && x.1 > r[k].1))
            invariant
                m == r@.len(),
                0 <= k <= m,
                forall|j: int| 0 <= j < k ==> !ranks_above(x, r@[j]),
            decreases m - k,
        {
            k = k + 1;
        }
        let ghost r0 = r@;
        proof {
            assert forall|j: int| 0 <= j < m implies r0[j].1 != x.1 by {
                assert(r0.contains(r0[j]));
                assert(v@.take(i as int).contains(r0[j]));
                let a = choose|a: int| 0 <= a < i && v@.take(i as int)[a] == r0[j];
                assert(v@[a] == r0[j]);
                assert(v@[i as int] == x);
            }
        }
        r.insert(k, x);
        proof {
            let t = r@;
            assert(t == r0.insert(k as int, x));
            assert forall|a: int, b: int| 0 <= a < b < t.len() implies ranks_above(t[a], t[b]) by {
                if b < k {
                    assert(t[a] == r0[a] && t[b] == r0[b]);
                } else if b == k {
                    assert(t[a] == r0[a]);
                    assert(!ranks_above(x, r0[a]));
                    assert(r0[a].1 != x.1);
                } else if a < k {
                    assert(t[a] == r0[a] && t[b] == r0[b - 1]);
                    if a < b - 1 {
                        assert(ranks_above(r0[a], r0[b - 1]));
                    }
                } else if a == k {
                    assert(t[b] == r0[b - 1]);
                    assert(ranks_above(x, r0[k as int]));
                    if b - 1 > k {
                        assert(ranks_above(r0[k as int], r0[b - 1]));
                    }
                } else {
                    assert(t[a] == r0[a - 1] && t[b] == r0[b - 1]);
                }
            }
            let pre = v@.take(i as int);
            let pre_next = v@.take(i as int + 1);
            assert(pre_next == pre.push(x));
            crate::item::lemma_push_contains(pre, x);
            assert forall|y: (i64, KanbanId)| t.contains(y) <==> pre_next.contains(y) by {
                if t.contains(y) {
                    let a = choose|a: int| 0 <= a < t.len() && t[a] == y;
                    if a < k {
                        assert(r0[a] == y);
                    } else if a > k {
                        assert(r0[a - 1] == y);
                    }
                }
                if r0.contains(y) {
                    let a = choose|a: int| 0 <= a < r0.len() && r0[a] == y;
                    if a < k {
                        assert(t[a] == y);
                    } else {
                        assert(t[a + 1] == y);
                    }
                }
                if y == x {
                    assert(t[k as int] == y);
                }
            }
        }
        i = i + 1;
    }
    assert(v@.take(n as int) =~= v@);
    r
}

/// Two ranked sequences with the same members are equal.
pub proof fn lemma_ranked_unique(a: Seq<(i64, KanbanId)>, b: Seq<(i64, KanbanId)>)
    requires
        ranked(a),
        ranked(b),
        forall|x: (i64, KanbanId)| a.contains(x) <==> b.contains(x),
    ensures
        a == b,
    decreases a.len(),
{
    if a.len() == 0 {
        if b.len() > 0 {
            assert(b.contains(b[0]));
        }
        assert(a =~= b);
    } else {
        assert(a.contains(a[0]));
        assert(b.contains(b[0]));
        let ka = choose|k: int| 0 <= k < a.len() && a[k] == b[0];
        let kb = choose|k: int| 0 <= k < b.len() && b[k] == a[0];
        if ka > 0 {
            assert(ranks_above(a[0], a[ka]));
            if kb > 0 {
                assert(ranks_above(b[0], b[kb]));
            }
        }
        if kb > 0 {
            assert(ranks_above(b[0], b[kb]));
        }
        assert(a[0] == b[0]);
        let da = a.drop_first();
        let db = b.drop_first();
        assert forall|y: (i64, KanbanId)| da.contains(y) <==> db.contains(y) by {
            if da.contains(y) {
                let k = choose|k: int| 0 <= k < da.len() && da[k] == y;
                assert(a[k + 1] == y);
                assert(ranks_above(a[0], a[k + 1]));
                assert(b.contains(y));
                let m = choose|m: int| 0 <= m < b.len() && b[m] == y;
                assert(m != 0);
                assert(db[m - 1] == y);
            }
            if db.contains(y) {
                let k = choose|k: int| 0 <= k < db.len() && db[k] == y;
                assert(b[k + 1] == y);
                assert(ranks_above(b[0], b[k + 1]));
                assert(a.contains(y));
                let m = choose|m: int| 0 <= m < a.len() && a[m] == y;
                assert(m != 0);
                assert(da[m - 1] == y);
            }
        }
        assert forall|i: int, j: int| 0 <= i < j < da.len() implies ranks_above(da[i], da[j]) by {
            assert(da[i] == a[i + 1] && da[j] == a[j + 1]);
        }
        assert forall|i: int, j: int| 0 <= i < j < db.len() implies ranks_above(db[i], db[j]) by {
            assert(db[i] == b[i + 1] && db[j] == b[j + 1]);
        }
        lemma_ranked_unique(da, db);
        assert(a =~= seq![a[0]] + da);
        assert(b =~= seq![b[0]] + db);
    }
}

} // verus!
