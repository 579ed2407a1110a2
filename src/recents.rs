//! The list of recently saved files, most recent first.
use vstd::prelude::*;

verus! {

/// How many paths the list keeps beyond which the oldest is dropped.
pub const RECENTS_LIMIT: usize = 10;

/// The list after saving to `path`: unchanged where it names `path`
/// already; otherwise `path` goes first, and the last entry is dropped from
/// a list longer than `RECENTS_LIMIT`.
pub open spec fn recents_after(old: Seq<Seq<char>>, path: Seq<char>) -> Seq<Seq<char>> {
    if old.contains(path) {
        old
    } else if old.len() > RECENTS_LIMIT {
        seq![path] + old.drop_last()
    } else {
        seq![path] + old
    }
}

/// Put `path` at the head of the recent files `old`.
pub fn recents_with(old: &Vec<String>, path: &String) -> (r: Vec<String>)
    ensures
        r@.map_values(|s: String| s@) == recents_after(old@.map_values(|s: String| s@), path@),
{
    let ghost ov = old@.map_values(|s: String| s@);
    let n = old.len();
    let mut i: usize = 0;
    while i < n
        invariant
            n == old@.len(),
            ov == old@.map_values(|s: String| s@),
            0 <= i <= n,
            forall|k: int| 0 <= k < i ==> ov[k] != path@,
        decreases n - i,
    {
        if old[i] == *path {
            assert(ov[i as int] == path@);
            let r = crate::item::copy_texts(old);
            assert(r@.map_values(|s: String| s@) =~= ov);
            return r;
        }
        i = i + 1;
    }
    assert(!ov.contains(path@));
    let keep: usize = if n > RECENTS_LIMIT { n - 1 } else { n };
    let mut r: Vec<String> = Vec::new();
    let first = path.clone();
    r.push(first);
    let mut k: usize = 0;
    while k < keep
        invariant
            n == old@.len(),
            ov == old@.map_values(|s: String| s@),
            keep <= n,
            0 <= k <= keep,
            r@.len() == k + 1,
            r@[0]@ == path@,
            forall|j: int| 0 <= j < k ==> (#[trigger] r@[j + 1])@ == ov[j],
        decreases keep - k,
    {
        let x = old[k].clone();
        assert(x@ == ov[k as int]);
        r.push(x);
        k = k + 1;
    }
    assert forall|j: int| 0 <= j < r@.len() implies r@.map_values(|s: String| s@)[j] == (seq![path@] + ov.take(keep as int))[j] by {
        if j > 0 {
            assert(r@[(j - 1) + 1]@ == ov[j - 1]);
        }
    }
    assert(r@.map_values(|s: String| s@) =~= seq![path@] + ov.take(keep as int));
    if n > RECENTS_LIMIT {
        assert(ov.take(keep as int) =~= ov.drop_last());
    } else {
        assert(ov.take(keep as int) =~= ov);
    }
    r
}

} // verus!
