//! A stable ordering of entries by ascending score.

use vstd::prelude::*;
use crate::mixer::{copy_entry, Entry};

verus! {

/// Inserts `e` into a list after every entry whose score is at most `e`'s.
pub open spec fn insert_by_score(s: Seq<Entry>, e: Entry) -> Seq<Entry>
    decreases s.len(),
{
    if s.len() == 0 {
        seq![e]
    } else if s[0].score > e.score {
        seq![e] + s
    } else {
        seq![s[0]] + insert_by_score(s.drop_first(), e)
    }
}

/// The entries ordered by ascending score; entries of equal score keep
/// their order.
pub open spec fn sort_by_score(s: Seq<Entry>) -> Seq<Entry>
    decreases s.len(),
{
    if s.len() == 0 {
        s
    } else {
        insert_by_score(sort_by_score(s.drop_last()), s.last())
    }
}

/// Scores never decrease along the list.
pub open spec fn sorted_by_score(s: Seq<Entry>) -> bool {
    forall|i: int, j: int| 0 <= i < j < s.len() ==> s[i].score <= s[j].score
}

/// Some entry of the list has id `x`.
pub open spec fn has_id(s: Seq<Entry>, x: u64) -> bool {
    exists|i: int| 0 <= i < s.len() && #[trigger] s[i].id == x
}

/// No two entries of the list share an id.
pub open spec fn ids_distinct(s: Seq<Entry>) -> bool {
    forall|i: int, j: int| 0 <= i < j < s.len() ==> s[i].id != s[j].id
}

/// Every entry of `a` stands in `b`.
pub open spec fn entries_within(a: Seq<Entry>, b: Seq<Entry>) -> bool {
    forall|i: int| 0 <= i < a.len() ==> b.contains(#[trigger] a[i])
}

proof fn lemma_insert_at(s: Seq<Entry>, e: Entry, k: int)
    requires
        0 <= k <= s.len(),
        forall|i: int| 0 <= i < k ==> #[trigger] s[i].score <= e.score,
        k == s.len() || s[k].score > e.score,
    ensures
        insert_by_score(s, e) == s.subrange(0, k).push(e) + s.subrange(k, s.len() as int),
    decreases s.len(),
{
    if s.len() == 0 {
        assert(s.subrange(0, k).push(e) + s.subrange(k, s.len() as int) =~= seq![e]);
    } else if s[0].score > e.score {
        assert(k == 0);
        assert(s.subrange(0, k).push(e) + s.subrange(k, s.len() as int) =~= seq![e] + s);
    } else {
        assert(k >= 1);
        let t = s.drop_first();
        assert forall|i: int| 0 <= i < k - 1 implies #[trigger] t[i].score <= e.score by {
            assert(t[i] == s[i + 1]);
        }
        lemma_insert_at(t, e, k - 1);
        assert(seq![s[0]] + (t.subrange(0, k - 1).push(e) + t.subrange(k - 1, t.len() as int))
            =~= s.subrange(0, k).push(e) + s.subrange(k, s.len() as int));
    }
}

proof fn lemma_insert_props(s: Seq<Entry>, e: Entry)
    ensures
        insert_by_score(s, e).len() == s.len() + 1,
        forall|i: int|
            0 <= i < s.len() + 1 ==> #[trigger] insert_by_score(s, e)[i] == e || s.contains(
                insert_by_score(s, e)[i],
            ),
        forall|x: u64| #[trigger] has_id(insert_by_score(s, e), x) <==> (has_id(s, x) || x == e.id),
        ids_distinct(s) && !has_id(s, e.id) ==> ids_distinct(insert_by_score(s, e)),
        sorted_by_score(s) ==> sorted_by_score(insert_by_score(s, e)),
    decreases s.len(),
{
    let r = insert_by_score(s, e);
    if s.len() == 0 {
        assert(r =~= seq![e]);
        assert forall|x: u64| #[trigger] has_id(r, x) <==> (has_id(s, x) || x == e.id) by {
            if x == e.id {
                assert(r[0].id == x);
            }
        }
    } else if s[0].score > e.score {
        assert(r =~= seq![e] + s);
        assert forall|i: int| 0 <= i < s.len() + 1 implies #[trigger] r[i] == e || s.contains(r[i]) by {
            if i > 0 {
                assert(r[i] == s[i - 1]);
            }
        }
        assert forall|x: u64| #[trigger] has_id(r, x) <==> (has_id(s, x) || x == e.id) by {
            if has_id(s, x) {
                let j = choose|j: int| 0 <= j < s.len() && #[trigger] s[j].id == x;
                assert(r[j + 1].id == x);
            }
            if x == e.id {
                assert(r[0].id == x);
            }
            if has_id(r, x) {
                let j = choose|j: int| 0 <= j < r.len() && #[trigger] r[j].id == x;
                if j > 0 {
                    assert(s[j - 1].id == x);
                }
            }
        }
        if ids_distinct(s) && !has_id(s, e.id) {
            assert forall|i: int, j: int| 0 <= i < j < r.len() implies r[i].id != r[j].id by {
                if i == 0 {
                    assert(r[j] == s[j - 1]);
                    if r[j].id == e.id {
                        assert(has_id(s, e.id));
                    }
                } else {
                    assert(r[i] == s[i - 1]);
                    assert(r[j] == s[j - 1]);
                }
            }
        }
        if sorted_by_score(s) {
            assert forall|i: int, j: int| 0 <= i < j < r.len() implies r[i].score <= r[j].score by {
                if i == 0 {
                    assert(r[j] == s[j - 1]);
                    assert(s[0].score <= s[j - 1].score || j - 1 == 0);
                } else {
                    assert(r[i] == s[i - 1]);
                    assert(r[j] == s[j - 1]);
                }
            }
        }
    } else {
        let t = s.drop_first();
        let rt = insert_by_score(t, e);
        lemma_insert_props(t, e);
        assert(r =~= seq![s[0]] + rt);
        assert forall|i: int| 0 <= i < s.len() + 1 implies #[trigger] r[i] == e || s.contains(r[i]) by {
            if i == 0 {
                assert(s[0] == r[0]);
            } else {
                assert(r[i] == rt[i - 1]);
                if rt[i - 1] != e {
                    let j = choose|j: int| 0 <= j < t.len() && t[j] == rt[i - 1];
                    assert(s[j + 1] == t[j]);
                }
            }
        }
        assert forall|x: u64| #[trigger] has_id(r, x) <==> (has_id(s, x) || x == e.id) by {
            if has_id(r, x) {
                let j = choose|j: int| 0 <= j < r.len() && #[trigger] r[j].id == x;
                if j == 0 {
                    assert(s[0].id == x);
                } else {
                    assert(rt[j - 1].id == x);
                    assert(has_id(rt, x));
                    if has_id(t, x) {
                        let q = choose|q: int| 0 <= q < t.len() && #[trigger] t[q].id == x;
                        assert(s[q + 1].id == x);
                    }
                }
            }
            if has_id(s, x) {
                let j = choose|j: int| 0 <= j < s.len() && #[trigger] s[j].id == x;
                if j == 0 {
                    assert(r[0].id == x);
                } else {
                    assert(t[j - 1].id == x);
                    assert(has_id(t, x));
                    assert(has_id(rt, x));
                    let q = choose|q: int| 0 <= q < rt.len() && #[trigger] rt[q].id == x;
                    assert(r[q + 1].id == x);
                }
            }
            if x == e.id {
                assert(has_id(rt, x));
                let q = choose|q: int| 0 <= q < rt.len() && #[trigger] rt[q].id == x;
                assert(r[q + 1].id == x);
            }
        }
        if ids_distinct(s) && !has_id(s, e.id) {
            assert(ids_distinct(t)) by {
                assert forall|i: int, j: int| 0 <= i < j < t.len() implies t[i].id != t[j].id by {
                    assert(t[i] == s[i + 1]);
                    assert(t[j] == s[j + 1]);
                }
            }
            assert(!has_id(t, e.id)) by {
                if has_id(t, e.id) {
                    let q = choose|q: int| 0 <= q < t.len() && #[trigger] t[q].id == e.id;
                    assert(s[q + 1].id == e.id);
                }
            }
            assert forall|i: int, j: int| 0 <= i < j < r.len() implies r[i].id != r[j].id by {
                if i == 0 {
                    assert(r[j] == rt[j - 1]);
                    if r[j].id == s[0].id {
                        assert(has_id(rt, s[0].id));
                        if has_id(t, s[0].id) {
                            let q = choose|q: int| 0 <= q < t.len() && #[trigger] t[q].id == s[0].id;
                            assert(s[q + 1].id == s[0].id);
                        } else {
                            assert(s[0].id == e.id);
                            assert(has_id(s, e.id));
                        }
                    }
                } else {
                    assert(r[i] == rt[i - 1]);
                    assert(r[j] == rt[j - 1]);
                }
            }
        }
        if sorted_by_score(s) {
            assert(sorted_by_score(t)) by {
                assert forall|i: int, j: int| 0 <= i < j < t.len() implies t[i].score <= t[j].score by {
                    assert(t[i] == s[i + 1]);
                    assert(t[j] == s[j + 1]);
                }
            }
            assert forall|i: int, j: int| 0 <= i < j < r.len() implies r[i].score <= r[j].score by {
                if i == 0 {
                    assert(r[j] == rt[j - 1]);
                    if rt[j - 1] == e {
                    } else {
                        let q = choose|q: int| 0 <= q < t.len() && t[q] == rt[j - 1];
                        assert(s[q + 1] == t[q]);
                    }
                } else {
                    assert(r[i] == rt[i - 1]);
                    assert(r[j] == rt[j - 1]);
                }
            }
        }
    }
}

/// Facts about the ordering: it keeps the length, the ids and their
/// distinctness, takes its entries from the input, and is ascending.
pub proof fn lemma_sort_props(s: Seq<Entry>)
    ensures
        sort_by_score(s).len() == s.len(),
        entries_within(sort_by_score(s), s),
        forall|x: u64| #[trigger] has_id(sort_by_score(s), x) <==> has_id(s, x),
        ids_distinct(s) ==> ids_distinct(sort_by_score(s)),
        sorted_by_score(sort_by_score(s)),
    decreases s.len(),
{
    if s.len() > 0 {
        let p = s.drop_last();
        let sp = sort_by_score(p);
        lemma_sort_props(p);
        lemma_insert_props(sp, s.last());
        let r = sort_by_score(s);
        assert forall|i: int| 0 <= i < r.len() implies s.contains(#[trigger] r[i]) by {
            if r[i] == s.last() {
                assert(s[s.len() - 1] == s.last());
            } else {
                assert(sp.contains(r[i]));
                let j = choose|j: int| 0 <= j < sp.len() && sp[j] == r[i];
                assert(p.contains(sp[j]));
                let q = choose|q: int| 0 <= q < p.len() && p[q] == sp[j];
                assert(s[q] == p[q]);
            }
        }
        assert forall|x: u64| #[trigger] has_id(r, x) <==> has_id(s, x) by {
            if has_id(s, x) {
                let j = choose|j: int| 0 <= j < s.len() && #[trigger] s[j].id == x;
                if j < s.len() - 1 {
                    assert(p[j].id == x);
                    assert(has_id(p, x));
                }
            }
            if has_id(p, x) {
                let j = choose|j: int| 0 <= j < p.len() && #[trigger] p[j].id == x;
                assert(s[j].id == x);
            }
        }
        if ids_distinct(s) {
            assert(ids_distinct(p)) by {
                assert forall|i: int, j: int| 0 <= i < j < p.len() implies p[i].id != p[j].id by {
                    assert(p[i] == s[i]);
                    assert(p[j] == s[j]);
                }
            }
            assert(!has_id(sp, s.last().id)) by {
                if has_id(p, s.last().id) {
                    let j = choose|j: int| 0 <= j < p.len() && #[trigger] p[j].id == s.last().id;
                    assert(s[j].id == s[s.len() - 1].id);
                }
            }
        }
    }
}

/// Inserts `e` at its place in a list ordered by `insert_by_score`.
fn insert_sorted(v: &mut Vec<Entry>, e: Entry)
    ensures
        final(v)@ == insert_by_score(old(v)@, e),
{
    let mut k: usize = 0;
    while k < v.len() && v[k].score <= e.score
        invariant
            k <= v@.len(),
            forall|i: int| 0 <= i < k ==> #[trigger] v@[i].score <= e.score,
        decreases v@.len() - k,
    {
        k = k + 1;
    }
    proof {
        lemma_insert_at(v@, e, k as int);
    }
    let ghost before = v@;
    v.insert(k, e);
    proof {
        assert(v@ =~= before.subrange(0, k as int).push(e) + before.subrange(k as int, before.len() as int));
    }
}

/// The entries ordered by ascending score, ties in their given order.
pub fn sort_entries(v: &Vec<Entry>) -> (r: Vec<Entry>)
    ensures
        r@ == sort_by_score(v@),
{
    let mut out: Vec<Entry> = Vec::new();
    let mut i: usize = 0;
    proof {
        assert(v@.subrange(0, 0) =~= Seq::<Entry>::empty());
    }
    while i < v.len()
        invariant
            i <= v@.len(),
            out@ == sort_by_score(v@.subrange(0, i as int)),
        decreases v@.len() - i,
    {
        let e = copy_entry(&v[i]);
        proof {
            let s1 = v@.subrange(0, i as int + 1);
            assert(s1.drop_last() =~= v@.subrange(0, i as int));
            assert(s1.last() == e);
        }
        insert_sorted(&mut out, e);
        i = i + 1;
    }
    proof {
        assert(v@.subrange(0, v@.len() as int) =~= v@);
    }
    out
}

} // verus!
