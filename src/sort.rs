use vstd::prelude::*;

use crate::text::{lemma_text_lt_asymmetric, lemma_text_lt_irreflexive, lemma_text_lt_total, lemma_text_lt_transitive, text_less, text_lt};

verus! {

/// What a row is ordered by: first `rank`, then `text` in lexicographic order.
/// Rows equal in both keep the order in which they were given.
pub struct SortKey {
    pub rank: u8,
    pub text: Vec<char>,
}

/// Row `i` of `keys` comes before row `j`.
pub open spec fn key_before(keys: Seq<SortKey>, i: int, j: int) -> bool {
    ||| keys[i].rank < keys[j].rank
    ||| (keys[i].rank == keys[j].rank && text_lt(keys[i].text@, keys[j].text@))
    ||| (keys[i].rank == keys[j].rank && keys[i].text@ == keys[j].text@ && i < j)
}

/// `order` lists every row of `keys` once, in sorted order.
pub open spec fn is_sorted_order(keys: Seq<SortKey>, order: Seq<usize>) -> bool {
    &&& order.len() == keys.len()
    &&& forall|p: int| 0 <= p < order.len() ==> order[p] < keys.len()
    &&& forall|p: int, q: int|
        0 <= p < q < order.len() ==> #[trigger] key_before(keys, order[p] as int, order[q] as int)
    &&& forall|k: int| 0 <= k < keys.len() ==> #[trigger] order.contains(k as usize)
}

pub proof fn lemma_key_before_transitive(keys: Seq<SortKey>, i: int, j: int, k: int)
    requires
        key_before(keys, i, j),
        key_before(keys, j, k),
    ensures
        key_before(keys, i, k),
{
    if keys[i].rank == keys[j].rank && keys[j].rank == keys[k].rank {
        if text_lt(keys[i].text@, keys[j].text@) && text_lt(keys[j].text@, keys[k].text@) {
            lemma_text_lt_transitive(keys[i].text@, keys[j].text@, keys[k].text@);
        }
    }
}

pub proof fn lemma_key_before_total(keys: Seq<SortKey>, i: int, j: int)
    requires
        i != j,
    ensures
        key_before(keys, i, j) || key_before(keys, j, i),
{
    lemma_text_lt_total(keys[i].text@, keys[j].text@);
}

pub proof fn lemma_key_before_asymmetric(keys: Seq<SortKey>, i: int, j: int)
    ensures
        key_before(keys, i, j) ==> !key_before(keys, j, i),
{
    lemma_text_lt_asymmetric(keys[i].text@, keys[j].text@);
    lemma_text_lt_irreflexive(keys[i].text@);
}

/// Whether row `i` comes before row `j`.
fn key_less(keys: &Vec<SortKey>, i: usize, j: usize) -> (r: bool)
    requires
        i < keys.len(),
        j < keys.len(),
    ensures
        r == key_before(keys@, i as int, j as int),
{
    let a = &keys[i];
    let b = &keys[j];
    if a.rank != b.rank {
        return a.rank < b.rank;
    }
    if text_less(&a.text, &b.text) {
        return true;
    }
    if text_less(&b.text, &a.text) {
        proof {
            lemma_text_lt_asymmetric(b.text@, a.text@);
            lemma_text_lt_irreflexive(a.text@);
        }
        return false;
    }
    proof {
        lemma_text_lt_total(a.text@, b.text@);
    }
    i < j
}

/// A run of row numbers: each lies in `lo..hi`, and they come in sorted order.
spec fn sorted_run(keys: Seq<SortKey>, s: Seq<usize>, lo: int, hi: int) -> bool {
    &&& forall|p: int| 0 <= p < s.len() ==> lo <= #[trigger] s[p] < hi
    &&& forall|p: int, q: int|
        0 <= p < q < s.len() ==> #[trigger] key_before(keys, s[p] as int, s[q] as int)
}

proof fn lemma_push_contains(s: Seq<usize>, x: usize, y: usize)
    ensures
        s.push(x).contains(y) <==> (s.contains(y) || y == x),
{
    if s.push(x).contains(y) && y != x {
        let p = choose|p: int| 0 <= p < s.len() + 1 && s.push(x)[p] == y;
        assert(s[p] == y);
    }
    if s.contains(y) {
        let p = choose|p: int| 0 <= p < s.len() && s[p] == y;
        assert(s.push(x)[p] == y);
    }
    if y == x {
        assert(s.push(x)[s.len() as int] == x);
    }
}

proof fn lemma_take_next_contains(s: Seq<usize>, n: int, y: usize)
    requires
        0 <= n < s.len(),
    ensures
        s.take(n + 1).contains(y) <==> (s.take(n).contains(y) || y == s[n]),
{
    assert(s.take(n + 1) =~= s.take(n).push(s[n]));
    lemma_push_contains(s.take(n), s[n], y);
}

/// Merges two sorted runs over disjoint row ranges into one sorted run.
fn merge(keys: &Vec<SortKey>, a: &Vec<usize>, b: &Vec<usize>, lo: Ghost<int>, mid: Ghost<int>, hi: Ghost<int>) -> (r: Vec<usize>)
    requires
        0 <= lo@ <= mid@ <= hi@ <= keys.len(),
        sorted_run(keys@, a@, lo@, mid@),
        sorted_run(keys@, b@, mid@, hi@),
    ensures
        sorted_run(keys@, r@, lo@, hi@),
        r.len() == a.len() + b.len(),
        forall|x: usize| #[trigger] r@.contains(x) <==> (a@.contains(x) || b@.contains(x)),
{
    let mut r: Vec<usize> = Vec::new();
    let mut i: usize = 0;
    let mut j: usize = 0;
    while i < a.len() || j < b.len()
        invariant
            0 <= lo@ <= mid@ <= hi@ <= keys.len(),
            sorted_run(keys@, a@, lo@, mid@),
            sorted_run(keys@, b@, mid@, hi@),
            i <= a.len(),
            j <= b.len(),
            r.len() == i + j,
            sorted_run(keys@, r@, lo@, hi@),
            forall|p: int, q: int|
                0 <= p < r.len() && i <= q < a.len() ==> key_before(keys@, r@[p] as int, a@[q] as int),
            forall|p: int, q: int|
                0 <= p < r.len() && j <= q < b.len() ==> key_before(keys@, r@[p] as int, b@[q] as int),
            forall|x: usize|
                #[trigger] r@.contains(x) <==> (a@.take(i as int).contains(x) || b@.take(j as int).contains(x)),
        decreases a.len() + b.len() - i - j,
    {
        let take_a = if i < a.len() && j < b.len() {
            key_less(keys, a[i], b[j])
        } else {
            i < a.len()
        };
        let ghost old_r = r@;
        if take_a {
            let x = a[i];
            proof {
                if j < b.len() {
                    assert forall|q: int| j <= q < b.len() implies key_before(keys@, x as int, b@[q] as int) by {
                        if q > j {
                            lemma_key_before_transitive(keys@, x as int, b@[j as int] as int, b@[q] as int);
                        }
                    }
                }
            }
            r.push(x);
            i = i + 1;
            proof {
                assert forall|y: usize| #[trigger] r@.contains(y) <==> (a@.take(i as int).contains(y) || b@.take(j as int).contains(y)) by {
                    lemma_push_contains(old_r, x, y);
                    lemma_take_next_contains(a@, i - 1, y);
                }
            }
        } else {
            let x = b[j];
            proof {
                if i < a.len() {
                    assert(a@[i as int] != x);
                    lemma_key_before_total(keys@, a@[i as int] as int, x as int);
                    assert forall|q: int| i <= q < a.len() implies key_before(keys@, x as int, a@[q] as int) by {
                        if q > i {
                            lemma_key_before_transitive(keys@, x as int, a@[i as int] as int, a@[q] as int);
                        }
                    }
                }
            }
            r.push(x);
            j = j + 1;
            proof {
                assert forall|y: usize| #[trigger] r@.contains(y) <==> (a@.take(i as int).contains(y) || b@.take(j as int).contains(y)) by {
                    lemma_push_contains(old_r, x, y);
                    lemma_take_next_contains(b@, j - 1, y);
                }
            }
        }
    }
    proof {
        assert(a@.take(i as int) =~= a@);
        assert(b@.take(j as int) =~= b@);
    }
    r
}

/// The rows `lo..hi` of `keys`, in sorted order.
fn sort_range(keys: &Vec<SortKey>, lo: usize, hi: usize) -> (r: Vec<usize>)
    requires
        lo <= hi <= keys.len(),
    ensures
        sorted_run(keys@, r@, lo as int, hi as int),
        r.len() == hi - lo,
        forall|k: usize| lo <= k < hi ==> #[trigger] r@.contains(k),
    decreases hi - lo,
{
    if hi - lo <= 1 {
        let mut r: Vec<usize> = Vec::new();
        if lo < hi {
            r.push(lo);
            proof {
                assert(r@[0] == lo);
            }
        }
        r
    } else {
        let mid = lo + (hi - lo) / 2;
        let a = sort_range(keys, lo, mid);
        let b = sort_range(keys, mid, hi);
        let r = merge(keys, &a, &b, Ghost(lo as int), Ghost(mid as int), Ghost(hi as int));
        proof {
            assert forall|k: usize| lo <= k < hi implies #[trigger] r@.contains(k) by {
                if k < mid {
                    assert(a@.contains(k));
                } else {
                    assert(b@.contains(k));
                }
            }
        }
        r
    }
}

/// The row numbers of `keys` in sorted order: by rank, then by text, and rows
/// equal in both in their given order.
pub fn sorted_order(keys: &Vec<SortKey>) -> (r: Vec<usize>)
    ensures
        is_sorted_order(keys@, r@),
{
    let r = sort_range(keys, 0, keys.len());
    proof {
        assert forall|k: int| 0 <= k < keys.len() implies #[trigger] r@.contains(k as usize) by {
            assert(r@.contains(k as usize));
        }
    }
    r
}

} // verus!
