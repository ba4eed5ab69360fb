use vstd::hash_map::StringHashMap;
use vstd::prelude::*;

verus! {

/// `r` holds distinct strings, and `seen` holds exactly their views.
pub open spec fn tracked_keys(r: Seq<String>, seen: Map<Seq<char>, ()>) -> bool {
    &&& forall|a: int, b: int| 0 <= a < b < r.len() ==> r[a]@ != r[b]@
    &&& forall|k: Seq<char>|
        #[trigger] seen.contains_key(k) <==> exists|q: int| 0 <= q < r.len() && r[q]@ == k
}

/// Appends to `r` each string of `xs` whose view it does not hold yet, so
/// that `r` keeps distinct views and `seen` keeps track of them. `u` is a set
/// that holds all of them.
pub fn append_new(
    r: &mut Vec<String>,
    seen: &mut StringHashMap<()>,
    xs: &Vec<String>,
    u: Ghost<Set<Seq<char>>>,
)
    requires
        tracked_keys(old(r)@, old(seen)@),
        forall|q: int| 0 <= q < old(r).len() ==> #[trigger] u@.contains(old(r)@[q]@),
        forall|p: int| 0 <= p < xs.len() ==> #[trigger] u@.contains(xs@[p]@),
    ensures
        tracked_keys(final(r)@, final(seen)@),
        forall|q: int| 0 <= q < final(r).len() ==> #[trigger] u@.contains(final(r)@[q]@),
        forall|k: Seq<char>| #[trigger] old(seen)@.contains_key(k) ==> final(seen)@.contains_key(k),
        forall|p: int| 0 <= p < xs.len() ==> final(seen)@.contains_key(#[trigger] xs@[p]@),
{
    let ghost seen0 = seen@;
    let n = xs.len();
    for i in 0..n
        invariant
            n == xs.len(),
            tracked_keys(r@, seen@),
            forall|q: int| 0 <= q < r.len() ==> #[trigger] u@.contains(r@[q]@),
            forall|p: int| 0 <= p < xs.len() ==> #[trigger] u@.contains(xs@[p]@),
            forall|k: Seq<char>| #[trigger] seen0.contains_key(k) ==> seen@.contains_key(k),
            forall|p: int| 0 <= p < i ==> seen@.contains_key(#[trigger] xs@[p]@),
    {
        let k = &xs[i];
        if !seen.contains_key(k.as_str()) {
            let ghost old_r = r@;
            seen.insert(k.clone(), ());
            r.push(k.clone());
            proof {
                assert forall|a: int, b: int| 0 <= a < b < r.len() implies r@[a]@ != r@[b]@ by {
                    if b == r.len() - 1 {
                        assert(old_r[a] == r@[a]);
                    } else {
                        assert(old_r[a] == r@[a] && old_r[b] == r@[b]);
                    }
                }
                assert forall|x: Seq<char>| #[trigger] seen@.contains_key(x) <==> exists|q: int|
                    0 <= q < r.len() && r@[q]@ == x by {
                    if x == k@ {
                        assert(r@[r.len() - 1]@ == x);
                    } else if seen@.contains_key(x) {
                        let q = choose|q: int| 0 <= q < old_r.len() && old_r[q]@ == x;
                        assert(r@[q] == old_r[q]);
                    } else if exists|q: int| 0 <= q < r.len() && r@[q]@ == x {
                        let q = choose|q: int| 0 <= q < r.len() && r@[q]@ == x;
                        assert(q < old_r.len());
                        assert(r@[q] == old_r[q]);
                    }
                }
            }
        }
    }
}

/// Position `i` holds the last occurrence of `k` in `keys`.
pub open spec fn is_last_index(keys: Seq<String>, k: Seq<char>, i: int) -> bool {
    &&& 0 <= i < keys.len()
    &&& keys[i]@ == k
    &&& forall|j: int| i < j < keys.len() ==> (#[trigger] keys[j])@ != k
}

/// For each view in `keys`, the position of its last occurrence.
pub fn index_of_keys(keys: &Vec<String>) -> (m: StringHashMap<usize>)
    ensures
        forall|k: Seq<char>|
            #[trigger] m@.contains_key(k) <==> exists|i: int| 0 <= i < keys.len() && keys@[i]@ == k,
        forall|k: Seq<char>| #[trigger] m@.contains_key(k) ==> is_last_index(keys@, k, m@[k] as int),
{
    let mut m: StringHashMap<usize> = StringHashMap::new();
    for i in 0..keys.len()
        invariant
            forall|k: Seq<char>|
                #[trigger] m@.contains_key(k) <==> exists|j: int| 0 <= j < i && keys@[j]@ == k,
            forall|k: Seq<char>|
                #[trigger] m@.contains_key(k) ==> m@[k] < i && keys@[m@[k] as int]@ == k && forall|
                    j: int,
                | m@[k] < j < i ==> (#[trigger] keys@[j])@ != k,
    {
        m.insert(keys[i].clone(), i);
    }
    m
}

} // verus!
