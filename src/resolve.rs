use std::sync::atomic::{AtomicBool, Ordering};

use vstd::hash_map::StringHashMap;
use vstd::prelude::*;

use vstd::string::StringExecFns;

use crate::cache::DirCache;
use crate::events::DirStatusResolvedPayload;
use crate::keys::{index_of_keys, is_last_index};
use crate::level::PendingDir;
use crate::model::{CompareStatus, EntryKind};
use crate::text::{lower_of, lowercase};

verus! {

broadcast use vstd::std_specs::vec::axiom_vec_index_decreases;

/// A snapshot of a directory's subtree: its children, each directory child
/// with its own subtree. A directory that could not be read has no children.
pub struct DirTree {
    pub children: Vec<DirNode>,
}

/// One child in a subtree snapshot; only a directory has a non-empty
/// subtree.
pub struct DirNode {
    pub name: String,
    pub kind: EntryKind,
    pub size: u64,
    pub subtree: DirTree,
}

/// The lowercased name of a node.
pub open spec fn node_key(n: DirNode) -> Seq<char> {
    lower_of(n.name@)
}

/// Node `i` is the last of `ns` with its lowercased name: when names collide
/// once lowercased, the later node stands for the name.
pub open spec fn is_last_node(ns: Seq<DirNode>, i: int) -> bool {
    &&& 0 <= i < ns.len()
    &&& forall|j: int| i < j < ns.len() ==> node_key(#[trigger] ns[j]) != node_key(ns[i])
}

/// Some node of `ns` has the lowercased name `k`.
pub open spec fn has_node(ns: Seq<DirNode>, k: Seq<char>) -> bool {
    exists|i: int| 0 <= i < ns.len() && node_key(ns[i]) == k
}

/// The node that stands for the lowercased name `k`.
pub open spec fn node_for(ns: Seq<DirNode>, k: Seq<char>) -> DirNode {
    ns[choose|i: int| is_last_node(ns, i) && node_key(ns[i]) == k]
}

/// The lowercased names of `ns`.
pub open spec fn node_keys(ns: Seq<DirNode>) -> Set<Seq<char>> {
    Set::new(|k: Seq<char>| has_node(ns, k))
}

/// Sizes of the non-directory nodes from position `i` on, each subtree
/// counted in full, one node per lowercased name.
pub open spec fn tally_from(t: DirTree, i: int) -> nat
    decreases t, t.children.len() - i,
{
    if 0 <= i < t.children.len() {
        let n = t.children[i];
        let own = if !is_last_node(t.children@, i) {
            0
        } else if n.kind == EntryKind::Dir {
            tally(n.subtree)
        } else {
            n.size as nat
        };
        own + tally_from(t, i + 1)
    } else {
        0
    }
}

/// The cumulative size of the files (and other non-directories) of a
/// subtree.
pub open spec fn tally(t: DirTree) -> nat
    decreases t, t.children.len() + 1,
{
    tally_from(t, 0)
}

/// Equality and left-side size of the nodes of `l` from position `i` on,
/// each compared with the node of `r` that has its lowercased name.
pub open spec fn resolve_from(l: DirTree, r: DirTree, i: int) -> (bool, nat)
    decreases l, l.children.len() - i,
{
    if 0 <= i < l.children.len() {
        let n = l.children[i];
        let k = node_key(n);
        let rest = resolve_from(l, r, i + 1);
        if !is_last_node(l.children@, i) {
            rest
        } else if n.kind == EntryKind::Dir {
            if has_node(r.children@, k) && node_for(r.children@, k).kind == EntryKind::Dir {
                let sub = resolve_pair_spec(n.subtree, node_for(r.children@, k).subtree);
                (sub.0 && rest.0, sub.1 + rest.1)
            } else {
                (false, tally(n.subtree) + rest.1)
            }
        } else {
            let same = has_node(r.children@, k) && node_for(r.children@, k).kind == n.kind
                && node_for(r.children@, k).size == n.size;
            (same && rest.0, n.size as nat + rest.1)
        }
    } else {
        (true, 0)
    }
}

/// Whether the subtrees `l` and `r` are equivalent (as many names on both
/// sides; each name of `l` on `r` with the same kind, the same size for a
/// non-directory, an equivalent subtree for a directory), and the cumulative
/// size of `l`.
pub open spec fn resolve_pair_spec(l: DirTree, r: DirTree) -> (bool, nat)
    decreases l, l.children.len() + 1,
{
    let (same, size) = resolve_from(l, r, 0);
    (node_keys(l.children@).len() == node_keys(r.children@).len() && same, size)
}

/// Outcome of resolving a directory pair.
pub enum Resolution {
    Resolved { is_equal: bool, total_size: u64 },
    /// Stopped by cancellation, with the size tallied so far.
    Cancelled { partial_size: u64 },
}

/// The size part of a resolution is the left subtree's size.
pub proof fn lemma_resolved_size(l: DirTree, r: DirTree)
    ensures
        resolve_pair_spec(l, r).1 == tally(l),
    decreases l, l.children.len() + 1,
{
    lemma_resolved_size_from(l, r, 0);
}

proof fn lemma_resolved_size_from(l: DirTree, r: DirTree, i: int)
    ensures
        resolve_from(l, r, i).1 == tally_from(l, i),
    decreases l, l.children.len() - i,
{
    if 0 <= i < l.children.len() {
        lemma_resolved_size_from(l, r, i + 1);
        let n = l.children[i];
        let k = node_key(n);
        if is_last_node(l.children@, i) && n.kind == EntryKind::Dir && has_node(r.children@, k)
            && node_for(r.children@, k).kind == EntryKind::Dir {
            lemma_resolved_size(n.subtree, node_for(r.children@, k).subtree);
        }
    }
}

proof fn lemma_node_for(ns: Seq<DirNode>, i: int)
    requires
        is_last_node(ns, i),
    ensures
        has_node(ns, node_key(ns[i])),
        node_for(ns, node_key(ns[i])) == ns[i],
{
    let k = node_key(ns[i]);
    let j = choose|j: int| is_last_node(ns, j) && node_key(ns[j]) == k;
    assert(is_last_node(ns, i) && node_key(ns[i]) == k);
    if j < i {
        assert(node_key(ns[i]) != node_key(ns[j]));
    } else if i < j {
        assert(node_key(ns[j]) != node_key(ns[i]));
    }
}

/// Two identical subtrees are equivalent, and their size is that of the
/// left one.
pub proof fn lemma_identical_trees_equal(t: DirTree)
    ensures
        resolve_pair_spec(t, t) == (true, tally(t)),
        equivalent(t, t),
    decreases t, t.children.len() + 1,
{
    lemma_identical_from(t, 0);
    lemma_resolved_size(t, t);
    lemma_equal_is_equivalent(t, t);
}

proof fn lemma_identical_from(t: DirTree, i: int)
    ensures
        resolve_from(t, t, i).0,
    decreases t, t.children.len() - i,
{
    if 0 <= i < t.children.len() {
        lemma_identical_from(t, i + 1);
        if is_last_node(t.children@, i) {
            lemma_node_for(t.children@, i);
            let n = t.children[i];
            if n.kind == EntryKind::Dir {
                lemma_identical_trees_equal(n.subtree);
            }
        }
    }
}

proof fn lemma_unequal_from(l: DirTree, r: DirTree, j: int, i: int)
    requires
        0 <= j <= i < l.children.len(),
        is_last_node(l.children@, i),
        ({
            let n = l.children[i];
            let k = node_key(n);
            if n.kind == EntryKind::Dir {
                !(has_node(r.children@, k) && node_for(r.children@, k).kind == EntryKind::Dir)
                    || !resolve_pair_spec(n.subtree, node_for(r.children@, k).subtree).0
            } else {
                !(has_node(r.children@, k) && node_for(r.children@, k).kind == n.kind
                    && node_for(r.children@, k).size == n.size)
            }
        }),
    ensures
        !resolve_from(l, r, j).0,
    decreases i - j,
{
    if j < i {
        lemma_unequal_from(l, r, j + 1, i);
    }
}

/// The name `k` of `l` agrees on `r`: `r` has it with the same kind, and
/// with the same size for a non-directory or an equivalent subtree for a
/// directory.
pub open spec fn name_agrees(l: DirTree, r: DirTree, k: Seq<char>) -> bool {
    let a = node_for(l.children@, k);
    let b = node_for(r.children@, k);
    &&& has_node(r.children@, k)
    &&& b.kind == a.kind
    &&& (a.kind == EntryKind::Dir ==> resolve_pair_spec(a.subtree, b.subtree).0)
    &&& (a.kind != EntryKind::Dir ==> b.size == a.size)
}

/// Two subtrees are equivalent: both sides have the same lowercased names,
/// and every name agrees.
pub open spec fn equivalent(l: DirTree, r: DirTree) -> bool {
    &&& node_keys(l.children@) == node_keys(r.children@)
    &&& forall|k: Seq<char>| node_keys(l.children@).contains(k) ==> #[trigger] name_agrees(l, r, k)
}

proof fn lemma_resolve_from_agrees(l: DirTree, r: DirTree, j: int)
    requires
        0 <= j <= l.children.len(),
    ensures
        resolve_from(l, r, j).0 <==> forall|i: int|
            j <= i < l.children.len() && is_last_node(l.children@, i) ==> #[trigger] name_agrees(
                l,
                r,
                node_key(l.children@[i]),
            ),
    decreases l.children.len() - j,
{
    if j < l.children.len() {
        lemma_resolve_from_agrees(l, r, j + 1);
        let k = node_key(l.children@[j]);
        if is_last_node(l.children@, j) {
            lemma_node_for(l.children@, j);
        }
        assert(resolve_from(l, r, j).0 == ((is_last_node(l.children@, j) ==> name_agrees(l, r, k))
            && resolve_from(l, r, j + 1).0));
        if resolve_from(l, r, j).0 {
            assert forall|i: int|
                j <= i < l.children.len() && is_last_node(l.children@, i) implies #[trigger] name_agrees(
                l,
                r,
                node_key(l.children@[i]),
            ) by {
                if i > j {
                    assert(j + 1 <= i);
                }
            }
        } else if is_last_node(l.children@, j) && !name_agrees(l, r, k) {
            assert(!name_agrees(l, r, node_key(l.children@[j])));
        } else {
            let i = choose|i: int|
                j + 1 <= i < l.children.len() && is_last_node(l.children@, i) && !name_agrees(
                    l,
                    r,
                    node_key(l.children@[i]),
                );
            assert(!name_agrees(l, r, node_key(l.children@[i])));
        }
    }
}

proof fn lemma_last_exists(ns: Seq<DirNode>, i: int)
    requires
        0 <= i < ns.len(),
    ensures
        exists|j: int| is_last_node(ns, j) && node_key(ns[j]) == node_key(ns[i]),
    decreases ns.len() - i,
{
    if !is_last_node(ns, i) {
        let j = choose|j: int| i < j < ns.len() && node_key(#[trigger] ns[j]) == node_key(ns[i]);
        lemma_last_exists(ns, j);
    }
}

proof fn lemma_node_keys_finite(ns: Seq<DirNode>)
    ensures
        node_keys(ns).finite(),
{
    let m = ns.map_values(|n: DirNode| node_key(n));
    assert forall|k: Seq<char>| node_keys(ns).contains(k) <==> m.to_set().contains(k) by {
        if node_keys(ns).contains(k) {
            let i = choose|i: int| 0 <= i < ns.len() && node_key(ns[i]) == k;
            assert(m[i] == k);
        }
        if m.to_set().contains(k) {
            let i = choose|i: int| 0 <= i < m.len() && m[i] == k;
            assert(node_key(ns[i]) == k);
        }
    }
    assert(node_keys(ns) =~= m.to_set());
    vstd::seq_lib::seq_to_set_is_finite(m);
}

/// Resolution finds a pair equal exactly when the two subtrees are
/// equivalent.
pub proof fn lemma_equal_is_equivalent(l: DirTree, r: DirTree)
    ensures
        resolve_pair_spec(l, r).0 == equivalent(l, r),
{
    lemma_resolve_from_agrees(l, r, 0);
    let kl = node_keys(l.children@);
    let kr = node_keys(r.children@);
    if resolve_pair_spec(l, r).0 {
        assert forall|k: Seq<char>| kl.contains(k) implies #[trigger] name_agrees(l, r, k) by {
            let i = choose|i: int| 0 <= i < l.children.len() && node_key(l.children@[i]) == k;
            lemma_last_exists(l.children@, i);
            let j = choose|j: int|
                is_last_node(l.children@, j) && node_key(l.children@[j]) == node_key(
                    l.children@[i],
                );
            assert(name_agrees(l, r, node_key(l.children@[j])));
        }
        assert forall|k: Seq<char>| kl.contains(k) implies kr.contains(k) by {
            assert(name_agrees(l, r, k));
        }
        lemma_node_keys_finite(l.children@);
        lemma_node_keys_finite(r.children@);
        vstd::set_lib::lemma_subset_equality(kl, kr);
    }
    if equivalent(l, r) {
        assert forall|i: int|
            0 <= i < l.children.len() && is_last_node(l.children@, i) implies #[trigger] name_agrees(
            l,
            r,
            node_key(l.children@[i]),
        ) by {
            assert(kl.contains(node_key(l.children@[i])));
        }
    }
}

/// A file whose size differs from that of the same-named file on the other
/// side makes the directory pair unequal.
pub proof fn lemma_size_difference_unequal(l: DirTree, r: DirTree, i: int)
    requires
        is_last_node(l.children@, i),
        l.children[i].kind != EntryKind::Dir,
        has_node(r.children@, node_key(l.children[i])),
        node_for(r.children@, node_key(l.children[i])).size != l.children[i].size,
    ensures
        !resolve_pair_spec(l, r).0,
        !equivalent(l, r),
{
    lemma_unequal_from(l, r, 0, i);
    lemma_equal_is_equivalent(l, r);
}

/// Subdirectories found unequal make their parents unequal too.
pub proof fn lemma_unequal_subtree_unequal(l: DirTree, r: DirTree, i: int)
    requires
        is_last_node(l.children@, i),
        l.children[i].kind == EntryKind::Dir,
        has_node(r.children@, node_key(l.children[i])),
        node_for(r.children@, node_key(l.children[i])).kind == EntryKind::Dir,
        !resolve_pair_spec(
            l.children[i].subtree,
            node_for(r.children@, node_key(l.children[i])).subtree,
        ).0,
    ensures
        !resolve_pair_spec(l, r).0,
        !equivalent(l, r),
{
    lemma_unequal_from(l, r, 0, i);
    lemma_equal_is_equivalent(l, r);
}

/// The lowercased names of `ns`.
fn node_names(ns: &Vec<DirNode>) -> (r: Vec<String>)
    ensures
        r.len() == ns.len(),
        forall|i: int| 0 <= i < r.len() ==> #[trigger] r@[i]@ == node_key(ns@[i]),
{
    let mut r: Vec<String> = Vec::new();
    for i in 0..ns.len()
        invariant
            r.len() == i,
            forall|q: int| 0 <= q < i ==> #[trigger] r@[q]@ == node_key(ns@[q]),
    {
        r.push(lowercase(ns[i].name.as_str()));
    }
    r
}

/// For each lowercased name of `ns`, the position of the node that stands
/// for it.
fn index_nodes(ns: &Vec<DirNode>) -> (m: StringHashMap<usize>)
    ensures
        forall|k: Seq<char>| #[trigger] m@.contains_key(k) <==> has_node(ns@, k),
        forall|k: Seq<char>|
            #[trigger] m@.contains_key(k) ==> is_last_node(ns@, m@[k] as int) && node_key(
                ns@[m@[k] as int],
            ) == k,
        m@.dom() == node_keys(ns@),
{
    let keys = node_names(ns);
    let m = index_of_keys(&keys);
    proof {
        assert forall|k: Seq<char>| #[trigger] m@.contains_key(k) <==> has_node(ns@, k) by {
            if has_node(ns@, k) {
                let i = choose|i: int| 0 <= i < ns.len() && node_key(ns@[i]) == k;
                assert(keys@[i]@ == k);
            }
        }
        assert forall|k: Seq<char>| #[trigger] m@.contains_key(k) implies is_last_node(
            ns@,
            m@[k] as int,
        ) && node_key(ns@[m@[k] as int]) == k by {
            assert(is_last_index(keys@, k, m@[k] as int));
            assert forall|j: int| m@[k] < j < ns.len() implies node_key(#[trigger] ns@[j])
                != node_key(ns@[m@[k] as int]) by {
                assert(keys@[j]@ == node_key(ns@[j]));
            }
        }
        assert(m@.dom() =~= node_keys(ns@));
    }
    m
}

fn is_cancelled(cancel: Option<&AtomicBool>) -> (r: bool)
    ensures
        cancel is None ==> !r,
{
    match cancel {
        Some(flag) => flag.load(Ordering::Relaxed),
        None => false,
    }
}

/// Resolves the pair `(left, right)`, polling `cancel` on entry and before
/// each child.
fn resolve_tree(left: &DirTree, right: &DirTree, cancel: Option<&AtomicBool>) -> (r: Resolution)
    requires
        tally(*left) <= u64::MAX,
    ensures
        match r {
            Resolution::Resolved { is_equal, total_size } => (is_equal, total_size as nat)
                == resolve_pair_spec(*left, *right),
            Resolution::Cancelled { partial_size } => cancel is Some && partial_size <= tally(*left),
        },
    decreases *left, 0nat,
{
    if is_cancelled(cancel) {
        return Resolution::Cancelled { partial_size: 0 };
    }
    let lmap = index_nodes(&left.children);
    let rmap = index_nodes(&right.children);
    let mut is_equal = lmap.len() == rmap.len();
    let mut total: u64 = 0;
    proof {
        lemma_resolved_size(*left, *right);
    }
    let n = left.children.len();
    for i in 0..n
        invariant
            n == left.children.len(),
            tally(*left) <= u64::MAX,
            forall|k: Seq<char>| #[trigger] lmap@.contains_key(k) <==> has_node(left.children@, k),
            forall|k: Seq<char>|
                #[trigger] lmap@.contains_key(k) ==> is_last_node(left.children@, lmap@[k] as int)
                    && node_key(left.children@[lmap@[k] as int]) == k,
            forall|k: Seq<char>| #[trigger] rmap@.contains_key(k) <==> has_node(right.children@, k),
            forall|k: Seq<char>|
                #[trigger] rmap@.contains_key(k) ==> is_last_node(
                    right.children@,
                    rmap@[k] as int,
                ) && node_key(right.children@[rmap@[k] as int]) == k,
            total + tally_from(*left, i as int) == tally(*left),
            (is_equal && resolve_from(*left, *right, i as int).0) == resolve_pair_spec(
                *left,
                *right,
            ).0,
            resolve_pair_spec(*left, *right).1 == tally(*left),
    {
        if is_cancelled(cancel) {
            return Resolution::Cancelled { partial_size: total };
        }
        let node = &left.children[i];
        let key = lowercase(node.name.as_str());
        proof {
            lemma_resolved_size_from(*left, *right, i + 1);
        }
        let last = match lmap.get(key.as_str()) {
            Some(j) => *j == i,
            None => false,
        };
        proof {
            assert(has_node(left.children@, key@));
            if !last {
                let j = lmap@[key@] as int;
                assert(node_key(left.children@[j]) == node_key(left.children@[i as int]));
                assert(j != i);
                if j < i {
                    assert(!is_last_node(left.children@, j) || node_key(left.children@[i as int])
                        != node_key(left.children@[j]));
                }
                assert(!is_last_node(left.children@, i as int));
            } else {
                lemma_node_for(left.children@, i as int);
            }
        }
        if last {
            let right_match = match rmap.get(key.as_str()) {
                Some(j) => Some(&right.children[*j]),
                None => None,
            };
            proof {
                if rmap@.contains_key(key@) {
                    lemma_node_for(right.children@, rmap@[key@] as int);
                }
            }
            if node.kind == EntryKind::Dir {
                let sub = match right_match {
                    Some(rn) => {
                        if rn.kind == EntryKind::Dir {
                            resolve_tree(&node.subtree, &rn.subtree, cancel)
                        } else {
                            size_only_tally(&node.subtree, cancel)
                        }
                    },
                    None => size_only_tally(&node.subtree, cancel),
                };
                let both_dirs = match right_match {
                    Some(rn) => rn.kind == EntryKind::Dir,
                    None => false,
                };
                match sub {
                    Resolution::Resolved { is_equal: sub_equal, total_size } => {
                        proof {
                            lemma_resolved_size(node.subtree, node.subtree);
                            if both_dirs {
                                lemma_resolved_size(
                                    node.subtree,
                                    node_for(right.children@, key@).subtree,
                                );
                            }
                        }
                        total = total + total_size;
                        is_equal = is_equal && both_dirs && sub_equal;
                    },
                    Resolution::Cancelled { partial_size } => {
                        return Resolution::Cancelled { partial_size: total + partial_size };
                    },
                }
            } else {
                let same = match right_match {
                    Some(rn) => rn.kind == node.kind && rn.size == node.size,
                    None => false,
                };
                total = total + node.size;
                is_equal = is_equal && same;
            }
        }
    }
    Resolution::Resolved { is_equal, total_size: total }
}

/// The size of a subtree on its own: the subtree resolved against itself,
/// which keeps the size tally complete for a directory that has no
/// directory of its name on the other side.
fn size_only_tally(t: &DirTree, cancel: Option<&AtomicBool>) -> (r: Resolution)
    requires
        tally(*t) <= u64::MAX,
    ensures
        match r {
            Resolution::Resolved { is_equal, total_size } => total_size == tally(*t),
            Resolution::Cancelled { partial_size } => cancel is Some && partial_size <= tally(*t),
        },
    decreases *t, 1nat,
{
    proof {
        lemma_resolved_size(*t, *t);
    }
    resolve_tree(t, t, cancel)
}

/// Resolves the directory pair `(left, right)`: whether the two subtrees are
/// equivalent, and the cumulative size of the left one. The flag is polled
/// on entry to each directory and before each child; once it is found set,
/// the outcome is `Cancelled` with the size tallied so far.
pub fn resolve_pair(left: &DirTree, right: &DirTree, cancel: &AtomicBool) -> (r: Resolution)
    requires
        tally(*left) <= u64::MAX,
    ensures
        match r {
            Resolution::Resolved { is_equal, total_size } => is_equal == equivalent(*left, *right)
                && total_size == tally(*left),
            Resolution::Cancelled { partial_size } => partial_size <= tally(*left),
        },
{
    proof {
        lemma_equal_is_equivalent(*left, *right);
        lemma_resolved_size(*left, *right);
    }
    resolve_tree(left, right, Some(cancel))
}

/// Resolves the directory pair `(left, right)` to the end, with no
/// cancellation.
pub fn resolve_trees(left: &DirTree, right: &DirTree) -> (r: (bool, u64))
    requires
        tally(*left) <= u64::MAX,
    ensures
        r.0 == equivalent(*left, *right),
        r.1 == tally(*left),
{
    proof {
        lemma_equal_is_equivalent(*left, *right);
        lemma_resolved_size(*left, *right);
    }
    match resolve_tree(left, right, None) {
        Resolution::Resolved { is_equal, total_size } => (is_equal, total_size),
        Resolution::Cancelled { .. } => {
            proof {
                assert(false);
            }
            (false, 0)
        },
    }
}

/// The total size of a subtree, when it fits in a `u64`.
pub fn tree_size(t: &DirTree) -> (r: Option<u64>)
    ensures
        r == if tally(*t) <= u64::MAX {
            Some(tally(*t) as u64)
        } else {
            None::<u64>
        },
    decreases *t,
{
    let lmap = index_nodes(&t.children);
    let mut acc: u64 = 0;
    let n = t.children.len();
    for i in 0..n
        invariant
            n == t.children.len(),
            forall|k: Seq<char>| #[trigger] lmap@.contains_key(k) <==> has_node(t.children@, k),
            forall|k: Seq<char>|
                #[trigger] lmap@.contains_key(k) ==> is_last_node(t.children@, lmap@[k] as int)
                    && node_key(t.children@[lmap@[k] as int]) == k,
            acc + tally_from(*t, i as int) == tally(*t),
    {
        let node = &t.children[i];
        let key = lowercase(node.name.as_str());
        let last = match lmap.get(key.as_str()) {
            Some(j) => *j == i,
            None => false,
        };
        proof {
            assert(has_node(t.children@, key@));
            if !last {
                let j = lmap@[key@] as int;
                assert(node_key(t.children@[j]) == node_key(t.children@[i as int]));
            }
        }
        if last {
            let own = if node.kind == EntryKind::Dir {
                match tree_size(&node.subtree) {
                    Some(s) => s,
                    None => {
                        return None;
                    },
                }
            } else {
                node.size
            };
            match acc.checked_add(own) {
                Some(sum) => {
                    acc = sum;
                },
                None => {
                    return None;
                },
            }
        }
    }
    Some(acc)
}

/// Same for equivalent subtrees, modified otherwise.
pub open spec fn status_for(is_equal: bool) -> CompareStatus {
    if is_equal {
        CompareStatus::Same
    } else {
        CompareStatus::Modified
    }
}

/// Caches the resolution of the pending directory `dir` of the level
/// `(left_parent, right_parent)`, and returns the notification to publish.
pub fn record_resolution(
    cache: &mut DirCache,
    dir: &PendingDir,
    left_parent: &str,
    right_parent: &str,
    is_equal: bool,
    total_size: u64,
) -> (event: DirStatusResolvedPayload)
    requires
        old(cache).wf(),
    ensures
        final(cache).wf(),
        final(cache)@ == old(cache)@.insert(
            (dir.left_path@, dir.right_path@),
            (status_for(is_equal), total_size),
        ),
        event.name@ == dir.name@,
        event.status == status_for(is_equal),
        event.left_path@ == left_parent@,
        event.right_path@ == right_parent@,
        event.total_size == total_size,
{
    let status = if is_equal {
        CompareStatus::Same
    } else {
        CompareStatus::Modified
    };
    cache.insert(dir.left_path.clone(), dir.right_path.clone(), (status, total_size));
    DirStatusResolvedPayload {
        name: dir.name.clone(),
        status,
        left_path: String::from_str(left_parent),
        right_path: String::from_str(right_parent),
        total_size,
    }
}

} // verus!
