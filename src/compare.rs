use std::sync::atomic::{AtomicBool, Ordering};

use vstd::hash_map::StringHashMap;
use vstd::prelude::*;
use vstd::string::StringExecFns;

use crate::ignore::views_of;
use crate::keys::append_new;
use crate::model::{CompareMode, CompareSummary, DiffItem, DiffKind, EntryKind, EntryMeta};
use crate::scan::{key_union, scan_view_wf, ScanResult, ScanView};
use crate::sort::{key_before, sorted_order, SortKey};
use crate::text::{chars_of, lemma_text_lt_irreflexive, lower_of, text_lt};

verus! {

/// Diff list and counters of one comparison.
pub struct CompareResult {
    pub diffs: Vec<DiffItem>,
    pub summary: CompareSummary,
}

/// The metadata that `m` holds for `k`, if any.
pub open spec fn meta_at(m: Map<Seq<char>, EntryMeta>, k: Seq<char>) -> Option<EntryMeta> {
    if m.contains_key(k) {
        Some(m[k])
    } else {
        None
    }
}

pub open spec fn target_view(t: Option<String>) -> Option<Seq<char>> {
    match t {
        Some(s) => Some(s@),
        None => None,
    }
}

/// How two entries found at the same path compare. A kind that differs is a
/// type mismatch in both modes; otherwise Structure mode calls them the same,
/// and Smart mode does too for directories and for other entries whose size
/// and symlink target agree. Timestamps never count.
pub open spec fn pair_kind(l: EntryMeta, r: EntryMeta, mode: CompareMode) -> DiffKind {
    if l.kind != r.kind {
        DiffKind::TypeMismatch
    } else if mode == CompareMode::Structure {
        DiffKind::Same
    } else if l.kind == EntryKind::Dir {
        DiffKind::Same
    } else if l.size == r.size && target_view(l.symlink_target) == target_view(r.symlink_target) {
        DiffKind::Same
    } else {
        DiffKind::MetaDiff
    }
}

/// How a path compares, given what each side holds at it.
pub open spec fn expected_kind(
    l: Option<EntryMeta>,
    r: Option<EntryMeta>,
    mode: CompareMode,
) -> DiffKind {
    match (l, r) {
        (Some(a), Some(b)) => pair_kind(a, b, mode),
        (Some(_), None) => DiffKind::OnlyLeft,
        _ => DiffKind::OnlyRight,
    }
}

/// The path shown for key `k`: left's original casing, else right's, else
/// the key itself.
pub open spec fn display_path(left: ScanView, right: ScanView, k: Seq<char>) -> Seq<char> {
    if left.originals.contains_key(k) {
        left.originals[k]
    } else if right.originals.contains_key(k) {
        right.originals[k]
    } else {
        k
    }
}

/// The lowercased path a diff row stands for.
pub open spec fn diff_key(d: DiffItem) -> Seq<char> {
    lower_of(d.rel_path@)
}

/// `d` is the row for key `k`.
pub open spec fn is_diff_for(
    d: DiffItem,
    left: ScanView,
    right: ScanView,
    mode: CompareMode,
    k: Seq<char>,
) -> bool {
    &&& d.rel_path@ == display_path(left, right, k)
    &&& d.left == meta_at(left.entries, k)
    &&& d.right == meta_at(right.entries, k)
    &&& d.diff_kind == expected_kind(d.left, d.right, mode)
    &&& d.error_message is None
}

/// Number of rows of kind `kind`.
pub open spec fn count_kind(d: Seq<DiffItem>, kind: DiffKind) -> nat
    decreases d.len(),
{
    if d.len() == 0 {
        0
    } else {
        count_kind(d.drop_last(), kind) + if d.last().diff_kind == kind {
            1nat
        } else {
            0nat
        }
    }
}

/// The counters of `s` are those of the rows `diffs`, and the totals are the
/// number of distinct paths on each side.
pub open spec fn summary_counts(
    s: CompareSummary,
    diffs: Seq<DiffItem>,
    left: ScanView,
    right: ScanView,
) -> bool {
    &&& s.total_left == left.keys.len()
    &&& s.total_right == right.keys.len()
    &&& s.only_left == count_kind(diffs, DiffKind::OnlyLeft)
    &&& s.only_right == count_kind(diffs, DiffKind::OnlyRight)
    &&& s.type_mismatch == count_kind(diffs, DiffKind::TypeMismatch)
    &&& s.same == count_kind(diffs, DiffKind::Same)
    &&& s.meta_diff == count_kind(diffs, DiffKind::MetaDiff)
    &&& s.errors == 0
}

/// `diffs` and `summary` are the comparison of `left` and `right`: one row per
/// path of either side, each classified, in case-insensitive path order.
pub open spec fn is_compare_of(
    left: ScanView,
    right: ScanView,
    mode: CompareMode,
    diffs: Seq<DiffItem>,
    summary: CompareSummary,
) -> bool {
    &&& forall|i: int|
        0 <= i < diffs.len() ==> key_union(left, right).contains(#[trigger] diff_key(diffs[i]))
            && is_diff_for(diffs[i], left, right, mode, diff_key(diffs[i]))
    &&& forall|k: Seq<char>|
        #[trigger] key_union(left, right).contains(k) ==> exists|i: int|
            0 <= i < diffs.len() && diff_key(diffs[i]) == k
    &&& forall|i: int, j: int|
        0 <= i < j < diffs.len() ==> text_lt(diff_key(diffs[i]), diff_key(diffs[j]))
    &&& summary_counts(summary, diffs, left, right)
}

/// The summary after one more row of kind `kind`.
pub open spec fn bumped(s: CompareSummary, kind: DiffKind) -> CompareSummary {
    match kind {
        DiffKind::OnlyLeft => CompareSummary { only_left: (s.only_left + 1) as usize, ..s },
        DiffKind::OnlyRight => CompareSummary { only_right: (s.only_right + 1) as usize, ..s },
        DiffKind::TypeMismatch => CompareSummary {
            type_mismatch: (s.type_mismatch + 1) as usize,
            ..s
        },
        DiffKind::Same => CompareSummary { same: (s.same + 1) as usize, ..s },
        DiffKind::MetaDiff => CompareSummary { meta_diff: (s.meta_diff + 1) as usize, ..s },
        DiffKind::Error => CompareSummary { errors: (s.errors + 1) as usize, ..s },
    }
}

/// Classifies two entries found at the same path and counts the result.
pub fn classify_pair(
    rel_path: &str,
    left: &EntryMeta,
    right: &EntryMeta,
    mode: CompareMode,
    summary: &mut CompareSummary,
) -> (d: DiffItem)
    requires
        old(summary).type_mismatch < usize::MAX,
        old(summary).same < usize::MAX,
        old(summary).meta_diff < usize::MAX,
    ensures
        d.rel_path@ == rel_path@,
        d.left == Some(*left),
        d.right == Some(*right),
        d.diff_kind == pair_kind(*left, *right, mode),
        d.error_message is None,
        *final(summary) == bumped(*old(summary), d.diff_kind),
{
    let kind = if left.kind != right.kind {
        summary.type_mismatch = summary.type_mismatch + 1;
        DiffKind::TypeMismatch
    } else {
        match mode {
            CompareMode::Structure => {
                summary.same = summary.same + 1;
                DiffKind::Same
            },
            CompareMode::Smart => {
                if left.kind == EntryKind::Dir {
                    summary.same = summary.same + 1;
                    DiffKind::Same
                } else {
                    let size_match = left.size == right.size;
                    let symlink_match = match (&left.symlink_target, &right.symlink_target) {
                        (Some(a), Some(b)) => *a == *b,
                        (None, None) => true,
                        _ => false,
                    };
                    if size_match && symlink_match {
                        summary.same = summary.same + 1;
                        DiffKind::Same
                    } else {
                        summary.meta_diff = summary.meta_diff + 1;
                        DiffKind::MetaDiff
                    }
                }
            },
        }
    };
    DiffItem {
        rel_path: String::from_str(rel_path),
        diff_kind: kind,
        left: Some(left.duplicate()),
        right: Some(right.duplicate()),
        error_message: None,
    }
}

/// The lowercased paths of both scans, each once.
fn union_keys(left: &ScanResult, right: &ScanResult) -> (r: Vec<String>)
    requires
        left.wf(),
        right.wf(),
    ensures
        forall|i: int, j: int| 0 <= i < j < r.len() ==> r@[i]@ != r@[j]@,
        forall|i: int| 0 <= i < r.len() ==> #[trigger] key_union(left@, right@).contains(r@[i]@),
        forall|k: Seq<char>|
            #[trigger] key_union(left@, right@).contains(k) ==> exists|i: int|
                0 <= i < r.len() && r@[i]@ == k,
{
    let mut r: Vec<String> = Vec::new();
    let mut seen: StringHashMap<()> = StringHashMap::new();
    let ghost u = key_union(left@, right@);
    proof {
        assert forall|p: int| 0 <= p < left@.keys.len() implies #[trigger] u.contains(left@.keys[p]) by {
            assert(left@.keys.contains(left@.keys[p]));
        }
        assert forall|p: int| 0 <= p < right@.keys.len() implies #[trigger] u.contains(right@.keys[p]) by {
            assert(right@.keys.contains(right@.keys[p]));
        }
    }
    let lk = left.keys();
    let rk = right.keys();
    proof {
        assert forall|p: int| 0 <= p < lk.len() implies #[trigger] u.contains(lk@[p]@) by {
            assert(views_of(lk@)[p] == left@.keys[p]);
        }
        assert forall|p: int| 0 <= p < rk.len() implies #[trigger] u.contains(rk@[p]@) by {
            assert(views_of(rk@)[p] == right@.keys[p]);
        }
    }
    append_new(&mut r, &mut seen, lk, Ghost(u));
    append_new(&mut r, &mut seen, rk, Ghost(u));
    proof {
        assert forall|k: Seq<char>| #[trigger] u.contains(k) implies exists|i: int|
            0 <= i < r.len() && r@[i]@ == k by {
            if left@.entries.contains_key(k) {
                let p = choose|p: int| 0 <= p < left@.keys.len() && left@.keys[p] == k;
                assert(views_of(lk@)[p] == left@.keys[p]);
                assert(seen@.contains_key(left@.keys[p]));
            } else {
                assert(right@.keys.contains(k));
                let p = choose|p: int| 0 <= p < right@.keys.len() && right@.keys[p] == k;
                assert(views_of(rk@)[p] == right@.keys[p]);
                assert(seen@.contains_key(right@.keys[p]));
            }
        }
    }
    r
}

proof fn lemma_count_push(d: Seq<DiffItem>, x: DiffItem, kind: DiffKind)
    ensures
        count_kind(d.push(x), kind) == count_kind(d, kind) + if x.diff_kind == kind {
            1nat
        } else {
            0nat
        },
{
    assert(d.push(x).drop_last() =~= d);
}

/// Compares two scans; with a cancellation flag it stops at the first key
/// where the flag is found set, and then returns no rows at all.
fn compare_keys(
    left: &ScanResult,
    right: &ScanResult,
    mode: CompareMode,
    cancel_flag: Option<&AtomicBool>,
) -> (r: Result<CompareResult, String>)
    requires
        left.wf(),
        right.wf(),
    ensures
        match r {
            Ok(res) => is_compare_of(left@, right@, mode, res.diffs@, res.summary),
            Err(e) => cancel_flag is Some && e@ == "Compare cancelled"@,
        },
        left@.keys.len() == 0 && right@.keys.len() == 0 ==> r is Ok,
{
    let keys = union_keys(left, right);
    proof {
        if left@.keys.len() == 0 && right@.keys.len() == 0 && keys.len() > 0 {
            assert(key_union(left@, right@).contains(keys@[0]@));
            assert(!left@.keys.contains(keys@[0]@));
            assert(!right@.keys.contains(keys@[0]@));
        }
    }
    let mut sort_keys: Vec<SortKey> = Vec::new();
    for i in 0..keys.len()
        invariant
            sort_keys.len() == i,
            forall|q: int|
                0 <= q < i ==> (#[trigger] sort_keys@[q]).rank == 0 && sort_keys@[q].text@
                    == keys@[q]@,
    {
        sort_keys.push(SortKey { rank: 0, text: chars_of(keys[i].as_str()) });
    }
    let order = sorted_order(&sort_keys);
    let mut summary = CompareSummary::default();
    summary.total_left = left.len();
    summary.total_right = right.len();
    let mut diffs: Vec<DiffItem> = Vec::new();
    let n = order.len();
    for p in 0..n
        invariant
            left.wf(),
            right.wf(),
            n == order.len(),
            n == keys.len(),
            n == sort_keys.len(),
            left@.keys.len() == 0 && right@.keys.len() == 0 ==> n == 0,
            forall|q: int| 0 <= q < n ==> order@[q] < n,
            forall|q: int|
                0 <= q < n ==> #[trigger] key_union(left@, right@).contains(keys@[q]@),
            diffs.len() == p,
            forall|q: int|
                0 <= q < p ==> diff_key(#[trigger] diffs@[q]) == keys@[order@[q] as int]@
                    && is_diff_for(diffs@[q], left@, right@, mode, keys@[order@[q] as int]@),
            summary_counts(summary, diffs@, left@, right@),
            summary.only_left + summary.only_right + summary.type_mismatch + summary.same
                + summary.meta_diff == p,
    {
        if let Some(flag) = cancel_flag {
            if flag.load(Ordering::Relaxed) {
                let msg = "Compare cancelled";
                return Err(String::from_str(msg));
            }
        }
        let key = keys[order[p]].as_str();
        let ghost k = key@;
        assert(key_union(left@, right@).contains(k));
        let path = match left.original(key) {
            Some(o) => o.clone(),
            None => match right.original(key) {
                Some(o) => o.clone(),
                None => String::from_str(key),
            },
        };
        proof {
            if left@.entries.contains_key(k) {
                assert(left@.originals.contains_key(k));
            } else {
                assert(right@.originals.contains_key(k));
            }
        }
        let le = left.get(key);
        let re = right.get(key);
        let diff = match le {
            Some(l) => match re {
                Some(r) => classify_pair(path.as_str(), l, r, mode, &mut summary),
                None => {
                    summary.only_left = summary.only_left + 1;
                    DiffItem {
                        rel_path: path,
                        diff_kind: DiffKind::OnlyLeft,
                        left: Some(l.duplicate()),
                        right: None,
                        error_message: None,
                    }
                },
            },
            None => {
                let r = re.unwrap();
                summary.only_right = summary.only_right + 1;
                DiffItem {
                    rel_path: path,
                    diff_kind: DiffKind::OnlyRight,
                    left: None,
                    right: Some(r.duplicate()),
                    error_message: None,
                }
            },
        };
        proof {
            lemma_count_push(diffs@, diff, DiffKind::OnlyLeft);
            lemma_count_push(diffs@, diff, DiffKind::OnlyRight);
            lemma_count_push(diffs@, diff, DiffKind::TypeMismatch);
            lemma_count_push(diffs@, diff, DiffKind::Same);
            lemma_count_push(diffs@, diff, DiffKind::MetaDiff);
        }
        diffs.push(diff);
    }
    proof {
        assert forall|i: int| 0 <= i < diffs.len() implies key_union(left@, right@).contains(
            #[trigger] diff_key(diffs@[i]),
        ) && is_diff_for(diffs@[i], left@, right@, mode, diff_key(diffs@[i])) by {
            assert(diff_key(diffs@[i]) == keys@[order@[i] as int]@);
        }
        assert forall|k: Seq<char>| #[trigger] key_union(left@, right@).contains(k) implies exists|
            i: int,
        | 0 <= i < diffs.len() && diff_key(diffs@[i]) == k by {
            let x = choose|x: int| 0 <= x < keys.len() && keys@[x]@ == k;
            assert(order@.contains(x as usize));
            let i = choose|i: int| 0 <= i < order.len() && order@[i] == x as usize;
            assert(diff_key(diffs@[i]) == k);
        }
        assert forall|i: int, j: int| 0 <= i < j < diffs.len() implies text_lt(
            diff_key(diffs@[i]),
            diff_key(diffs@[j]),
        ) by {
            let a = order@[i] as int;
            let b = order@[j] as int;
            assert(key_before(sort_keys@, a, b));
            lemma_text_lt_irreflexive(keys@[a]@);
            if a != b {
                if a < b {
                    assert(keys@[a]@ != keys@[b]@);
                } else {
                    assert(keys@[b]@ != keys@[a]@);
                }
            }
        }
    }
    Ok(CompareResult { diffs, summary })
}

/// Compares two scans: one row per lowercased path of either side, classified
/// as `pair_kind` says, sorted by lowercased path, with the counters of the
/// rows. The flag is polled before each path; once it is found set the result
/// is the error "Compare cancelled" and no rows. When neither side has a
/// path the flag is never read, and the result is the empty comparison.
pub fn compare(
    left: &ScanResult,
    right: &ScanResult,
    mode: CompareMode,
    cancel_flag: &AtomicBool,
) -> (r: Result<CompareResult, String>)
    requires
        left.wf(),
        right.wf(),
    ensures
        match r {
            Ok(res) => is_compare_of(left@, right@, mode, res.diffs@, res.summary),
            Err(e) => e@ == "Compare cancelled"@,
        },
        left@.keys.len() == 0 && right@.keys.len() == 0 ==> r is Ok,
{
    compare_keys(left, right, mode, Some(cancel_flag))
}

/// Compares two scans to the end, with no cancellation.
pub fn compare_scans(left: &ScanResult, right: &ScanResult, mode: CompareMode) -> (r:
    CompareResult)
    requires
        left.wf(),
        right.wf(),
    ensures
        is_compare_of(left@, right@, mode, r.diffs@, r.summary),
{
    match compare_keys(left, right, mode, None) {
        Ok(res) => res,
        Err(_) => {
            proof {
                assert(false);
            }
            CompareResult { diffs: Vec::new(), summary: CompareSummary::default() }
        },
    }
}

/// Timestamps never count: entries that differ only in their modification
/// times classify alike.
pub proof fn lemma_timestamps_never_compared(
    l: EntryMeta,
    r: EntryMeta,
    l2: EntryMeta,
    r2: EntryMeta,
    mode: CompareMode,
)
    requires
        l2 == (EntryMeta { modified: l2.modified, ..l }),
        r2 == (EntryMeta { modified: r2.modified, ..r }),
    ensures
        pair_kind(l, r, mode) == pair_kind(l2, r2, mode),
{
}

/// Entries of different kinds are a type mismatch in both modes, and two
/// directories are the same in Smart mode whatever their metadata.
pub proof fn lemma_kind_rules(l: EntryMeta, r: EntryMeta, mode: CompareMode)
    ensures
        l.kind != r.kind ==> pair_kind(l, r, mode) == DiffKind::TypeMismatch,
        l.kind == EntryKind::Dir && r.kind == EntryKind::Dir ==> pair_kind(l, r, CompareMode::Smart)
            == DiffKind::Same,
        l.kind == r.kind ==> pair_kind(l, r, CompareMode::Structure) == DiffKind::Same,
{
}

/// The lowercased paths of the rows, in order.
pub open spec fn row_keys(diffs: Seq<DiffItem>) -> Seq<Seq<char>> {
    diffs.map_values(|d: DiffItem| diff_key(d))
}

proof fn lemma_counts_of_rows(d: Seq<DiffItem>)
    requires
        forall|i: int| 0 <= i < d.len() ==> (#[trigger] d[i]).diff_kind != DiffKind::Error,
    ensures
        count_kind(d, DiffKind::OnlyLeft) + count_kind(d, DiffKind::OnlyRight) + count_kind(
            d,
            DiffKind::TypeMismatch,
        ) + count_kind(d, DiffKind::Same) + count_kind(d, DiffKind::MetaDiff) == d.len(),
    decreases d.len(),
{
    if d.len() > 0 {
        assert(d.last() == d[d.len() - 1]);
        lemma_counts_of_rows(d.drop_last());
    }
}

proof fn lemma_count_absent(d: Seq<DiffItem>, kind: DiffKind)
    requires
        forall|i: int| 0 <= i < d.len() ==> (#[trigger] d[i]).diff_kind != kind,
    ensures
        count_kind(d, kind) == 0,
    decreases d.len(),
{
    if d.len() > 0 {
        assert(d.last() == d[d.len() - 1]);
        lemma_count_absent(d.drop_last(), kind);
    }
}

proof fn lemma_count_everywhere(d: Seq<DiffItem>, kind: DiffKind)
    requires
        forall|i: int| 0 <= i < d.len() ==> (#[trigger] d[i]).diff_kind == kind,
    ensures
        count_kind(d, kind) == d.len(),
    decreases d.len(),
{
    if d.len() > 0 {
        assert(d.last() == d[d.len() - 1]);
        lemma_count_everywhere(d.drop_last(), kind);
    }
}

/// Every path of either side has exactly one row: the lowercased paths of
/// the rows are the union of both sides' paths, and none comes twice.
pub proof fn lemma_rows_cover_union_once(
    left: ScanView,
    right: ScanView,
    mode: CompareMode,
    diffs: Seq<DiffItem>,
    summary: CompareSummary,
)
    requires
        is_compare_of(left, right, mode, diffs, summary),
    ensures
        row_keys(diffs).to_set() == key_union(left, right),
        row_keys(diffs).no_duplicates(),
{
    let ks = row_keys(diffs);
    assert forall|i: int, j: int| 0 <= i < ks.len() && 0 <= j < ks.len() && i != j implies ks[i]
        != ks[j] by {
        lemma_text_lt_irreflexive(ks[i]);
        if i < j {
            assert(text_lt(diff_key(diffs[i]), diff_key(diffs[j])));
        } else {
            assert(text_lt(diff_key(diffs[j]), diff_key(diffs[i])));
        }
    }
    assert forall|k: Seq<char>| ks.to_set().contains(k) <==> key_union(left, right).contains(k) by {
        if ks.to_set().contains(k) {
            let i = choose|i: int| 0 <= i < ks.len() && ks[i] == k;
            assert(diff_key(diffs[i]) == k);
        }
        if key_union(left, right).contains(k) {
            let i = choose|i: int| 0 <= i < diffs.len() && diff_key(diffs[i]) == k;
            assert(ks[i] == k);
        }
    }
    assert(ks.to_set() =~= key_union(left, right));
}

/// The counters of the five classes, with the error counter, add up to the
/// number of distinct paths of both sides together.
pub proof fn lemma_counts_sum_to_union(
    left: ScanView,
    right: ScanView,
    mode: CompareMode,
    diffs: Seq<DiffItem>,
    summary: CompareSummary,
)
    requires
        is_compare_of(left, right, mode, diffs, summary),
    ensures
        summary.only_left + summary.only_right + summary.type_mismatch + summary.same
            + summary.meta_diff + summary.errors == key_union(left, right).len(),
{
    lemma_rows_cover_union_once(left, right, mode, diffs, summary);
    assert forall|i: int| 0 <= i < diffs.len() implies (#[trigger] diffs[i]).diff_kind
        != DiffKind::Error by {
        assert(is_diff_for(diffs[i], left, right, mode, diff_key(diffs[i])));
    }
    lemma_counts_of_rows(diffs);
    row_keys(diffs).unique_seq_to_set();
}

/// The distinct paths of a scan are as many as its keys.
proof fn lemma_scan_key_count(v: ScanView)
    requires
        scan_view_wf(v),
    ensures
        v.entries.dom().len() == v.keys.len(),
{
    assert(v.keys.no_duplicates());
    assert(v.keys.to_set() =~= v.entries.dom());
    v.keys.unique_seq_to_set();
}

/// Comparing a scan with itself in Smart mode finds every path the same:
/// nothing on one side only, no type mismatch, no metadata difference, and as
/// many same rows as the scan has paths.
pub proof fn lemma_self_compare_all_same(
    v: ScanView,
    diffs: Seq<DiffItem>,
    summary: CompareSummary,
)
    requires
        scan_view_wf(v),
        is_compare_of(v, v, CompareMode::Smart, diffs, summary),
    ensures
        summary.only_left == 0,
        summary.only_right == 0,
        summary.type_mismatch == 0,
        summary.meta_diff == 0,
        summary.same == summary.total_left,
{
    assert forall|i: int| 0 <= i < diffs.len() implies (#[trigger] diffs[i]).diff_kind
        == DiffKind::Same by {
        let k = diff_key(diffs[i]);
        assert(is_diff_for(diffs[i], v, v, CompareMode::Smart, k));
        assert(key_union(v, v).contains(k));
    }
    lemma_count_absent(diffs, DiffKind::OnlyLeft);
    lemma_count_absent(diffs, DiffKind::OnlyRight);
    lemma_count_absent(diffs, DiffKind::TypeMismatch);
    lemma_count_absent(diffs, DiffKind::MetaDiff);
    lemma_count_everywhere(diffs, DiffKind::Same);
    lemma_rows_cover_union_once(v, v, CompareMode::Smart, diffs, summary);
    row_keys(diffs).unique_seq_to_set();
    assert(key_union(v, v) =~= v.entries.dom());
    lemma_scan_key_count(v);
}

/// Structure mode never reports a metadata difference.
pub proof fn lemma_structure_mode_no_meta_diff(
    left: ScanView,
    right: ScanView,
    diffs: Seq<DiffItem>,
    summary: CompareSummary,
)
    requires
        is_compare_of(left, right, CompareMode::Structure, diffs, summary),
    ensures
        forall|i: int| 0 <= i < diffs.len() ==> (#[trigger] diffs[i]).diff_kind != DiffKind::MetaDiff,
        summary.meta_diff == 0,
{
    assert forall|i: int| 0 <= i < diffs.len() implies (#[trigger] diffs[i]).diff_kind
        != DiffKind::MetaDiff by {
        assert(is_diff_for(diffs[i], left, right, CompareMode::Structure, diff_key(diffs[i])));
    }
    lemma_count_absent(diffs, DiffKind::MetaDiff);
}

} // verus!
