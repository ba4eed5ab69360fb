use vstd::hash_map::StringHashMap;
use vstd::prelude::*;

use crate::cache::{cached, DirCache};
use crate::ignore::{
    default_patterns, glob_match_of, has_default_patterns, ignores, lemma_default_match_ignored,
    IgnoreRules,
};
use crate::keys::{append_new, index_of_keys, is_last_index};
use crate::model::{CompareEntry, CompareStatus, CompareSummary, DiffKind, DirResolveInfo, EntryKind};
use crate::sort::{
    is_sorted_order, key_before, lemma_key_before_asymmetric, sorted_order, SortKey,
};
use crate::text::{
    chars_of, has_char, join_path, joined, lemma_text_lt_asymmetric, lemma_text_lt_irreflexive, lower_of,
    lowercase, text_lt,
};

verus! {

/// One child of a directory in a single-level listing.
#[derive(Debug, Clone)]
pub struct BrowseEntry {
    pub name: String,
    pub kind: EntryKind,
    pub size: u64,
    /// Epoch milliseconds.
    pub modified: Option<u64>,
}

/// Metadata of a directory child as read (symlinks followed).
#[derive(Debug, Clone, Copy, PartialEq, Eq, Structural)]
pub struct RawMeta {
    pub is_dir: bool,
    pub len: u64,
    /// Epoch milliseconds.
    pub modified: Option<u64>,
}

/// One child of a directory as read from the filesystem.
#[derive(Debug)]
pub struct RawDirEntry {
    pub name: String,
    /// The entry itself is a symlink.
    pub is_symlink: bool,
    /// The entry's own type is a directory.
    pub type_is_dir: bool,
    /// The metadata, when it could be read.
    pub metadata: Option<RawMeta>,
}

/// A symlink is reported as one; otherwise the metadata decides, or the
/// entry's own type when there is no metadata.
pub open spec fn raw_kind(e: RawDirEntry) -> EntryKind {
    if e.is_symlink {
        EntryKind::Symlink
    } else {
        match e.metadata {
            Some(m) => if m.is_dir {
                EntryKind::Dir
            } else {
                EntryKind::File
            },
            None => if e.type_is_dir {
                EntryKind::Dir
            } else {
                EntryKind::File
            },
        }
    }
}

/// `b` is the listing row for `e`; the time is kept only when asked for.
pub open spec fn is_browse_of(b: BrowseEntry, e: RawDirEntry, with_time: bool) -> bool {
    &&& b.name@ == e.name@
    &&& b.kind == raw_kind(e)
    &&& b.size == match e.metadata {
        Some(m) => m.len,
        None => 0,
    }
    &&& b.modified == match e.metadata {
        Some(m) => if with_time {
            m.modified
        } else {
            None
        },
        None => None,
    }
}

/// The children that a listing keeps: those whose name no pattern ignores,
/// in the order read.
pub open spec fn kept_entries(patterns: Seq<Seq<char>>, raw: Seq<RawDirEntry>) -> Seq<RawDirEntry>
    decreases raw.len(),
{
    if raw.len() == 0 {
        Seq::empty()
    } else {
        let rest = kept_entries(patterns, raw.drop_last());
        if ignores(patterns, raw.last().name@) {
            rest
        } else {
            rest.push(raw.last())
        }
    }
}

/// No kept child has a name that a pattern ignores.
pub proof fn lemma_kept_not_ignored(patterns: Seq<Seq<char>>, raw: Seq<RawDirEntry>)
    ensures
        forall|j: int|
            0 <= j < kept_entries(patterns, raw).len() ==> !ignores(
                patterns,
                (#[trigger] kept_entries(patterns, raw)[j]).name@,
            ),
    decreases raw.len(),
{
    if raw.len() > 0 {
        lemma_kept_not_ignored(patterns, raw.drop_last());
    }
}

/// A child whose name one of the default patterns matches never appears in
/// a listing.
pub proof fn lemma_default_noise_not_listed(
    patterns: Seq<Seq<char>>,
    raw: Seq<RawDirEntry>,
    i: int,
)
    requires
        has_default_patterns(patterns),
        0 <= i < default_patterns().len(),
    ensures
        forall|j: int|
            0 <= j < kept_entries(patterns, raw).len() && !has_char(
                (#[trigger] kept_entries(patterns, raw)[j]).name@,
                '/',
            ) ==> !glob_match_of(default_patterns()[i], kept_entries(patterns, raw)[j].name@),
{
    lemma_kept_not_ignored(patterns, raw);
    assert forall|j: int|
        0 <= j < kept_entries(patterns, raw).len() && !has_char(
            (#[trigger] kept_entries(patterns, raw)[j]).name@,
            '/',
        ) implies !glob_match_of(default_patterns()[i], kept_entries(patterns, raw)[j].name@) by {
        let name = kept_entries(patterns, raw)[j].name@;
        if glob_match_of(default_patterns()[i], name) {
            lemma_default_match_ignored(patterns, Seq::empty(), name, i);
        }
    }
}

fn browse_of(e: &RawDirEntry, with_time: bool) -> (b: BrowseEntry)
    ensures
        is_browse_of(b, *e, with_time),
{
    let (kind_is_dir, size, modified) = match e.metadata {
        Some(m) => (m.is_dir, m.len, if with_time {
            m.modified
        } else {
            None
        }),
        None => (e.type_is_dir, 0, None),
    };
    let kind = if e.is_symlink {
        EntryKind::Symlink
    } else if kind_is_dir {
        EntryKind::Dir
    } else {
        EntryKind::File
    };
    BrowseEntry { name: e.name.clone(), kind, size, modified }
}

/// The kept children of a directory, classified, in the order read.
fn kept_rows(rules: &IgnoreRules, raw: &Vec<RawDirEntry>, with_time: bool) -> (r: Vec<BrowseEntry>)
    ensures
        r.len() == kept_entries(rules@, raw@).len(),
        forall|i: int|
            0 <= i < r.len() ==> is_browse_of(#[trigger] r@[i], kept_entries(rules@, raw@)[i], with_time),
{
    let mut r: Vec<BrowseEntry> = Vec::new();
    for i in 0..raw.len()
        invariant
            r.len() == kept_entries(rules@, raw@.take(i as int)).len(),
            forall|q: int|
                0 <= q < r.len() ==> is_browse_of(
                    #[trigger] r@[q],
                    kept_entries(rules@, raw@.take(i as int))[q],
                    with_time,
                ),
    {
        assert(raw@.take(i + 1).drop_last() =~= raw@.take(i as int));
        assert(raw@.take(i + 1).last() == raw@[i as int]);
        if !rules.is_ignored(raw[i].name.as_str()) {
            r.push(browse_of(&raw[i], with_time));
            proof {
                let k = kept_entries(rules@, raw@.take(i as int));
                assert forall|q: int| 0 <= q < r.len() implies is_browse_of(
                    #[trigger] r@[q],
                    kept_entries(rules@, raw@.take(i + 1))[q],
                    with_time,
                ) by {
                    assert(kept_entries(rules@, raw@.take(i + 1)) == k.push(raw@[i as int]));
                }
            }
        }
    }
    assert(raw@.take(raw.len() as int) =~= raw@);
    r
}

/// The kept children of a directory, classified, in the order read, without
/// modification times: the light listing that resolution walks.
pub fn collect_entries(rules: &IgnoreRules, raw: &Vec<RawDirEntry>) -> (r: Vec<BrowseEntry>)
    ensures
        r.len() == kept_entries(rules@, raw@).len(),
        forall|i: int|
            0 <= i < r.len() ==> is_browse_of(#[trigger] r@[i], kept_entries(rules@, raw@)[i], false),
{
    kept_rows(rules, raw, false)
}

/// 0 for a directory, 1 for anything else: directories are listed first.
pub open spec fn kind_rank(k: EntryKind) -> int {
    if k == EntryKind::Dir {
        0
    } else {
        1
    }
}

/// `a` may stand before `b` in a listing: directories first, then by
/// lowercased name.
pub open spec fn listed_in_order(a: BrowseEntry, b: BrowseEntry) -> bool {
    ||| kind_rank(a.kind) < kind_rank(b.kind)
    ||| (kind_rank(a.kind) == kind_rank(b.kind) && !text_lt(lower_of(b.name@), lower_of(a.name@)))
}

fn rank_of(k: EntryKind) -> (r: u8)
    ensures
        r == kind_rank(k),
{
    if k == EntryKind::Dir {
        0
    } else {
        1
    }
}

/// Row `p` of `rows` is the row of child `order[p]` of `kept`, no child has
/// two rows, and rows equal in rank and lowercased name keep the order in
/// which their children were read.
pub open spec fn is_listing_by(rows: Seq<BrowseEntry>, kept: Seq<RawDirEntry>, order: Seq<int>) -> bool {
    &&& rows.len() == kept.len()
    &&& order.len() == rows.len()
    &&& forall|p: int|
        0 <= p < rows.len() ==> 0 <= #[trigger] order[p] < kept.len() && is_browse_of(
            rows[p],
            kept[order[p]],
            true,
        )
    &&& forall|p: int, q: int| 0 <= p < q < rows.len() ==> order[p] != order[q]
    &&& forall|p: int, q: int|
        0 <= p < q < rows.len() && kind_rank(rows[p].kind) == kind_rank(rows[q].kind) && lower_of(
            rows[p].name@,
        ) == lower_of(rows[q].name@) ==> order[p] < order[q]
}

/// `rows` holds one row for each child in `kept`, in some order.
pub open spec fn is_listing_of(rows: Seq<BrowseEntry>, kept: Seq<RawDirEntry>) -> bool {
    exists|order: Seq<int>| is_listing_by(rows, kept, order)
}

/// A single-level listing: the kept children with their modification times,
/// directories first, then by lowercased name; children equal in both stay
/// in the order read.
pub fn listing_of(rules: &IgnoreRules, raw: &Vec<RawDirEntry>) -> (r: Vec<BrowseEntry>)
    ensures
        is_listing_of(r@, kept_entries(rules@, raw@)),
        forall|p: int, q: int| 0 <= p < q < r.len() ==> listed_in_order(r@[p], r@[q]),
{
    let rows = kept_rows(rules, raw, true);
    let mut keys: Vec<SortKey> = Vec::new();
    for i in 0..rows.len()
        invariant
            rows.len() == kept_entries(rules@, raw@).len(),
            forall|q: int|
                0 <= q < rows.len() ==> is_browse_of(
                    #[trigger] rows@[q],
                    kept_entries(rules@, raw@)[q],
                    true,
                ),
            keys.len() == i,
            forall|q: int|
                0 <= q < i ==> (#[trigger] keys@[q]).rank == kind_rank(rows@[q].kind)
                    && keys@[q].text@ == lower_of(rows@[q].name@),
    {
        let lower = lowercase(rows[i].name.as_str());
        keys.push(SortKey { rank: rank_of(rows[i].kind), text: chars_of(lower.as_str()) });
    }
    let order = sorted_order(&keys);
    let mut r: Vec<BrowseEntry> = Vec::new();
    for p in 0..order.len()
        invariant
            rows.len() == kept_entries(rules@, raw@).len(),
            forall|q: int|
                0 <= q < rows.len() ==> is_browse_of(
                    #[trigger] rows@[q],
                    kept_entries(rules@, raw@)[q],
                    true,
                ),
            forall|q: int|
                0 <= q < rows.len() ==> (#[trigger] keys@[q]).rank == kind_rank(rows@[q].kind)
                    && keys@[q].text@ == lower_of(rows@[q].name@),
            is_sorted_order(keys@, order@),
            keys.len() == rows.len(),
            r.len() == p,
            forall|q: int| 0 <= q < p ==> #[trigger] r@[q] == rows@[order@[q] as int],
    {
        let row = &rows[order[p]];
        r.push(BrowseEntry {
            name: row.name.clone(),
            kind: row.kind,
            size: row.size,
            modified: row.modified,
        });
    }
    proof {
        let ord = order@.map_values(|x: usize| x as int);
        assert forall|p: int, q: int| 0 <= p < q < r.len() implies ord[p] != ord[q] by {
            assert(key_before(keys@, ord[p], ord[q]));
            lemma_key_before_asymmetric(keys@, ord[p], ord[q]);
        }
        assert forall|p: int, q: int|
            0 <= p < q < r.len() && kind_rank(r@[p].kind) == kind_rank(r@[q].kind) && lower_of(
                r@[p].name@,
            ) == lower_of(r@[q].name@) implies ord[p] < ord[q] by {
            assert(key_before(keys@, ord[p], ord[q]));
            assert(r@[p] == rows@[ord[p]]);
            assert(r@[q] == rows@[ord[q]]);
            lemma_text_lt_irreflexive(keys@[ord[p]].text@);
        }
        assert(is_listing_by(r@, kept_entries(rules@, raw@), ord));
        assert forall|p: int, q: int| 0 <= p < q < r.len() implies listed_in_order(r@[p], r@[q]) by {
            let a = order@[p] as int;
            let b = order@[q] as int;
            assert(key_before(keys@, a, b));
            lemma_text_lt_asymmetric(keys@[a].text@, keys@[b].text@);
            lemma_text_lt_irreflexive(keys@[a].text@);
        }
    }
    r
}

/// The lowercased name of a listing row.
pub open spec fn name_key(e: BrowseEntry) -> Seq<char> {
    lower_of(e.name@)
}

/// Some row of `es` has key `k`.
pub open spec fn has_key(es: Seq<BrowseEntry>, k: Seq<char>) -> bool {
    exists|i: int| 0 <= i < es.len() && name_key(es[i]) == k
}

/// Row `i` is the last row of `es` with key `k`.
pub open spec fn last_with_key(es: Seq<BrowseEntry>, k: Seq<char>, i: int) -> bool {
    &&& 0 <= i < es.len()
    &&& name_key(es[i]) == k
    &&& forall|j: int| i < j < es.len() ==> name_key(#[trigger] es[j]) != k
}

/// The row that stands for key `k`: when names collide once lowercased, the
/// later row wins.
pub open spec fn keyed(es: Seq<BrowseEntry>, k: Seq<char>) -> BrowseEntry {
    es[choose|i: int| last_with_key(es, k, i)]
}

proof fn lemma_keyed(es: Seq<BrowseEntry>, k: Seq<char>, i: int)
    requires
        last_with_key(es, k, i),
    ensures
        keyed(es, k) == es[i],
{
    let j = choose|j: int| last_with_key(es, k, j);
    assert(last_with_key(es, k, j));
    if j < i {
        assert(name_key(es[i]) != k);
    } else if i < j {
        assert(name_key(es[j]) != k);
    }
}

/// The keys of all rows of both sides.
pub open spec fn name_union(left: Seq<BrowseEntry>, right: Seq<BrowseEntry>) -> Set<Seq<char>> {
    Set::new(|k: Seq<char>| has_key(left, k) || has_key(right, k))
}

/// The lowercased names of `es`.
fn lowered_names(es: &Vec<BrowseEntry>) -> (r: Vec<String>)
    ensures
        r.len() == es.len(),
        forall|i: int| 0 <= i < r.len() ==> #[trigger] r@[i]@ == name_key(es@[i]),
{
    let mut r: Vec<String> = Vec::new();
    for i in 0..es.len()
        invariant
            r.len() == i,
            forall|q: int| 0 <= q < i ==> #[trigger] r@[q]@ == name_key(es@[q]),
    {
        r.push(lowercase(es[i].name.as_str()));
    }
    r
}

/// For each key of `es`, the position of the last row with that key.
fn index_by_key(es: &Vec<BrowseEntry>, keys: &Vec<String>) -> (m: StringHashMap<usize>)
    requires
        keys.len() == es.len(),
        forall|i: int| 0 <= i < keys.len() ==> #[trigger] keys@[i]@ == name_key(es@[i]),
    ensures
        forall|k: Seq<char>| #[trigger] m@.contains_key(k) <==> has_key(es@, k),
        forall|k: Seq<char>| #[trigger] m@.contains_key(k) ==> last_with_key(es@, k, m@[k] as int),
{
    let m = index_of_keys(keys);
    proof {
        assert forall|k: Seq<char>| #[trigger] m@.contains_key(k) <==> has_key(es@, k) by {
            if has_key(es@, k) {
                let i = choose|i: int| 0 <= i < es.len() && name_key(es@[i]) == k;
                assert(keys@[i]@ == k);
            }
        }
        assert forall|k: Seq<char>| #[trigger] m@.contains_key(k) implies last_with_key(
            es@,
            k,
            m@[k] as int,
        ) by {
            assert(is_last_index(keys@, k, m@[k] as int));
            assert forall|j: int| m@[k] < j < es.len() implies name_key(#[trigger] es@[j]) != k by {
                assert(keys@[j]@ == name_key(es@[j]));
            }
        }
    }
    m
}

/// `row` carries the given values.
pub open spec fn row_is(
    row: CompareEntry,
    name: Seq<char>,
    kind: EntryKind,
    status: CompareStatus,
    left_size: Option<u64>,
    right_size: Option<u64>,
    left_modified: Option<u64>,
    right_modified: Option<u64>,
    dir_info: Option<DirResolveInfo>,
) -> bool {
    &&& row.name@ == name
    &&& row.kind == kind
    &&& row.status == status
    &&& row.left_size == left_size
    &&& row.right_size == right_size
    &&& row.left_modified == left_modified
    &&& row.right_modified == right_modified
    &&& row.dir_info == dir_info
}

/// `row` is the comparison row for key `k` of the listings `left` of
/// directory `lp` and `right` of directory `rp`. A directory on both sides
/// shows what the cache holds for the pair of child paths, or is pending.
pub open spec fn is_level_row(
    row: CompareEntry,
    lp: Seq<char>,
    rp: Seq<char>,
    left: Seq<BrowseEntry>,
    right: Seq<BrowseEntry>,
    cache: Map<(Seq<char>, Seq<char>), (CompareStatus, u64)>,
    k: Seq<char>,
) -> bool {
    let l = keyed(left, k);
    let r = keyed(right, k);
    if has_key(left, k) && has_key(right, k) {
        if l.kind != r.kind {
            row_is(
                row,
                l.name@,
                l.kind,
                CompareStatus::TypeMismatch,
                Some(l.size),
                Some(r.size),
                l.modified,
                r.modified,
                None,
            )
        } else if l.kind == EntryKind::Dir {
            match cached(cache, joined(lp, l.name@), joined(rp, r.name@)) {
                Some(v) => row_is(
                    row,
                    l.name@,
                    EntryKind::Dir,
                    v.0,
                    None,
                    None,
                    l.modified,
                    r.modified,
                    Some(DirResolveInfo { total_size: v.1 }),
                ),
                None => row_is(
                    row,
                    l.name@,
                    EntryKind::Dir,
                    CompareStatus::Pending,
                    None,
                    None,
                    l.modified,
                    r.modified,
                    None,
                ),
            }
        } else {
            row_is(
                row,
                l.name@,
                l.kind,
                if l.size == r.size {
                    CompareStatus::Same
                } else {
                    CompareStatus::Modified
                },
                Some(l.size),
                Some(r.size),
                l.modified,
                r.modified,
                None,
            )
        }
    } else if has_key(left, k) {
        row_is(
            row,
            l.name@,
            l.kind,
            CompareStatus::OnlyLeft,
            Some(l.size),
            None,
            l.modified,
            None,
            None,
        )
    } else {
        row_is(
            row,
            r.name@,
            r.kind,
            CompareStatus::OnlyRight,
            None,
            Some(r.size),
            None,
            r.modified,
            None,
        )
    }
}

/// The counter a row adds to: a resolved directory counts as same or as
/// differing by its status, a pending one counts nowhere.
pub open spec fn row_counter(row: CompareEntry) -> Option<DiffKind> {
    if row.dir_info is Some {
        if row.status == CompareStatus::Same {
            Some(DiffKind::Same)
        } else {
            Some(DiffKind::MetaDiff)
        }
    } else {
        match row.status {
            CompareStatus::Same => Some(DiffKind::Same),
            CompareStatus::Modified => Some(DiffKind::MetaDiff),
            CompareStatus::OnlyLeft => Some(DiffKind::OnlyLeft),
            CompareStatus::OnlyRight => Some(DiffKind::OnlyRight),
            CompareStatus::TypeMismatch => Some(DiffKind::TypeMismatch),
            CompareStatus::Pending => None,
        }
    }
}

/// Number of rows that add to counter `kind`.
pub open spec fn count_rows(rows: Seq<CompareEntry>, kind: DiffKind) -> nat
    decreases rows.len(),
{
    if rows.len() == 0 {
        0
    } else {
        count_rows(rows.drop_last(), kind) + if row_counter(rows.last()) == Some(kind) {
            1nat
        } else {
            0nat
        }
    }
}

/// The counters of a single-level comparison: the totals are the listings'
/// raw lengths.
pub open spec fn level_counts(
    s: CompareSummary,
    rows: Seq<CompareEntry>,
    left: Seq<BrowseEntry>,
    right: Seq<BrowseEntry>,
) -> bool {
    &&& s.total_left == left.len()
    &&& s.total_right == right.len()
    &&& s.only_left == count_rows(rows, DiffKind::OnlyLeft)
    &&& s.only_right == count_rows(rows, DiffKind::OnlyRight)
    &&& s.type_mismatch == count_rows(rows, DiffKind::TypeMismatch)
    &&& s.same == count_rows(rows, DiffKind::Same)
    &&& s.meta_diff == count_rows(rows, DiffKind::MetaDiff)
    &&& s.errors == 0
}

/// The lowercased name a comparison row stands for.
pub open spec fn row_key(row: CompareEntry) -> Seq<char> {
    lower_of(row.name@)
}

/// `a` comes before `b`: directories first, then by lowercased name.
pub open spec fn row_before(a: CompareEntry, b: CompareEntry) -> bool {
    ||| kind_rank(a.kind) < kind_rank(b.kind)
    ||| (kind_rank(a.kind) == kind_rank(b.kind) && text_lt(row_key(a), row_key(b)))
}

/// `rows` and `summary` are the single-level comparison of the listings:
/// one row per lowercased name of either side, directories first, then by
/// name.
pub open spec fn is_level_compare_of(
    lp: Seq<char>,
    rp: Seq<char>,
    left: Seq<BrowseEntry>,
    right: Seq<BrowseEntry>,
    cache: Map<(Seq<char>, Seq<char>), (CompareStatus, u64)>,
    rows: Seq<CompareEntry>,
    summary: CompareSummary,
) -> bool {
    &&& forall|p: int|
        0 <= p < rows.len() ==> name_union(left, right).contains(#[trigger] row_key(rows[p]))
            && is_level_row(rows[p], lp, rp, left, right, cache, row_key(rows[p]))
    &&& forall|k: Seq<char>|
        #[trigger] name_union(left, right).contains(k) ==> exists|p: int|
            0 <= p < rows.len() && row_key(rows[p]) == k
    &&& forall|p: int, q: int| 0 <= p < q < rows.len() ==> row_before(rows[p], rows[q])
    &&& level_counts(summary, rows, left, right)
}

proof fn lemma_count_rows_push(rows: Seq<CompareEntry>, x: CompareEntry, kind: DiffKind)
    ensures
        count_rows(rows.push(x), kind) == count_rows(rows, kind) + if row_counter(x) == Some(
            kind,
        ) {
            1nat
        } else {
            0nat
        },
{
    assert(rows.push(x).drop_last() =~= rows);
}

/// Builds the row for key `k`, found at `li` on the left and `ri` on the
/// right, and counts it.
fn level_row(
    left_path: &str,
    right_path: &str,
    left: &Vec<BrowseEntry>,
    right: &Vec<BrowseEntry>,
    li: Option<usize>,
    ri: Option<usize>,
    cache: &DirCache,
    k: Ghost<Seq<char>>,
    summary: &mut CompareSummary,
) -> (row: CompareEntry)
    requires
        cache.wf(),
        li is Some || ri is Some,
        li matches Some(i) ==> last_with_key(left@, k@, i as int),
        li is None ==> !has_key(left@, k@),
        ri matches Some(i) ==> last_with_key(right@, k@, i as int),
        ri is None ==> !has_key(right@, k@),
        old(summary).only_left < usize::MAX,
        old(summary).only_right < usize::MAX,
        old(summary).type_mismatch < usize::MAX,
        old(summary).same < usize::MAX,
        old(summary).meta_diff < usize::MAX,
    ensures
        is_level_row(row, left_path@, right_path@, left@, right@, cache@, k@),
        row_key(row) == k@,
        kind_rank(row.kind) == kind_rank(
            match li {
                Some(i) => left@[i as int].kind,
                None => right@[ri->0 as int].kind,
            },
        ),
        final(summary).total_left == old(summary).total_left,
        final(summary).total_right == old(summary).total_right,
        final(summary).errors == old(summary).errors,
        final(summary).only_left == old(summary).only_left + if row_counter(row) == Some(
            DiffKind::OnlyLeft,
        ) {
            1int
        } else {
            0
        },
        final(summary).only_right == old(summary).only_right + if row_counter(row) == Some(
            DiffKind::OnlyRight,
        ) {
            1int
        } else {
            0
        },
        final(summary).type_mismatch == old(summary).type_mismatch + if row_counter(row) == Some(
            DiffKind::TypeMismatch,
        ) {
            1int
        } else {
            0
        },
        final(summary).same == old(summary).same + if row_counter(row) == Some(DiffKind::Same) {
            1int
        } else {
            0
        },
        final(summary).meta_diff == old(summary).meta_diff + if row_counter(row) == Some(
            DiffKind::MetaDiff,
        ) {
            1int
        } else {
            0
        },
{
    proof {
        if let Some(i) = li {
            lemma_keyed(left@, k@, i as int);
        }
        if let Some(i) = ri {
            lemma_keyed(right@, k@, i as int);
        }
    }
    match li {
        Some(i) => {
            let l = &left[i];
            match ri {
                Some(j) => {
                    let r = &right[j];
                    if l.kind != r.kind {
                        summary.type_mismatch = summary.type_mismatch + 1;
                        CompareEntry {
                            name: l.name.clone(),
                            kind: l.kind,
                            status: CompareStatus::TypeMismatch,
                            left_size: Some(l.size),
                            right_size: Some(r.size),
                            left_modified: l.modified,
                            right_modified: r.modified,
                            dir_info: None,
                        }
                    } else if l.kind == EntryKind::Dir {
                        let sub_left = join_path(left_path, l.name.as_str());
                        let sub_right = join_path(right_path, r.name.as_str());
                        match cache.get(&sub_left, &sub_right) {
                            Some((status, total_size)) => {
                                if status == CompareStatus::Same {
                                    summary.same = summary.same + 1;
                                } else {
                                    summary.meta_diff = summary.meta_diff + 1;
                                }
                                CompareEntry {
                                    name: l.name.clone(),
                                    kind: EntryKind::Dir,
                                    status,
                                    left_size: None,
                                    right_size: None,
                                    left_modified: l.modified,
                                    right_modified: r.modified,
                                    dir_info: Some(DirResolveInfo { total_size }),
                                }
                            },
                            None => CompareEntry {
                                name: l.name.clone(),
                                kind: EntryKind::Dir,
                                status: CompareStatus::Pending,
                                left_size: None,
                                right_size: None,
                                left_modified: l.modified,
                                right_modified: r.modified,
                                dir_info: None,
                            },
                        }
                    } else if l.size == r.size {
                        summary.same = summary.same + 1;
                        CompareEntry {
                            name: l.name.clone(),
                            kind: l.kind,
                            status: CompareStatus::Same,
                            left_size: Some(l.size),
                            right_size: Some(r.size),
                            left_modified: l.modified,
                            right_modified: r.modified,
                            dir_info: None,
                        }
                    } else {
                        summary.meta_diff = summary.meta_diff + 1;
                        CompareEntry {
                            name: l.name.clone(),
                            kind: l.kind,
                            status: CompareStatus::Modified,
                            left_size: Some(l.size),
                            right_size: Some(r.size),
                            left_modified: l.modified,
                            right_modified: r.modified,
                            dir_info: None,
                        }
                    }
                },
                None => {
                    summary.only_left = summary.only_left + 1;
                    CompareEntry {
                        name: l.name.clone(),
                        kind: l.kind,
                        status: CompareStatus::OnlyLeft,
                        left_size: Some(l.size),
                        right_size: None,
                        left_modified: l.modified,
                        right_modified: None,
                        dir_info: None,
                    }
                },
            }
        },
        None => {
            let j = ri.unwrap();
            let r = &right[j];
            summary.only_right = summary.only_right + 1;
            CompareEntry {
                name: r.name.clone(),
                kind: r.kind,
                status: CompareStatus::OnlyRight,
                left_size: None,
                right_size: Some(r.size),
                left_modified: None,
                right_modified: r.modified,
                dir_info: None,
            }
        },
    }
}

/// Compares one directory level: the listing `left_entries` of `left_path`
/// with `right_entries` of `right_path`. There is one row per lowercased
/// name of either side (left's casing first), classified as `is_level_row`
/// says, directories first and then by lowercased name. Nothing recurses: a
/// directory on both sides shows its cached resolution or is pending.
pub fn compare_directory_impl(
    left_path: &str,
    right_path: &str,
    left_entries: &Vec<BrowseEntry>,
    right_entries: &Vec<BrowseEntry>,
    cache: &DirCache,
) -> (r: (Vec<CompareEntry>, CompareSummary))
    requires
        cache.wf(),
    ensures
        is_level_compare_of(
            left_path@,
            right_path@,
            left_entries@,
            right_entries@,
            cache@,
            r.0@,
            r.1,
        ),
{
    let lkeys = lowered_names(left_entries);
    let rkeys = lowered_names(right_entries);
    let lmap = index_by_key(left_entries, &lkeys);
    let rmap = index_by_key(right_entries, &rkeys);
    let ghost u = name_union(left_entries@, right_entries@);
    let mut keys: Vec<String> = Vec::new();
    let mut seen: StringHashMap<()> = StringHashMap::new();
    proof {
        assert forall|p: int| 0 <= p < lkeys.len() implies #[trigger] u.contains(lkeys@[p]@) by {
            assert(has_key(left_entries@, lkeys@[p]@));
        }
        assert forall|p: int| 0 <= p < rkeys.len() implies #[trigger] u.contains(rkeys@[p]@) by {
            assert(has_key(right_entries@, rkeys@[p]@));
        }
    }
    append_new(&mut keys, &mut seen, &lkeys, Ghost(u));
    append_new(&mut keys, &mut seen, &rkeys, Ghost(u));
    let mut sort_keys: Vec<SortKey> = Vec::new();
    for i in 0..keys.len()
        invariant
            u == name_union(left_entries@, right_entries@),
            sort_keys.len() == i,
            forall|q: int| 0 <= q < keys.len() ==> #[trigger] u.contains(keys@[q]@),
            forall|k: Seq<char>| #[trigger] lmap@.contains_key(k) <==> has_key(left_entries@, k),
            forall|k: Seq<char>|
                #[trigger] lmap@.contains_key(k) ==> last_with_key(left_entries@, k, lmap@[k] as int),
            forall|k: Seq<char>| #[trigger] rmap@.contains_key(k) <==> has_key(right_entries@, k),
            forall|k: Seq<char>|
                #[trigger] rmap@.contains_key(k) ==> last_with_key(
                    right_entries@,
                    k,
                    rmap@[k] as int,
                ),
            forall|q: int|
                0 <= q < i ==> (#[trigger] sort_keys@[q]).text@ == keys@[q]@ && sort_keys@[q].rank
                    == kind_rank(
                    if has_key(left_entries@, keys@[q]@) {
                        keyed(left_entries@, keys@[q]@).kind
                    } else {
                        keyed(right_entries@, keys@[q]@).kind
                    },
                ),
    {
        let k = keys[i].as_str();
        let kind = match lmap.get(k) {
            Some(li) => left_entries[*li].kind,
            None => {
                assert(u.contains(k@));
                let ri = rmap.get(k).unwrap();
                right_entries[*ri].kind
            },
        };
        proof {
            if lmap@.contains_key(k@) {
                lemma_keyed(left_entries@, k@, lmap@[k@] as int);
            } else {
                lemma_keyed(right_entries@, k@, rmap@[k@] as int);
            }
        }
        sort_keys.push(SortKey { rank: rank_of(kind), text: chars_of(k) });
    }
    let order = sorted_order(&sort_keys);
    let mut summary = CompareSummary::default();
    summary.total_left = left_entries.len();
    summary.total_right = right_entries.len();
    let mut rows: Vec<CompareEntry> = Vec::new();
    let n = order.len();
    for p in 0..n
        invariant
            u == name_union(left_entries@, right_entries@),
            cache.wf(),
            n == order.len(),
            n == keys.len(),
            is_sorted_order(sort_keys@, order@),
            forall|a: int, b: int| 0 <= a < b < keys.len() ==> keys@[a]@ != keys@[b]@,
            forall|q: int| 0 <= q < keys.len() ==> #[trigger] u.contains(keys@[q]@),
            forall|q: int|
                0 <= q < keys.len() ==> (#[trigger] sort_keys@[q]).text@ == keys@[q]@
                    && sort_keys@[q].rank == kind_rank(
                    if has_key(left_entries@, keys@[q]@) {
                        keyed(left_entries@, keys@[q]@).kind
                    } else {
                        keyed(right_entries@, keys@[q]@).kind
                    },
                ),
            forall|k: Seq<char>| #[trigger] lmap@.contains_key(k) <==> has_key(left_entries@, k),
            forall|k: Seq<char>|
                #[trigger] lmap@.contains_key(k) ==> last_with_key(left_entries@, k, lmap@[k] as int),
            forall|k: Seq<char>| #[trigger] rmap@.contains_key(k) <==> has_key(right_entries@, k),
            forall|k: Seq<char>|
                #[trigger] rmap@.contains_key(k) ==> last_with_key(
                    right_entries@,
                    k,
                    rmap@[k] as int,
                ),
            rows.len() == p,
            forall|q: int|
                0 <= q < p ==> row_key(#[trigger] rows@[q]) == keys@[order@[q] as int]@
                    && is_level_row(
                    rows@[q],
                    left_path@,
                    right_path@,
                    left_entries@,
                    right_entries@,
                    cache@,
                    keys@[order@[q] as int]@,
                ) && kind_rank(rows@[q].kind) == sort_keys@[order@[q] as int].rank,
            level_counts(summary, rows@, left_entries@, right_entries@),
            summary.only_left + summary.only_right + summary.type_mismatch + summary.same
                + summary.meta_diff <= p,
    {
        let k = keys[order[p]].as_str();
        let li = match lmap.get(k) {
            Some(i) => Some(*i),
            None => None,
        };
        let ri = match rmap.get(k) {
            Some(i) => Some(*i),
            None => None,
        };
        assert(u.contains(k@));
        proof {
            if let Some(i) = li {
                lemma_keyed(left_entries@, k@, i as int);
            }
            if let Some(i) = ri {
                lemma_keyed(right_entries@, k@, i as int);
            }
        }
        let row = level_row(
            left_path,
            right_path,
            left_entries,
            right_entries,
            li,
            ri,
            cache,
            Ghost(k@),
            &mut summary,
        );
        proof {
            lemma_count_rows_push(rows@, row, DiffKind::OnlyLeft);
            lemma_count_rows_push(rows@, row, DiffKind::OnlyRight);
            lemma_count_rows_push(rows@, row, DiffKind::TypeMismatch);
            lemma_count_rows_push(rows@, row, DiffKind::Same);
            lemma_count_rows_push(rows@, row, DiffKind::MetaDiff);
        }
        rows.push(row);
    }
    proof {
        assert forall|p: int| 0 <= p < rows.len() implies name_union(
            left_entries@,
            right_entries@,
        ).contains(#[trigger] row_key(rows@[p])) && is_level_row(
            rows@[p],
            left_path@,
            right_path@,
            left_entries@,
            right_entries@,
            cache@,
            row_key(rows@[p]),
        ) by {
            assert(row_key(rows@[p]) == keys@[order@[p] as int]@);
        }
        assert forall|k: Seq<char>| #[trigger] name_union(left_entries@, right_entries@).contains(
            k,
        ) implies exists|p: int| 0 <= p < rows.len() && row_key(rows@[p]) == k by {
            if has_key(left_entries@, k) {
                let i = choose|i: int| 0 <= i < left_entries.len() && name_key(left_entries@[i]) == k;
                assert(lkeys@[i]@ == k);
                assert(seen@.contains_key(lkeys@[i]@));
            } else {
                let i = choose|i: int|
                    0 <= i < right_entries.len() && name_key(right_entries@[i]) == k;
                assert(rkeys@[i]@ == k);
                assert(seen@.contains_key(rkeys@[i]@));
            }
            let x = choose|x: int| 0 <= x < keys.len() && keys@[x]@ == k;
            assert(order@.contains(x as usize));
            let p = choose|p: int| 0 <= p < order.len() && order@[p] == x as usize;
            assert(row_key(rows@[p]) == k);
        }
        assert forall|p: int, q: int| 0 <= p < q < rows.len() implies row_before(
            rows@[p],
            rows@[q],
        ) by {
            let a = order@[p] as int;
            let b = order@[q] as int;
            assert(key_before(sort_keys@, a, b));
            lemma_text_lt_irreflexive(keys@[a]@);
            if a < b {
                assert(keys@[a]@ != keys@[b]@);
            } else if b < a {
                assert(keys@[b]@ != keys@[a]@);
            }
        }
    }
    (rows, summary)
}

/// Once a directory pair has been resolved and its result cached, the next
/// comparison of the parent level shows that pair's cached status and size,
/// and the row is not pending, so it calls for no new resolution.
pub proof fn lemma_cached_pair_surfaces(
    lp: Seq<char>,
    rp: Seq<char>,
    left: Seq<BrowseEntry>,
    right: Seq<BrowseEntry>,
    cache: Map<(Seq<char>, Seq<char>), (CompareStatus, u64)>,
    k: Seq<char>,
    status: CompareStatus,
    total_size: u64,
    row: CompareEntry,
)
    requires
        has_key(left, k),
        has_key(right, k),
        keyed(left, k).kind == EntryKind::Dir,
        keyed(right, k).kind == EntryKind::Dir,
        status == CompareStatus::Same || status == CompareStatus::Modified,
        is_level_row(
            row,
            lp,
            rp,
            left,
            right,
            cache.insert(
                (joined(lp, keyed(left, k).name@), joined(rp, keyed(right, k).name@)),
                (status, total_size),
            ),
            k,
        ),
    ensures
        row.status == status,
        row.dir_info == Some(DirResolveInfo { total_size }),
        row.status != CompareStatus::Pending,
{
}

/// After the cache is cleared, a directory found on both sides is pending
/// again.
pub proof fn lemma_cleared_cache_pending(
    lp: Seq<char>,
    rp: Seq<char>,
    left: Seq<BrowseEntry>,
    right: Seq<BrowseEntry>,
    k: Seq<char>,
    row: CompareEntry,
)
    requires
        has_key(left, k),
        has_key(right, k),
        keyed(left, k).kind == EntryKind::Dir,
        keyed(right, k).kind == EntryKind::Dir,
        is_level_row(row, lp, rp, left, right, Map::empty(), k),
    ensures
        row.status == CompareStatus::Pending,
        row.dir_info is None,
{
}

/// A directory found on both sides at one level: its name, and the paths of
/// the two subdirectories.
pub struct PendingDir {
    pub name: String,
    pub left_path: String,
    pub right_path: String,
}

/// `d` stands for key `k`, a directory on both sides.
pub open spec fn is_pending_for(
    d: PendingDir,
    lp: Seq<char>,
    rp: Seq<char>,
    left: Seq<BrowseEntry>,
    right: Seq<BrowseEntry>,
    k: Seq<char>,
) -> bool {
    &&& has_key(left, k)
    &&& has_key(right, k)
    &&& keyed(left, k).kind == EntryKind::Dir
    &&& keyed(right, k).kind == EntryKind::Dir
    &&& d.name@ == keyed(left, k).name@
    &&& d.left_path@ == joined(lp, keyed(left, k).name@)
    &&& d.right_path@ == joined(rp, keyed(right, k).name@)
}

/// The directories found on both sides of one level, once per lowercased
/// name, in the order the left listing first names them.
pub fn pending_dirs(
    left_path: &str,
    right_path: &str,
    left_entries: &Vec<BrowseEntry>,
    right_entries: &Vec<BrowseEntry>,
) -> (r: Vec<PendingDir>)
    ensures
        forall|p: int|
            0 <= p < r.len() ==> is_pending_for(
                #[trigger] r@[p],
                left_path@,
                right_path@,
                left_entries@,
                right_entries@,
                lower_of(r@[p].name@),
            ),
        forall|k: Seq<char>|
            has_key(left_entries@, k) && has_key(right_entries@, k) && keyed(left_entries@, k).kind
                == EntryKind::Dir && #[trigger] keyed(right_entries@, k).kind == EntryKind::Dir
                ==> exists|p: int| 0 <= p < r.len() && lower_of(r@[p].name@) == k,
        forall|p: int, q: int|
            0 <= p < q < r.len() ==> lower_of(r@[p].name@) != lower_of(r@[q].name@),
{
    let lkeys = lowered_names(left_entries);
    let rkeys = lowered_names(right_entries);
    let lmap = index_by_key(left_entries, &lkeys);
    let rmap = index_by_key(right_entries, &rkeys);
    let ghost u = Set::new(|k: Seq<char>| has_key(left_entries@, k));
    let mut keys: Vec<String> = Vec::new();
    let mut seen: StringHashMap<()> = StringHashMap::new();
    proof {
        assert forall|p: int| 0 <= p < lkeys.len() implies #[trigger] u.contains(lkeys@[p]@) by {
            assert(has_key(left_entries@, lkeys@[p]@));
        }
    }
    append_new(&mut keys, &mut seen, &lkeys, Ghost(u));
    let mut r: Vec<PendingDir> = Vec::new();
    let ghost mut src: Seq<int> = Seq::empty();
    let n = keys.len();
    for i in 0..n
        invariant
            n == keys.len(),
            u == Set::new(|k: Seq<char>| has_key(left_entries@, k)),
            forall|a: int, b: int| 0 <= a < b < keys.len() ==> keys@[a]@ != keys@[b]@,
            forall|q: int| 0 <= q < keys.len() ==> #[trigger] u.contains(keys@[q]@),
            forall|k: Seq<char>| #[trigger] lmap@.contains_key(k) <==> has_key(left_entries@, k),
            forall|k: Seq<char>|
                #[trigger] lmap@.contains_key(k) ==> last_with_key(left_entries@, k, lmap@[k] as int),
            forall|k: Seq<char>| #[trigger] rmap@.contains_key(k) <==> has_key(right_entries@, k),
            forall|k: Seq<char>|
                #[trigger] rmap@.contains_key(k) ==> last_with_key(
                    right_entries@,
                    k,
                    rmap@[k] as int,
                ),
            src.len() == r.len(),
            forall|p: int|
                0 <= p < r.len() ==> 0 <= #[trigger] src[p] < i && lower_of(r@[p].name@)
                    == keys@[src[p]]@,
            forall|a: int, b: int| 0 <= a < b < r.len() ==> src[a] < src[b],
            forall|p: int|
                0 <= p < r.len() ==> is_pending_for(
                    #[trigger] r@[p],
                    left_path@,
                    right_path@,
                    left_entries@,
                    right_entries@,
                    lower_of(r@[p].name@),
                ),
            forall|q: int|
                #![trigger keys@[q]]
                0 <= q < i ==> (has_key(right_entries@, keys@[q]@) && keyed(
                    left_entries@,
                    keys@[q]@,
                ).kind == EntryKind::Dir && keyed(right_entries@, keys@[q]@).kind == EntryKind::Dir)
                    ==> exists|p: int| 0 <= p < r.len() && src[p] == q,
    {
        let k = keys[i].as_str();
        assert(u.contains(k@));
        let li = *lmap.get(k).unwrap();
        proof {
            lemma_keyed(left_entries@, k@, li as int);
        }
        let ghost old_r = r@;
        let ghost old_src = src;
        if let Some(ri) = rmap.get(k) {
            let ri = *ri;
            proof {
                lemma_keyed(right_entries@, k@, ri as int);
            }
            let l = &left_entries[li];
            let rt = &right_entries[ri];
            if l.kind == EntryKind::Dir && rt.kind == EntryKind::Dir {
                r.push(PendingDir {
                    name: l.name.clone(),
                    left_path: join_path(left_path, l.name.as_str()),
                    right_path: join_path(right_path, rt.name.as_str()),
                });
                proof {
                    src = src.push(i as int);
                    assert forall|p: int| 0 <= p < r.len() implies is_pending_for(
                        #[trigger] r@[p],
                        left_path@,
                        right_path@,
                        left_entries@,
                        right_entries@,
                        lower_of(r@[p].name@),
                    ) by {
                        if p < old_r.len() {
                            assert(r@[p] == old_r[p]);
                        }
                    }
                    assert forall|q: int|
                        #![trigger keys@[q]]
                        0 <= q < i + 1 && (has_key(right_entries@, keys@[q]@) && keyed(
                            left_entries@,
                            keys@[q]@,
                        ).kind == EntryKind::Dir && keyed(right_entries@, keys@[q]@).kind
                            == EntryKind::Dir) implies exists|p: int|
                        0 <= p < r.len() && src[p] == q by {
                        if q < i {
                            let p = choose|p: int| 0 <= p < old_r.len() && old_src[p] == q;
                            assert(src[p] == q);
                        } else {
                            assert(src[r.len() - 1] == q);
                        }
                    }
                }
            }
        }
    }
    proof {
        assert forall|k: Seq<char>|
            has_key(left_entries@, k) && has_key(right_entries@, k) && keyed(left_entries@, k).kind
                == EntryKind::Dir && #[trigger] keyed(right_entries@, k).kind == EntryKind::Dir
                implies exists|p: int| 0 <= p < r.len() && lower_of(r@[p].name@) == k by {
            let i = choose|i: int| 0 <= i < left_entries.len() && name_key(left_entries@[i]) == k;
            assert(lkeys@[i]@ == k);
            assert(seen@.contains_key(lkeys@[i]@));
            let q = choose|q: int| 0 <= q < keys.len() && keys@[q]@ == k;
            assert(keys@[q]@ == k);
            let p = choose|p: int| 0 <= p < r.len() && src[p] == q;
            assert(lower_of(r@[p].name@) == k);
        }
        assert forall|a: int, b: int| 0 <= a < b < r.len() implies lower_of(r@[a].name@)
            != lower_of(r@[b].name@) by {
            assert(src[a] < src[b]);
        }
    }
    r
}

/// Comparison of one directory level, as returned to a caller.
pub struct CompareDirectoryResult {
    pub entries: Vec<CompareEntry>,
    pub left_path: String,
    pub right_path: String,
    pub summary: CompareSummary,
}

/// The home directory and its listing.
pub struct InitBrowseResult {
    pub home: String,
    pub entries: Vec<BrowseEntry>,
}

} // verus!
