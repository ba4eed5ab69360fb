use vstd::hash_map::StringHashMap;
use vstd::prelude::*;
use vstd::string::StringExecFns;

use crate::ignore::{
    default_patterns, glob_match_of, has_default_patterns, ignores, lemma_default_match_ignored,
    IgnoreRules,
};
use crate::model::{EntryKind, EntryMeta};
use crate::text::{has_char, joined, last_segment, lower_of, lowercase};

verus! {

/// A failure to read one entry; it does not stop a scan.
#[derive(Debug, Clone)]
pub struct ScanError {
    pub path: String,
    pub message: String,
}

/// Size and modification time of a walked entry.
#[derive(Debug, Clone, Copy, PartialEq, Eq, Structural)]
pub struct WalkMeta {
    pub size: u64,
    /// Epoch milliseconds.
    pub modified: Option<u64>,
}

/// One entry as a directory walk reports it.
#[derive(Debug)]
pub struct WalkEntry {
    /// Path relative to the scan root, with `/` separators; empty for the
    /// root itself.
    pub rel_path: String,
    pub is_dir: bool,
    pub is_symlink: bool,
    /// The metadata, or why it could not be read.
    pub metadata: Result<WalkMeta, String>,
    /// Where a symlink points, when it could be read.
    pub symlink_target: Option<String>,
}

/// The kind of a walked entry; a symlink is a symlink whatever it points to.
pub open spec fn walk_kind(is_dir: bool, is_symlink: bool) -> EntryKind {
    if is_symlink {
        EntryKind::Symlink
    } else if is_dir {
        EntryKind::Dir
    } else {
        EntryKind::File
    }
}

/// The metadata recorded for a walked entry: zero size and no time when the
/// metadata could not be read, and a link target for symlinks only.
pub open spec fn meta_of(e: WalkEntry) -> EntryMeta {
    let kind = walk_kind(e.is_dir, e.is_symlink);
    EntryMeta {
        kind,
        size: match e.metadata {
            Ok(m) => m.size,
            Err(_) => 0,
        },
        modified: match e.metadata {
            Ok(m) => m.modified,
            Err(_) => None,
        },
        symlink_target: if kind == EntryKind::Symlink {
            e.symlink_target
        } else {
            None
        },
    }
}

/// A walked path that a scan keeps: not the root, and not ignored.
pub open spec fn is_recorded(patterns: Seq<Seq<char>>, rel_path: Seq<char>) -> bool {
    rel_path.len() > 0 && !ignores(patterns, rel_path)
}

/// What a scan holds: metadata and original-case path by lowercased path, and
/// the lowercased paths in the order they were first seen.
pub struct ScanView {
    pub entries: Map<Seq<char>, EntryMeta>,
    pub originals: Map<Seq<char>, Seq<char>>,
    pub keys: Seq<Seq<char>>,
    /// Entries recorded, a path seen twice counted twice.
    pub count: usize,
    pub errors: Seq<ScanError>,
}

/// The keys are distinct and are exactly the paths of both maps, and each
/// original path lowercases to its key.
pub open spec fn scan_view_wf(v: ScanView) -> bool {
    &&& forall|i: int, j: int| 0 <= i < j < v.keys.len() ==> v.keys[i] != v.keys[j]
    &&& forall|k: Seq<char>| #[trigger] v.entries.contains_key(k) <==> v.keys.contains(k)
    &&& v.originals.dom() == v.entries.dom()
    &&& forall|k: Seq<char>| #[trigger] v.originals.contains_key(k) ==> lower_of(v.originals[k]) == k
}

/// No path the scan holds is one the patterns ignore.
pub open spec fn holds_no_ignored(v: ScanView, patterns: Seq<Seq<char>>) -> bool {
    forall|k: Seq<char>| #[trigger] v.originals.contains_key(k) ==> !ignores(patterns, v.originals[k])
}

/// The paths of both scans together.
pub open spec fn key_union(left: ScanView, right: ScanView) -> Set<Seq<char>> {
    left.entries.dom() + right.entries.dom()
}

/// Result of scanning one root.
pub struct ScanResult {
    entries: StringHashMap<EntryMeta>,
    originals: StringHashMap<String>,
    keys: Vec<String>,
    count: usize,
    errors: Vec<ScanError>,
}

impl View for ScanResult {
    type V = ScanView;

    closed spec fn view(&self) -> ScanView {
        ScanView {
            entries: self.entries@,
            originals: self.originals@.map_values(|s: String| s@),
            keys: self.keys@.map_values(|s: String| s@),
            count: self.count,
            errors: self.errors@,
        }
    }
}

impl ScanResult {
    pub open spec fn wf(&self) -> bool {
        scan_view_wf(self@)
    }

    /// A scan that has recorded nothing.
    pub fn new() -> (r: ScanResult)
        ensures
            r.wf(),
            forall|patterns: Seq<Seq<char>>| holds_no_ignored(#[trigger] r@, patterns),
            r@.entries.is_empty(),
            r@.keys.len() == 0,
            r@.count == 0,
            r@.errors.len() == 0,
    {
        let r = ScanResult {
            entries: StringHashMap::new(),
            originals: StringHashMap::new(),
            keys: Vec::new(),
            count: 0,
            errors: Vec::new(),
        };
        assert(r@.originals =~= Map::empty());
        assert(r@.originals.dom() =~= Set::empty());
        assert(r@.keys =~= Seq::empty());
        r
    }

    /// Entries recorded so far, a path seen twice counted twice.
    pub fn count(&self) -> (r: usize)
        ensures
            r == self@.count,
    {
        self.count
    }

    /// Per-entry failures met so far.
    pub fn errors(&self) -> (r: &Vec<ScanError>)
        ensures
            r@ == self@.errors,
    {
        &self.errors
    }

    /// Number of distinct lowercased paths.
    pub fn len(&self) -> (r: usize)
        ensures
            r == self@.keys.len(),
    {
        self.keys.len()
    }

    pub fn is_empty(&self) -> (r: bool)
        ensures
            r == (self@.keys.len() == 0),
    {
        self.keys.len() == 0
    }

    /// The lowercased paths, in the order first seen.
    pub fn keys(&self) -> (r: &Vec<String>)
        ensures
            r@.map_values(|s: String| s@) == self@.keys,
    {
        &self.keys
    }

    /// The `i`-th lowercased path, in the order first seen.
    pub fn key_at(&self, i: usize) -> (r: &String)
        requires
            i < self@.keys.len(),
        ensures
            r@ == self@.keys[i as int],
    {
        &self.keys[i]
    }

    pub fn contains_key(&self, key: &str) -> (r: bool)
        ensures
            r == self@.entries.contains_key(key@),
    {
        self.entries.contains_key(key)
    }

    /// The metadata recorded under the lowercased path `key`.
    pub fn get(&self, key: &str) -> (r: Option<&EntryMeta>)
        ensures
            match r {
                Some(m) => self@.entries.contains_key(key@) && *m == self@.entries[key@],
                None => !self@.entries.contains_key(key@),
            },
    {
        self.entries.get(key)
    }

    /// The original-case path recorded under the lowercased path `key`.
    pub fn original(&self, key: &str) -> (r: Option<&String>)
        ensures
            match r {
                Some(p) => self@.originals.contains_key(key@) && p@ == self@.originals[key@],
                None => !self@.originals.contains_key(key@),
            },
    {
        self.originals.get(key)
    }

    /// Records one walked entry. The root itself and ignored paths leave the
    /// scan as it was; any other entry is stored under its lowercased path,
    /// over an earlier entry with the same lowercased path. Returns whether a
    /// progress notification is due (every thousandth recorded entry).
    pub fn record(&mut self, rules: &IgnoreRules, entry: WalkEntry) -> (progress_due: bool)
        requires
            old(self).wf(),
            old(self)@.count < usize::MAX,
        ensures
            final(self).wf(),
            holds_no_ignored(old(self)@, rules@) ==> holds_no_ignored(final(self)@, rules@),
            is_recorded(rules@, entry.rel_path@) ==> {
                let key = lower_of(entry.rel_path@);
                &&& final(self)@.entries == old(self)@.entries.insert(key, meta_of(entry))
                &&& final(self)@.originals == old(self)@.originals.insert(key, entry.rel_path@)
                &&& final(self)@.keys == if old(self)@.entries.contains_key(key) {
                    old(self)@.keys
                } else {
                    old(self)@.keys.push(key)
                }
                &&& final(self)@.count == old(self)@.count + 1
                &&& final(self)@.errors == match entry.metadata {
                    Ok(_) => old(self)@.errors,
                    Err(m) => old(self)@.errors.push(ScanError { path: entry.rel_path, message: m }),
                }
                &&& progress_due == (final(self)@.count % 1000 == 0)
            },
            !is_recorded(rules@, entry.rel_path@) ==> {
                &&& final(self)@ == old(self)@
                &&& !progress_due
            },
    {
        if entry.rel_path.as_str().is_empty() || rules.is_ignored(entry.rel_path.as_str()) {
            return false;
        }
        let ghost e = entry;
        let WalkEntry { rel_path, is_dir, is_symlink, metadata, symlink_target } = entry;
        let kind = if is_symlink {
            EntryKind::Symlink
        } else if is_dir {
            EntryKind::Dir
        } else {
            EntryKind::File
        };
        let (size, modified) = match metadata {
            Ok(m) => (m.size, m.modified),
            Err(message) => {
                self.errors.push(ScanError { path: rel_path.clone(), message });
                (0, None)
            },
        };
        let symlink_target = if is_symlink {
            symlink_target
        } else {
            None
        };
        let meta = EntryMeta { kind, size, modified, symlink_target };
        assert(meta == meta_of(e));
        let key = lowercase(rel_path.as_str());
        let ghost old_view = self@;
        if !self.entries.contains_key(key.as_str()) {
            self.keys.push(key.clone());
        }
        self.entries.insert(key.clone(), meta);
        self.originals.insert(key, rel_path);
        self.count = self.count + 1;
        proof {
            let k = lower_of(e.rel_path@);
            assert(self@.originals =~= old_view.originals.insert(k, e.rel_path@));
            if old_view.entries.contains_key(k) {
                assert(self@.keys =~= old_view.keys);
            } else {
                assert(self@.keys =~= old_view.keys.push(k));
                assert forall|i: int, j: int|
                    0 <= i < j < self@.keys.len() implies self@.keys[i] != self@.keys[j] by {
                    if j == self@.keys.len() - 1 {
                        assert(old_view.keys.contains(old_view.keys[i]));
                    }
                }
            }
            assert forall|q: Seq<char>| #[trigger]
                self@.entries.contains_key(q) <==> self@.keys.contains(q) by {
                if q != k && self@.keys.contains(q) {
                    let i = choose|i: int| 0 <= i < self@.keys.len() && self@.keys[i] == q;
                    assert(old_view.keys[i] == q);
                }
                if q != k && old_view.keys.contains(q) {
                    let i = choose|i: int| 0 <= i < old_view.keys.len() && old_view.keys[i] == q;
                    assert(self@.keys[i] == q);
                }
                if q == k && !old_view.entries.contains_key(k) {
                    assert(self@.keys[self@.keys.len() - 1] == k);
                }
            }
            assert(self@.originals.dom() =~= self@.entries.dom());
        }
        self.count % 1000 == 0
    }

    /// Records a failure of the walk itself, whose path is not known.
    pub fn record_walk_error(&mut self, message: String)
        ensures
            final(self)@.entries == old(self)@.entries,
            final(self)@.originals == old(self)@.originals,
            final(self)@.keys == old(self)@.keys,
            final(self)@.count == old(self)@.count,
            final(self)@.errors.len() == old(self)@.errors.len() + 1,
            final(self)@.errors.take(old(self)@.errors.len() as int) == old(self)@.errors,
            final(self)@.errors.last().path@ == "unknown"@,
            final(self)@.errors.last().message == message,
    {
        self.errors.push(ScanError { path: String::from_str("unknown"), message });
        assert(self.errors@.take(old(self).errors@.len() as int) =~= old(self).errors@);
    }
}

/// A walked entry whose name one of the default patterns matches is never
/// recorded, whether it sits at the root or at any depth below it.
pub proof fn lemma_default_noise_not_recorded(
    patterns: Seq<Seq<char>>,
    dir: Seq<char>,
    name: Seq<char>,
    i: int,
)
    requires
        has_default_patterns(patterns),
        0 <= i < default_patterns().len(),
        glob_match_of(default_patterns()[i], name),
        !has_char(name, '/'),
    ensures
        !is_recorded(patterns, name),
        !is_recorded(patterns, joined(dir, name)),
{
    lemma_default_match_ignored(patterns, dir, name, i);
}

/// A scan recorded from empty with rules that hold the default patterns
/// never holds a path whose last segment a default pattern matches, at any
/// depth.
pub proof fn lemma_noise_free_scan(
    v: ScanView,
    patterns: Seq<Seq<char>>,
    k: Seq<char>,
    i: int,
)
    requires
        holds_no_ignored(v, patterns),
        has_default_patterns(patterns),
        0 <= i < default_patterns().len(),
        v.originals.contains_key(k),
    ensures
        !glob_match_of(default_patterns()[i], last_segment(v.originals[k])),
{
    assert(patterns[i] == patterns.take(default_patterns().len() as int)[i]);
    if glob_match_of(default_patterns()[i], last_segment(v.originals[k])) {
        assert(ignores(patterns, v.originals[k]));
    }
}

} // verus!
