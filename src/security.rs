use vstd::prelude::*;
use vstd::string::StringExecFns;

use crate::text::chars_of;

verus! {

/// Why a path was refused.
#[derive(Debug, Clone)]
pub enum SecurityError {
    /// The target does not lie at or below the root.
    EscapedRoot { root: String, target: String },
    /// A relative path climbs with a `..` component.
    TraversalAttempt { path: String },
    /// A path could not be resolved.
    IoError { path: String, message: String },
}

/// A `/`-separated component `..` starts at position `i` of `s`.
pub open spec fn parent_component_at(s: Seq<char>, i: int) -> bool {
    &&& 0 <= i
    &&& i + 2 <= s.len()
    &&& s[i] == '.'
    &&& s[i + 1] == '.'
    &&& (i == 0 || s[i - 1] == '/')
    &&& (i + 2 == s.len() || s[i + 2] == '/')
}

/// `s` has a `/`-separated component that is exactly `..`.
pub open spec fn has_parent_component(s: Seq<char>) -> bool {
    exists|i: int| parent_component_at(s, i)
}

/// Refuses a relative path with a `..` component.
pub fn check_relative_path(rel_path: &str) -> (r: Result<(), SecurityError>)
    ensures
        match r {
            Ok(()) => !has_parent_component(rel_path@),
            Err(e) => has_parent_component(rel_path@) && (e matches SecurityError::TraversalAttempt {
                path,
            } && path@ == rel_path@),
        },
{
    let cs = chars_of(rel_path);
    let n = cs.len();
    let mut i: usize = 0;
    while n >= 2 && i <= n - 2
        invariant
            n == cs.len(),
            i <= n,
            cs@ == rel_path@,
            forall|j: int| 0 <= j < i ==> !parent_component_at(rel_path@, j),
        decreases n - i,
    {
        if cs[i] == '.' && cs[i + 1] == '.' && (i == 0 || cs[i - 1] == '/') && (i + 2 == n
            || cs[i + 2] == '/') {
            assert(parent_component_at(rel_path@, i as int));
            return Err(SecurityError::TraversalAttempt { path: String::from_str(rel_path) });
        }
        i = i + 1;
    }
    Ok(())
}

/// `target` lies at or below `root`: `root` is a prefix of it that ends at
/// a `/` boundary. Both are canonical paths (absolute, with no `.` or `..`
/// component and no repeated `/`).
pub open spec fn is_within(root: Seq<char>, target: Seq<char>) -> bool {
    &&& root.len() <= target.len()
    &&& target.subrange(0, root.len() as int) == root
    &&& (target.len() == root.len() || target[root.len() as int] == '/' || (root.len() > 0
        && root.last() == '/'))
}

/// Accepts `canonical_target` when it lies at or below `canonical_root`,
/// and returns it; refuses it otherwise.
pub fn validate_confinement(canonical_root: &str, canonical_target: &str) -> (r: Result<
    String,
    SecurityError,
>)
    ensures
        match r {
            Ok(t) => is_within(canonical_root@, canonical_target@) && t@ == canonical_target@,
            Err(e) => !is_within(canonical_root@, canonical_target@) && (e matches SecurityError::EscapedRoot {
                root,
                target,
            } && root@ == canonical_root@ && target@ == canonical_target@),
        },
{
    let root = chars_of(canonical_root);
    let target = chars_of(canonical_target);
    let m = root.len();
    let mut within = m <= target.len();
    if within {
        let mut i: usize = 0;
        while i < m && root[i] == target[i]
            invariant
                m == root.len(),
                m <= target.len(),
                i <= m,
                forall|j: int| 0 <= j < i ==> root@[j] == target@[j],
            decreases m - i,
        {
            i = i + 1;
        }
        if i < m {
            within = false;
            proof {
                assert(target@.subrange(0, m as int)[i as int] != root@[i as int]);
            }
        } else {
            assert(target@.subrange(0, m as int) =~= root@);
            within = m == target.len() || target[m] == '/' || (m > 0 && root[m - 1] == '/');
        }
    }
    if within {
        Ok(String::from_str(canonical_target))
    } else {
        Err(
            SecurityError::EscapedRoot {
                root: String::from_str(canonical_root),
                target: String::from_str(canonical_target),
            },
        )
    }
}

} // verus!
