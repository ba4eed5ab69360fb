use vstd::prelude::*;
use vstd::string::StringExecFns;

use crate::text::{final_segment, has_char, joined, last_segment, lemma_last_segment_of_join};

verus! {

/// Whether `glob_match::glob_match` accepts `text` for `pattern`.
pub uninterp spec fn glob_match_of(pattern: Seq<char>, text: Seq<char>) -> bool;

/// Relies on `glob_match::glob_match`, which matches `text` against the glob
/// `pattern`; its answer depends on the two strings alone.
#[verifier::external_body]
fn glob_matches(pattern: &str, text: &str) -> (r: bool)
    ensures
        r == glob_match_of(pattern@, text@),
{
    glob_match::glob_match(pattern, text)
}

/// The default patterns: names of files and folders that operating systems
/// leave behind (metadata sidecars, trash folders, thumbnail caches).
pub open spec fn default_patterns() -> Seq<Seq<char>> {
    seq![
        ".DS_Store"@,
        "._*"@,
        ".Spotlight-V100"@,
        ".Trashes"@,
        ".fseventsd"@,
        ".TemporaryItems"@,
        ".VolumeIcon.icns"@,
        "__MACOSX"@,
        "Thumbs.db"@,
    ]
}

/// The views of a list of strings.
pub open spec fn views_of(v: Seq<String>) -> Seq<Seq<char>> {
    v.map_values(|s: String| s@)
}

/// The pattern list starts with the default patterns.
pub open spec fn has_default_patterns(p: Seq<Seq<char>>) -> bool {
    &&& default_patterns().len() <= p.len()
    &&& p.take(default_patterns().len() as int) == default_patterns()
}

/// Some pattern matches the final segment of `rel_path`, or all of it.
pub open spec fn ignores(patterns: Seq<Seq<char>>, rel_path: Seq<char>) -> bool {
    exists|i: int|
        0 <= i < patterns.len() && (glob_match_of(patterns[i], last_segment(rel_path))
            || glob_match_of(patterns[i], rel_path))
}

/// The default patterns merged with the caller's glob patterns.
pub struct IgnoreRules {
    patterns: Vec<String>,
}

impl View for IgnoreRules {
    type V = Seq<Seq<char>>;

    closed spec fn view(&self) -> Seq<Seq<char>> {
        views_of(self.patterns@)
    }
}

fn default_pattern_list() -> (r: Vec<String>)
    ensures
        views_of(r@) == default_patterns(),
{
    let mut r: Vec<String> = Vec::new();
    r.push(String::from_str(".DS_Store"));
    r.push(String::from_str("._*"));
    r.push(String::from_str(".Spotlight-V100"));
    r.push(String::from_str(".Trashes"));
    r.push(String::from_str(".fseventsd"));
    r.push(String::from_str(".TemporaryItems"));
    r.push(String::from_str(".VolumeIcon.icns"));
    r.push(String::from_str("__MACOSX"));
    r.push(String::from_str("Thumbs.db"));
    assert(views_of(r@) =~= default_patterns());
    r
}

impl IgnoreRules {
    /// The default patterns followed by `user_patterns`.
    pub fn new(user_patterns: &[String]) -> (r: IgnoreRules)
        ensures
            r@ == default_patterns() + views_of(user_patterns@),
    {
        let mut patterns = default_pattern_list();
        let ghost base = patterns@;
        for i in 0..user_patterns.len()
            invariant
                patterns@ == base + user_patterns@.take(i as int),
        {
            patterns.push(user_patterns[i].clone());
            proof {
                assert(user_patterns@.take(i + 1) =~= user_patterns@.take(i as int).push(
                    user_patterns@[i as int],
                ));
            }
        }
        proof {
            assert(user_patterns@.take(user_patterns@.len() as int) =~= user_patterns@);
            assert(views_of(base + user_patterns@) =~= views_of(base) + views_of(user_patterns@));
        }
        IgnoreRules { patterns }
    }

    /// Whether a pattern matches the file name of `rel_path` or the whole
    /// relative path.
    pub fn is_ignored(&self, rel_path: &str) -> (r: bool)
        ensures
            r == ignores(self@, rel_path@),
    {
        let filename = final_segment(rel_path);
        for i in 0..self.patterns.len()
            invariant
                filename@ == last_segment(rel_path@),
                forall|j: int|
                    0 <= j < i ==> !(glob_match_of(self@[j], filename@) || glob_match_of(
                        self@[j],
                        rel_path@,
                    )),
        {
            let p = self.patterns[i].as_str();
            if glob_matches(p, filename) || glob_matches(p, rel_path) {
                assert(self@[i as int] == p@);
                return true;
            }
        }
        false
    }
}

/// A name that one of the default patterns matches is ignored wherever it
/// stands: on its own, and as the last segment of a path at any depth.
pub proof fn lemma_default_match_ignored(
    patterns: Seq<Seq<char>>,
    dir: Seq<char>,
    name: Seq<char>,
    i: int,
)
    requires
        has_default_patterns(patterns),
        0 <= i < default_patterns().len(),
        glob_match_of(default_patterns()[i], name),
        !has_char(name, '/'),
    ensures
        ignores(patterns, name),
        ignores(patterns, joined(dir, name)),
{
    assert(patterns[i] == patterns.take(default_patterns().len() as int)[i]);
    assert(last_segment(name) == name);
    lemma_last_segment_of_join(dir, name);
    assert(glob_match_of(patterns[i], last_segment(joined(dir, name))));
}

} // verus!
