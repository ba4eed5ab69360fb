use vstd::prelude::*;
use vstd::string::StringExecFns;

verus! {

/// What `str::to_lowercase` makes of a character sequence.
pub uninterp spec fn lower_of(s: Seq<char>) -> Seq<char>;

/// Relies on `str::to_lowercase`: the lowercase form of `s`, which depends on
/// its characters alone.
#[verifier::external_body]
pub(crate) fn lowercase(s: &str) -> (r: String)
    ensures
        r@ == lower_of(s@),
{
    s.to_lowercase()
}

/// `a` and `b` agree on their first `n` characters.
pub open spec fn agree_upto(a: Seq<char>, b: Seq<char>, n: int) -> bool {
    forall|k: int| 0 <= k < n ==> a[k] == b[k]
}

/// `a` comes before `b` in lexicographic order, and the first place where they
/// part is `i` (a proper prefix comes first).
pub open spec fn text_lt_at(a: Seq<char>, b: Seq<char>, i: int) -> bool {
    &&& 0 <= i <= a.len()
    &&& i <= b.len()
    &&& agree_upto(a, b, i)
    &&& ((i == a.len() && i < b.len()) || (i < a.len() && i < b.len() && (a[i] as u32) < (
        b[i] as u32)))
}

/// Lexicographic order on character sequences, by code point. It is the order
/// in which Rust compares `String`s.
pub open spec fn text_lt(a: Seq<char>, b: Seq<char>) -> bool {
    exists|i: int| text_lt_at(a, b, i)
}

pub proof fn lemma_text_lt_irreflexive(a: Seq<char>)
    ensures
        !text_lt(a, a),
{
}

pub proof fn lemma_text_lt_asymmetric(a: Seq<char>, b: Seq<char>)
    ensures
        text_lt(a, b) ==> !text_lt(b, a),
{
    if text_lt(a, b) && text_lt(b, a) {
        let i = choose|i: int| text_lt_at(a, b, i);
        let j = choose|j: int| text_lt_at(b, a, j);
        if i < j {
            assert(b[i] == a[i]);
        } else if j < i {
            assert(a[j] == b[j]);
        }
    }
}

pub proof fn lemma_text_lt_transitive(a: Seq<char>, b: Seq<char>, c: Seq<char>)
    requires
        text_lt(a, b),
        text_lt(b, c),
    ensures
        text_lt(a, c),
{
    let i = choose|i: int| text_lt_at(a, b, i);
    let j = choose|j: int| text_lt_at(b, c, j);
    if i < j {
        assert(text_lt_at(a, c, i));
    } else if j < i {
        assert(text_lt_at(a, c, j));
    } else {
        assert(text_lt_at(a, c, i));
    }
}

pub proof fn lemma_text_lt_total(a: Seq<char>, b: Seq<char>)
    ensures
        a == b || text_lt(a, b) || text_lt(b, a),
{
    let n = if a.len() < b.len() {
        a.len() as int
    } else {
        b.len() as int
    };
    let k = first_difference(a, b, n);
    if k == n {
        if a.len() < b.len() {
            assert(text_lt_at(a, b, n));
        } else if b.len() < a.len() {
            assert(text_lt_at(b, a, n));
        } else {
            assert(a =~= b);
        }
    } else if (a[k] as u32) < (b[k] as u32) {
        assert(text_lt_at(a, b, k));
    } else {
        vstd::utf8::char_u32_cast(a[k], a[k] as u32);
        vstd::utf8::char_u32_cast(b[k], b[k] as u32);
        assert(text_lt_at(b, a, k));
    }
}

/// The first place below `n` where `a` and `b` differ, or `n` when they agree
/// up to there.
proof fn first_difference(a: Seq<char>, b: Seq<char>, n: int) -> (k: int)
    requires
        0 <= n <= a.len(),
        n <= b.len(),
    ensures
        0 <= k <= n,
        agree_upto(a, b, k),
        k < n ==> a[k] != b[k],
    decreases n,
{
    if n == 0 {
        0
    } else {
        let k = first_difference(a, b, n - 1);
        if k < n - 1 {
            k
        } else if a[n - 1] != b[n - 1] {
            n - 1
        } else {
            n
        }
    }
}

/// The characters of `s`, in order, as a vector.
pub fn chars_of(s: &str) -> (r: Vec<char>)
    ensures
        r@ == s@,
{
    let mut r: Vec<char> = Vec::new();
    for c in it: s.chars()
        invariant
            r@ == it.seq().take(it.index() as int),
    {
        r.push(c);
    }
    r
}

/// Whether `a` comes before `b` in lexicographic order.
pub fn text_less(a: &Vec<char>, b: &Vec<char>) -> (r: bool)
    ensures
        r == text_lt(a@, b@),
{
    let mut i: usize = 0;
    while i < a.len() && i < b.len()
        invariant
            i <= a.len(),
            i <= b.len(),
            agree_upto(a@, b@, i as int),
        decreases a.len() - i,
    {
        if a[i] != b[i] {
            let lt = (a[i] as u32) < (b[i] as u32);
            proof {
                broadcast use vstd::utf8::char_u32_cast;

                if lt {
                    assert(text_lt_at(a@, b@, i as int));
                } else {
                    assert forall|j: int| !text_lt_at(a@, b@, j) by {
                        if j > i as int && agree_upto(a@, b@, j) {
                            assert(a@[i as int] == b@[i as int]);
                        }
                    }
                }
            }
            return lt;
        }
        i = i + 1;
    }
    let r = i < b.len();
    proof {
        if r {
            assert(text_lt_at(a@, b@, i as int));
        } else {
            assert forall|j: int| !text_lt_at(a@, b@, j) by {}
        }
    }
    r
}

/// `dir` and `name` joined by one `/`.
pub open spec fn joined(dir: Seq<char>, name: Seq<char>) -> Seq<char> {
    dir + seq!['/'] + name
}

/// The path of the child `name` of the directory `dir`.
pub fn join_path(dir: &str, name: &str) -> (r: String)
    ensures
        r@ == joined(dir@, name@),
{
    let sep = "/";
    proof {
        reveal_strlit("/");
    }
    String::from_str(dir).concat(sep).concat(name)
}

/// Whether `s` holds the character `c`.
pub open spec fn has_char(s: Seq<char>, c: char) -> bool {
    exists|i: int| 0 <= i < s.len() && s[i] == c
}

/// The part of `path` after its last `/`; all of it when it has none.
pub open spec fn last_segment(path: Seq<char>) -> Seq<char> {
    if has_char(path, '/') {
        let i = choose|i: int|
            0 <= i < path.len() && path[i] == '/' && !has_char(path.subrange(i + 1, path.len() as int), '/');
        path.subrange(i + 1, path.len() as int)
    } else {
        path
    }
}

/// Relies on `str::rsplit_once`: it splits `s` around the last `/`, or gives
/// `None` when `s` holds no `/`.
#[verifier::external_body]
fn split_at_last_slash(s: &str) -> (r: Option<(&str, &str)>)
    ensures
        match r {
            Some((head, tail)) => s@ == head@ + seq!['/'] + tail@ && !has_char(tail@, '/'),
            None => !has_char(s@, '/'),
        },
{
    s.rsplit_once('/')
}

proof fn lemma_last_segment_of_split(s: Seq<char>, head: Seq<char>, tail: Seq<char>)
    requires
        s == head + seq!['/'] + tail,
        !has_char(tail, '/'),
    ensures
        last_segment(s) == tail,
{
    let h = head.len() as int;
    assert(s[h] == '/');
    assert(s.subrange(h + 1, s.len() as int) =~= tail);
    assert(has_char(s, '/'));
    let i = choose|i: int|
        0 <= i < s.len() && s[i] == '/' && !has_char(s.subrange(i + 1, s.len() as int), '/');
    if i < h {
        assert(s.subrange(i + 1, s.len() as int)[h - i - 1] == '/');
    } else if i > h {
        assert(tail[i - h - 1] == '/');
    }
}

/// The last segment of a joined path is the name that was joined on.
pub proof fn lemma_last_segment_of_join(dir: Seq<char>, name: Seq<char>)
    requires
        !has_char(name, '/'),
    ensures
        last_segment(joined(dir, name)) == name,
{
    lemma_last_segment_of_split(joined(dir, name), dir, name);
}

/// The final `/`-separated segment of `path`: the file name of a relative path.
pub fn final_segment(path: &str) -> (r: &str)
    ensures
        r@ == last_segment(path@),
{
    match split_at_last_slash(path) {
        Some((head, tail)) => {
            proof {
                lemma_last_segment_of_split(path@, head@, tail@);
            }
            tail
        },
        None => path,
    }
}

} // verus!
