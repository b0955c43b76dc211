//! Paths are kept as plain strings; this module gives the few operations the
//! engine needs: joining with the separator, taking a path's parent, testing
//! absoluteness, and extracting a final file name.

use vstd::prelude::*;
use vstd::string::StrSliceExecFns;
use vstd::string::StringExecFns;

verus! {

/// The characters of `a`, a separator, then the characters of `b`.
pub open spec fn spec_join(a: Seq<char>, b: Seq<char>) -> Seq<char> {
    a + seq!['/'] + b
}

/// Index of the last separator in `s`, or -1 when `s` holds none.
pub open spec fn last_sep(s: Seq<char>) -> int
    decreases s.len(),
{
    if s.len() == 0 {
        -1
    } else if s[s.len() - 1] == '/' {
        s.len() - 1
    } else {
        last_sep(s.drop_last())
    }
}

/// The parent of a path: everything before the last separator.  The empty
/// path and the bare root have no parent; a relative path with no separator
/// has the empty parent; a path whose last separator is the leading one has
/// the root as parent.
pub open spec fn spec_parent(s: Seq<char>) -> Option<Seq<char>> {
    let i = last_sep(s);
    if i == -1 {
        if s.len() == 0 {
            None
        } else {
            Some(Seq::empty())
        }
    } else if i == 0 {
        if s.len() == 1 {
            None
        } else {
            Some(seq!['/'])
        }
    } else {
        Some(s.take(i))
    }
}

/// A path is absolute when it starts with the separator.
pub open spec fn spec_is_absolute(s: Seq<char>) -> bool {
    s.len() > 0 && s[0] == '/'
}

/// The text after the last separator, or nothing when that text is empty or
/// one of the relative components `.` and `..`.
pub open spec fn spec_file_name(s: Seq<char>) -> Option<Seq<char>> {
    let tail = s.skip(last_sep(s) + 1);
    if tail.len() == 0 || tail == seq!['.'] || tail == seq!['.', '.'] {
        None
    } else {
        Some(tail)
    }
}

/// `last_sep` is exactly the largest separator position.
proof fn lemma_last_sep_at(s: Seq<char>, i: int)
    requires
        0 <= i < s.len(),
        s[i] == '/',
        forall|j: int| i < j < s.len() ==> s[j] != '/',
    ensures
        last_sep(s) == i,
    decreases s.len(),
{
    if s.len() - 1 == i {
    } else {
        lemma_last_sep_at(s.drop_last(), i);
    }
}

/// `last_sep` is -1 or a position.
proof fn lemma_last_sep_bounds(s: Seq<char>)
    ensures
        -1 <= last_sep(s) < s.len(),
    decreases s.len(),
{
    if s.len() > 0 && s[s.len() - 1] != '/' {
        lemma_last_sep_bounds(s.drop_last());
    }
}

/// A parent is strictly shorter than its path.
pub proof fn lemma_spec_parent_shorter(s: Seq<char>)
    ensures
        spec_parent(s) matches Some(p) ==> p.len() < s.len(),
{
    lemma_last_sep_bounds(s);
}

/// When `s` holds no separator, `last_sep` is -1.
proof fn lemma_last_sep_none(s: Seq<char>)
    requires
        forall|j: int| 0 <= j < s.len() ==> s[j] != '/',
    ensures
        last_sep(s) == -1,
    decreases s.len(),
{
    if s.len() > 0 {
        lemma_last_sep_none(s.drop_last());
    }
}

/// Joins two paths with a single separator.
pub fn join_path(a: &String, b: &String) -> (r: String)
    ensures
        r@ == spec_join(a@, b@),
{
    proof {
        reveal_strlit("/");
    }
    let mut r = a.clone();
    r.append("/");
    r.append(b.as_str());
    proof {
        assert(r@ =~= spec_join(a@, b@));
    }
    r
}

/// Position of the last separator of `s`, if any.
fn find_last_sep(s: &str) -> (r: Option<usize>)
    ensures
        match r {
            Some(i) => i == last_sep(s@) && i < s@.len(),
            None => last_sep(s@) == -1,
        },
{
    let n = s.unicode_len();
    let mut i = n;
    while i > 0
        invariant
            i <= n,
            n == s@.len(),
            forall|j: int| i <= j < s@.len() ==> s@[j] != '/',
        decreases i,
    {
        i = i - 1;
        if s.get_char(i) == '/' {
            proof {
                lemma_last_sep_at(s@, i as int);
            }
            return Some(i);
        }
    }
    proof {
        lemma_last_sep_none(s@);
    }
    None
}

/// The parent of `path`, as `spec_parent` describes it.
pub fn parent_of(path: &String) -> (r: Option<String>)
    ensures
        match r {
            Some(p) => spec_parent(path@) == Some(p@),
            None => spec_parent(path@) is None,
        },
{
    let n = path.as_str().unicode_len();
    match find_last_sep(path.as_str()) {
        None => {
            if n == 0 {
                None
            } else {
                Some(String::new())
            }
        },
        Some(i) => {
            if i == 0 {
                if n == 1 {
                    None
                } else {
                    proof {
                        reveal_strlit("/");
                    }
                    let r = String::from_str("/");
                    proof {
                        assert(r@ =~= seq!['/']);
                    }
                    Some(r)
                }
            } else {
                Some(String::from_str(path.as_str().substring_char(0, i)))
            }
        },
    }
}

/// Whether `path` is absolute.
pub fn is_absolute(path: &String) -> (r: bool)
    ensures
        r == spec_is_absolute(path@),
{
    if path.as_str().unicode_len() == 0 {
        false
    } else {
        path.as_str().get_char(0) == '/'
    }
}

/// Whether `path` ends with the separator.
pub fn ends_with_sep(path: &String) -> (r: bool)
    ensures
        r == (path@.len() > 0 && path@[path@.len() - 1] == '/'),
{
    let n = path.as_str().unicode_len();
    if n == 0 {
        false
    } else {
        path.as_str().get_char(n - 1) == '/'
    }
}

/// The final file name of `path`, as `spec_file_name` describes it.
pub fn file_name_of(path: &String) -> (r: Option<String>)
    ensures
        match r {
            Some(p) => spec_file_name(path@) == Some(p@),
            None => spec_file_name(path@) is None,
        },
{
    let n = path.as_str().unicode_len();
    let start: usize = match find_last_sep(path.as_str()) {
        None => 0,
        Some(i) => i + 1,
    };
    let tail = path.as_str().substring_char(start, n);
    let len = n - start;
    proof {
        reveal_strlit(".");
        reveal_strlit("..");
        assert(tail@ =~= path@.skip(last_sep(path@) + 1));
    }
    if len == 0 {
        None
    } else if len == 1 && tail.get_char(0) == '.' {
        proof {
            assert(tail@ =~= seq!['.']);
        }
        None
    } else if len == 2 && tail.get_char(0) == '.' && tail.get_char(1) == '.' {
        proof {
            assert(tail@ =~= seq!['.', '.']);
        }
        None
    } else {
        proof {
            assert(tail@ != seq!['.'] && tail@ != seq!['.', '.']);
        }
        Some(String::from_str(tail))
    }
}

} // verus!
