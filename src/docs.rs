use vstd::prelude::*;

use vstd::string::StrSliceExecFns;

use crate::eval::string_views;

verus! {

/// Whether `s` ends with `suffix`.
pub open spec fn is_suffix(suffix: Seq<char>, s: Seq<char>) -> bool {
    suffix.len() <= s.len() && s.subrange(s.len() - suffix.len(), s.len() as int) == suffix
}

/// Whether `path` names a markdown file.
pub open spec fn is_md(path: Seq<char>) -> bool {
    is_suffix(".md"@, path)
}

/// The paths among the first `n` that name markdown files (`md` true) or
/// that do not (`md` false), in order.
pub open spec fn paths_upto(paths: Seq<Seq<char>>, n: int, md: bool) -> Seq<Seq<char>>
    decreases n,
{
    if n <= 0 || n > paths.len() {
        Seq::empty()
    } else if is_md(paths[n - 1]) == md {
        paths_upto(paths, n - 1, md).push(paths[n - 1])
    } else {
        paths_upto(paths, n - 1, md)
    }
}

/// Whether `s` ends with `suffix`.
fn ends_with(s: &str, suffix: &str) -> (r: bool)
    ensures
        r == is_suffix(suffix@, s@),
{
    let n = s.unicode_len();
    let m = suffix.unicode_len();
    if m > n {
        return false;
    }
    let start = n - m;
    let mut i: usize = 0;
    while i < m
        invariant
            n == s@.len(),
            m == suffix@.len(),
            start == n - m,
            0 <= i <= m,
            forall|k: int| 0 <= k < i ==> s@[start + k] == suffix@[k],
        decreases m - i,
    {
        if s.get_char(start + i) != suffix.get_char(i) {
            assert(s@.subrange(start as int, n as int)[i as int] != suffix@[i as int]);
            return false;
        }
        i = i + 1;
    }
    assert(s@.subrange(start as int, n as int) =~= suffix@);
    true
}

/// Splits `paths` into those that end in `.md` and the others, keeping order.
pub fn split_md_paths(paths: &Vec<String>) -> (r: (Vec<String>, Vec<String>))
    ensures
        string_views(r.0@) == paths_upto(string_views(paths@), paths@.len() as int, true),
        string_views(r.1@) == paths_upto(string_views(paths@), paths@.len() as int, false),
{
    let ghost views = string_views(paths@);
    let n = paths.len();
    let mut md: Vec<String> = Vec::new();
    let mut other: Vec<String> = Vec::new();
    let mut i: usize = 0;
    while i < n
        invariant
            n == paths@.len(),
            views == string_views(paths@),
            0 <= i <= n,
            string_views(md@) == paths_upto(views, i as int, true),
            string_views(other@) == paths_upto(views, i as int, false),
        decreases n - i,
    {
        proof {
            reveal_strlit(".md");
        }
        assert(views[i as int] == paths@[i as int]@);
        let ghost md_before = md@;
        let ghost other_before = other@;
        if ends_with(paths[i].as_str(), ".md") {
            md.push(paths[i].clone());
            assert(string_views(md@) =~= string_views(md_before).push(views[i as int]));
        } else {
            other.push(paths[i].clone());
            assert(string_views(other@) =~= string_views(other_before).push(views[i as int]));
        }
        i = i + 1;
    }
    (md, other)
}

/// The paths among the first `n` whose flag equals `want`, in order.
pub open spec fn flagged_upto(paths: Seq<Seq<char>>, flags: Seq<bool>, n: int, want: bool) -> Seq<
    Seq<char>,
>
    decreases n,
{
    if n <= 0 || n > paths.len() || n > flags.len() {
        Seq::empty()
    } else if flags[n - 1] == want {
        flagged_upto(paths, flags, n - 1, want).push(paths[n - 1])
    } else {
        flagged_upto(paths, flags, n - 1, want)
    }
}

/// Splits `paths` into those whose file is current in version control (its
/// flag in `current` is set) and the others, keeping order.
pub fn split_current_paths(paths: &Vec<String>, current: &Vec<bool>) -> (r: (
    Vec<String>,
    Vec<String>,
))
    requires
        paths@.len() == current@.len(),
    ensures
        string_views(r.0@) == flagged_upto(string_views(paths@), current@, paths@.len() as int, true),
        string_views(r.1@) == flagged_upto(string_views(paths@), current@, paths@.len() as int, false),
{
    let ghost views = string_views(paths@);
    let n = paths.len();
    let mut yes: Vec<String> = Vec::new();
    let mut no: Vec<String> = Vec::new();
    let mut i: usize = 0;
    while i < n
        invariant
            n == paths@.len(),
            n == current@.len(),
            views == string_views(paths@),
            0 <= i <= n,
            string_views(yes@) == flagged_upto(views, current@, i as int, true),
            string_views(no@) == flagged_upto(views, current@, i as int, false),
        decreases n - i,
    {
        assert(views[i as int] == paths@[i as int]@);
        let ghost yes_before = yes@;
        let ghost no_before = no@;
        if current[i] {
            yes.push(paths[i].clone());
            assert(string_views(yes@) =~= string_views(yes_before).push(views[i as int]));
        } else {
            no.push(paths[i].clone());
            assert(string_views(no@) =~= string_views(no_before).push(views[i as int]));
        }
        i = i + 1;
    }
    (yes, no)
}

} // verus!
