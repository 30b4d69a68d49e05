//! Paths as text: the name of a file relative to the tracked root, the
//! parent of a directory, and the search for the root from a directory
//! inside it.
//!
//! A path is a sequence of characters in which `/` separates the names.
//! Separators at the end of a path are ignored.

use vstd::prelude::*;
use crate::text::{matches_at, push_range, starts_with_text, to_chars};

verus! {

/// `s` without the separators at its start.
pub open spec fn skip_separators(s: Seq<char>) -> Seq<char>
    decreases s.len(),
{
    if s.len() > 0 && s[0] == '/' {
        skip_separators(s.skip(1))
    } else {
        s
    }
}

/// `s` without the separators at its end.
pub open spec fn trim_separators(s: Seq<char>) -> Seq<char>
    decreases s.len(),
{
    if s.len() > 0 && s.last() == '/' {
        trim_separators(s.drop_last())
    } else {
        s
    }
}

/// The name of `path` relative to the directory `base`: what follows
/// `base` and the separators behind it. A path that does not lie under
/// `base` is returned as it is, and so is every path where `base` is
/// empty.
pub open spec fn relative_to(base: Seq<char>, path: Seq<char>) -> Seq<char> {
    if base.len() == 0 || !starts_with_text(path, base) {
        path
    } else {
        let rest = path.skip(base.len() as int);
        if rest.len() == 0 || base.last() == '/' || rest[0] == '/' {
            skip_separators(rest)
        } else {
            path
        }
    }
}

/// The name of `path` relative to the directory `base`.
pub fn relative_path(base: &str, path: &str) -> (r: String)
    ensures
        r@ == relative_to(base@, path@),
{
    let b = to_chars(base);
    let p = to_chars(path);
    if b.len() == 0 || b.len() > p.len() || !matches_at(&p, &b, 0) {
        return path.to_owned();
    }
    let mut from: usize = b.len();
    if !(from == p.len() || b[b.len() - 1] == '/' || p[from] == '/') {
        return path.to_owned();
    }
    let ghost rest = path@.skip(b.len() as int);
    assert(p@.skip(from as int) == rest);
    while from < p.len() && p[from] == '/'
        invariant
            b.len() <= from <= p.len(),
            p@ == path@,
            rest == path@.skip(b.len() as int),
            skip_separators(rest) == skip_separators(p@.skip(from as int)),
        decreases p.len() - from,
    {
        assert(p@.skip(from as int).skip(1) == p@.skip(from + 1));
        from += 1;
    }
    let mut out = String::new();
    push_range(&mut out, &p, from, p.len());
    assert(p@.subrange(from as int, p.len() as int) == p@.skip(from as int));
    out
}

/// The place of the last separator in `s`, or `-1` where it has none.
pub open spec fn last_separator(s: Seq<char>) -> int
    decreases s.len(),
{
    if s.len() == 0 {
        -1
    } else if s.last() == '/' {
        s.len() - 1
    } else {
        last_separator(s.drop_last())
    }
}

/// The directory that holds `path`. A single name lies in the empty path,
/// a name directly under the root lies in `/`, and neither the empty path
/// nor the root lies anywhere.
pub open spec fn parent(path: Seq<char>) -> Option<Seq<char>> {
    let name = trim_separators(path);
    if name.len() == 0 {
        None
    } else {
        let k = last_separator(name);
        if k < 0 {
            Some(Seq::empty())
        } else {
            let dir = trim_separators(name.take(k));
            if dir.len() == 0 {
                Some(seq!['/'])
            } else {
                Some(dir)
            }
        }
    }
}

/// `path` after going up `n` times, where it can go up that often.
pub open spec fn nth_parent(path: Seq<char>, n: nat) -> Option<Seq<char>>
    decreases n,
{
    if n == 0 {
        Some(path)
    } else {
        match nth_parent(path, (n - 1) as nat) {
            Some(p) => parent(p),
            None => None,
        }
    }
}

/// Whether `dir` is `path` or lies above it.
pub open spec fn is_ancestor(dir: Seq<char>, path: Seq<char>) -> bool {
    exists|n: nat| nth_parent(path, n) == Some(dir)
}

proof fn lemma_trim(s: Seq<char>, end: int)
    requires
        0 <= end <= s.len(),
        forall|i: int| end <= i < s.len() ==> s[i] == '/',
        end > 0 ==> s[end - 1] != '/',
    ensures
        trim_separators(s) == s.take(end),
    decreases s.len() - end,
{
    if end < s.len() {
        lemma_trim(s.drop_last(), end);
        assert(s.drop_last().take(end) == s.take(end));
    } else {
        assert(s.take(end) == s);
    }
}

proof fn lemma_last_separator(s: Seq<char>, k: int)
    requires
        0 <= k <= s.len(),
        forall|i: int| k <= i < s.len() ==> s[i] != '/',
        k > 0 ==> s[k - 1] == '/',
    ensures
        last_separator(s) == k - 1,
    decreases s.len() - k,
{
    if k < s.len() {
        lemma_last_separator(s.drop_last(), k);
    }
}

/// The directory that holds `path`, if it lies in one.
pub fn parent_of(path: &str) -> (r: Option<String>)
    ensures
        r.deep_view() == parent(path@),
        r is Some ==> r->0@.len() < path@.len(),
{
    let p = to_chars(path);
    let mut end: usize = p.len();
    while end > 0 && p[end - 1] == '/'
        invariant
            end <= p.len(),
            forall|i: int| end <= i < p.len() ==> p@[i] == '/',
        decreases end,
    {
        end -= 1;
    }
    proof {
        lemma_trim(p@, end as int);
    }
    if end == 0 {
        return None;
    }
    let ghost name = p@.take(end as int);
    let mut k: usize = end;
    while k > 0 && p[k - 1] != '/'
        invariant
            k <= end <= p.len(),
            forall|i: int| k <= i < end ==> p@[i] != '/',
        decreases k,
    {
        k -= 1;
    }
    proof {
        lemma_last_separator(name, k as int);
    }
    if k == 0 {
        return Some(String::new());
    }
    let mut d: usize = k - 1;
    while d > 0 && p[d - 1] == '/'
        invariant
            d <= k - 1,
            k <= end <= p.len(),
            forall|i: int| d <= i < k - 1 ==> p@[i] == '/',
        decreases d,
    {
        d -= 1;
    }
    proof {
        lemma_trim(name.take(k - 1), d as int);
        assert(name.take(k - 1).take(d as int) == p@.subrange(0, d as int));
    }
    let mut out = String::new();
    if d == 0 {
        out.push('/');
        assert(out@ =~= seq!['/']);
    } else {
        push_range(&mut out, &p, 0, d);
    }
    Some(out)
}

/// `name` under the directory `dir`: the two with one separator between
/// them, and `name` alone where `dir` is empty.
pub open spec fn joined(dir: Seq<char>, name: Seq<char>) -> Seq<char> {
    if dir.len() == 0 {
        name
    } else if dir.last() == '/' {
        dir + name
    } else {
        dir + seq!['/'] + name
    }
}

/// The path of `name` under the directory `dir`.
pub fn join_path(dir: &str, name: &str) -> (r: String)
    ensures
        r@ == joined(dir@, name@),
{
    let d = to_chars(dir);
    let mut out = dir.to_owned();
    if d.len() > 0 && d[d.len() - 1] != '/' {
        out.push('/');
    }
    out.append(name);
    assert(out@ =~= joined(dir@, name@));
    out
}

/// The directory in which the engine keeps its stores, under the tracked
/// root.
pub const STORE_DIR: &'static str = ".stasher";

/// Whether `probe` has answered `answer` for a directory written `dir`.
pub open spec fn answered<F: Fn(&String) -> bool>(probe: F, dir: Seq<char>, answer: bool) -> bool {
    exists|d: String| d@ == dir && call_ensures(probe, (&d,), answer)
}

proof fn lemma_no_parent_above(path: Seq<char>, n: nat, k: nat)
    requires
        nth_parent(path, n) is None,
        n <= k,
    ensures
        nth_parent(path, k) is None,
    decreases k,
{
    if n < k {
        lemma_no_parent_above(path, n, (k - 1) as nat);
    }
}

/// Goes up from `start_path` and returns the first directory for which
/// `probe` answers `true`: `start_path` itself, or the nearest one above
/// it. `None` where `probe` answers `false` all the way up.
pub fn find_root_with<F: Fn(&String) -> bool>(start_path: &str, probe: F) -> (r: Option<String>)
    requires
        forall|d: &String| call_requires(probe, (d,)),
    ensures
        match r {
            Some(root) => exists|n: nat|
                {
                    &&& nth_parent(start_path@, n) == Some(root@)
                    &&& answered(probe, root@, true)
                    &&& forall|m: nat|
                        m < n ==> answered(probe, (#[trigger] nth_parent(start_path@, m))->0, false)
                },
            None => forall|n: nat|
                (#[trigger] nth_parent(start_path@, n)) is Some ==> answered(
                    probe,
                    nth_parent(start_path@, n)->0,
                    false,
                ),
        },
{
    let mut current = start_path.to_owned();
    let ghost mut n: nat = 0;
    loop
        invariant
            forall|d: &String| call_requires(probe, (d,)),
            nth_parent(start_path@, n) == Some(current@),
            forall|m: nat|
                m < n ==> answered(probe, (#[trigger] nth_parent(start_path@, m))->0, false),
        decreases current@.len(),
    {
        if probe(&current) {
            assert(answered(probe, current@, true));
            return Some(current);
        }
        assert(answered(probe, current@, false));
        match parent_of(current.as_str()) {
            None => {
                proof {
                    assert(nth_parent(start_path@, n + 1) is None);
                    assert forall|k: nat|
                        (#[trigger] nth_parent(start_path@, k)) is Some implies answered(
                        probe,
                        nth_parent(start_path@, k)->0,
                        false,
                    ) by {
                        if k > n {
                            lemma_no_parent_above(start_path@, n + 1, k);
                        }
                    }
                }
                return None;
            },
            Some(up) => {
                proof {
                    assert(nth_parent(start_path@, n + 1) == Some(up@));
                    n = n + 1;
                }
                current = up;
            },
        }
    }
}

/// `Path::exists` of the standard library, on the path written `path`:
/// whether something stands there on disk at the time of the call. The
/// answer depends on the disk, so the contract promises nothing of it.
#[verifier::external_body]
fn path_exists(path: &str) -> (r: bool) {
    std::path::Path::new(path).exists()
}

/// The root of the tracked tree, seen from `start_path`: the nearest
/// directory, `start_path` or one above it, in which the directory of the
/// stores stood on disk when it was looked for.
pub fn find_stasher_root(start_path: &str) -> (r: Option<String>)
    ensures
        r is Some ==> is_ancestor(r->0@, start_path@),
{
    let probe = |dir: &String| -> (found: bool)
        {
            let marker = join_path(dir.as_str(), STORE_DIR);
            path_exists(marker.as_str())
        };
    find_root_with(start_path, probe)
}

} // verus!
