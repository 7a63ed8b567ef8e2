//! Character-level string utilities: searching, equality, prefix stripping,
//! path joining and line splitting, each with an exact specification over
//! `Seq<char>` views.

use vstd::prelude::*;

verus! {

/// Index of the first occurrence of `c` in `s` at or after `from`;
/// `s.len()` if there is none.
pub open spec fn find_from(s: Seq<char>, c: char, from: int) -> int
    decreases s.len() - from,
{
    if from < 0 || from >= s.len() {
        s.len() as int
    } else if s[from] == c {
        from
    } else {
        find_from(s, c, from + 1)
    }
}

/// `find_from` returns an index in `[from, s.len()]`, points at `c` when it is
/// below `s.len()`, and skips no earlier occurrence.
pub proof fn lemma_find_from(s: Seq<char>, c: char, from: int)
    requires
        0 <= from <= s.len(),
    ensures
        from <= find_from(s, c, from) <= s.len(),
        find_from(s, c, from) < s.len() ==> s[find_from(s, c, from)] == c,
        forall|j: int| from <= j < find_from(s, c, from) ==> s[j] != c,
    decreases s.len() - from,
{
    if from < s.len() && s[from] != c {
        lemma_find_from(s, c, from + 1);
    }
}

/// The characterization of `find_from` is unique: an index preceded only by
/// non-matches, and matching unless it is the length, is the result.
pub proof fn lemma_find_from_is(s: Seq<char>, c: char, from: int, k: int)
    requires
        0 <= from <= k <= s.len(),
        forall|j: int| from <= j < k ==> s[j] != c,
        k < s.len() ==> s[k] == c,
    ensures
        find_from(s, c, from) == k,
{
    lemma_find_from(s, c, from);
    let f = find_from(s, c, from);
    if f < k {
        assert(s[f] != c);
    }
    if f > k {
        assert(s[k] != c);
    }
}

/// First index of `c` in `s` at or after `from`, or the length if absent.
pub fn find_char(s: &str, c: char, from: usize) -> (r: usize)
    requires
        from <= s@.len(),
    ensures
        r == find_from(s@, c, from as int),
{
    let n: usize = s.unicode_len();
    let mut i: usize = from;
    while i < n
        invariant
            from <= i <= n,
            n == s@.len(),
            find_from(s@, c, from as int) == find_from(s@, c, i as int),
        decreases n - i,
    {
        if s.get_char(i) == c {
            return i;
        }
        i = i + 1;
    }
    i
}

/// Character-for-character string equality.
pub fn str_eq(a: &str, b: &str) -> (r: bool)
    ensures
        r == (a@ == b@),
{
    let na: usize = a.unicode_len();
    let nb: usize = b.unicode_len();
    if na != nb {
        proof {
            if a@ == b@ {
                assert(a@.len() == b@.len());
            }
        }
        return false;
    }
    let mut i: usize = 0;
    while i < na
        invariant
            i <= na,
            na == a@.len(),
            nb == b@.len(),
            na == nb,
            forall|j: int| 0 <= j < i ==> a@[j] == b@[j],
        decreases na - i,
    {
        if a.get_char(i) != b.get_char(i) {
            proof {
                if a@ == b@ {
                    assert(a@[i as int] == b@[i as int]);
                }
            }
            return false;
        }
        i = i + 1;
    }
    proof {
        assert(a@ =~= b@);
    }
    true
}

/// `s` ends with `suffix`.
pub open spec fn spec_ends_with(s: Seq<char>, suffix: Seq<char>) -> bool {
    s.len() >= suffix.len() && s.subrange(s.len() - suffix.len(), s.len() as int) == suffix
}

/// Whether `s` ends with `suffix`.
pub fn str_ends_with(s: &str, suffix: &str) -> (r: bool)
    ensures
        r == spec_ends_with(s@, suffix@),
{
    let n: usize = s.unicode_len();
    let m: usize = suffix.unicode_len();
    if n < m {
        return false;
    }
    let tail = s.substring_char(n - m, n);
    str_eq(tail, suffix)
}

/// Index of the last occurrence of `c` in `s`, or `-1` if there is none.
pub open spec fn rfind(s: Seq<char>, c: char) -> int
    decreases s.len(),
{
    if s.len() == 0 {
        -1
    } else if s[s.len() - 1] == c {
        s.len() - 1
    } else {
        rfind(s.drop_last(), c)
    }
}

/// `rfind` points at `c` when non-negative, no later index matches, and `-1`
/// means no index matches at all.
pub proof fn lemma_rfind(s: Seq<char>, c: char)
    ensures
        -1 <= rfind(s, c) < s.len(),
        rfind(s, c) >= 0 ==> s[rfind(s, c)] == c,
        forall|j: int| rfind(s, c) < j < s.len() ==> s[j] != c,
        rfind(s, c) == -1 ==> forall|j: int| 0 <= j < s.len() ==> s[j] != c,
    decreases s.len(),
{
    if s.len() > 0 && s[s.len() - 1] != c {
        lemma_rfind(s.drop_last(), c);
        assert(forall|j: int| 0 <= j < s.len() - 1 ==> s.drop_last()[j] == s[j]);
    }
}

/// Index of the last occurrence of `c` in `s`, if any.
pub fn rfind_char(s: &str, c: char) -> (r: Option<usize>)
    ensures
        match r {
            Some(i) => i == rfind(s@, c),
            None => rfind(s@, c) == -1,
        },
{
    let n: usize = s.unicode_len();
    let mut i: usize = n;
    while i > 0
        invariant
            i <= n,
            n == s@.len(),
            forall|j: int| i <= j < n ==> s@[j] != c,
        decreases i,
    {
        i = i - 1;
        if s.get_char(i) == c {
            proof {
                lemma_rfind(s@, c);
                let r = rfind(s@, c);
                if r < i {
                    assert(s@[i as int] != c);
                }
                if r > i {
                    assert(s@[r] != c);
                }
            }
            return Some(i);
        }
    }
    proof {
        lemma_rfind(s@, c);
        let r = rfind(s@, c);
        if r >= 0 {
            assert(s@[r] != c);
        }
    }
    None
}

/// The final path component: everything after the last `/` (the whole path if
/// it has no `/`).
pub open spec fn spec_file_name(path: Seq<char>) -> Seq<char> {
    path.subrange(rfind(path, '/') + 1, path.len() as int)
}

/// The final component of a `/`-separated path.
pub fn file_name(path: &str) -> (r: String)
    ensures
        r@ == spec_file_name(path@),
{
    let n: usize = path.unicode_len();
    proof {
        lemma_rfind(path@, '/');
    }
    match rfind_char(path, '/') {
        Some(i) => path.substring_char(i + 1, n).to_owned(),
        None => {
            proof {
                assert(path@.subrange(0, n as int) =~= path@);
            }
            path.substring_char(0, n).to_owned()
        },
    }
}

/// The location of `path` relative to `root`: `Some(rest)` when `path` is
/// `root` followed by `/` followed by `rest`, `None` otherwise.
pub open spec fn spec_strip_prefix(path: Seq<char>, root: Seq<char>) -> Option<Seq<char>> {
    if path.len() > root.len() && path.subrange(0, root.len() as int) == root && path[root.len() as int]
        == '/' {
        Some(path.subrange(root.len() as int + 1, path.len() as int))
    } else {
        None
    }
}

/// Strip `root` plus the following separator from the front of `path`.
pub fn strip_prefix<'a>(path: &'a str, root: &str) -> (r: Option<&'a str>)
    ensures
        match r {
            Some(rest) => spec_strip_prefix(path@, root@) == Some(rest@),
            None => spec_strip_prefix(path@, root@) is None,
        },
{
    let n: usize = path.unicode_len();
    let m: usize = root.unicode_len();
    if n <= m {
        return None;
    }
    let pre = path.substring_char(0, m);
    if !str_eq(pre, root) {
        return None;
    }
    if path.get_char(m) != '/' {
        return None;
    }
    Some(path.substring_char(m + 1, n))
}

/// `dir` joined to `name` with a `/` separator.
pub open spec fn spec_join(dir: Seq<char>, name: Seq<char>) -> Seq<char> {
    dir + seq!['/'] + name
}

/// Join a directory path and an entry name with a `/` separator.
pub fn join_path(dir: &str, name: &str) -> (r: String)
    ensures
        r@ == spec_join(dir@, name@),
{
    let mut s = dir.to_owned();
    s.append("/");
    s.append(name);
    proof {
        reveal_strlit("/");
        assert(("/")@ =~= seq!['/']);
        assert(s@ =~= spec_join(dir@, name@));
    }
    s
}

/// Stripping a joined path against the directory it was joined under gives
/// back the joined name.
pub proof fn lemma_strip_join(dir: Seq<char>, name: Seq<char>)
    ensures
        spec_strip_prefix(spec_join(dir, name), dir) == Some(name),
{
    let p = spec_join(dir, name);
    assert(p.subrange(0, dir.len() as int) =~= dir);
    assert(p[dir.len() as int] == '/');
    assert(p.subrange(dir.len() as int + 1, p.len() as int) =~= name);
}

/// A line with any single trailing carriage return removed.
pub open spec fn strip_cr(line: Seq<char>) -> Seq<char> {
    if line.len() > 0 && line[line.len() - 1] == '\r' {
        line.drop_last()
    } else {
        line
    }
}

/// The lines of `text` from index `start` on: segments separated by `\n`,
/// each `\n`-terminated segment with a trailing `\r` removed, and no final
/// empty segment after a terminating `\n`.
pub open spec fn spec_lines_from(text: Seq<char>, start: int) -> Seq<Seq<char>>
    decreases text.len() - start,
{
    if start < 0 || start >= text.len() {
        seq![]
    } else {
        let nl = find_from(text, '\n', start);
        if nl >= text.len() {
            seq![text.subrange(start, text.len() as int)]
        } else if nl < start {
            seq![]
        } else {
            seq![strip_cr(text.subrange(start, nl))] + spec_lines_from(text, nl + 1)
        }
    }
}

/// The lines of `text`, split as `str::lines` splits them.
pub open spec fn spec_lines(text: Seq<char>) -> Seq<Seq<char>> {
    spec_lines_from(text, 0)
}

/// Split `s` into lines: segments separated by `\n`, with a `\r` immediately
/// before a `\n` removed, and no final empty line after a terminating `\n`.
pub fn split_lines(s: &str) -> (r: Vec<String>)
    ensures
        r.deep_view() == spec_lines(s@),
{
    let n: usize = s.unicode_len();
    let mut acc: Vec<String> = Vec::new();
    let mut start: usize = 0;
    while start < n
        invariant
            start <= n,
            n == s@.len(),
            spec_lines(s@) == acc.deep_view() + spec_lines_from(s@, start as int),
        decreases n - start,
    {
        let nl = find_char(s, '\n', start);
        proof {
            lemma_find_from(s@, '\n', start as int);
        }
        if nl == n {
            let seg = s.substring_char(start, n);
            acc.push(seg.to_owned());
            proof {
                assert(spec_lines_from(s@, start as int) =~= seq![s@.subrange(
                    start as int,
                    n as int,
                )]);
                assert(spec_lines(s@) =~= acc.deep_view() + spec_lines_from(s@, n as int));
            }
            start = n;
        } else {
            let seg = if nl > start && s.get_char(nl - 1) == '\r' {
                s.substring_char(start, nl - 1)
            } else {
                s.substring_char(start, nl)
            };
            proof {
                let line = s@.subrange(start as int, nl as int);
                if nl > start && s@[nl - 1] == '\r' {
                    assert(line[line.len() - 1] == '\r');
                    assert(s@.subrange(start as int, nl - 1) =~= strip_cr(line));
                } else {
                    assert(s@.subrange(start as int, nl as int) =~= strip_cr(line));
                }
            }
            acc.push(seg.to_owned());
            proof {
                assert(spec_lines(s@) =~= acc.deep_view() + spec_lines_from(s@, nl + 1));
            }
            start = nl + 1;
        }
    }
    proof {
        assert(spec_lines(s@) =~= acc.deep_view());
    }
    acc
}

} // verus!
