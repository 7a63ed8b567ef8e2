//! The directive parser: a line-oriented text block becomes a key-to-value
//! mapping. A line qualifies as a directive only when its first character is
//! the `#` marker and it contains a space; everything before the first space,
//! minus the marker, is the key, everything after it the value. Lines that do
//! not qualify are skipped, and for a repeated key the last qualifying line
//! wins.

use vstd::prelude::*;
use crate::strutil::find_from;
use crate::strutil::lemma_find_from;
use crate::strutil::lemma_find_from_is;
use crate::strutil::find_char;
use crate::strutil::str_eq;
use crate::strutil::spec_lines;
use crate::strutil::split_lines;

verus! {

/// The key/value pair a single line defines, or `None` when the line is not a
/// directive (no `#` at the start, or no space).
pub open spec fn spec_parse_line(line: Seq<char>) -> Option<(Seq<char>, Seq<char>)> {
    let sp = find_from(line, ' ', 0);
    if line.len() == 0 || line[0] != '#' || sp >= line.len() {
        None
    } else {
        Some((line.subrange(1, sp), line.subrange(sp + 1, line.len() as int)))
    }
}

/// Some pair in `s` has key `k`.
pub open spec fn has_key(s: Seq<(Seq<char>, Seq<char>)>, k: Seq<char>) -> bool {
    exists|i: int| 0 <= i < s.len() && s[i].0 == k
}

/// Index of the first pair in `s` with key `k`, or `-1` if there is none.
pub open spec fn index_of_key(s: Seq<(Seq<char>, Seq<char>)>, k: Seq<char>) -> int
    decreases s.len(),
{
    if s.len() == 0 {
        -1
    } else if s[0].0 == k {
        0
    } else {
        let r = index_of_key(s.drop_first(), k);
        if r < 0 {
            -1
        } else {
            r + 1
        }
    }
}

/// `index_of_key` finds the first pair with key `k` when one exists, and is
/// `-1` otherwise.
pub proof fn lemma_index_of_key(s: Seq<(Seq<char>, Seq<char>)>, k: Seq<char>)
    ensures
        has_key(s, k) ==> 0 <= index_of_key(s, k) < s.len() && s[index_of_key(s, k)].0 == k
            && forall|j: int| 0 <= j < index_of_key(s, k) ==> s[j].0 != k,
        !has_key(s, k) ==> index_of_key(s, k) == -1,
    decreases s.len(),
{
    if s.len() > 0 && s[0].0 != k {
        lemma_index_of_key(s.drop_first(), k);
        let d = s.drop_first();
        assert(forall|j: int| 0 <= j < s.len() - 1 ==> d[j] == s[j + 1]);
        if has_key(s, k) {
            let i = choose|i: int| 0 <= i < s.len() && s[i].0 == k;
            assert(i != 0);
            assert(d[i - 1].0 == k);
            assert(has_key(d, k));
            let r = index_of_key(d, k);
            assert(index_of_key(s, k) == r + 1);
            assert(s[r + 1].0 == k) by {
                assert(d[r] == s[r + 1]);
            }
            assert forall|j: int| 0 <= j < r + 1 implies s[j].0 != k by {
                if j > 0 {
                    assert(d[j - 1].0 != k);
                    assert(d[j - 1] == s[j]);
                }
            }
        } else {
            if has_key(d, k) {
                let i = choose|i: int| 0 <= i < d.len() && d[i].0 == k;
                assert(s[i + 1].0 == k);
                assert(has_key(s, k));
            }
        }
    }
}

/// An index holding key `k` with no earlier occurrence of `k` is exactly
/// `index_of_key`.
pub proof fn lemma_index_of_key_is(s: Seq<(Seq<char>, Seq<char>)>, k: Seq<char>, i: int)
    requires
        0 <= i < s.len(),
        s[i].0 == k,
        forall|j: int| 0 <= j < i ==> s[j].0 != k,
    ensures
        index_of_key(s, k) == i,
{
    lemma_index_of_key(s, k);
    assert(has_key(s, k));
    let f = index_of_key(s, k);
    if f < i {
        assert(s[f].0 != k);
    }
    if f > i {
        assert(s[i].0 != k);
    }
}

/// Insert with mapping semantics over a pair sequence: replace the value at
/// the key's position when the key is present, append otherwise.
pub open spec fn upsert(s: Seq<(Seq<char>, Seq<char>)>, k: Seq<char>, v: Seq<char>) -> Seq<
    (Seq<char>, Seq<char>),
> {
    if has_key(s, k) {
        s.update(index_of_key(s, k), (k, v))
    } else {
        s.push((k, v))
    }
}

/// All keys in `s` are distinct.
pub open spec fn distinct_keys(s: Seq<(Seq<char>, Seq<char>)>) -> bool {
    forall|i: int, j: int| 0 <= i < j < s.len() ==> s[i].0 != s[j].0
}

/// The mapping a pair sequence denotes, later pairs overriding earlier ones.
pub open spec fn entries_to_map(s: Seq<(Seq<char>, Seq<char>)>) -> Map<Seq<char>, Seq<char>>
    decreases s.len(),
{
    if s.len() == 0 {
        Map::empty()
    } else {
        entries_to_map(s.drop_last()).insert(s.last().0, s.last().1)
    }
}

/// A pair of `s` is bound in the denoted mapping, to its own value, when keys
/// are distinct.
pub proof fn lemma_entries_to_map_at(s: Seq<(Seq<char>, Seq<char>)>, i: int)
    requires
        distinct_keys(s),
        0 <= i < s.len(),
    ensures
        entries_to_map(s).contains_key(s[i].0),
        entries_to_map(s)[s[i].0] == s[i].1,
    decreases s.len(),
{
    if i < s.len() - 1 {
        assert(distinct_keys(s.drop_last()));
        assert(s.drop_last()[i] == s[i]);
        lemma_entries_to_map_at(s.drop_last(), i);
        assert(s.last().0 != s[i].0);
    }
}

/// The denoted mapping binds exactly the keys occurring in `s`.
pub proof fn lemma_entries_to_map_domain(s: Seq<(Seq<char>, Seq<char>)>, k: Seq<char>)
    ensures
        entries_to_map(s).contains_key(k) <==> has_key(s, k),
    decreases s.len(),
{
    if s.len() > 0 {
        lemma_entries_to_map_domain(s.drop_last(), k);
        if has_key(s.drop_last(), k) {
            let i = choose|i: int| 0 <= i < s.drop_last().len() && s.drop_last()[i].0 == k;
            assert(s[i].0 == k);
        }
        if has_key(s, k) && s.last().0 != k {
            let i = choose|i: int| 0 <= i < s.len() && s[i].0 == k;
            assert(i < s.len() - 1);
            assert(s.drop_last()[i].0 == k);
        }
    }
}

/// `upsert` keeps keys distinct and denotes exactly a mapping insert.
pub proof fn lemma_upsert_map(s: Seq<(Seq<char>, Seq<char>)>, k: Seq<char>, v: Seq<char>)
    requires
        distinct_keys(s),
    ensures
        distinct_keys(upsert(s, k, v)),
        entries_to_map(upsert(s, k, v)) == entries_to_map(s).insert(k, v),
    decreases s.len(),
{
    lemma_index_of_key(s, k);
    if !has_key(s, k) {
        let u = s.push((k, v));
        assert(forall|j: int| 0 <= j < s.len() ==> s[j].0 != k) by {
            assert(forall|j: int| 0 <= j < s.len() && s[j].0 == k ==> has_key(s, k));
        }
        assert(distinct_keys(u));
        assert(u.drop_last() =~= s);
        assert(entries_to_map(u) == entries_to_map(s).insert(k, v));
    } else {
        let i = index_of_key(s, k);
        let u = s.update(i, (k, v));
        assert(distinct_keys(u)) by {
            assert(forall|j: int| 0 <= j < s.len() && j != i ==> s[j].0 != k);
        }
        if i == s.len() - 1 {
            assert(u.drop_last() =~= s.drop_last());
            assert(u.last() == (k, v));
            assert(s.last().0 == k);
            assert(entries_to_map(u) =~= entries_to_map(s).insert(k, v));
        } else {
            assert(distinct_keys(s.drop_last()));
            assert(s.drop_last()[i].0 == k);
            assert(forall|j: int| 0 <= j < i ==> s.drop_last()[j].0 != k);
            lemma_index_of_key_is(s.drop_last(), k, i);
            lemma_upsert_map(s.drop_last(), k, v);
            assert(u.drop_last() =~= upsert(s.drop_last(), k, v));
            assert(u.last() == s.last());
            assert(s.last().0 != k);
            assert(entries_to_map(u) =~= entries_to_map(s).insert(k, v));
        }
    }
}

/// An ordered key-to-value mapping with distinct `String` keys, the in-memory
/// form of a parsed directive block.
pub struct StrMap {
    pairs: Vec<(String, String)>,
}

impl StrMap {
    /// The pairs, in order, as sequences of characters.
    pub closed spec fn entries(&self) -> Seq<(Seq<char>, Seq<char>)> {
        self.pairs.deep_view()
    }

    /// Keys are distinct.
    pub open spec fn wf(&self) -> bool {
        distinct_keys(self.entries())
    }

    /// The mapping the pairs denote.
    pub open spec fn as_map(&self) -> Map<Seq<char>, Seq<char>> {
        entries_to_map(self.entries())
    }

    /// The empty mapping.
    pub fn new() -> (r: Self)
        ensures
            r.entries() == Seq::<(Seq<char>, Seq<char>)>::empty(),
            r.as_map() == Map::<Seq<char>, Seq<char>>::empty(),
            r.wf(),
    {
        let r = StrMap { pairs: Vec::new() };
        proof {
            assert(r.entries() =~= Seq::<(Seq<char>, Seq<char>)>::empty());
            assert(r.as_map() =~= Map::<Seq<char>, Seq<char>>::empty());
        }
        r
    }

    /// Number of entries.
    pub fn len(&self) -> (n: usize)
        ensures
            n == self.entries().len(),
    {
        self.pairs.len()
    }

    /// The key of the entry at position `i`.
    pub fn key_at(&self, i: usize) -> (k: String)
        requires
            i < self.entries().len(),
        ensures
            k@ == self.entries()[i as int].0,
    {
        self.pairs[i].0.clone()
    }

    /// The value of the entry at position `i`.
    pub fn value_at(&self, i: usize) -> (v: String)
        requires
            i < self.entries().len(),
        ensures
            v@ == self.entries()[i as int].1,
    {
        self.pairs[i].1.clone()
    }

    /// Bind `key` to `value`, overriding any earlier binding of the same key.
    pub fn insert(&mut self, key: String, value: String)
        requires
            old(self).wf(),
        ensures
            final(self).wf(),
            final(self).entries() == upsert(old(self).entries(), key@, value@),
            final(self).as_map() == old(self).as_map().insert(key@, value@),
    {
        let ghost s = self.entries();
        let n: usize = self.pairs.len();
        let mut i: usize = 0;
        while i < n
            invariant
                i <= n,
                n == self.pairs.len(),
                self.entries() == s,
                s == old(self).entries(),
                distinct_keys(s),
                forall|j: int| 0 <= j < i ==> s[j].0 != key@,
            decreases n - i,
        {
            proof {
                assert(s[i as int] == self.pairs@[i as int].deep_view());
                assert(s[i as int].0 == self.pairs@[i as int].0@);
            }
            if str_eq(self.pairs[i].0.as_str(), key.as_str()) {
                proof {
                    lemma_index_of_key_is(s, key@, i as int);
                    assert(has_key(s, key@));
                    lemma_upsert_map(s, key@, value@);
                }
                self.pairs.set(i, (key, value));
                proof {
                    assert(self.entries() =~= upsert(s, key@, value@));
                }
                return ;
            }
            i = i + 1;
        }
        proof {
            if has_key(s, key@) {
                let w = choose|w: int| 0 <= w < s.len() && s[w].0 == key@;
                assert(s[w].0 != key@);
            }
            lemma_upsert_map(s, key@, value@);
        }
        self.pairs.push((key, value));
        proof {
            assert(self.entries() =~= upsert(s, key@, value@));
        }
    }

    /// Look a key up in the mapping.
    pub fn get(&self, key: &str) -> (r: Option<String>)
        requires
            self.wf(),
        ensures
            match r {
                Some(v) => self.as_map().contains_key(key@) && v@ == self.as_map()[key@],
                None => !self.as_map().contains_key(key@),
            },
    {
        let ghost s = self.entries();
        let n: usize = self.pairs.len();
        let mut i: usize = 0;
        while i < n
            invariant
                i <= n,
                n == self.pairs.len(),
                self.entries() == s,
                distinct_keys(s),
                forall|j: int| 0 <= j < i ==> s[j].0 != key@,
            decreases n - i,
        {
            proof {
                assert(s[i as int] == self.pairs@[i as int].deep_view());
                assert(s[i as int].0 == self.pairs@[i as int].0@);
                assert(s[i as int].1 == self.pairs@[i as int].1@);
            }
            if str_eq(self.pairs[i].0.as_str(), key) {
                proof {
                    lemma_entries_to_map_at(s, i as int);
                }
                return Some(self.pairs[i].1.clone());
            }
            i = i + 1;
        }
        proof {
            lemma_entries_to_map_domain(s, key@);
            if has_key(s, key@) {
                let w = choose|w: int| 0 <= w < s.len() && s[w].0 == key@;
                assert(s[w].0 != key@);
            }
        }
        None
    }
}

/// Some line of `lines` is a directive.
pub open spec fn has_directive(lines: Seq<Seq<char>>) -> bool {
    exists|i: int| 0 <= i < lines.len() && spec_parse_line(lines[i]) is Some
}

/// The key of the first directive line, the empty string when there is none.
pub open spec fn spec_first_key(lines: Seq<Seq<char>>) -> Seq<char>
    decreases lines.len(),
{
    if lines.len() == 0 {
        Seq::empty()
    } else if has_directive(lines.drop_last()) {
        spec_first_key(lines.drop_last())
    } else {
        match spec_parse_line(lines.last()) {
            Some(p) => p.0,
            None => Seq::empty(),
        }
    }
}

/// The ordered pair sequence the directive lines build up, later lines
/// overriding the value of an earlier equal key in place.
pub open spec fn spec_entries(lines: Seq<Seq<char>>) -> Seq<(Seq<char>, Seq<char>)>
    decreases lines.len(),
{
    if lines.len() == 0 {
        seq![]
    } else {
        let prev = spec_entries(lines.drop_last());
        match spec_parse_line(lines.last()) {
            Some(p) => upsert(prev, p.0, p.1),
            None => prev,
        }
    }
}

/// The mapping the directive lines denote: one entry per key of a qualifying
/// line, bound to the value of its last qualifying line.
pub open spec fn spec_directive_map(lines: Seq<Seq<char>>) -> Map<Seq<char>, Seq<char>>
    decreases lines.len(),
{
    if lines.len() == 0 {
        Map::empty()
    } else {
        let prev = spec_directive_map(lines.drop_last());
        match spec_parse_line(lines.last()) {
            Some(p) => prev.insert(p.0, p.1),
            None => prev,
        }
    }
}

/// The mapping a whole directive text denotes.
pub open spec fn spec_parse(text: Seq<char>) -> Map<Seq<char>, Seq<char>> {
    spec_directive_map(spec_lines(text))
}

/// The built-up pair sequence has distinct keys and denotes exactly the
/// directive mapping.
pub proof fn lemma_spec_entries_map(lines: Seq<Seq<char>>)
    ensures
        distinct_keys(spec_entries(lines)),
        entries_to_map(spec_entries(lines)) == spec_directive_map(lines),
    decreases lines.len(),
{
    if lines.len() > 0 {
        lemma_spec_entries_map(lines.drop_last());
        match spec_parse_line(lines.last()) {
            Some(p) => {
                lemma_upsert_map(spec_entries(lines.drop_last()), p.0, p.1);
            },
            None => {},
        }
    }
}

/// A parsed directive block: the key of its first directive line and the
/// mapping of all its directive lines.
pub struct Function {
    pub name: String,
    pub args: StrMap,
}

impl Function {
    /// Parse one line: `Some((key, value))` for a directive line
    /// `#<key> <value>`, `None` for every other line.
    pub fn parse_line(line: &str) -> (r: Option<(String, String)>)
        ensures
            r.deep_view() == spec_parse_line(line@),
    {
        let n: usize = line.unicode_len();
        if n == 0 {
            return None;
        }
        if line.get_char(0) != '#' {
            return None;
        }
        let sp = find_char(line, ' ', 0);
        proof {
            lemma_find_from(line@, ' ', 0);
        }
        if sp == n {
            return None;
        }
        proof {
            if find_from(line@, ' ', 0) == 0 {
                assert(line@[0] == ' ');
            }
        }
        let key = line.substring_char(1, sp).to_owned();
        let value = line.substring_char(sp + 1, n).to_owned();
        Some((key, value))
    }

    /// Parse a whole directive block: every directive line contributes its
    /// pair, a repeated key keeping only the last value, and `name` is the
    /// key of the first directive line (empty if there is none).
    pub fn parse(block: &str) -> (r: Function)
        ensures
            r.args.wf(),
            r.args.entries() == spec_entries(spec_lines(block@)),
            r.args.as_map() == spec_parse(block@),
            r.name@ == spec_first_key(spec_lines(block@)),
    {
        let lines = split_lines(block);
        let ghost lseq = spec_lines(block@);
        let mut first = true;
        let mut name = String::new();
        let mut args = StrMap::new();
        let n: usize = lines.len();
        proof {
            assert(lseq.take(0) =~= Seq::<Seq<char>>::empty());
        }
        let mut i: usize = 0;
        while i < n
            invariant
                i <= n,
                n == lines.len(),
                lines.deep_view() == lseq,
                args.wf(),
                args.entries() == spec_entries(lseq.take(i as int)),
                first == !has_directive(lseq.take(i as int)),
                name@ == spec_first_key(lseq.take(i as int)),
            decreases n - i,
        {
            let ghost t0 = lseq.take(i as int);
            let ghost t1 = lseq.take(i as int + 1);
            proof {
                assert(t1.drop_last() =~= t0);
                assert(lines[i as int]@ == lseq[i as int]);
                assert(t1.last() == lseq[i as int]);
            }
            match Function::parse_line(lines[i].as_str()) {
                Some(pair) => {
                    proof {
                        assert(spec_parse_line(lseq[i as int]) == Some((pair.0@, pair.1@)));
                        assert(0 <= i < t1.len() && spec_parse_line(t1[i as int]) is Some);
                        assert(has_directive(t1));
                    }
                    let (param, arg) = pair;
                    if first {
                        name = param.clone();
                        first = false;
                        proof {
                            assert(spec_first_key(t1) == param@);
                        }
                    } else {
                        proof {
                            assert(has_directive(t0));
                            assert(spec_first_key(t1) == spec_first_key(t0));
                        }
                    }
                    args.insert(param, arg);
                },
                None => {
                    proof {
                        if has_directive(t1) {
                            let w = choose|w: int|
                                0 <= w < t1.len() && spec_parse_line(t1[w]) is Some;
                            assert(w != i);
                            assert(t0[w] == t1[w]);
                            assert(has_directive(t0));
                        }
                        if has_directive(t0) {
                            let w = choose|w: int|
                                0 <= w < t0.len() && spec_parse_line(t0[w]) is Some;
                            assert(t1[w] == t0[w]);
                            assert(has_directive(t1));
                        }
                        assert(spec_entries(t1) == spec_entries(t0));
                        assert(spec_first_key(t1) == spec_first_key(t0));
                    }
                },
            }
            i = i + 1;
        }
        proof {
            assert(lseq.take(n as int) =~= lseq);
            lemma_spec_entries_map(lseq);
        }
        Function { name, args }
    }
}

/// A line that is not a directive contributes no entry: removing it from the
/// line sequence leaves the directive mapping unchanged.
pub proof fn lemma_skipped_line_adds_nothing(lines: Seq<Seq<char>>, i: int)
    requires
        0 <= i < lines.len(),
        spec_parse_line(lines[i]) is None,
    ensures
        spec_directive_map(lines) == spec_directive_map(lines.remove(i)),
    decreases lines.len(),
{
    if i == lines.len() - 1 {
        assert(lines.remove(i) =~= lines.drop_last());
    } else {
        assert(lines.drop_last()[i] == lines[i]);
        lemma_skipped_line_adds_nothing(lines.drop_last(), i);
        assert(lines.remove(i).drop_last() =~= lines.drop_last().remove(i));
        assert(lines.remove(i).last() == lines.last());
    }
}

/// The value the last qualifying line binds `k` to, scanning from the end.
pub open spec fn last_value_for(lines: Seq<Seq<char>>, k: Seq<char>) -> Option<Seq<char>>
    decreases lines.len(),
{
    if lines.len() == 0 {
        None
    } else {
        match spec_parse_line(lines.last()) {
            Some(p) => if p.0 == k {
                Some(p.1)
            } else {
                last_value_for(lines.drop_last(), k)
            },
            None => last_value_for(lines.drop_last(), k),
        }
    }
}

/// A key is mapped exactly when some directive line carries it, and then to
/// the value of the last such line: a single occurrence yields its own pair,
/// and a repeated key keeps one entry, with the last value.
pub proof fn lemma_last_occurrence_wins(lines: Seq<Seq<char>>, k: Seq<char>)
    ensures
        match last_value_for(lines, k) {
            Some(v) => spec_directive_map(lines).contains_key(k) && spec_directive_map(lines)[k]
                == v,
            None => !spec_directive_map(lines).contains_key(k),
        },
    decreases lines.len(),
{
    if lines.len() > 0 {
        lemma_last_occurrence_wins(lines.drop_last(), k);
    }
}

/// When the backwards scan finds a value for `k`, some line is a directive
/// line carrying exactly the key `k`.
pub proof fn lemma_last_value_has_line(lines: Seq<Seq<char>>, k: Seq<char>)
    requires
        last_value_for(lines, k) is Some,
    ensures
        exists|i: int|
            0 <= i < lines.len() && (#[trigger] spec_parse_line(lines[i]) matches Some(p)
                && p.0 == k),
    decreases lines.len(),
{
    let last_is_k = match spec_parse_line(lines.last()) {
        Some(p) => p.0 == k,
        None => false,
    };
    if last_is_k {
        assert(spec_parse_line(lines[lines.len() - 1]) matches Some(p) && p.0 == k);
    } else {
        lemma_last_value_has_line(lines.drop_last(), k);
        let w = choose|w: int|
            0 <= w < lines.drop_last().len() && (#[trigger] spec_parse_line(lines.drop_last()[w])
                matches Some(p) && p.0 == k);
        assert(lines[w] == lines.drop_last()[w]);
        assert(spec_parse_line(lines[w]) matches Some(p) && p.0 == k);
    }
}

/// Every entry of a parsed text comes from a directive line: a key is mapped
/// only when some line of the text starts with the marker, contains a space,
/// and carries that key. A line that is no directive yields no entry.
pub proof fn lemma_entry_needs_directive_line(text: Seq<char>, k: Seq<char>)
    requires
        spec_parse(text).contains_key(k),
    ensures
        exists|i: int|
            0 <= i < spec_lines(text).len() && (#[trigger] spec_parse_line(spec_lines(text)[i])
                matches Some(p) && p.0 == k),
{
    lemma_last_occurrence_wins(spec_lines(text), k);
    lemma_last_value_has_line(spec_lines(text), k);
}

/// Over a whole directive text, the last qualifying occurrence of a key
/// wins: the parsed mapping binds `k` exactly when the backwards scan over
/// the text's lines finds a value, and then to that value.
pub proof fn lemma_parse_last_occurrence(text: Seq<char>, k: Seq<char>)
    ensures
        match last_value_for(spec_lines(text), k) {
            Some(v) => spec_parse(text).contains_key(k) && spec_parse(text)[k] == v,
            None => !spec_parse(text).contains_key(k),
        },
{
    lemma_last_occurrence_wins(spec_lines(text), k);
}

/// A directive line `#<key> <value>` with no space in the key parses to
/// exactly that pair; the value may itself contain spaces.
pub proof fn lemma_directive_line_parses(k: Seq<char>, v: Seq<char>)
    requires
        forall|j: int| 0 <= j < k.len() ==> k[j] != ' ',
    ensures
        spec_parse_line(seq!['#'] + k + seq![' '] + v) == Some((k, v)),
{
    let line = seq!['#'] + k + seq![' '] + v;
    assert(line[0] == '#');
    assert(line[k.len() as int + 1] == ' ');
    assert forall|j: int| 0 <= j < k.len() + 1 implies line[j] != ' ' by {
        if j > 0 {
            assert(line[j] == k[j - 1]);
        }
    }
    lemma_find_from_is(line, ' ', 0, k.len() as int + 1);
    assert(line.subrange(1, k.len() as int + 1) =~= k);
    assert(line.subrange(k.len() as int + 2, line.len() as int) =~= v);
}

} // verus!
