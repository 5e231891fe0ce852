//! A line-oriented `key = value` parser and the map of pairs it builds.
//!
//! `parse_pairs` reads its input line by line; every line that contains
//! an `=` contributes one pair, whose key and value are the trimmed
//! halves around the first `=`. Later lines win over earlier ones when
//! their keys agree. A carriage return left at the end of a line is
//! whitespace and disappears with the trimming, so lines may end in
//! either `\n` or `\r\n`.

use vstd::prelude::*;

verus! {

/// Whether `c` has the Unicode `White_Space` property, the set of
/// characters that trimming removes.
pub open spec fn spec_is_space(c: char) -> bool {
    let u = c as u32;
    ||| u == 0x20
    ||| (0x09 <= u && u <= 0x0D)
    ||| u == 0x85
    ||| u == 0xA0
    ||| u == 0x1680
    ||| (0x2000 <= u && u <= 0x200A)
    ||| u == 0x2028
    ||| u == 0x2029
    ||| u == 0x202F
    ||| u == 0x205F
    ||| u == 0x3000
}

/// Whether `c` has the Unicode `White_Space` property.
pub fn is_space(c: char) -> (r: bool)
    ensures
        r == spec_is_space(c),
{
    let u = c as u32;
    u == 0x20 || (0x09 <= u && u <= 0x0D) || u == 0x85 || u == 0xA0 || u == 0x1680 || (0x2000 <= u
        && u <= 0x200A) || u == 0x2028 || u == 0x2029 || u == 0x202F || u == 0x205F || u == 0x3000
}

/// `s` with its leading whitespace removed.
pub open spec fn spec_trim_start(s: Seq<char>) -> Seq<char>
    decreases s.len(),
{
    if s.len() > 0 && spec_is_space(s[0]) {
        spec_trim_start(s.drop_first())
    } else {
        s
    }
}

/// `s` with its trailing whitespace removed.
pub open spec fn spec_trim_end(s: Seq<char>) -> Seq<char>
    decreases s.len(),
{
    if s.len() > 0 && spec_is_space(s.last()) {
        spec_trim_end(s.drop_last())
    } else {
        s
    }
}

/// `s` with both leading and trailing whitespace removed.
pub open spec fn spec_trim(s: Seq<char>) -> Seq<char> {
    spec_trim_end(spec_trim_start(s))
}

/// The index of the first occurrence of `target` in `s`, or `s.len()`
/// when `target` does not occur.
pub open spec fn spec_find(s: Seq<char>, target: char) -> nat
    decreases s.len(),
{
    if s.len() == 0 {
        0
    } else if s[0] == target {
        0
    } else {
        (1 + spec_find(s.drop_first(), target)) as nat
    }
}

/// `spec_find` returns exactly the index before which `target` does not
/// occur, and at which it stands when it occurs at all.
pub proof fn lemma_find_is(s: Seq<char>, target: char, j: int)
    requires
        0 <= j <= s.len(),
        forall|k: int| 0 <= k < j ==> s[k] != target,
        j < s.len() ==> s[j] == target,
    ensures
        spec_find(s, target) == j,
    decreases s.len(),
{
    if s.len() == 0 {
    } else if s[0] == target {
        assert(j == 0);
    } else {
        assert(j >= 1);
        lemma_find_is(s.drop_first(), target, j - 1);
    }
}

/// Finds the first occurrence of `target` in `s` at or after `from` and
/// before `to`, returning `to` when there is none.
fn find_from(s: &str, from: usize, to: usize, target: char) -> (j: usize)
    requires
        from <= to <= s@.len(),
    ensures
        from <= j <= to,
        forall|k: int| from <= k < j ==> s@[k] != target,
        j < to ==> s@[j as int] == target,
{
    let mut j = from;
    while j < to
        invariant
            from <= j <= to <= s@.len(),
            forall|k: int| from <= k < j ==> s@[k] != target,
        decreases to - j,
    {
        if s.get_char(j) == target {
            return j;
        }
        j = j + 1;
    }
    j
}

/// Narrows the range `[lo, hi)` of `s` to the subrange that remains
/// after trimming whitespace from both ends.
fn trim_range(s: &str, lo: usize, hi: usize) -> (r: (usize, usize))
    requires
        lo <= hi <= s@.len(),
    ensures
        lo <= r.0 <= r.1 <= hi,
        s@.subrange(r.0 as int, r.1 as int) == spec_trim(s@.subrange(lo as int, hi as int)),
{
    let ghost whole = s@.subrange(lo as int, hi as int);
    let mut a = lo;
    while a < hi && is_space(s.get_char(a))
        invariant
            lo <= a <= hi <= s@.len(),
            spec_trim_start(whole) == spec_trim_start(s@.subrange(a as int, hi as int)),
        decreases hi - a,
    {
        proof {
            assert(s@.subrange(a as int, hi as int).drop_first() =~= s@.subrange(
                a as int + 1,
                hi as int,
            ));
        }
        a = a + 1;
    }
    proof {
        assert(spec_trim_start(whole) == s@.subrange(a as int, hi as int));
    }
    let mut b = hi;
    while b > a && is_space(s.get_char(b - 1))
        invariant
            lo <= a <= b <= hi <= s@.len(),
            spec_trim_start(whole) == s@.subrange(a as int, hi as int),
            spec_trim_end(s@.subrange(a as int, hi as int)) == spec_trim_end(
                s@.subrange(a as int, b as int),
            ),
        decreases b - a,
    {
        proof {
            assert(s@.subrange(a as int, b as int).drop_last() =~= s@.subrange(
                a as int,
                b as int - 1,
            ));
        }
        b = b - 1;
    }
    proof {
        assert(spec_trim_end(s@.subrange(a as int, b as int)) == s@.subrange(a as int, b as int));
    }
    (a, b)
}

/// Whether two string slices hold the same characters.
pub fn str_eq(a: &str, b: &str) -> (r: bool)
    ensures
        r == (a@ == b@),
{
    let na = a.unicode_len();
    let nb = b.unicode_len();
    if na != nb {
        return false;
    }
    let mut i: usize = 0;
    while i < na
        invariant
            i <= na,
            na == a@.len(),
            na == b@.len(),
            forall|k: int| 0 <= k < i ==> a@[k] == b@[k],
        decreases na - i,
    {
        if a.get_char(i) != b.get_char(i) {
            return false;
        }
        i = i + 1;
    }
    proof {
        assert(a@ =~= b@);
    }
    true
}

/// The map that a sequence of key/value entries denotes: each entry is
/// inserted in order, so a later entry wins over an earlier one with
/// the same key.
spec fn spec_entries_map(es: Seq<(String, String)>) -> Map<Seq<char>, Seq<char>>
    decreases es.len(),
{
    if es.len() == 0 {
        Map::empty()
    } else {
        spec_entries_map(es.drop_last()).insert(es.last().0@, es.last().1@)
    }
}

/// A key occurs in the denoted map exactly when some entry carries it.
proof fn lemma_entries_map_contains(es: Seq<(String, String)>, k: Seq<char>)
    ensures
        spec_entries_map(es).contains_key(k) <==> exists|i: int|
            0 <= i < es.len() && es[i].0@ == k,
    decreases es.len(),
{
    if es.len() > 0 {
        lemma_entries_map_contains(es.drop_last(), k);
        if spec_entries_map(es).contains_key(k) {
            if es.last().0@ != k {
                let i = choose|i: int| 0 <= i < es.len() - 1 && es.drop_last()[i].0@ == k;
                assert(es[i].0@ == k);
            }
        }
        if exists|i: int| 0 <= i < es.len() && es[i].0@ == k {
            let i = choose|i: int| 0 <= i < es.len() && es[i].0@ == k;
            if i < es.len() - 1 {
                assert(es.drop_last()[i].0@ == k);
            }
        }
    }
}

/// The denoted map has a finite domain.
proof fn lemma_entries_map_finite(es: Seq<(String, String)>)
    ensures
        spec_entries_map(es).dom().finite(),
    decreases es.len(),
{
    if es.len() > 0 {
        lemma_entries_map_finite(es.drop_last());
    }
}

/// With pairwise distinct keys, the denoted map has one key per entry.
proof fn lemma_entries_map_len(es: Seq<(String, String)>)
    requires
        forall|i: int, j: int| 0 <= i < j < es.len() ==> es[i].0@ != es[j].0@,
    ensures
        spec_entries_map(es).dom().len() == es.len(),
    decreases es.len(),
{
    if es.len() > 0 {
        lemma_entries_map_len(es.drop_last());
        lemma_entries_map_finite(es.drop_last());
        lemma_entries_map_contains(es.drop_last(), es.last().0@);
        assert(!spec_entries_map(es.drop_last()).contains_key(es.last().0@));
    }
}

/// The entry that carries a key gives the value that the denoted map
/// binds to it, provided the keys are pairwise distinct.
proof fn lemma_entries_map_lookup(es: Seq<(String, String)>, i: int)
    requires
        forall|p: int, q: int| 0 <= p < q < es.len() ==> es[p].0@ != es[q].0@,
        0 <= i < es.len(),
    ensures
        spec_entries_map(es).contains_key(es[i].0@),
        spec_entries_map(es)[es[i].0@] == es[i].1@,
    decreases es.len(),
{
    if i < es.len() - 1 {
        lemma_entries_map_lookup(es.drop_last(), i);
    }
}

/// Inserting under two distinct keys commutes.
proof fn lemma_insert_commute(
    m: Map<Seq<char>, Seq<char>>,
    k1: Seq<char>,
    v1: Seq<char>,
    k2: Seq<char>,
    v2: Seq<char>,
)
    requires
        k1 != k2,
    ensures
        m.insert(k1, v1).insert(k2, v2) == m.insert(k2, v2).insert(k1, v1),
{
    assert(m.insert(k1, v1).insert(k2, v2) =~= m.insert(k2, v2).insert(k1, v1));
}

/// Replacing the value of the entry that carries `key` denotes the same
/// map as inserting the new value under `key`, provided the keys are
/// pairwise distinct.
proof fn lemma_entries_map_update(es: Seq<(String, String)>, i: int, key: String, value: String)
    requires
        forall|p: int, q: int| 0 <= p < q < es.len() ==> es[p].0@ != es[q].0@,
        0 <= i < es.len(),
        es[i].0@ == key@,
    ensures
        spec_entries_map(es.update(i, (key, value))) == spec_entries_map(es).insert(key@, value@),
    decreases es.len(),
{
    let up = es.update(i, (key, value));
    if i == es.len() - 1 {
        assert(up.drop_last() =~= es.drop_last());
        assert(spec_entries_map(es).insert(key@, value@) =~= spec_entries_map(
            es.drop_last(),
        ).insert(key@, value@));
    } else {
        assert(up.drop_last() =~= es.drop_last().update(i, (key, value)));
        lemma_entries_map_update(es.drop_last(), i, key, value);
        lemma_insert_commute(
            spec_entries_map(es.drop_last()),
            key@,
            value@,
            es.last().0@,
            es.last().1@,
        );
    }
}

/// A map from string keys to string values that keeps the last value
/// inserted under each key.
pub struct PairMap {
    entries: Vec<(String, String)>,
}

impl View for PairMap {
    type V = Map<Seq<char>, Seq<char>>;

    closed spec fn view(&self) -> Map<Seq<char>, Seq<char>> {
        spec_entries_map(self.entries@)
    }
}

impl PairMap {
    /// Each key is carried by at most one entry.
    pub closed spec fn wf(&self) -> bool {
        forall|i: int, j: int|
            0 <= i < j < self.entries@.len() ==> self.entries@[i].0@ != self.entries@[j].0@
    }

    /// An empty map.
    pub fn new() -> (r: PairMap)
        ensures
            r.wf(),
            r@ == Map::<Seq<char>, Seq<char>>::empty(),
    {
        PairMap { entries: Vec::new() }
    }

    /// The number of keys in the map.
    pub fn len(&self) -> (n: usize)
        requires
            self.wf(),
        ensures
            n == self@.dom().len(),
    {
        proof {
            lemma_entries_map_len(self.entries@);
        }
        self.entries.len()
    }

    /// Binds `key` to `value`, replacing any value bound before.
    pub fn insert(&mut self, key: String, value: String)
        requires
            old(self).wf(),
        ensures
            final(self).wf(),
            final(self)@ == old(self)@.insert(key@, value@),
    {
        let n = self.entries.len();
        let mut i: usize = 0;
        while i < n
            invariant
                i <= n,
                n == self.entries@.len(),
                *self == *old(self),
                self.wf(),
                forall|k: int| 0 <= k < i ==> self.entries@[k].0@ != key@,
            decreases n - i,
        {
            if str_eq(self.entries[i].0.as_str(), key.as_str()) {
                proof {
                    lemma_entries_map_update(self.entries@, i as int, key, value);
                }
                self.entries.set(i, (key, value));
                return ;
            }
            i = i + 1;
        }
        proof {
            assert(self.entries@.push((key, value)).drop_last() =~= self.entries@);
        }
        self.entries.push((key, value));
    }

    /// The `i`-th pair, in insertion order of the keys.
    pub fn pair_at(&self, i: usize) -> (r: (&String, &String))
        requires
            self.wf(),
            i < self@.dom().len(),
        ensures
            self@.contains_key(r.0@),
            self@[r.0@] == r.1@,
    {
        proof {
            lemma_entries_map_len(self.entries@);
            lemma_entries_map_lookup(self.entries@, i as int);
        }
        (&self.entries[i].0, &self.entries[i].1)
    }

    /// Looks up the value bound to `key`, if any.
    pub fn get(&self, key: &str) -> (r: Option<&String>)
        requires
            self.wf(),
        ensures
            match r {
                Some(v) => self@.contains_key(key@) && self@[key@] == v@,
                None => !self@.contains_key(key@),
            },
    {
        let n = self.entries.len();
        let mut i: usize = 0;
        while i < n
            invariant
                i <= n,
                n == self.entries@.len(),
                self.wf(),
                forall|k: int| 0 <= k < i ==> self.entries@[k].0@ != key@,
            decreases n - i,
        {
            if str_eq(self.entries[i].0.as_str(), key) {
                proof {
                    lemma_entries_map_lookup(self.entries@, i as int);
                }
                return Some(&self.entries[i].1);
            }
            i = i + 1;
        }
        proof {
            lemma_entries_map_contains(self.entries@, key@);
        }
        None
    }
}

/// The pair a single line contributes: `None` when the line holds no
/// `=`, else the trimmed halves around the first `=`.
pub open spec fn spec_parse_line(l: Seq<char>) -> Option<(Seq<char>, Seq<char>)> {
    let j = spec_find(l, '=');
    if j < l.len() {
        Some((spec_trim(l.subrange(0, j as int)), spec_trim(l.subrange(j as int + 1, l.len() as int))))
    } else {
        None
    }
}

/// `m` after the pair of one line, if the line contributes one.
pub open spec fn spec_apply_line(
    m: Map<Seq<char>, Seq<char>>,
    l: Seq<char>,
) -> Map<Seq<char>, Seq<char>> {
    match spec_parse_line(l) {
        Some(kv) => m.insert(kv.0, kv.1),
        None => m,
    }
}

/// Folds the rest of the input into `m`, one character at a time:
/// `line` collects the current line until a `\n` (or the end of the
/// input) closes it and its pair, if any, is applied.
pub open spec fn spec_pairs_loop(
    s: Seq<char>,
    line: Seq<char>,
    m: Map<Seq<char>, Seq<char>>,
) -> Map<Seq<char>, Seq<char>>
    decreases s.len(),
{
    if s.len() == 0 {
        spec_apply_line(m, line)
    } else if s[0] == '\n' {
        spec_pairs_loop(s.drop_first(), Seq::empty(), spec_apply_line(m, line))
    } else {
        spec_pairs_loop(s.drop_first(), line.push(s[0]), m)
    }
}

/// The map that the whole input denotes.
pub open spec fn spec_parse_pairs(s: Seq<char>) -> Map<Seq<char>, Seq<char>> {
    spec_pairs_loop(s, Seq::empty(), Map::empty())
}

/// Consuming a whole line at once agrees with the character-by-character
/// fold: up to the first `\n` of `s` (at `j`, or absent when `j` is the
/// length of `s`) the fold only extends the current line.
proof fn lemma_pairs_loop_line(s: Seq<char>, line: Seq<char>, m: Map<Seq<char>, Seq<char>>, j: int)
    requires
        0 <= j <= s.len(),
        forall|k: int| 0 <= k < j ==> s[k] != '\n',
        j < s.len() ==> s[j] == '\n',
    ensures
        j == s.len() ==> spec_pairs_loop(s, line, m) == spec_apply_line(m, line + s),
        j < s.len() ==> spec_pairs_loop(s, line, m) == spec_pairs_loop(
            s.subrange(j + 1, s.len() as int),
            Seq::empty(),
            spec_apply_line(m, line + s.subrange(0, j)),
        ),
    decreases j,
{
    if j == 0 {
        if s.len() == 0 {
            assert(line + s =~= line);
        } else {
            assert(s.drop_first() =~= s.subrange(1, s.len() as int));
            assert(line + s.subrange(0, 0) =~= line);
        }
    } else {
        assert(s[0] != '\n');
        lemma_pairs_loop_line(s.drop_first(), line.push(s[0]), m, j - 1);
        if j == s.len() {
            assert(line.push(s[0]) + s.drop_first() =~= line + s);
        } else {
            assert(line.push(s[0]) + s.drop_first().subrange(0, j - 1) =~= line + s.subrange(
                0,
                j,
            ));
            assert(s.drop_first().subrange(j, s.len() as int - 1) =~= s.subrange(
                j + 1,
                s.len() as int,
            ));
        }
    }
}

/// The pair that the range `[lo, hi)` of `s` contributes as one line.
fn line_pair(s: &str, lo: usize, hi: usize) -> (r: Option<(String, String)>)
    requires
        lo <= hi <= s@.len(),
    ensures
        match r {
            Some(kv) => spec_parse_line(s@.subrange(lo as int, hi as int)) == Some((kv.0@, kv.1@)),
            None => spec_parse_line(s@.subrange(lo as int, hi as int)) is None,
        },
{
    let ghost lseq = s@.subrange(lo as int, hi as int);
    let k = find_from(s, lo, hi, '=');
    proof {
        assert(forall|t: int| 0 <= t < lseq.len() ==> lseq[t] == s@[lo + t]);
        lemma_find_is(lseq, '=', k - lo);
    }
    if k < hi {
        let (ks, ke) = trim_range(s, lo, k);
        let (vs, ve) = trim_range(s, k + 1, hi);
        let key = String::from_str(s.substring_char(ks, ke));
        let value = String::from_str(s.substring_char(vs, ve));
        proof {
            assert(lseq.subrange(0, k - lo) =~= s@.subrange(lo as int, k as int));
            assert(lseq.subrange(k - lo + 1, lseq.len() as int) =~= s@.subrange(
                k as int + 1,
                hi as int,
            ));
        }
        Some((key, value))
    } else {
        None
    }
}

/// Parses `input` line by line: every line that holds an `=` binds the
/// trimmed text before its first `=` to the trimmed text after it, and
/// a later line wins over an earlier one with the same key.
pub fn parse_pairs(input: &str) -> (m: PairMap)
    ensures
        m.wf(),
        m@ == spec_parse_pairs(input@),
{
    let n = input.unicode_len();
    let mut pm = PairMap::new();
    let mut i: usize = 0;
    proof {
        assert(input@.subrange(0, n as int) =~= input@);
    }
    while i < n
        invariant
            i <= n,
            n == input@.len(),
            pm.wf(),
            spec_parse_pairs(input@) == spec_pairs_loop(
                input@.subrange(i as int, n as int),
                Seq::empty(),
                pm@,
            ),
        decreases n - i,
    {
        let ghost m0 = pm@;
        let ghost rest = input@.subrange(i as int, n as int);
        let j = find_from(input, i, n, '\n');
        let ghost lseq = input@.subrange(i as int, j as int);
        proof {
            assert(forall|k: int| 0 <= k < j - i ==> rest[k] == input@[i + k]);
            if j < n {
                assert(rest[j - i] == '\n');
            }
            lemma_pairs_loop_line(rest, Seq::empty(), m0, j - i);
            if j < n {
                assert(Seq::<char>::empty() + rest.subrange(0, j - i) =~= lseq);
            } else {
                assert(Seq::<char>::empty() + rest =~= lseq);
            }
        }
        match line_pair(input, i, j) {
            Some(kv) => {
                let (key, value) = kv;
                pm.insert(key, value);
            },
            None => {
                proof {
                    assert(spec_apply_line(m0, lseq) == m0);
                }
            },
        }
        if j < n {
            proof {
                assert(rest.subrange(j - i + 1, rest.len() as int) =~= input@.subrange(
                    j as int + 1,
                    n as int,
                ));
            }
            i = j + 1;
        } else {
            proof {
                assert(input@.subrange(n as int, n as int) =~= Seq::<char>::empty());
                assert(spec_pairs_loop(Seq::<char>::empty(), Seq::<char>::empty(), pm@) == pm@);
            }
            i = n;
        }
    }
    proof {
        assert(input@.subrange(n as int, n as int) =~= Seq::<char>::empty());
        assert(spec_pairs_loop(Seq::<char>::empty(), Seq::<char>::empty(), pm@) == pm@);
    }
    pm
}

} // verus!
