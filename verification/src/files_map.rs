//! File-tree metadata snapshots.
//!
//! A `FileItem` is an ordered attribute-to-value mapping for one file; a
//! `FilesMap` is an ordered path-to-`FileItem` mapping; a `ContentMap` is the
//! builder input, an ordered path-to-link mapping. All three keep their keys
//! strictly sorted, which makes the canonical encoding deterministic.

use vstd::prelude::*;

use crate::errors::SafeError;
use crate::text::{
    chars_lt, chars_string, dec_digits, lemma_lex_lt_irreflexive, lemma_lex_lt_transitive,
    lemma_lex_lt_trichotomy, lex_lt, str_chars, u64_to_string,
};
use vstd::string::StringExecFns;

verus! {

/// The mathematical model of an attribute mapping: key-value pairs of
/// character sequences, in key order.
pub type PairsModel = Seq<(Seq<char>, Seq<char>)>;

/// The mathematical model of a path-to-item mapping.
pub type MapModel = Seq<(Seq<char>, PairsModel)>;

/// Keys are strictly increasing: each key occurs once and in order.
pub open spec fn pairs_sorted(m: PairsModel) -> bool {
    forall|i: int, j: int| 0 <= i < j < m.len() ==> lex_lt(#[trigger] m[i].0, #[trigger] m[j].0)
}

/// Paths are strictly increasing: each path occurs once and in order.
pub open spec fn paths_sorted(m: MapModel) -> bool {
    forall|i: int, j: int| 0 <= i < j < m.len() ==> lex_lt(#[trigger] m[i].0, #[trigger] m[j].0)
}

/// The value under a key, or `None` where the key is absent.
pub open spec fn pair_lookup(m: PairsModel, k: Seq<char>) -> Option<Seq<char>>
    decreases m.len(),
{
    if m.len() == 0 {
        None
    } else if m[0].0 == k {
        Some(m[0].1)
    } else {
        pair_lookup(m.skip(1), k)
    }
}

/// The item under a path, or `None` where the path is absent.
pub open spec fn map_lookup(m: MapModel, k: Seq<char>) -> Option<PairsModel>
    decreases m.len(),
{
    if m.len() == 0 {
        None
    } else if m[0].0 == k {
        Some(m[0].1)
    } else {
        map_lookup(m.skip(1), k)
    }
}

/// Decides whether two strings hold the same characters.
pub fn str_eq(a: &str, b: &str) -> (r: bool)
    ensures
        r == (a@ == b@),
{
    let ca = str_chars(a);
    let cb = str_chars(b);
    if ca.len() != cb.len() {
        return false;
    }
    let mut i: usize = 0;
    while i < ca.len()
        invariant
            ca@ == a@,
            cb@ == b@,
            ca@.len() == cb@.len(),
            i <= ca@.len(),
            forall|j: int| 0 <= j < i ==> ca@[j] == cb@[j],
        decreases ca@.len() - i,
    {
        if ca[i] as u32 != cb[i] as u32 {
            return false;
        }
        proof {
            vstd::utf8::char_u32_cast(ca@[i as int], ca@[i as int] as u32);
            vstd::utf8::char_u32_cast(cb@[i as int], cb@[i as int] as u32);
        }
        i += 1;
    }
    proof {
        assert(a@ =~= b@);
    }
    true
}

/// One file's metadata snapshot entry: an ordered mapping from attribute
/// name to string value.
#[derive(Debug)]
pub struct FileItem {
    pub attrs: Vec<(String, String)>,
}

impl FileItem {
    /// The item as key-value pairs of character sequences.
    pub open spec fn model(&self) -> PairsModel {
        self.attrs@.map_values(|p: (String, String)| (p.0@, p.1@))
    }

    /// Attribute names are strictly sorted.
    pub open spec fn wf(&self) -> bool {
        pairs_sorted(self.model())
    }

    /// An item with no attributes.
    pub fn new() -> (r: FileItem)
        ensures
            r.wf(),
            r.model() == PairsModel::empty(),
    {
        let r = FileItem { attrs: Vec::new() };
        proof {
            assert(r.model() =~= PairsModel::empty());
        }
        r
    }

    /// Appends an attribute whose name sorts after every present name.
    pub fn push_attr(&mut self, name: String, value: String)
        requires
            old(self).wf(),
            forall|i: int| 0 <= i < old(self).model().len() ==> lex_lt(
                #[trigger] old(self).model()[i].0,
                name@,
            ),
        ensures
            final(self).wf(),
            final(self).model() == old(self).model().push((name@, value@)),
    {
        let ghost m0 = self.model();
        let ghost nv = name@;
        let ghost vv = value@;
        self.attrs.push((name, value));
        proof {
            let m1 = self.model();
            assert(m1 =~= m0.push((nv, vv)));
            assert forall|a: int, b: int| 0 <= a < b < m1.len() implies lex_lt(
                #[trigger] m1[a].0,
                #[trigger] m1[b].0,
            ) by {
                assert(m1[a].0 == m0[a].0);
                if b < m0.len() {
                    assert(m1[b].0 == m0[b].0);
                } else {
                    assert(m1[b].0 == nv);
                }
            }
        }
    }

    /// The value stored under the given attribute name.
    pub fn get(&self, name: &str) -> (r: Option<&String>)
        ensures
            match r {
                Some(v) => pair_lookup(self.model(), name@) == Some(v@),
                None => pair_lookup(self.model(), name@) is None,
            },
    {
        let mut i: usize = 0;
        proof {
            assert(self.model().skip(0) =~= self.model());
        }
        while i < self.attrs.len()
            invariant
                i <= self.attrs@.len(),
                pair_lookup(self.model(), name@) == pair_lookup(
                    self.model().skip(i as int),
                    name@,
                ),
            decreases self.attrs@.len() - i,
        {
            proof {
                assert(self.model().skip(i as int)[0] == self.model()[i as int]);
                assert(self.model().skip(i as int).skip(1) =~= self.model().skip(i + 1));
            }
            if str_eq(self.attrs[i].0.as_str(), name) {
                return Some(&self.attrs[i].1);
            }
            i += 1;
        }
        proof {
            assert(self.model().skip(i as int) =~= PairsModel::empty());
        }
        None
    }

    /// The number of attributes.
    pub fn len(&self) -> (r: usize)
        ensures
            r == self.model().len(),
    {
        self.attrs.len()
    }
}

/// An ordered mapping from file path to `FileItem`: one complete snapshot
/// of a file tree's metadata.
#[derive(Debug)]
pub struct FilesMap {
    pub entries: Vec<(String, FileItem)>,
}

impl FilesMap {
    /// The snapshot as path-item pairs of character sequences.
    pub open spec fn model(&self) -> MapModel {
        self.entries@.map_values(|p: (String, FileItem)| (p.0@, p.1.model()))
    }

    /// Paths are strictly sorted and every item is well formed.
    pub open spec fn wf(&self) -> bool {
        paths_sorted(self.model()) && (forall|i: int|
            0 <= i < self.model().len() ==> pairs_sorted(#[trigger] self.model()[i].1))
    }

    /// A snapshot with no entries.
    pub fn new() -> (r: FilesMap)
        ensures
            r.wf(),
            r.model() == MapModel::empty(),
    {
        let r = FilesMap { entries: Vec::new() };
        proof {
            assert(r.model() =~= MapModel::empty());
        }
        r
    }

    /// Appends an entry whose path sorts after every present path.
    pub fn push_entry(&mut self, path: String, item: FileItem)
        requires
            old(self).wf(),
            item.wf(),
            forall|i: int| 0 <= i < old(self).model().len() ==> lex_lt(
                #[trigger] old(self).model()[i].0,
                path@,
            ),
        ensures
            final(self).wf(),
            final(self).model() == old(self).model().push((path@, item.model())),
    {
        let ghost m0 = self.model();
        let ghost pv = path@;
        let ghost im = item.model();
        self.entries.push((path, item));
        proof {
            let m1 = self.model();
            assert(m1 =~= m0.push((pv, im)));
            assert forall|a: int, b: int| 0 <= a < b < m1.len() implies lex_lt(
                #[trigger] m1[a].0,
                #[trigger] m1[b].0,
            ) by {
                assert(m1[a].0 == m0[a].0);
                if b < m0.len() {
                    assert(m1[b].0 == m0[b].0);
                } else {
                    assert(m1[b].0 == pv);
                }
            }
            assert forall|i: int| 0 <= i < m1.len() implies pairs_sorted(#[trigger] m1[i].1) by {
                if i < m0.len() {
                    assert(m1[i].1 == m0[i].1);
                } else {
                    assert(m1[i].1 == im);
                }
            }
        }
    }

    /// The item stored under the given path.
    pub fn get(&self, path: &str) -> (r: Option<&FileItem>)
        ensures
            match r {
                Some(it) => map_lookup(self.model(), path@) == Some(it.model()),
                None => map_lookup(self.model(), path@) is None,
            },
    {
        let mut i: usize = 0;
        proof {
            assert(self.model().skip(0) =~= self.model());
        }
        while i < self.entries.len()
            invariant
                i <= self.entries@.len(),
                map_lookup(self.model(), path@) == map_lookup(self.model().skip(i as int), path@),
            decreases self.entries@.len() - i,
        {
            proof {
                assert(self.model().skip(i as int)[0] == self.model()[i as int]);
                assert(self.model().skip(i as int).skip(1) =~= self.model().skip(i + 1));
            }
            if str_eq(self.entries[i].0.as_str(), path) {
                return Some(&self.entries[i].1);
            }
            i += 1;
        }
        proof {
            assert(self.model().skip(i as int) =~= MapModel::empty());
        }
        None
    }

    /// The number of entries.
    pub fn len(&self) -> (r: usize)
        ensures
            r == self.model().len(),
    {
        self.entries.len()
    }
}

/// The builder input: an ordered mapping from file path to the presentable
/// address of the file's stored blob.
#[derive(Debug)]
pub struct ContentMap {
    pub entries: Vec<(String, String)>,
}

impl ContentMap {
    /// The mapping as path-link pairs of character sequences.
    pub open spec fn model(&self) -> PairsModel {
        self.entries@.map_values(|p: (String, String)| (p.0@, p.1@))
    }

    /// Paths are strictly sorted.
    pub open spec fn wf(&self) -> bool {
        pairs_sorted(self.model())
    }

    /// An empty mapping.
    pub fn new() -> (r: ContentMap)
        ensures
            r.wf(),
            r.model() == PairsModel::empty(),
    {
        let r = ContentMap { entries: Vec::new() };
        proof {
            assert(r.model() =~= PairsModel::empty());
        }
        r
    }

    /// Maps `path` to `link`, keeping paths sorted: an entry with an equal
    /// path is replaced, any other entry is kept unchanged.
    pub fn insert(&mut self, path: String, link: String)
        requires
            old(self).wf(),
        ensures
            final(self).wf(),
            pair_lookup(final(self).model(), path@) == Some(link@),
            exists|i: int|
                0 <= i <= old(self).model().len() && (if i < old(self).model().len() && old(
                    self,
                ).model()[i].0 == path@ {
                    final(self).model() == old(self).model().update(i, (path@, link@))
                } else {
                    final(self).model() == old(self).model().insert(i, (path@, link@))
                }),
    {
        let ghost m0 = self.model();
        let ghost pv = path@;
        let ghost lv = link@;
        let pc = str_chars(path.as_str());
        let mut i: usize = 0;
        loop
            invariant
                self == old(self),
                m0 == self.model(),
                pc@ == pv,
                pv == path@,
                lv == link@,
                i <= m0.len(),
                forall|j: int| 0 <= j < i ==> lex_lt(#[trigger] m0[j].0, pv),
            ensures
                i <= m0.len(),
                self == old(self),
                forall|j: int| 0 <= j < i ==> lex_lt(#[trigger] m0[j].0, pv),
                i < m0.len() ==> !lex_lt(m0[i as int].0, pv),
            decreases m0.len() - i,
        {
            if i >= self.entries.len() {
                break;
            }
            let ec = str_chars(self.entries[i].0.as_str());
            if !chars_lt(&ec, &pc) {
                break;
            }
            i += 1;
        }
        let replace = i < self.entries.len() && str_eq(self.entries[i].0.as_str(), path.as_str());
        if replace {
            self.entries.remove(i);
            self.entries.insert(i, (path, link));
            proof {
                let m1 = self.model();
                assert(m1 =~= m0.update(i as int, (pv, lv)));
                assert forall|a: int, b: int| 0 <= a < b < m1.len() implies lex_lt(
                    #[trigger] m1[a].0,
                    #[trigger] m1[b].0,
                ) by {
                    assert(m1[a].0 == m0[a].0);
                    assert(m1[b].0 == m0[b].0);
                }
            }
        } else {
            proof {
                if i < m0.len() {
                    lemma_lex_lt_trichotomy(pv, m0[i as int].0);
                }
            }
            self.entries.insert(i, (path, link));
            proof {
                let m1 = self.model();
                assert(m1 =~= m0.insert(i as int, (pv, lv)));
                assert forall|a: int, b: int| 0 <= a < b < m1.len() implies lex_lt(
                    #[trigger] m1[a].0,
                    #[trigger] m1[b].0,
                ) by {
                    if b < i {
                        assert(m1[a].0 == m0[a].0 && m1[b].0 == m0[b].0);
                    } else if a > i {
                        assert(m1[a].0 == m0[a - 1].0 && m1[b].0 == m0[b - 1].0);
                    } else if a < i && b == i {
                        assert(m1[a].0 == m0[a].0 && m1[b].0 == pv);
                    } else if a == i && b > i {
                        assert(m1[a].0 == pv && m1[b].0 == m0[b - 1].0);
                        lemma_chain_after(m0, i as int, b - 1, pv);
                    } else {
                        assert(a < i && b > i);
                        assert(m1[a].0 == m0[a].0 && m1[b].0 == m0[b - 1].0);
                        lemma_chain_after(m0, i as int, b - 1, pv);
                        lemma_lex_lt_transitive(m0[a].0, pv, m0[b - 1].0);
                    }
                }
            }
        }
        proof {
            let m1 = self.model();
            assert(exists|k: int| 0 <= k < m1.len() && m1[k] == (pv, lv)) by {
                assert(m1[i as int] == (pv, lv));
            }
            lemma_lookup_sorted(m1, pv);
            assert(m1[i as int].0 == pv && m1[i as int].1 == lv);
        }
    }

    /// The number of entries.
    pub fn len(&self) -> (r: usize)
        ensures
            r == self.model().len(),
    {
        self.entries.len()
    }
}

/// In a sorted mapping, every entry after a position whose key sorts at or
/// after `k` (and differs from it) also sorts after `k`.
proof fn lemma_chain_after(m: PairsModel, i: int, b: int, k: Seq<char>)
    requires
        pairs_sorted(m),
        0 <= i <= b < m.len(),
        !lex_lt(m[i].0, k),
        m[i].0 != k,
    ensures
        lex_lt(k, m[b].0),
{
    lemma_lex_lt_trichotomy(k, m[i].0);
    if b > i {
        lemma_lex_lt_transitive(k, m[i].0, m[b].0);
    }
}

/// Looking a key up in a sorted mapping finds the unique entry holding it.
pub proof fn lemma_lookup_sorted(m: PairsModel, k: Seq<char>)
    requires
        pairs_sorted(m),
    ensures
        forall|i: int|
            0 <= i < m.len() && (#[trigger] m[i]).0 == k ==> pair_lookup(m, k) == Some(m[i].1),
        (forall|i: int| 0 <= i < m.len() ==> (#[trigger] m[i]).0 != k) ==> pair_lookup(m, k)
            is None,
    decreases m.len(),
{
    if m.len() > 0 {
        let t = m.skip(1);
        lemma_lookup_sorted(t, k);
        assert(forall|i: int| 0 <= i < t.len() ==> (#[trigger] t[i]) == m[i + 1]);
        if m[0].0 == k {
            assert forall|i: int|
                0 <= i < m.len() && (#[trigger] m[i]).0 == k implies pair_lookup(m, k) == Some(
                m[i].1,
            ) by {
                if i > 0 {
                    lemma_lex_lt_irreflexive(k);
                    assert(lex_lt(m[0].0, m[i].0));
                    assert(false);
                }
            }
        } else {
            assert forall|i: int|
                0 <= i < m.len() && (#[trigger] m[i]).0 == k implies pair_lookup(m, k) == Some(
                m[i].1,
            ) by {
                assert(t[i - 1] == m[i]);
                assert(pair_lookup(m, k) == pair_lookup(t, k));
            }
        }
    }
}

/// The position of the last occurrence of `c` in `p`, or `-1`.
pub open spec fn last_mark(p: Seq<char>, c: char) -> int
    decreases p.len(),
{
    if p.len() == 0 {
        -1
    } else if p.last() == c {
        p.len() - 1
    } else {
        last_mark(p.drop_last(), c)
    }
}

/// A scan from the end that stops at the first `c` finds the last mark.
proof fn lemma_last_mark(p: Seq<char>, c: char, j: int)
    requires
        0 <= j <= p.len(),
        forall|t: int| j <= t < p.len() ==> p[t] != c,
        j > 0 ==> p[j - 1] == c,
    ensures
        last_mark(p, c) == j - 1,
    decreases p.len(),
{
    if p.len() > 0 {
        if j == p.len() {
            assert(p.last() == c);
        } else {
            assert(p.last() != c);
            assert(forall|t: int| 0 <= t < p.len() - 1 ==> p.drop_last()[t] == p[t]);
            lemma_last_mark(p.drop_last(), c, j);
        }
    }
}

/// ASCII case folding of one character: an uppercase letter becomes its
/// lowercase form, any other character stays itself.
#[verifier::opaque]
pub open spec fn lower_char(c: char) -> char {
    if c == 'A' {
        'a'
    } else if c == 'B' {
        'b'
    } else if c == 'C' {
        'c'
    } else if c == 'D' {
        'd'
    } else if c == 'E' {
        'e'
    } else if c == 'F' {
        'f'
    } else if c == 'G' {
        'g'
    } else if c == 'H' {
        'h'
    } else if c == 'I' {
        'i'
    } else if c == 'J' {
        'j'
    } else if c == 'K' {
        'k'
    } else if c == 'L' {
        'l'
    } else if c == 'M' {
        'm'
    } else if c == 'N' {
        'n'
    } else if c == 'O' {
        'o'
    } else if c == 'P' {
        'p'
    } else if c == 'Q' {
        'q'
    } else if c == 'R' {
        'r'
    } else if c == 'S' {
        's'
    } else if c == 'T' {
        't'
    } else if c == 'U' {
        'u'
    } else if c == 'V' {
        'v'
    } else if c == 'W' {
        'w'
    } else if c == 'X' {
        'x'
    } else if c == 'Y' {
        'y'
    } else if c == 'Z' {
        'z'
    } else {
        c
    }
}

/// Folds one character to lowercase.
fn to_lower_char(c: char) -> (r: char)
    ensures
        r == lower_char(c),
{
    proof {
        reveal(lower_char);
    }
    match c {
        'A' => 'a',
        'B' => 'b',
        'C' => 'c',
        'D' => 'd',
        'E' => 'e',
        'F' => 'f',
        'G' => 'g',
        'H' => 'h',
        'I' => 'i',
        'J' => 'j',
        'K' => 'k',
        'L' => 'l',
        'M' => 'm',
        'N' => 'n',
        'O' => 'o',
        'P' => 'p',
        'Q' => 'q',
        'R' => 'r',
        'S' => 's',
        'T' => 't',
        'U' => 'u',
        'V' => 'v',
        'W' => 'w',
        'X' => 'x',
        'Y' => 'y',
        'Z' => 'z',
        other => other,
    }
}

/// ASCII case folding of a character sequence.
pub open spec fn lower_chars(s: Seq<char>) -> Seq<char> {
    s.map_values(|c: char| lower_char(c))
}

/// The attribute value standing for a file's type: the lowercase form of
/// the characters after the last dot of the path's final component, or
/// `"unknown"` where that component has no dot past its first character.
pub open spec fn file_type_of(p: Seq<char>) -> Seq<char> {
    let name = p.skip(last_mark(p, '/') + 1);
    let d = last_mark(name, '.');
    if d >= 1 {
        lower_chars(name.skip(d + 1))
    } else {
        seq!['u', 'n', 'k', 'n', 'o', 'w', 'n']
    }
}

/// Computes the type attribute of a path.
pub fn file_type(path: &str) -> (r: String)
    ensures
        r@ == file_type_of(path@),
{
    let cs = str_chars(path);
    let n = cs.len();
    let mut j: usize = n;
    loop
        invariant
            cs@ == path@,
            n == cs@.len(),
            j <= n,
            forall|t: int| j <= t < n ==> cs@[t] != '/',
        ensures
            j <= n,
            forall|t: int| j <= t < n ==> cs@[t] != '/',
            j > 0 ==> cs@[j - 1] == '/',
        decreases j,
    {
        if j == 0 {
            break;
        }
        if cs[j - 1] == '/' {
            break;
        }
        j -= 1;
    }
    proof {
        lemma_last_mark(cs@, '/', j as int);
    }
    let ghost name = cs@.skip(j as int);
    let mut d: usize = n;
    loop
        invariant
            cs@ == path@,
            n == cs@.len(),
            j <= d <= n,
            forall|t: int| d <= t < n ==> cs@[t] != '.',
        ensures
            j <= d <= n,
            forall|t: int| d <= t < n ==> cs@[t] != '.',
            d > j ==> cs@[d - 1] == '.',
        decreases d,
    {
        if d == j {
            break;
        }
        if cs[d - 1] == '.' {
            break;
        }
        d -= 1;
    }
    proof {
        assert(forall|t: int| 0 <= t < name.len() ==> name[t] == cs@[j + t]);
        lemma_last_mark(name, '.', d - j);
    }
    if d - j >= 2 {
        let mut out: Vec<char> = Vec::new();
        let mut t: usize = d;
        while t < n
            invariant
                cs@ == path@,
                n == cs@.len(),
                d <= t <= n,
                out@ == lower_chars(cs@.subrange(d as int, t as int)),
            decreases n - t,
        {
            out.push(to_lower_char(cs[t]));
            proof {
                assert(out@ =~= lower_chars(cs@.subrange(d as int, t + 1)));
            }
            t += 1;
        }
        proof {
            assert(cs@.subrange(d as int, n as int) =~= name.skip(d - j));
        }
        chars_string(&out)
    } else {
        let r = String::from_str("unknown");
        proof {
            reveal_strlit("unknown");
            assert(r@ =~= seq!['u', 'n', 'k', 'n', 'o', 'w', 'n']);
        }
        r
    }
}

/// The attribute names of a file item, in their sorted order.
pub open spec fn created_key() -> Seq<char> {
    seq!['c', 'r', 'e', 'a', 't', 'e', 'd']
}

pub open spec fn link_key() -> Seq<char> {
    seq!['l', 'i', 'n', 'k']
}

pub open spec fn modified_key() -> Seq<char> {
    seq!['m', 'o', 'd', 'i', 'f', 'i', 'e', 'd']
}

pub open spec fn size_key() -> Seq<char> {
    seq!['s', 'i', 'z', 'e']
}

pub open spec fn type_key() -> Seq<char> {
    seq!['t', 'y', 'p', 'e']
}

/// The metadata item recorded for one file: its blob link, its lowercased
/// type, its byte size, and the snapshot's timestamp as both `created` and
/// `modified`, attributes in sorted name order.
pub open spec fn item_model_of(path: Seq<char>, link: Seq<char>, size: u64, now: Seq<char>)
    -> PairsModel {
    seq![
        (created_key(), now),
        (link_key(), link),
        (modified_key(), now),
        (size_key(), dec_digits(size as nat)),
        (type_key(), file_type_of(path)),
    ]
}

/// The snapshot built from a content map, the files' sizes, and one
/// timestamp: one item per path, in path order.
pub open spec fn build_model(cm: PairsModel, sizes: Seq<Option<u64>>, now: Seq<char>) -> MapModel {
    Seq::new(cm.len(), |i: int| (cm[i].0, item_model_of(cm[i].0, cm[i].1, sizes[i]->Some_0, now)))
}

/// The five attribute names are strictly sorted.
proof fn lemma_item_keys_sorted(path: Seq<char>, link: Seq<char>, size: u64, now: Seq<char>)
    ensures
        pairs_sorted(item_model_of(path, link, size, now)),
{
    let m = item_model_of(path, link, size, now);
    assert(lex_lt(created_key(), link_key()));
    assert(lex_lt(created_key(), modified_key()));
    assert(lex_lt(created_key(), size_key()));
    assert(lex_lt(created_key(), type_key()));
    assert(lex_lt(link_key(), modified_key()));
    assert(lex_lt(link_key(), size_key()));
    assert(lex_lt(link_key(), type_key()));
    assert(lex_lt(modified_key(), size_key()));
    assert(lex_lt(modified_key(), type_key()));
    assert(lex_lt(size_key(), type_key()));
    assert forall|i: int, j: int| 0 <= i < j < m.len() implies lex_lt(
        #[trigger] m[i].0,
        #[trigger] m[j].0,
    ) by {}
}

/// Builds one file item.
fn build_file_item(path: &String, link: &String, size: u64, now: &String) -> (r: FileItem)
    ensures
        r.wf(),
        r.model() == item_model_of(path@, link@, size, now@),
{
    let mut item = FileItem::new();
    let ghost target = item_model_of(path@, link@, size, now@);
    proof {
        lemma_item_keys_sorted(path@, link@, size, now@);
    }
    let ck = String::from_str("created");
    let lk = String::from_str("link");
    let mk = String::from_str("modified");
    let sk = String::from_str("size");
    let tk = String::from_str("type");
    proof {
        reveal_strlit("created");
        reveal_strlit("link");
        reveal_strlit("modified");
        reveal_strlit("size");
        reveal_strlit("type");
        assert(ck@ =~= created_key());
        assert(lk@ =~= link_key());
        assert(mk@ =~= modified_key());
        assert(sk@ =~= size_key());
        assert(tk@ =~= type_key());
    }
    item.push_attr(ck, String::from_str(now.as_str()));
    item.push_attr(lk, String::from_str(link.as_str()));
    item.push_attr(mk, String::from_str(now.as_str()));
    item.push_attr(sk, u64_to_string(size));
    item.push_attr(tk, file_type(path.as_str()));
    proof {
        assert(item.model() =~= target);
    }
    item
}

/// Builds a complete snapshot from the content map, the files' sizes
/// (aligned with the map's entries, `None` where metadata could not be
/// read), and one timestamp. All-or-nothing: where any size is missing the
/// build fails with `MetadataUnavailable` naming the first such path, and
/// no snapshot is produced.
pub fn build_files_map(content: &ContentMap, sizes: &Vec<Option<u64>>, now: &str) -> (r: Result<
    FilesMap,
    SafeError,
>)
    requires
        content.wf(),
        sizes@.len() == content.model().len(),
    ensures
        match r {
            Ok(m) => m.wf() && (forall|i: int|
                0 <= i < sizes@.len() ==> (#[trigger] sizes@[i]) is Some) && m.model()
                == build_model(content.model(), sizes@, now@),
            Err(e) => exists|i: int|
                0 <= i < sizes@.len() && (#[trigger] sizes@[i]) is None && e
                    == SafeError::MetadataUnavailable(content.entries@[i].0) && (forall|j: int|
                    0 <= j < i ==> (#[trigger] sizes@[j]) is Some),
        },
{
    let ghost cm = content.model();
    let mut fm = FilesMap::new();
    let n = content.entries.len();
    let mut i: usize = 0;
    while i < n
        invariant
            content.wf(),
            cm == content.model(),
            n == content.entries@.len(),
            sizes@.len() == n,
            i <= n,
            fm.wf(),
            fm.model().len() == i,
            fm.model() == build_model(cm, sizes@, now@).take(i as int),
            forall|j: int| 0 <= j < i ==> (#[trigger] sizes@[j]) is Some,
        decreases n - i,
    {
        let size = match sizes[i] {
            Some(sz) => sz,
            None => {
                return Err(SafeError::MetadataUnavailable(content.entries[i].0.clone()));
            },
        };
        let item = build_file_item(&content.entries[i].0, &content.entries[i].1, size, &String::from_str(now));
        proof {
            assert forall|j: int| 0 <= j < fm.model().len() implies lex_lt(
                #[trigger] fm.model()[j].0,
                content.entries@[i as int].0@,
            ) by {
                assert(fm.model()[j].0 == build_model(cm, sizes@, now@).take(i as int)[j].0);
                assert(build_model(cm, sizes@, now@)[j].0 == cm[j].0);
                assert(lex_lt(cm[j].0, cm[i as int].0));
            }
        }
        fm.push_entry(content.entries[i].0.clone(), item);
        proof {
            assert(fm.model() =~= build_model(cm, sizes@, now@).take(i + 1));
        }
        i += 1;
    }
    proof {
        assert(build_model(cm, sizes@, now@).take(n as int) =~= build_model(cm, sizes@, now@));
    }
    Ok(fm)
}

/// What a built snapshot holds, entry by entry: the built map has exactly
/// the content map's paths, and each item links to the content map's
/// address for that path, records the file's size as a decimal numeral and
/// its lowercased extension (or `"unknown"`), and carries the one build
/// timestamp as both `created` and `modified`.
pub proof fn lemma_build_model_attributes(
    cm: PairsModel,
    sizes: Seq<Option<u64>>,
    now: Seq<char>,
    i: int,
)
    requires
        sizes.len() == cm.len(),
        0 <= i < cm.len(),
    ensures
        build_model(cm, sizes, now).len() == cm.len(),
        build_model(cm, sizes, now)[i].0 == cm[i].0,
        pair_lookup(build_model(cm, sizes, now)[i].1, created_key()) == Some(now),
        pair_lookup(build_model(cm, sizes, now)[i].1, link_key()) == Some(cm[i].1),
        pair_lookup(build_model(cm, sizes, now)[i].1, modified_key()) == Some(now),
        pair_lookup(build_model(cm, sizes, now)[i].1, size_key()) == Some(
            dec_digits(sizes[i]->Some_0 as nat),
        ),
        pair_lookup(build_model(cm, sizes, now)[i].1, type_key()) == Some(file_type_of(cm[i].0)),
{
    let m = item_model_of(cm[i].0, cm[i].1, sizes[i]->Some_0, now);
    assert(build_model(cm, sizes, now)[i].1 == m);
    lemma_item_keys_sorted(cm[i].0, cm[i].1, sizes[i]->Some_0, now);
    assert(m[0] == (created_key(), now));
    assert(m[1] == (link_key(), cm[i].1));
    assert(m[2] == (modified_key(), now));
    assert(m[3] == (size_key(), dec_digits(sizes[i]->Some_0 as nat)));
    assert(m[4] == (type_key(), file_type_of(cm[i].0)));
    lemma_lookup_sorted(m, created_key());
    lemma_lookup_sorted(m, link_key());
    lemma_lookup_sorted(m, modified_key());
    lemma_lookup_sorted(m, size_key());
    lemma_lookup_sorted(m, type_key());
}

} // verus!
