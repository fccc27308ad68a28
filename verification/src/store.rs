//! The in-memory network store: an immutable, write-once blob store and a
//! set of append-only sequences, both keyed by fixed-size addresses.
//!
//! Addresses are derived from a monotone counter, so every stored object
//! gets an address that no earlier object holds; a sequence, once created,
//! only ever grows at its tail.

use vstd::prelude::*;

use crate::errors::SafeError;
use crate::xorurl::{XorName, XOR_NAME_LEN};

verus! {

/// One stored blob.
#[derive(Debug)]
pub struct Blob {
    pub id: u64,
    pub name: XorName,
    pub data: Vec<u8>,
}

/// One append-only sequence: a type tag and its entries, oldest first.
#[derive(Debug)]
pub struct Sequence {
    pub id: u64,
    pub name: XorName,
    pub tag: u64,
    pub entries: Vec<(String, String)>,
}

/// The entries of a sequence as pairs of character sequences.
pub open spec fn entries_model(es: Seq<(String, String)>) -> Seq<(Seq<char>, Seq<char>)> {
    es.map_values(|p: (String, String)| (p.0@, p.1@))
}

/// The address derived from the `id`-th allocation.
pub open spec fn name_of_id(id: u64) -> Seq<u8> {
    vstd::bytes::spec_u64_to_le_bytes(id) + Seq::new((XOR_NAME_LEN - 8) as nat, |i: int| 0u8)
}

/// Distinct allocations get distinct addresses.
pub proof fn lemma_name_of_id_injective(a: u64, b: u64)
    requires
        name_of_id(a) == name_of_id(b),
    ensures
        a == b,
{
    vstd::bytes::lemma_auto_spec_u64_to_from_le_bytes();
    assert forall|i: int| 0 <= i < 8 implies vstd::bytes::spec_u64_to_le_bytes(a)[i]
        == vstd::bytes::spec_u64_to_le_bytes(b)[i] by {
        assert(name_of_id(a)[i] == vstd::bytes::spec_u64_to_le_bytes(a)[i]);
        assert(name_of_id(b)[i] == vstd::bytes::spec_u64_to_le_bytes(b)[i]);
    }
    assert(vstd::bytes::spec_u64_to_le_bytes(a) =~= vstd::bytes::spec_u64_to_le_bytes(b));
    assert(vstd::bytes::spec_u64_from_le_bytes(vstd::bytes::spec_u64_to_le_bytes(a)) == a);
    assert(vstd::bytes::spec_u64_from_le_bytes(vstd::bytes::spec_u64_to_le_bytes(b)) == b);
}

/// The stored bytes under an address, or `None` where nothing is stored.
pub open spec fn blobs_lookup(bs: Seq<Blob>, name: Seq<u8>) -> Option<Seq<u8>>
    decreases bs.len(),
{
    if bs.len() == 0 {
        None
    } else if bs[0].name.bytes@ == name {
        Some(bs[0].data@)
    } else {
        blobs_lookup(bs.skip(1), name)
    }
}

/// The sequence under an address: its type tag and entries.
pub open spec fn seqs_lookup(ss: Seq<Sequence>, name: Seq<u8>) -> Option<
    (u64, Seq<(Seq<char>, Seq<char>)>),
>
    decreases ss.len(),
{
    if ss.len() == 0 {
        None
    } else if ss[0].name.bytes@ == name {
        Some((ss[0].tag, entries_model(ss[0].entries@)))
    } else {
        seqs_lookup(ss.skip(1), name)
    }
}

/// Decides equality of two addresses.
pub fn xorname_eq(a: &XorName, b: &XorName) -> (r: bool)
    ensures
        r == (a.bytes@ == b.bytes@),
{
    if a.bytes.len() != b.bytes.len() {
        return false;
    }
    let mut i: usize = 0;
    while i < a.bytes.len()
        invariant
            a.bytes@.len() == b.bytes@.len(),
            i <= a.bytes@.len(),
            forall|j: int| 0 <= j < i ==> a.bytes@[j] == b.bytes@[j],
        decreases a.bytes@.len() - i,
    {
        if a.bytes[i] != b.bytes[i] {
            return false;
        }
        i += 1;
    }
    proof {
        assert(a.bytes@ =~= b.bytes@);
    }
    true
}

/// The in-memory store client.
#[derive(Debug)]
pub struct SafeApp {
    pub blobs: Vec<Blob>,
    pub sequences: Vec<Sequence>,
    pub next_id: u64,
}

impl SafeApp {
    /// Every stored object's address comes from an allocation counter below
    /// `next_id`.
    pub open spec fn wf(&self) -> bool {
        (forall|i: int|
            0 <= i < self.blobs@.len() ==> (#[trigger] self.blobs@[i]).name.bytes@ == name_of_id(
                self.blobs@[i].id,
            ) && self.blobs@[i].id < self.next_id) && (forall|i: int|
            0 <= i < self.sequences@.len() ==> (#[trigger] self.sequences@[i]).name.bytes@
                == name_of_id(self.sequences@[i].id) && self.sequences@[i].id < self.next_id)
    }

    /// The stored bytes under an address.
    pub open spec fn blob_at(&self, name: Seq<u8>) -> Option<Seq<u8>> {
        blobs_lookup(self.blobs@, name)
    }

    /// The sequence under an address: its type tag and entries.
    pub open spec fn seq_at(&self, name: Seq<u8>) -> Option<(u64, Seq<(Seq<char>, Seq<char>)>)> {
        seqs_lookup(self.sequences@, name)
    }

    /// An empty store.
    pub fn new() -> (r: SafeApp)
        ensures
            r.wf(),
            forall|n: Seq<u8>| r.blob_at(n) is None,
            forall|n: Seq<u8>| r.seq_at(n) is None,
    {
        SafeApp { blobs: Vec::new(), sequences: Vec::new(), next_id: 0 }
    }

    /// Allocates a fresh address no stored object holds.
    fn fresh_name(&mut self) -> (r: Result<XorName, SafeError>)
        requires
            old(self).wf(),
        ensures
            final(self).wf(),
            final(self).blobs == old(self).blobs,
            final(self).sequences == old(self).sequences,
            match r {
                Ok(name) => old(self).next_id < u64::MAX && name.wf() && name.bytes@ == name_of_id(
                    old(self).next_id,
                ) && final(self).next_id == old(self).next_id + 1 && old(self).blob_at(name.bytes@)
                    is None && old(self).seq_at(name.bytes@) is None && (forall|i: int|
                    0 <= i < old(self).blobs@.len() ==> (#[trigger] old(self).blobs@[i]).name.bytes@ != name.bytes@) && (forall|i: int|
                    0 <= i < old(self).sequences@.len() ==> (#[trigger] old(self).sequences@[i]).name.bytes@ != name.bytes@),
                Err(e) => e == SafeError::WriteRejected && old(self).next_id == u64::MAX
                    && *final(self) == *old(self),
            },
    {
        if self.next_id == u64::MAX {
            return Err(SafeError::WriteRejected);
        }
        let id = self.next_id;
        self.next_id = self.next_id + 1;
        let mut bytes = vstd::bytes::u64_to_le_bytes(id);
        let mut i: usize = 8;
        while i < XOR_NAME_LEN
            invariant
                8 <= i <= XOR_NAME_LEN,
                bytes@.len() == i,
                bytes@.subrange(0, 8) == vstd::bytes::spec_u64_to_le_bytes(id),
                forall|j: int| 8 <= j < i ==> bytes@[j] == 0u8,
            decreases XOR_NAME_LEN - i,
        {
            bytes.push(0u8);
            proof {
                assert(bytes@.subrange(0, 8) =~= vstd::bytes::spec_u64_to_le_bytes(id));
            }
            i += 1;
        }
        proof {
            vstd::bytes::lemma_auto_spec_u64_to_from_le_bytes();
            assert(vstd::bytes::spec_u64_to_le_bytes(id).len() == 8);
            assert(bytes@ =~= name_of_id(id));
        }
        let name = XorName::new(bytes);
        proof {
            assert forall|i2: int|
                0 <= i2 < self.blobs@.len() implies (#[trigger] self.blobs@[i2]).name.bytes@
                != name.bytes@ by {
                if self.blobs@[i2].name.bytes@ == name.bytes@ {
                    lemma_name_of_id_injective(self.blobs@[i2].id, id);
                }
            }
            assert forall|i2: int|
                0 <= i2 < self.sequences@.len() implies (#[trigger] self.sequences@[i2]).name.bytes@
                != name.bytes@ by {
                if self.sequences@[i2].name.bytes@ == name.bytes@ {
                    lemma_name_of_id_injective(self.sequences@[i2].id, id);
                }
            }
            lemma_lookup_none_blobs(self.blobs@, name.bytes@);
            lemma_lookup_none_seqs(self.sequences@, name.bytes@);
        }
        Ok(name)
    }

    /// Stores bytes as a new immutable blob and returns its fresh address.
    pub fn files_put_published_immutable(&mut self, data: &[u8]) -> (r: Result<XorName, SafeError>)
        requires
            old(self).wf(),
        ensures
            final(self).wf(),
            match r {
                Ok(name) => name.wf() && old(self).blob_at(name.bytes@) is None && final(self).blob_at(name.bytes@) == Some(data@) && (forall|n: Seq<u8>|
                    n != name.bytes@ ==> final(self).blob_at(n) == old(self).blob_at(n)) && (
                forall|n: Seq<u8>| final(self).seq_at(n) == old(self).seq_at(n)),
                Err(e) => e == SafeError::WriteRejected && old(self).next_id == u64::MAX
                    && *final(self) == *old(self),
            },
    {
        let ghost s0 = *self;
        let id = self.next_id;
        let name = match self.fresh_name() {
            Ok(n) => n,
            Err(e) => {
                return Err(e);
            },
        };
        let blob = Blob { id, name: XorName { bytes: name.bytes.clone() }, data: vstd::slice::slice_to_vec(data) };
        let ghost blobs0 = self.blobs@;
        self.blobs.insert(0, blob);
        proof {
            assert(self.blobs@.skip(1) =~= blobs0);
            assert forall|n: Seq<u8>|
                n != name.bytes@ implies self.blob_at(n) == s0.blob_at(n) by {
                assert(self.blobs@[0].name.bytes@ == name.bytes@);
            }
            assert(self.blob_at(name.bytes@) == Some(data@));
        }
        Ok(name)
    }

    /// Returns the exact bytes stored at an address, or `NotFound` where no
    /// blob was ever stored there.
    pub fn files_get_published_immutable(&self, xorname: &XorName) -> (r: Result<
        Vec<u8>,
        SafeError,
    >)
        ensures
            match r {
                Ok(d) => self.blob_at(xorname.bytes@) == Some(d@),
                Err(e) => e == SafeError::NotFound && self.blob_at(xorname.bytes@) is None,
            },
    {
        let mut i: usize = 0;
        proof {
            assert(self.blobs@.skip(0) =~= self.blobs@);
        }
        while i < self.blobs.len()
            invariant
                i <= self.blobs@.len(),
                self.blob_at(xorname.bytes@) == blobs_lookup(
                    self.blobs@.skip(i as int),
                    xorname.bytes@,
                ),
            decreases self.blobs@.len() - i,
        {
            proof {
                assert(self.blobs@.skip(i as int)[0] == self.blobs@[i as int]);
                assert(self.blobs@.skip(i as int).skip(1) =~= self.blobs@.skip(i + 1));
            }
            if xorname_eq(&self.blobs[i].name, xorname) {
                return Ok(self.blobs[i].data.clone());
            }
            i += 1;
        }
        proof {
            assert(self.blobs@.skip(i as int) =~= Seq::<Blob>::empty());
        }
        Err(SafeError::NotFound)
    }

    /// Creates a new append-only sequence holding the given entries, under a
    /// fresh address.
    pub fn put_seq_appendable_data(&mut self, data: Vec<(String, String)>, type_tag: u64) -> (r:
        Result<XorName, SafeError>)
        requires
            old(self).wf(),
        ensures
            final(self).wf(),
            match r {
                Ok(name) => name.wf() && old(self).seq_at(name.bytes@) is None && final(self).seq_at(name.bytes@) == Some((type_tag, entries_model(data@))) && (forall|
                    n: Seq<u8>,
                |
                    n != name.bytes@ ==> final(self).seq_at(n) == old(self).seq_at(n)) && (forall|
                    n: Seq<u8>,
                | final(self).blob_at(n) == old(self).blob_at(n)),
                Err(e) => e == SafeError::WriteRejected && old(self).next_id == u64::MAX
                    && *final(self) == *old(self),
            },
    {
        let ghost s0 = *self;
        let id = self.next_id;
        let name = match self.fresh_name() {
            Ok(n) => n,
            Err(e) => {
                return Err(e);
            },
        };
        let sq = Sequence {
            id,
            name: XorName { bytes: name.bytes.clone() },
            tag: type_tag,
            entries: data,
        };
        let ghost seqs0 = self.sequences@;
        let ghost dm = entries_model(sq.entries@);
        self.sequences.insert(0, sq);
        proof {
            assert(self.sequences@.skip(1) =~= seqs0);
            assert forall|n: Seq<u8>| n != name.bytes@ implies self.seq_at(n) == s0.seq_at(n) by {
                assert(self.sequences@[0].name.bytes@ == name.bytes@);
            }
            assert(self.seq_at(name.bytes@) == Some((type_tag, dm)));
        }
        Ok(name)
    }

    /// Appends one entry at the tail of the sequence stored at an address.
    /// Returns the new entry's version ordinal: its position in the
    /// sequence, counting the first entry as version zero.
    pub fn append_seq_appendable_data(
        &mut self,
        entry: (String, String),
        xorname: &XorName,
        type_tag: u64,
    ) -> (r: Result<u64, SafeError>)
        requires
            old(self).wf(),
        ensures
            final(self).wf(),
            match r {
                Ok(ver) => old(self).seq_at(xorname.bytes@) matches Some(p) && p.0 == type_tag
                    && p.1.len() > 0 && ver == p.1.len() && final(self).seq_at(xorname.bytes@)
                    == Some((type_tag, p.1.push((entry.0@, entry.1@)))) && (forall|n: Seq<u8>|
                    n != xorname.bytes@ ==> final(self).seq_at(n) == old(self).seq_at(n)) && (
                forall|n: Seq<u8>| final(self).blob_at(n) == old(self).blob_at(n)),
                Err(e) => *final(self) == *old(self) && ((old(self).seq_at(xorname.bytes@)
                    matches Some(p) && e == SafeError::Empty && p.0 == type_tag && p.1.len() == 0)
                    || (e == SafeError::NotFound && !(old(self).seq_at(xorname.bytes@)
                    matches Some(p) && p.0 == type_tag))),
            },
    {
        let ghost s0 = *self;
        let mut i: usize = 0;
        proof {
            assert(self.sequences@.skip(0) =~= self.sequences@);
        }
        while i < self.sequences.len()
            invariant
                *self == s0,
                s0 == *old(self),
                s0.wf(),
                i <= self.sequences@.len(),
                self.seq_at(xorname.bytes@) == seqs_lookup(
                    self.sequences@.skip(i as int),
                    xorname.bytes@,
                ),
                forall|j: int| 0 <= j < i ==> (#[trigger] self.sequences@[j]).name.bytes@
                    != xorname.bytes@,
            decreases self.sequences@.len() - i,
        {
            proof {
                assert(self.sequences@.skip(i as int)[0] == self.sequences@[i as int]);
                assert(self.sequences@.skip(i as int).skip(1) =~= self.sequences@.skip(i + 1));
            }
            if xorname_eq(&self.sequences[i].name, xorname) {
                if self.sequences[i].tag != type_tag {
                    return Err(SafeError::NotFound);
                }
                if self.sequences[i].entries.len() == 0 {
                    return Err(SafeError::Empty);
                }
                let mut sq = self.sequences.remove(i);
                let ghost es0 = sq.entries@;
                let ver = sq.entries.len() as u64;
                let ghost e0 = entry.0@;
                let ghost e1 = entry.1@;
                sq.entries.push(entry);
                proof {
                    assert(entries_model(sq.entries@) =~= entries_model(es0).push((e0, e1)));
                }
                let ghost removed = self.sequences@;
                self.sequences.insert(i, sq);
                proof {
                    let ss0 = s0.sequences@;
                    let ss1 = self.sequences@;
                    assert(removed =~= ss0.remove(i as int));
                    assert(ss1 =~= ss0.update(i as int, ss1[i as int]));
                    assert(ss1[i as int].name.bytes@ == xorname.bytes@);
                    assert(ss1[i as int].tag == type_tag);
                    assert(entries_model(ss1[i as int].entries@) == entries_model(es0).push(
                        (e0, e1),
                    ));
                    lemma_seqs_lookup_at(ss0, i as int, xorname.bytes@);
                    lemma_seqs_lookup_at(ss1, i as int, xorname.bytes@);
                    assert forall|n: Seq<u8>|
                        n != xorname.bytes@ implies self.seq_at(n) == s0.seq_at(n) by {
                        lemma_seqs_lookup_update_other(ss0, ss1, i as int, n);
                    }
                    assert forall|n: Seq<u8>|
                        #![trigger s0.blob_at(n)]
                        true implies self.blob_at(n) == s0.blob_at(n) by {}
                }
                return Ok(ver);
            }
            i += 1;
        }
        proof {
            assert(self.sequences@.skip(i as int) =~= Seq::<Sequence>::empty());
        }
        Err(SafeError::NotFound)
    }

    /// Reads the last entry of the sequence stored at an address.
    pub fn get_seq_appendable_latest(&self, xorname: &XorName, type_tag: u64) -> (r: Result<
        (String, String),
        SafeError,
    >)
        ensures
            match r {
                Ok(e) => self.seq_at(xorname.bytes@) matches Some(p) && p.0 == type_tag
                    && p.1.len() > 0 && (e.0@, e.1@) == p.1.last(),
                Err(e) => (self.seq_at(xorname.bytes@) matches Some(p) && e == SafeError::Empty
                    && p.0 == type_tag && p.1.len() == 0) || (e == SafeError::NotFound && !(
                self.seq_at(xorname.bytes@) matches Some(p) && p.0 == type_tag)),
            },
    {
        let mut i: usize = 0;
        proof {
            assert(self.sequences@.skip(0) =~= self.sequences@);
        }
        while i < self.sequences.len()
            invariant
                i <= self.sequences@.len(),
                self.seq_at(xorname.bytes@) == seqs_lookup(
                    self.sequences@.skip(i as int),
                    xorname.bytes@,
                ),
            decreases self.sequences@.len() - i,
        {
            proof {
                assert(self.sequences@.skip(i as int)[0] == self.sequences@[i as int]);
                assert(self.sequences@.skip(i as int).skip(1) =~= self.sequences@.skip(i + 1));
            }
            if xorname_eq(&self.sequences[i].name, xorname) {
                if self.sequences[i].tag != type_tag {
                    return Err(SafeError::NotFound);
                }
                let len = self.sequences[i].entries.len();
                if len == 0 {
                    return Err(SafeError::Empty);
                }
                let key = self.sequences[i].entries[len - 1].0.clone();
                let value = self.sequences[i].entries[len - 1].1.clone();
                return Ok((key, value));
            }
            i += 1;
        }
        proof {
            assert(self.sequences@.skip(i as int) =~= Seq::<Sequence>::empty());
        }
        Err(SafeError::NotFound)
    }
}

/// A lookup that misses the first `i` entries finds entry `i` when its
/// address matches.
proof fn lemma_seqs_lookup_at(ss: Seq<Sequence>, i: int, n: Seq<u8>)
    requires
        0 <= i < ss.len(),
        forall|j: int| 0 <= j < i ==> (#[trigger] ss[j]).name.bytes@ != n,
        ss[i].name.bytes@ == n,
    ensures
        seqs_lookup(ss, n) == Some((ss[i].tag, entries_model(ss[i].entries@))),
    decreases i,
{
    if i > 0 {
        assert(forall|j: int| 0 <= j < ss.skip(1).len() ==> (#[trigger] ss.skip(1)[j]) == ss[j
            + 1]);
        lemma_seqs_lookup_at(ss.skip(1), i - 1, n);
    }
}

/// Replacing one sequence in place leaves every other address's lookup
/// unchanged.
proof fn lemma_seqs_lookup_update_other(ss0: Seq<Sequence>, ss1: Seq<Sequence>, i: int, n: Seq<u8>)
    requires
        ss0.len() == ss1.len(),
        0 <= i < ss0.len(),
        forall|j: int| 0 <= j < ss0.len() && j != i ==> #[trigger] ss1[j] == ss0[j],
        ss1[i].name.bytes@ == ss0[i].name.bytes@,
        n != ss0[i].name.bytes@,
    ensures
        seqs_lookup(ss1, n) == seqs_lookup(ss0, n),
    decreases ss0.len(),
{
    if ss0.len() > 0 {
        assert(forall|j: int| 0 <= j < ss0.skip(1).len() ==> (#[trigger] ss0.skip(1)[j]) == ss0[j
            + 1]);
        assert(forall|j: int| 0 <= j < ss1.skip(1).len() ==> (#[trigger] ss1.skip(1)[j]) == ss1[j
            + 1]);
        if i == 0 {
            assert(ss1.skip(1) =~= ss0.skip(1));
        } else {
            assert(ss1[0] == ss0[0]);
            lemma_seqs_lookup_update_other(ss0.skip(1), ss1.skip(1), i - 1, n);
        }
    }
}

/// Append-only monotonicity of a container's versions: one append takes a
/// sequence of `l` versions to `l + 1`, keeps every existing version at its
/// place, and the appended entry becomes the latest; the contracts of
/// `put_seq_appendable_data` and `append_seq_appendable_data` return each
/// new version's ordinal as that `l`, so ordinals count up by one from the
/// single version a container is created with.
pub proof fn lemma_append_monotonic(before: Seq<(Seq<char>, Seq<char>)>, entry: (Seq<char>, Seq<char>))
    ensures
        before.push(entry).len() == before.len() + 1,
        before.push(entry).last() == entry,
        forall|i: int| 0 <= i < before.len() ==> before.push(entry)[i] == before[i],
{
}

/// A lookup misses every entry whose address differs from the target.
proof fn lemma_lookup_none_blobs(bs: Seq<Blob>, n: Seq<u8>)
    requires
        forall|i: int| 0 <= i < bs.len() ==> (#[trigger] bs[i]).name.bytes@ != n,
    ensures
        blobs_lookup(bs, n) is None,
    decreases bs.len(),
{
    if bs.len() > 0 {
        assert(forall|i: int| 0 <= i < bs.skip(1).len() ==> (#[trigger] bs.skip(1)[i]) == bs[i
            + 1]);
        lemma_lookup_none_blobs(bs.skip(1), n);
    }
}

/// A lookup misses every sequence whose address differs from the target.
proof fn lemma_lookup_none_seqs(ss: Seq<Sequence>, n: Seq<u8>)
    requires
        forall|i: int| 0 <= i < ss.len() ==> (#[trigger] ss[i]).name.bytes@ != n,
    ensures
        seqs_lookup(ss, n) is None,
    decreases ss.len(),
{
    if ss.len() > 0 {
        assert(forall|i: int| 0 <= i < ss.skip(1).len() ==> (#[trigger] ss.skip(1)[i]) == ss[i
            + 1]);
        lemma_lookup_none_seqs(ss.skip(1), n);
    }
}

} // verus!
