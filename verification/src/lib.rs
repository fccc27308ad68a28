//! A versioned, content-addressed file-tree metadata store.
//!
//! The library keeps file-tree snapshots in an append-only container held in
//! an in-memory network store: each file's bytes live as an immutable blob
//! under a fixed-size address, a `FilesMap` records per-path metadata and a
//! link to each blob, and a `FilesContainer` is the append-only log of
//! canonically encoded snapshots. Raw addresses are presented to callers as
//! scheme-prefixed textual identifiers that round-trip exactly.

use vstd::prelude::*;

pub mod errors;
pub mod files_map;
pub mod snapshot;
pub mod store;
pub mod text;
pub mod time;
pub mod xorurl;

use crate::errors::SafeError;
use crate::files_map::{build_model, ContentMap, FilesMap, MapModel};
use crate::snapshot::{decode_files_map, enc_map, encode_files_map, wf_model};
use crate::store::SafeApp;
use crate::time::current_timestamp;
use crate::xorurl::{xorname_to_xorurl, xorurl_to_xorname, XorUrl, XOR_NAME_LEN};

verus! {

/// The type tag that marks an append-only sequence as a FilesContainer.
pub const FILES_CONTAINER_TYPE_TAG: u64 = 10100;

/// The client: a handle on the store, with the file-tree operations.
#[derive(Debug)]
pub struct Safe {
    pub safe_app: SafeApp,
}

impl Safe {
    /// Every address the store handed out is well formed and fresh.
    pub open spec fn wf(&self) -> bool {
        self.safe_app.wf()
    }

    /// A client on an empty store.
    pub fn new() -> (r: Safe)
        ensures
            r.wf(),
            forall|n: Seq<u8>| r.safe_app.blob_at(n) is None,
            forall|n: Seq<u8>| r.safe_app.seq_at(n) is None,
    {
        Safe { safe_app: SafeApp::new() }
    }

    /// Builds a snapshot from a content map and the files' sizes (aligned
    /// with the map's entries, `None` where metadata could not be read) at
    /// the current wall-clock time, and returns its canonical encoding.
    ///
    /// All-or-nothing: where any size is missing, the whole build fails
    /// with `MetadataUnavailable` naming the first such path, and nothing
    /// partial is produced.
    pub fn files_map_create(&mut self, content: &ContentMap, sizes: &Vec<Option<u64>>) -> (r:
        Result<String, SafeError>)
        requires
            content.wf(),
            sizes@.len() == content.model().len(),
        ensures
            *final(self) == *old(self),
            match r {
                Ok(s) => (forall|i: int| 0 <= i < sizes@.len() ==> (#[trigger] sizes@[i]) is Some)
                    && (exists|now: Seq<char>| s@ == enc_map(
                    build_model(content.model(), sizes@, now),
                )),
                Err(e) => exists|i: int|
                    0 <= i < sizes@.len() && (#[trigger] sizes@[i]) is None && e
                        == SafeError::MetadataUnavailable(content.entries@[i].0) && (forall|j: int|
                        0 <= j < i ==> (#[trigger] sizes@[j]) is Some),
            },
    {
        let now = current_timestamp();
        let fm = match crate::files_map::build_files_map(content, sizes, now.as_str()) {
            Ok(fm) => fm,
            Err(e) => {
                return Err(e);
            },
        };
        let s = encode_files_map(&fm);
        proof {
            assert(s@ == enc_map(build_model(content.model(), sizes@, now@)));
        }
        Ok(s)
    }

    /// Creates a FilesContainer whose first version is the given encoded
    /// snapshot, keyed by the current wall-clock time, and returns the
    /// container's presentable address.
    pub fn files_container_create(&mut self, files_map_data: String) -> (r: Result<
        XorUrl,
        SafeError,
    >)
        requires
            old(self).wf(),
        ensures
            final(self).wf(),
            match r {
                Ok(url) => exists|nm: Seq<u8>|
                    #![trigger crate::xorurl::xorurl_of(nm)]
                    nm.len() == XOR_NAME_LEN && url@ == crate::xorurl::xorurl_of(nm) && old(
                        self,
                    ).safe_app.seq_at(nm) is None
                        && (final(self).safe_app.seq_at(nm) matches Some(q) && q.0
                        == FILES_CONTAINER_TYPE_TAG && q.1.len() == 1 && q.1[0].1
                        == files_map_data@) && (forall|n2: Seq<u8>|
                        n2 != nm ==> final(self).safe_app.seq_at(n2) == old(self).safe_app.seq_at(
                            n2,
                        )) && (forall|n2: Seq<u8>|
                        final(self).safe_app.blob_at(n2) == old(self).safe_app.blob_at(n2)),
                Err(e) => e == SafeError::WriteRejected && old(self).safe_app.next_id
                    == u64::MAX && *final(self) == *old(self),
            },
    {
        let now = current_timestamp();
        let ghost nowv = now@;
        let ghost datav = files_map_data@;
        let mut data: Vec<(String, String)> = Vec::new();
        data.push((now, files_map_data));
        proof {
            assert(crate::store::entries_model(data@) =~= seq![(nowv, datav)]);
        }
        let name = match self.safe_app.put_seq_appendable_data(data, FILES_CONTAINER_TYPE_TAG) {
            Ok(n) => n,
            Err(e) => {
                return Err(e);
            },
        };
        let url = xorname_to_xorurl(&name);
        Ok(url)
    }

    /// Appends a new version holding the given encoded snapshot, keyed by
    /// the current wall-clock time, and returns the new version's ordinal
    /// (the version written by `files_container_create` is ordinal zero).
    pub fn files_container_update(&mut self, xorurl: &str, files_map_data: String) -> (r: Result<
        u64,
        SafeError,
    >)
        requires
            old(self).wf(),
        ensures
            final(self).wf(),
            match r {
                Ok(ver) => exists|nm: Seq<u8>|
                    #![trigger crate::xorurl::xorurl_of(nm)]
                    nm.len() == XOR_NAME_LEN && xorurl@ == crate::xorurl::xorurl_of(nm) && (old(
                        self,
                    ).safe_app.seq_at(nm)
                        matches Some(p) && p.0 == FILES_CONTAINER_TYPE_TAG && p.1.len() > 0 && ver
                        == p.1.len() && (final(self).safe_app.seq_at(nm) matches Some(q) && q.0
                        == FILES_CONTAINER_TYPE_TAG && q.1.len() == p.1.len() + 1 && q.1.take(
                        p.1.len() as int,
                    ) == p.1 && q.1.last().1 == files_map_data@) && (forall|n2: Seq<u8>|
                        n2 != nm ==> final(self).safe_app.seq_at(n2) == old(self).safe_app.seq_at(
                            n2,
                        )) && (forall|n2: Seq<u8>|
                        final(self).safe_app.blob_at(n2) == old(self).safe_app.blob_at(n2))),
                Err(e) => *final(self) == *old(self) && ((e == SafeError::AddressMalformed && (
                forall|b: Seq<u8>|
                    b.len() == XOR_NAME_LEN ==> xorurl@ != crate::xorurl::xorurl_of(b))) || (
                exists|nm: Seq<u8>|
                    nm.len() == XOR_NAME_LEN && xorurl@ == crate::xorurl::xorurl_of(nm) && ((e
                        == SafeError::ContainerNotFound && !(old(self).safe_app.seq_at(nm)
                        matches Some(p) && p.0 == FILES_CONTAINER_TYPE_TAG)) || (old(
                        self,
                    ).safe_app.seq_at(nm) matches Some(p) && e == SafeError::Empty && p.0
                        == FILES_CONTAINER_TYPE_TAG && p.1.len() == 0)))),
            },
    {
        let name = match xorurl_to_xorname(xorurl) {
            Ok(n) => n,
            Err(_) => {
                return Err(SafeError::AddressMalformed);
            },
        };
        let now = current_timestamp();
        match self.safe_app.append_seq_appendable_data(
            (now, files_map_data),
            &name,
            FILES_CONTAINER_TYPE_TAG,
        ) {
            Ok(ver) => {
                proof {
                    let nm = name.bytes@;
                    let p = old(self).safe_app.seq_at(nm)->Some_0;
                    let q = final(self).safe_app.seq_at(nm)->Some_0;
                    assert(q.1.take(p.1.len() as int) =~= p.1);
                }
                Ok(ver)
            },
            Err(e) => {
                match e {
                    SafeError::NotFound => Err(SafeError::ContainerNotFound),
                    other => Err(other),
                }
            },
        }
    }

    /// Resolves a container address and decodes its latest snapshot.
    ///
    /// A container that exists but holds no entries yields an empty
    /// FilesMap; an absent container, or one with another type tag, fails
    /// with `ContainerNotFound`; a stored payload that is not a canonical
    /// encoding fails with `CorruptSnapshot`.
    pub fn files_container_get_latest(&self, xorurl: &str) -> (r: Result<FilesMap, SafeError>)
        ensures
            match r {
                Ok(m) => m.wf() && exists|nm: Seq<u8>|
                    nm.len() == XOR_NAME_LEN && xorurl@ == crate::xorurl::xorurl_of(nm) && (
                    self.safe_app.seq_at(nm)
                        matches Some(p) && p.0 == FILES_CONTAINER_TYPE_TAG && ((p.1.len() > 0
                        && p.1.last().1 == enc_map(m.model())) || (p.1.len() == 0 && m.model()
                        == MapModel::empty()))),
                Err(e) => (e == SafeError::AddressMalformed && (forall|b: Seq<u8>|
                    b.len() == XOR_NAME_LEN ==> xorurl@ != crate::xorurl::xorurl_of(b))) || (
                exists|nm: Seq<u8>|
                    nm.len() == XOR_NAME_LEN && xorurl@ == crate::xorurl::xorurl_of(nm) && ((e
                        == SafeError::ContainerNotFound && !(self.safe_app.seq_at(nm)
                        matches Some(p) && p.0
                        == FILES_CONTAINER_TYPE_TAG)) || (self.safe_app.seq_at(nm) matches Some(p)
                        && e == SafeError::CorruptSnapshot && p.0 == FILES_CONTAINER_TYPE_TAG
                        && p.1.len() > 0 && (forall|mm: MapModel|
                        wf_model(mm) ==> p.1.last().1 != enc_map(mm))))),
            },
    {
        let name = match xorurl_to_xorname(xorurl) {
            Ok(n) => n,
            Err(_) => {
                return Err(SafeError::AddressMalformed);
            },
        };
        match self.safe_app.get_seq_appendable_latest(&name, FILES_CONTAINER_TYPE_TAG) {
            Ok(entry) => {
                match decode_files_map(entry.1.as_str()) {
                    Ok(m) => Ok(m),
                    Err(_) => Err(SafeError::CorruptSnapshot),
                }
            },
            Err(SafeError::Empty) => Ok(FilesMap::new()),
            Err(_) => Err(SafeError::ContainerNotFound),
        }
    }

    /// Stores bytes as a published immutable blob and returns its
    /// presentable address.
    pub fn files_put_published_immutable(&mut self, data: &[u8]) -> (r: Result<XorUrl, SafeError>)
        requires
            old(self).wf(),
        ensures
            final(self).wf(),
            match r {
                Ok(url) => exists|nm: Seq<u8>|
                    nm.len() == XOR_NAME_LEN && url@ == crate::xorurl::xorurl_of(nm) && old(
                        self,
                    ).safe_app.blob_at(nm) is None
                        && final(self).safe_app.blob_at(nm) == Some(data@) && (forall|n2: Seq<u8>|
                        n2 != nm ==> final(self).safe_app.blob_at(n2) == old(self).safe_app.blob_at(
                            n2,
                        )) && (forall|n2: Seq<u8>|
                        final(self).safe_app.seq_at(n2) == old(self).safe_app.seq_at(n2)),
                Err(e) => e == SafeError::WriteRejected && old(self).safe_app.next_id
                    == u64::MAX && *final(self) == *old(self),
            },
    {
        let name = match self.safe_app.files_put_published_immutable(data) {
            Ok(n) => n,
            Err(e) => {
                return Err(e);
            },
        };
        let url = xorname_to_xorurl(&name);
        Ok(url)
    }

    /// Returns the exact bytes stored at a presentable address, or
    /// `NotFound` where nothing was ever stored there.
    pub fn files_get_published_immutable(&self, xorurl: &str) -> (r: Result<Vec<u8>, SafeError>)
        ensures
            match r {
                Ok(d) => exists|nm: Seq<u8>|
                    nm.len() == XOR_NAME_LEN && xorurl@ == crate::xorurl::xorurl_of(nm)
                        && self.safe_app.blob_at(nm) == Some(
                        d@,
                    ),
                Err(e) => (e == SafeError::AddressMalformed && (forall|b: Seq<u8>|
                    b.len() == XOR_NAME_LEN ==> xorurl@ != crate::xorurl::xorurl_of(b))) || (e
                    == SafeError::NotFound && exists|nm: Seq<u8>|
                    nm.len() == XOR_NAME_LEN && xorurl@ == crate::xorurl::xorurl_of(nm)
                        && self.safe_app.blob_at(nm) is None),
            },
    {
        let name = match xorurl_to_xorname(xorurl) {
            Ok(n) => n,
            Err(_) => {
                return Err(SafeError::AddressMalformed);
            },
        };
        self.safe_app.files_get_published_immutable(&name)
    }
}

} // verus!
