//! Raw documentation as a provider hands it over, and the indexed package
//! that is built from it.

use vstd::prelude::*;
use crate::digest::{digest, digest_of};
use crate::entry::{copy_entries, entry_views, DocEntry, EntryView};
use crate::identity::{IdentityView, PackageIdentity};

verus! {

/// Unparsed documentation content for one package.
#[derive(Debug, PartialEq, Eq)]
pub struct RawDocument {
    pub bytes: Vec<u8>,
}

impl View for RawDocument {
    type V = Seq<u8>;

    open spec fn view(&self) -> Seq<u8> {
        self.bytes@
    }
}

impl RawDocument {
    /// Raw content from its bytes.
    pub fn new(bytes: Vec<u8>) -> (raw: Self)
        ensures
            raw.bytes == bytes,
    {
        RawDocument { bytes }
    }
}

/// The indexed entries of one package, with the time of indexing and the
/// digest of the source they were parsed from.
#[derive(Debug, PartialEq, Eq)]
pub struct IndexedPackage {
    pub identity: PackageIdentity,
    pub entries: Vec<DocEntry>,
    pub indexed_at: u64,
    pub content_hash: u64,
}

/// What an [`IndexedPackage`] holds.
pub struct PackageView {
    pub identity: IdentityView,
    pub entries: Seq<EntryView>,
    pub indexed_at: u64,
    pub content_hash: u64,
}

impl PackageView {
    /// Every entry has a path and a title.
    pub open spec fn well_formed(self) -> bool {
        forall|i: int| 0 <= i < self.entries.len() ==> (#[trigger] self.entries[i]).well_formed()
    }
}

impl View for IndexedPackage {
    type V = PackageView;

    open spec fn view(&self) -> PackageView {
        PackageView {
            identity: self.identity@,
            entries: entry_views(self.entries@),
            indexed_at: self.indexed_at,
            content_hash: self.content_hash,
        }
    }
}

/// The package that indexing `raw` at time `now` gives, when `raw` parses to
/// `entries`.
pub open spec fn built(
    identity: IdentityView,
    raw: Seq<u8>,
    entries: Seq<EntryView>,
    now: u64,
) -> PackageView {
    PackageView { identity, entries, indexed_at: now, content_hash: digest_of(raw) }
}

impl IndexedPackage {
    /// Builds the package for `identity` from the raw content and the entries
    /// it parsed to, stamped with the time `now`.
    pub fn build(identity: PackageIdentity, raw: &RawDocument, entries: Vec<DocEntry>, now: u64) -> (pkg:
        Self)
        ensures
            pkg.identity == identity,
            pkg.entries == entries,
            pkg@ == built(identity@, raw@, entry_views(entries@), now),
    {
        let content_hash = digest(raw.bytes.as_slice());
        IndexedPackage { identity, entries, indexed_at: now, content_hash }
    }
}

impl Clone for IndexedPackage {
    fn clone(&self) -> (r: Self)
        ensures
            r@ == self@,
    {
        IndexedPackage {
            identity: self.identity.clone(),
            entries: copy_entries(&self.entries),
            indexed_at: self.indexed_at,
            content_hash: self.content_hash,
        }
    }
}

} // verus!
