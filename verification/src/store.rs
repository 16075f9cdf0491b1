//! The store: one record per package identity, holding either the indexed
//! package or, where what was persisted does not read back, the bytes as
//! they were found.
//!
//! Records keep the order in which their identities first entered the store.
//! A record that does not read back stays in the store and is reported when
//! it is asked for; it never stands in the way of the others.

use vstd::prelude::*;
use crate::codec::{
    decode_key,
    decode_package,
    encode_key,
    encode_package,
    key_bytes,
    key_from,
    package_bytes,
    package_from,
};
use crate::error::StorageError;
use crate::identity::{IdentityView, PackageIdentity};
use crate::package::{IndexedPackage, PackageView};
use crate::search::{
    collect_matches,
    grade,
    hit_views,
    hits_in,
    lemma_hits_in,
    lemma_ranked_permutes,
    rank,
    ranked,
    relevance,
    HitView,
    SearchHit,
    NO_MATCH,
};
use crate::text::{fold_text, folded};

verus! {

/// What a record holds for its identity.
pub enum SlotView {
    /// The indexed package.
    Intact(PackageView),
    /// Persisted bytes that are not a package of the record's identity.
    Corrupt(Seq<u8>),
}

/// One record of the store.
pub struct RecordView {
    pub identity: IdentityView,
    pub slot: SlotView,
}

enum Slot {
    Intact(IndexedPackage),
    Corrupt(Vec<u8>),
}

struct Record {
    identity: PackageIdentity,
    slot: Slot,
}

impl View for Slot {
    type V = SlotView;

    closed spec fn view(&self) -> SlotView {
        match self {
            Slot::Intact(pkg) => SlotView::Intact(pkg@),
            Slot::Corrupt(bytes) => SlotView::Corrupt(bytes@),
        }
    }
}

impl View for Record {
    type V = RecordView;

    closed spec fn view(&self) -> RecordView {
        RecordView { identity: self.identity@, slot: self.slot@ }
    }
}

/// A cache of indexed packages, keyed by identity.
pub struct Store {
    records: Vec<Record>,
}

impl View for Store {
    type V = Seq<RecordView>;

    closed spec fn view(&self) -> Seq<RecordView> {
        Seq::new(self.records@.len(), |i: int| self.records@[i]@)
    }
}

/// No identity has two records.
pub open spec fn distinct(records: Seq<RecordView>) -> bool {
    forall|i: int, j: int|
        0 <= i < j < records.len() ==> (#[trigger] records[i]).identity != (
        #[trigger] records[j]).identity
}

/// What the bytes persisted under `identity` read back as.
pub open spec fn restored_slot(identity: IdentityView, data: Seq<u8>) -> SlotView {
    match package_from(data) {
        Some(p) => if p.identity == identity {
            SlotView::Intact(p)
        } else {
            SlotView::Corrupt(data)
        },
        None => SlotView::Corrupt(data),
    }
}

/// The bytes that persist a slot.
pub open spec fn slot_bytes(slot: SlotView) -> Seq<u8> {
    match slot {
        SlotView::Intact(p) => package_bytes(p),
        SlotView::Corrupt(data) => data,
    }
}

/// The record holds a package of its own identity, or bytes that are none.
pub open spec fn consistent(record: RecordView) -> bool {
    match record.slot {
        SlotView::Intact(p) => p.identity == record.identity,
        SlotView::Corrupt(data) => restored_slot(record.identity, data) == record.slot,
    }
}

/// No identity has two records, and every record is consistent.
pub open spec fn well_formed(records: Seq<RecordView>) -> bool {
    &&& distinct(records)
    &&& forall|i: int| 0 <= i < records.len() ==> consistent(#[trigger] records[i])
}

/// Some record has the identity `id`.
pub open spec fn holds(records: Seq<RecordView>, id: IdentityView) -> bool {
    exists|i: int| 0 <= i < records.len() && (#[trigger] records[i]).identity == id
}

/// The position of the record of `id`, where there is one.
pub open spec fn index_of(records: Seq<RecordView>, id: IdentityView) -> int {
    choose|i: int| 0 <= i < records.len() && (#[trigger] records[i]).identity == id
}

/// What the store holds for `id`, if anything.
pub open spec fn lookup(records: Seq<RecordView>, id: IdentityView) -> Option<SlotView> {
    if holds(records, id) {
        Some(records[index_of(records, id)].slot)
    } else {
        None
    }
}

/// The records after `record` is stored: in the place of the record of the
/// same identity, or at the end where there was none.
pub open spec fn stored(records: Seq<RecordView>, record: RecordView) -> Seq<RecordView> {
    if holds(records, record.identity) {
        records.update(index_of(records, record.identity), record)
    } else {
        records.push(record)
    }
}

/// The records without the record of `id`.
pub open spec fn removed(records: Seq<RecordView>, id: IdentityView) -> Seq<RecordView> {
    if holds(records, id) {
        records.remove(index_of(records, id))
    } else {
        records
    }
}

/// The record that holds the package `p` under its own identity.
pub open spec fn record_of(p: PackageView) -> RecordView {
    RecordView { identity: p.identity, slot: SlotView::Intact(p) }
}

/// The identities of the records, in their order.
pub open spec fn identities(records: Seq<RecordView>) -> Seq<IdentityView> {
    Seq::new(records.len(), |i: int| records[i].identity)
}

/// What a list of identities holds.
pub open spec fn identity_views(v: Seq<PackageIdentity>) -> Seq<IdentityView> {
    Seq::new(v.len(), |i: int| v[i]@)
}

/// The record is searched: every record where there is no scope, else the
/// record of the scope.
pub open spec fn in_scope(record: RecordView, scope: Option<IdentityView>) -> bool {
    match scope {
        Some(id) => record.identity == id,
        None => true,
    }
}

/// The matches of the folded query `needle` in the intact records within the
/// scope, record after record.
pub open spec fn candidates(
    records: Seq<RecordView>,
    scope: Option<IdentityView>,
    needle: Seq<char>,
) -> Seq<HitView>
    decreases records.len(),
{
    if records.len() == 0 {
        Seq::empty()
    } else {
        let rest = candidates(records.drop_last(), scope, needle);
        match records.last().slot {
            SlotView::Intact(p) => if in_scope(records.last(), scope) {
                rest + hits_in(p.entries, needle)
            } else {
                rest
            },
            SlotView::Corrupt(_) => rest,
        }
    }
}

/// What a search gives: the ranked matches in the intact records within the
/// scope; a failure only where the scope names a record that does not read
/// back.
pub open spec fn search_outcome(
    records: Seq<RecordView>,
    scope: Option<IdentityView>,
    query: Seq<char>,
) -> Result<Seq<HitView>, StorageError> {
    match scope {
        Some(id) => match lookup(records, id) {
            Some(SlotView::Corrupt(_)) => Err(StorageError::Corrupt),
            _ => Ok(ranked(candidates(records, scope, folded(query)))),
        },
        None => Ok(ranked(candidates(records, scope, folded(query)))),
    }
}

/// Where no identity has two records, the record of an identity is the one
/// found at any position that holds it.
pub proof fn lemma_index_of(records: Seq<RecordView>, id: IdentityView, i: int)
    requires
        distinct(records),
        0 <= i < records.len(),
        records[i].identity == id,
    ensures
        holds(records, id),
        index_of(records, id) == i,
        lookup(records, id) == Some(records[i].slot),
{
    let k = index_of(records, id);
    if k < i {
        assert(records[k].identity != records[i].identity);
    } else if i < k {
        assert(records[i].identity != records[k].identity);
    }
}

/// Storing a consistent record keeps a store well formed.
pub proof fn lemma_stored_well_formed(records: Seq<RecordView>, record: RecordView)
    requires
        well_formed(records),
        consistent(record),
    ensures
        well_formed(stored(records, record)),
{
    let after = stored(records, record);
    if holds(records, record.identity) {
        let k = index_of(records, record.identity);
        assert forall|i: int, j: int| 0 <= i < j < after.len() implies (#[trigger] after[i]).identity
            != (#[trigger] after[j]).identity by {
            assert(after[i].identity == records[i].identity);
            assert(after[j].identity == records[j].identity);
        }
        assert forall|i: int| 0 <= i < after.len() implies consistent(#[trigger] after[i]) by {
            if i != k {
                assert(after[i] == records[i]);
            }
        }
    } else {
        assert forall|i: int, j: int| 0 <= i < j < after.len() implies (#[trigger] after[i]).identity
            != (#[trigger] after[j]).identity by {
            assert(after[i] == records[i]);
            if j < records.len() {
                assert(after[j] == records[j]);
            }
        }
        assert forall|i: int| 0 <= i < after.len() implies consistent(#[trigger] after[i]) by {
            if i < records.len() {
                assert(after[i] == records[i]);
            }
        }
    }
}

/// Removing a record keeps a store well formed.
pub proof fn lemma_removed_well_formed(records: Seq<RecordView>, id: IdentityView)
    requires
        well_formed(records),
    ensures
        well_formed(removed(records, id)),
{
    let left = removed(records, id);
    if holds(records, id) {
        let k = index_of(records, id);
        assert forall|i: int, j: int| 0 <= i < j < left.len() implies (#[trigger] left[i]).identity != (
        #[trigger] left[j]).identity by {
            let i0 = if i < k { i } else { i + 1 };
            let j0 = if j < k { j } else { j + 1 };
            assert(left[i] == records[i0]);
            assert(left[j] == records[j0]);
        }
        assert forall|i: int| 0 <= i < left.len() implies consistent(#[trigger] left[i]) by {
            let i0 = if i < k { i } else { i + 1 };
            assert(left[i] == records[i0]);
        }
    }
}

/// What is put under an identity is what the store then holds for it.
pub proof fn lemma_put_then_get(records: Seq<RecordView>, p: PackageView)
    requires
        distinct(records),
    ensures
        lookup(stored(records, record_of(p)), p.identity) == Some(SlotView::Intact(p)),
{
    lemma_stored_lookup(records, record_of(p));
}

/// After a record is stored, the store holds its slot for its identity, the
/// records stay distinct, and the order of the others is kept.
pub proof fn lemma_stored_lookup(records: Seq<RecordView>, record: RecordView)
    requires
        distinct(records),
    ensures
        distinct(stored(records, record)),
        lookup(stored(records, record), record.identity) == Some(record.slot),
{
    let after = stored(records, record);
    if holds(records, record.identity) {
        let k = index_of(records, record.identity);
        assert forall|i: int, j: int| 0 <= i < j < after.len() implies (#[trigger] after[i]).identity
            != (#[trigger] after[j]).identity by {
            assert(after[i].identity == records[i].identity);
            assert(after[j].identity == records[j].identity);
        }
        lemma_index_of(after, record.identity, k);
    } else {
        assert forall|i: int, j: int| 0 <= i < j < after.len() implies (#[trigger] after[i]).identity
            != (#[trigger] after[j]).identity by {
            assert(after[i] == records[i]);
            if j < records.len() {
                assert(after[j] == records[j]);
            }
        }
        lemma_index_of(after, record.identity, records.len() as int);
    }
}

/// Storing a record changes nothing for any other identity.
pub proof fn lemma_put_keeps_others(records: Seq<RecordView>, record: RecordView, other: IdentityView)
    requires
        distinct(records),
        other != record.identity,
    ensures
        lookup(stored(records, record), other) == lookup(records, other),
{
    let after = stored(records, record);
    lemma_stored_lookup(records, record);
    if holds(records, other) {
        let i = index_of(records, other);
        assert(after[i] == records[i]);
        lemma_index_of(after, other, i);
    } else if holds(after, other) {
        let i = index_of(after, other);
        if i < records.len() {
            assert(records[i].identity == after[i].identity);
        }
    }
}

/// Of two packages put one after the other under one identity, the store
/// holds the second only, in the place of the first.
pub proof fn lemma_put_replaces(records: Seq<RecordView>, first: PackageView, second: PackageView)
    requires
        distinct(records),
        first.identity == second.identity,
    ensures
        stored(stored(records, record_of(first)), record_of(second)) == stored(
            records,
            record_of(second),
        ),
{
    let id = first.identity;
    let once = stored(records, record_of(first));
    lemma_stored_lookup(records, record_of(first));
    if holds(records, id) {
        let k = index_of(records, id);
        lemma_index_of(once, id, k);
        assert(once.update(k, record_of(second)) =~= records.update(k, record_of(second)));
    } else {
        let k = records.len() as int;
        lemma_index_of(once, id, k);
        assert(once.update(k, record_of(second)) =~= records.push(record_of(second)));
    }
}

/// After an identity is deleted the store holds nothing for it.
pub proof fn lemma_delete_then_get(records: Seq<RecordView>, id: IdentityView)
    requires
        distinct(records),
    ensures
        lookup(removed(records, id), id) is None,
{
    let left = removed(records, id);
    if holds(records, id) && holds(left, id) {
        let k = index_of(records, id);
        let i = index_of(left, id);
        let i0 = if i < k { i } else { i + 1 };
        assert(left[i] == records[i0]);
        lemma_index_of(records, id, i0);
    }
}

/// Deleting an identity changes nothing for any other.
pub proof fn lemma_delete_keeps_others(records: Seq<RecordView>, id: IdentityView, other: IdentityView)
    requires
        distinct(records),
        other != id,
    ensures
        lookup(removed(records, id), other) == lookup(records, other),
{
    let left = removed(records, id);
    if holds(records, id) {
        let k = index_of(records, id);
        assert forall|i: int, j: int| 0 <= i < j < left.len() implies (#[trigger] left[i]).identity != (
        #[trigger] left[j]).identity by {
            let i0 = if i < k { i } else { i + 1 };
            let j0 = if j < k { j } else { j + 1 };
            assert(left[i] == records[i0]);
            assert(left[j] == records[j0]);
        }
        if holds(records, other) {
            let i = index_of(records, other);
            let i1 = if i < k { i } else { i - 1 };
            assert(left[i1] == records[i]);
            lemma_index_of(left, other, i1);
        } else if holds(left, other) {
            let i = index_of(left, other);
            let i0 = if i < k { i } else { i + 1 };
            assert(left[i] == records[i0]);
        }
    }
}

/// Every match in an intact record within the scope is among the candidates.
pub proof fn lemma_candidates_hold(
    records: Seq<RecordView>,
    scope: Option<IdentityView>,
    needle: Seq<char>,
    i: int,
    hit: HitView,
)
    requires
        0 <= i < records.len(),
        in_scope(records[i], scope),
        records[i].slot is Intact,
        hits_in(records[i].slot->Intact_0.entries, needle).contains(hit),
    ensures
        candidates(records, scope, needle).contains(hit),
    decreases records.len(),
{
    let rest = candidates(records.drop_last(), scope, needle);
    let all = candidates(records, scope, needle);
    if i == records.len() - 1 {
        let found = hits_in(records[i].slot->Intact_0.entries, needle);
        let k = choose|k: int| 0 <= k < found.len() && found[k] == hit;
        assert(all[rest.len() + k] == hit);
    } else {
        assert(records.drop_last()[i] == records[i]);
        lemma_candidates_hold(records.drop_last(), scope, needle, i, hit);
        let k = choose|k: int| 0 <= k < rest.len() && rest[k] == hit;
        assert(all[k] == hit);
    }
}

/// With a scope, the candidates are the matches in the package of the scope
/// and nothing else; there are none where the store holds no package for it.
pub proof fn lemma_scoped_candidates(records: Seq<RecordView>, id: IdentityView, needle: Seq<char>)
    requires
        distinct(records),
    ensures
        candidates(records, Some(id), needle) == match lookup(records, id) {
            Some(SlotView::Intact(p)) => hits_in(p.entries, needle),
            _ => Seq::<HitView>::empty(),
        },
    decreases records.len(),
{
    if records.len() > 0 {
        let rest = records.drop_last();
        let last = records.last();
        let n = records.len() - 1;
        assert forall|i: int, j: int| 0 <= i < j < rest.len() implies (#[trigger] rest[i]).identity != (
        #[trigger] rest[j]).identity by {
            assert(rest[i] == records[i]);
            assert(rest[j] == records[j]);
        }
        lemma_scoped_candidates(rest, id, needle);
        if last.identity == id {
            lemma_index_of(records, id, n);
            if holds(rest, id) {
                let i = index_of(rest, id);
                assert(rest[i] == records[i]);
                assert(records[i].identity != records[n].identity);
            }
            assert(Seq::<HitView>::empty() + candidates(records, Some(id), needle) =~= candidates(
                records,
                Some(id),
                needle,
            ));
            match last.slot {
                SlotView::Intact(p) => {
                    assert(Seq::<HitView>::empty() + hits_in(p.entries, needle) =~= hits_in(
                        p.entries,
                        needle,
                    ));
                },
                SlotView::Corrupt(_) => {},
            }
        } else {
            if holds(rest, id) {
                let i = index_of(rest, id);
                assert(rest[i] == records[i]);
                lemma_index_of(records, id, i);
            } else if holds(records, id) {
                let i = index_of(records, id);
                assert(rest[i] == records[i]);
            }
        }
    }
}

/// A search of the whole store never fails, and gives every entry of every
/// intact record that matches the query, whatever the other records hold.
pub proof fn lemma_search_passes_over_corrupt(
    records: Seq<RecordView>,
    query: Seq<char>,
    i: int,
    j: int,
)
    requires
        0 <= i < records.len(),
        records[i].slot is Intact,
        0 <= j < records[i].slot->Intact_0.entries.len(),
        relevance(records[i].slot->Intact_0.entries[j], query) != NO_MATCH,
    ensures
        search_outcome(records, None, query) is Ok,
        search_outcome(records, None, query)->Ok_0.contains(
            HitView {
                entry: records[i].slot->Intact_0.entries[j],
                score: relevance(records[i].slot->Intact_0.entries[j], query),
            },
        ),
{
    broadcast use vstd::seq_lib::group_to_multiset_ensures;

    let needle = folded(query);
    let entries = records[i].slot->Intact_0.entries;
    let hit = HitView { entry: entries[j], score: grade(entries[j], needle) };
    lemma_hits_in(entries, needle);
    lemma_candidates_hold(records, None, needle, i, hit);
    let found = candidates(records, None, needle);
    lemma_ranked_permutes(found);
    assert(found.to_multiset().count(hit) > 0);
    assert(ranked(found).to_multiset().count(hit) > 0);
}

impl Store {
    /// An empty store.
    pub fn new() -> (store: Self)
        ensures
            store@ == Seq::<RecordView>::empty(),
            well_formed(store@),
    {
        let store = Store { records: Vec::new() };
        assert(store@ =~= Seq::<RecordView>::empty());
        store
    }

    /// The number of records.
    pub fn len(&self) -> (n: usize)
        ensures
            n == self@.len(),
    {
        self.records.len()
    }

    /// The position of the record of `id`, if there is one.
    fn position(&self, id: &PackageIdentity) -> (r: Option<usize>)
        requires
            well_formed(self@),
        ensures
            match r {
                Some(i) => i < self.records@.len() && self.records@[i as int].identity@ == id@
                    && lookup(self@, id@) == Some(self@[i as int].slot),
                None => !holds(self@, id@),
            },
    {
        let mut i: usize = 0;
        while i < self.records.len()
            invariant
                i <= self.records@.len(),
                well_formed(self@),
                forall|j: int| 0 <= j < i ==> (#[trigger] self@[j]).identity != id@,
            decreases self.records@.len() - i,
        {
            if self.records[i].identity == *id {
                proof {
                    lemma_index_of(self@, id@, i as int);
                }
                return Some(i);
            }
            i += 1;
        }
        None
    }

    /// The package cached for `id`: nothing where there is no record, the
    /// failure `Corrupt` where the record does not read back.
    pub fn get(&self, id: &PackageIdentity) -> (r: Result<Option<IndexedPackage>, StorageError>)
        requires
            well_formed(self@),
        ensures
            match lookup(self@, id@) {
                None => r matches Ok(None),
                Some(SlotView::Intact(p)) => r matches Ok(Some(pkg)) && pkg@ == p,
                Some(SlotView::Corrupt(_)) => r matches Err(StorageError::Corrupt),
            },
    {
        match self.position(id) {
            None => Ok(None),
            Some(i) => match &self.records[i].slot {
                Slot::Intact(pkg) => Ok(Some(pkg.clone())),
                Slot::Corrupt(_) => Err(StorageError::Corrupt),
            },
        }
    }

    /// Whether the store has a record for `id`, readable or not.
    pub fn contains(&self, id: &PackageIdentity) -> (r: bool)
        requires
            well_formed(self@),
        ensures
            r == holds(self@, id@),
    {
        self.position(id).is_some()
    }

    /// Puts `record` in the place of the record of the same identity, or at
    /// the end where there is none.
    fn store(&mut self, record: Record)
        requires
            well_formed(old(self)@),
            consistent(record@),
        ensures
            final(self)@ == stored(old(self)@, record@),
            well_formed(final(self)@),
    {
        let ghost before = self@;
        proof {
            lemma_stored_well_formed(before, record@);
        }
        match self.position(&record.identity) {
            Some(i) => {
                self.records.set(i, record);
                assert(self@ =~= stored(before, record@));
            },
            None => {
                self.records.push(record);
                assert(self@ =~= stored(before, record@));
            },
        }
    }

    /// Caches `pkg` under its identity, in the place of whatever was cached
    /// under it before.
    pub fn put(&mut self, pkg: IndexedPackage)
        requires
            well_formed(old(self)@),
        ensures
            final(self)@ == stored(old(self)@, record_of(pkg@)),
            well_formed(final(self)@),
    {
        let identity = pkg.identity.clone();
        self.store(Record { identity, slot: Slot::Intact(pkg) });
    }

    /// Removes what is cached for `id`; changes nothing where there is
    /// nothing.
    pub fn delete(&mut self, id: &PackageIdentity)
        requires
            well_formed(old(self)@),
        ensures
            final(self)@ == removed(old(self)@, id@),
            well_formed(final(self)@),
    {
        let ghost before = self@;
        proof {
            lemma_removed_well_formed(before, id@);
        }
        match self.position(id) {
            Some(i) => {
                self.records.remove(i);
                assert(self@ =~= removed(before, id@));
            },
            None => {},
        }
    }

    /// Removes every record.
    pub fn clear(&mut self)
        ensures
            final(self)@ == Seq::<RecordView>::empty(),
            well_formed(final(self)@),
    {
        self.records.clear();
        assert(self@ =~= Seq::<RecordView>::empty());
    }

    /// The identities that have a record, in the order in which they first
    /// entered the store.
    pub fn list_packages(&self) -> (r: Vec<PackageIdentity>)
        ensures
            identity_views(r@) == identities(self@),
    {
        let mut r: Vec<PackageIdentity> = Vec::new();
        let mut i: usize = 0;
        while i < self.records.len()
            invariant
                i <= self.records@.len(),
                r@.len() == i,
                forall|j: int| 0 <= j < i ==> r@[j]@ == self@[j].identity,
            decreases self.records@.len() - i,
        {
            r.push(self.records[i].identity.clone());
            i += 1;
        }
        assert(identity_views(r@) =~= identities(self@));
        r
    }

    /// The matches of `query` in the store, or in the package of `scope`
    /// alone, ranked. Records that do not read back are passed over; the
    /// search fails only where `scope` names such a record.
    pub fn search(&self, scope: Option<&PackageIdentity>, query: &str) -> (r: Result<
        Vec<SearchHit>,
        StorageError,
    >)
        requires
            well_formed(self@),
        ensures
            match search_outcome(self@, scope_view(scope), query@) {
                Ok(hits) => r is Ok && hit_views(r->Ok_0@) == hits,
                Err(e) => r == Err::<Vec<SearchHit>, StorageError>(e),
            },
    {
        if let Some(id) = scope {
            if let Some(i) = self.position(id) {
                if let Slot::Corrupt(_) = &self.records[i].slot {
                    return Err(StorageError::Corrupt);
                }
            }
        }
        let needle = fold_text(query);
        let mut found: Vec<SearchHit> = Vec::new();
        let mut i: usize = 0;
        assert(hit_views(found@) =~= candidates(self@.take(0), scope_view(scope), needle@));
        while i < self.records.len()
            invariant
                i <= self.records@.len(),
                well_formed(self@),
                hit_views(found@) == candidates(self@.take(i as int), scope_view(scope), needle@),
            decreases self.records@.len() - i,
        {
            let record = &self.records[i];
            proof {
                assert(self@.take(i + 1).drop_last() =~= self@.take(i as int));
                assert(self@.take(i + 1).last() == record@);
            }
            let wanted = match scope {
                Some(id) => record.identity == *id,
                None => true,
            };
            if wanted {
                if let Slot::Intact(pkg) = &record.slot {
                    collect_matches(&mut found, &pkg.entries, needle.as_slice());
                }
            }
            i += 1;
        }
        assert(self@.take(i as int) =~= self@);
        Ok(rank(found))
    }

    /// Takes in what was persisted under `key`: the package that `data`
    /// reads back as, or `data` itself where it does not read back as a
    /// package of the key's identity. Fails, and changes nothing, where
    /// `key` is no key.
    pub fn restore(&mut self, key: &[u8], data: Vec<u8>) -> (r: Result<(), StorageError>)
        requires
            well_formed(old(self)@),
        ensures
            match key_from(key@) {
                Some(id) => r is Ok && final(self)@ == stored(
                    old(self)@,
                    RecordView { identity: id, slot: restored_slot(id, data@) },
                ),
                None => r == Err::<(), StorageError>(StorageError::Corrupt) && final(self)@ == old(
                    self,
                )@,
            },
            well_formed(final(self)@),
    {
        let identity = match decode_key(key) {
            Some(identity) => identity,
            None => { return Err(StorageError::Corrupt); },
        };
        let slot = match decode_package(data.as_slice()) {
            Some(pkg) => if pkg.identity == identity {
                Slot::Intact(pkg)
            } else {
                Slot::Corrupt(data)
            },
            None => Slot::Corrupt(data),
        };
        self.store(Record { identity, slot });
        Ok(())
    }

    /// The key and the bytes that persist the record of `id`, if there is
    /// one. Taking them in again gives the same record.
    pub fn persisted(&self, id: &PackageIdentity) -> (r: Option<(Vec<u8>, Vec<u8>)>)
        requires
            well_formed(self@),
        ensures
            match lookup(self@, id@) {
                Some(slot) => r is Some && r->Some_0.0@ == key_bytes(id@) && r->Some_0.1@
                    == slot_bytes(slot) && key_from(r->Some_0.0@) == Some(id@) && restored_slot(
                    id@,
                    r->Some_0.1@,
                ) == slot,
                None => r is None,
            },
    {
        match self.position(id) {
            None => None,
            Some(i) => {
                let key = encode_key(id);
                let data = match &self.records[i].slot {
                    Slot::Intact(pkg) => encode_package(pkg),
                    Slot::Corrupt(bytes) => bytes.clone(),
                };
                assert(consistent(self@[i as int]));
                Some((key, data))
            },
        }
    }
}

/// What an optional identity holds.
pub open spec fn scope_view(scope: Option<&PackageIdentity>) -> Option<IdentityView> {
    match scope {
        Some(id) => Some(id@),
        None => None,
    }
}

} // verus!
