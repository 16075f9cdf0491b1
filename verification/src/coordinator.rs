//! The course of one indexing request.
//!
//! A request starts idle, resolves its provider, looks for a cached package
//! and, unless one is found and may be used, fetches, parses and commits.
//! Each step is decided here from the state and from what the step before
//! brought; the work between the steps (asking the registry, the store and
//! the provider) is done by whoever drives the request. `ensure_indexed`
//! drives one from start to end.

use vstd::prelude::*;
use vstd::pervasive::unreached;
use crate::entry::{entry_views, DocEntry, EntryView};
use crate::error::{FetchError, IndexError, IndexErrorView, ParseError, ParseFailure, StorageError};
use crate::identity::{IdentityView, PackageIdentity};
use crate::package::{built, IndexedPackage, PackageView, RawDocument};
use crate::provider::Provider;
use crate::registry::Registry;
use crate::store::{
    lemma_put_then_get,
    lookup,
    record_of,
    stored,
    well_formed,
    RecordView,
    SlotView,
    Store,
};

verus! {

/// What is asked for: a package, and whether a cached one may be used.
pub struct Request {
    pub identity: PackageIdentity,
    pub force_refresh: bool,
}

/// What a [`Request`] holds.
pub struct RequestView {
    pub identity: IdentityView,
    pub force_refresh: bool,
}

impl View for Request {
    type V = RequestView;

    open spec fn view(&self) -> RequestView {
        RequestView { identity: self.identity@, force_refresh: self.force_refresh }
    }
}

/// Where a request stands.
pub enum State {
    /// Nothing has happened yet.
    Idle,
    /// The provider is being looked up.
    Resolving,
    /// The store is being asked for a cached package.
    FreshnessCheck,
    /// The provider is fetching the raw documentation.
    Fetching,
    /// The provider is parsing what was fetched.
    Parsing(RawDocument),
    /// The package is built and is being put into the store.
    Committing(IndexedPackage),
    /// Ended: the cached package is the result.
    CacheHit(IndexedPackage),
    /// Ended: the package was indexed and committed.
    Done(IndexedPackage),
    /// Ended: the request failed.
    Failed(IndexError),
}

/// What a [`State`] holds.
pub enum StateView {
    Idle,
    Resolving,
    FreshnessCheck,
    Fetching,
    Parsing(Seq<u8>),
    Committing(PackageView),
    CacheHit(PackageView),
    Done(PackageView),
    Failed(IndexErrorView),
}

impl View for State {
    type V = StateView;

    open spec fn view(&self) -> StateView {
        match self {
            State::Idle => StateView::Idle,
            State::Resolving => StateView::Resolving,
            State::FreshnessCheck => StateView::FreshnessCheck,
            State::Fetching => StateView::Fetching,
            State::Parsing(raw) => StateView::Parsing(raw@),
            State::Committing(pkg) => StateView::Committing(pkg@),
            State::CacheHit(pkg) => StateView::CacheHit(pkg@),
            State::Done(pkg) => StateView::Done(pkg@),
            State::Failed(e) => StateView::Failed(e@),
        }
    }
}

/// What a step brought.
pub enum Event {
    /// The request was made.
    Start,
    /// The registry was asked: whether it has the provider.
    Resolved(bool),
    /// The store was asked for the cached package.
    Checked(Result<Option<IndexedPackage>, StorageError>),
    /// The provider was asked to fetch.
    Fetched(Result<RawDocument, FetchError>),
    /// The provider was asked to parse; the time when it answered.
    Parsed(Result<Vec<DocEntry>, ParseError>, u64),
    /// The package was handed to the store and to what persists it.
    Committed(Result<(), StorageError>),
}

/// What an [`Event`] holds.
pub enum EventView {
    Start,
    Resolved(bool),
    Checked(Result<Option<PackageView>, StorageError>),
    Fetched(Result<Seq<u8>, FetchError>),
    Parsed(Result<Seq<EntryView>, Seq<char>>, u64),
    Committed(Result<(), StorageError>),
}

impl View for Event {
    type V = EventView;

    open spec fn view(&self) -> EventView {
        match self {
            Event::Start => EventView::Start,
            Event::Resolved(found) => EventView::Resolved(*found),
            Event::Checked(cached) => EventView::Checked(
                match cached {
                    Ok(Some(pkg)) => Ok(Some(pkg@)),
                    Ok(None) => Ok(None),
                    Err(e) => Err(*e),
                },
            ),
            Event::Fetched(fetched) => EventView::Fetched(
                match fetched {
                    Ok(raw) => Ok(raw@),
                    Err(e) => Err(*e),
                },
            ),
            Event::Parsed(parsed, now) => EventView::Parsed(
                match parsed {
                    Ok(entries) => Ok(entry_views(entries@)),
                    Err(e) => Err(e.message@),
                },
                *now,
            ),
            Event::Committed(committed) => EventView::Committed(*committed),
        }
    }
}

impl StateView {
    /// The request has ended.
    pub open spec fn terminal(self) -> bool {
        self is CacheHit || self is Done || self is Failed
    }

    /// How many steps the request can still take at most.
    pub open spec fn steps_left(self) -> nat {
        match self {
            StateView::Idle => 6,
            StateView::Resolving => 5,
            StateView::FreshnessCheck => 4,
            StateView::Fetching => 3,
            StateView::Parsing(_) => 2,
            StateView::Committing(_) => 1,
            _ => 0,
        }
    }
}

/// The state that follows `state` when `event` comes in. An event that the
/// state does not wait for changes nothing.
pub open spec fn next_state(request: RequestView, state: StateView, event: EventView) -> StateView {
    match (state, event) {
        (StateView::Idle, EventView::Start) => StateView::Resolving,
        (StateView::Resolving, EventView::Resolved(found)) => if found {
            StateView::FreshnessCheck
        } else {
            StateView::Failed(IndexErrorView::ProviderNotFound)
        },
        (StateView::FreshnessCheck, EventView::Checked(cached)) => if request.force_refresh {
            StateView::Fetching
        } else {
            match cached {
                Ok(Some(pkg)) => StateView::CacheHit(pkg),
                Ok(None) => StateView::Fetching,
                Err(e) => StateView::Failed(IndexErrorView::Storage(e)),
            }
        },
        (StateView::Fetching, EventView::Fetched(fetched)) => match fetched {
            Ok(raw) => StateView::Parsing(raw),
            Err(e) => StateView::Failed(IndexErrorView::Fetch(e)),
        },
        (StateView::Parsing(raw), EventView::Parsed(parsed, now)) => match parsed {
            Ok(entries) => StateView::Committing(built(request.identity, raw, entries, now)),
            Err(message) => StateView::Failed(IndexErrorView::Parse { message, raw }),
        },
        (StateView::Committing(pkg), EventView::Committed(committed)) => match committed {
            Ok(_) => StateView::Done(pkg),
            Err(e) => StateView::Failed(IndexErrorView::Storage(e)),
        },
        (state, _) => state,
    }
}

/// Takes one step: the state that follows `state` when `event` comes in.
pub fn step(request: &Request, state: State, event: Event) -> (next: State)
    ensures
        next@ == next_state(request@, state@, event@),
{
    match (state, event) {
        (State::Idle, Event::Start) => State::Resolving,
        (State::Resolving, Event::Resolved(found)) => if found {
            State::FreshnessCheck
        } else {
            State::Failed(IndexError::ProviderNotFound)
        },
        (State::FreshnessCheck, Event::Checked(cached)) => if request.force_refresh {
            State::Fetching
        } else {
            match cached {
                Ok(Some(pkg)) => State::CacheHit(pkg),
                Ok(None) => State::Fetching,
                Err(e) => State::Failed(IndexError::Storage(e)),
            }
        },
        (State::Fetching, Event::Fetched(fetched)) => match fetched {
            Ok(raw) => State::Parsing(raw),
            Err(e) => State::Failed(IndexError::Fetch(e)),
        },
        (State::Parsing(raw), Event::Parsed(parsed, now)) => match parsed {
            Ok(entries) => State::Committing(
                IndexedPackage::build(request.identity.clone(), &raw, entries, now),
            ),
            Err(error) => State::Failed(IndexError::Parse(ParseFailure { error, raw })),
        },
        (State::Committing(pkg), Event::Committed(committed)) => match committed {
            Ok(_) => State::Done(pkg),
            Err(e) => State::Failed(IndexError::Storage(e)),
        },
        (state, _) => state,
    }
}

impl State {
    /// Whether the request has ended.
    pub fn is_terminal(&self) -> (r: bool)
        ensures
            r == self@.terminal(),
    {
        match self {
            State::CacheHit(_) => true,
            State::Done(_) => true,
            State::Failed(_) => true,
            _ => false,
        }
    }

    /// The result of a request that has ended: the package, or why there is
    /// none. Nothing while the request is under way.
    pub fn outcome(self) -> (r: Option<Result<IndexedPackage, IndexError>>)
        ensures
            match self {
                State::CacheHit(pkg) => r == Some(Ok::<IndexedPackage, IndexError>(pkg)),
                State::Done(pkg) => r == Some(Ok::<IndexedPackage, IndexError>(pkg)),
                State::Failed(e) => r == Some(Err::<IndexedPackage, IndexError>(e)),
                _ => r is None,
            },
    {
        match self {
            State::CacheHit(pkg) => Some(Ok(pkg)),
            State::Done(pkg) => Some(Ok(pkg)),
            State::Failed(e) => Some(Err(e)),
            _ => None,
        }
    }
}

/// A request that has ended stays as it is, whatever comes in.
pub proof fn lemma_terminal_absorbs(request: RequestView, state: StateView, event: EventView)
    requires
        state.terminal(),
    ensures
        next_state(request, state, event) == state,
{
}

/// Every step either changes nothing or brings the request nearer to its
/// end: no request runs for more than six steps.
pub proof fn lemma_step_advances(request: RequestView, state: StateView, event: EventView)
    ensures
        next_state(request, state, event) == state || next_state(request, state, event).steps_left()
            < state.steps_left(),
        state.steps_left() == 0 <==> state.terminal(),
{
}

/// A request with `force_refresh` never ends in a cache hit.
pub proof fn lemma_force_refresh_bypasses_cache(
    request: RequestView,
    state: StateView,
    event: EventView,
)
    requires
        request.force_refresh,
        !(state is CacheHit),
    ensures
        !(next_state(request, state, event) is CacheHit),
{
}

/// A request that finds its provider and no usable cached package, and whose
/// provider fetches `raw` and parses it to `entries`, ends with the package
/// built from them; once that package is put into the store, the store holds
/// it under the identity that was asked for.
pub proof fn lemma_indexed_then_cached(
    request: RequestView,
    cached: Result<Option<PackageView>, StorageError>,
    raw: Seq<u8>,
    entries: Seq<EntryView>,
    now: u64,
    records: Seq<RecordView>,
)
    requires
        request.force_refresh || cached == Ok::<Option<PackageView>, StorageError>(None),
        well_formed(records),
    ensures
        ({
            let s1 = next_state(request, StateView::Idle, EventView::Start);
            let s2 = next_state(request, s1, EventView::Resolved(true));
            let s3 = next_state(request, s2, EventView::Checked(cached));
            let s4 = next_state(request, s3, EventView::Fetched(Ok(raw)));
            let s5 = next_state(request, s4, EventView::Parsed(Ok(entries), now));
            let s6 = next_state(request, s5, EventView::Committed(Ok(())));
            let pkg = built(request.identity, raw, entries, now);
            &&& s5 == StateView::Committing(pkg)
            &&& s6 == StateView::Done(pkg)
            &&& pkg.identity == request.identity
            &&& pkg.entries == entries
            &&& lookup(stored(records, record_of(pkg)), request.identity) == Some(
                SlotView::Intact(pkg),
            )
        }),
{
    lemma_put_then_get(records, built(request.identity, raw, entries, now));
}

/// Makes sure that the package of `identity` is indexed, and returns it.
///
/// Fails with `ProviderNotFound` where no provider is registered under the
/// identity's provider id. Otherwise, unless `force_refresh` is set, a cached
/// package is returned as it is, and a cached record that does not read back
/// fails the request. In every other case the provider is asked to fetch and
/// to parse; what it returns is built into a package stamped with `now` and
/// put into the store, and a failure of the provider is returned and leaves
/// the store as it was.
pub fn ensure_indexed<P: Provider>(
    registry: &Registry<P>,
    store: &mut Store,
    identity: &PackageIdentity,
    force_refresh: bool,
    now: u64,
) -> (result: Result<IndexedPackage, IndexError>)
    requires
        registry.well_formed(),
        well_formed(old(store)@),
    ensures
        well_formed(final(store)@),
        !registry@.contains_key(identity@.provider_id) ==> final(store)@ == old(store)@ && (
        result matches Err(e) && e@ == IndexErrorView::ProviderNotFound),
        registry@.contains_key(identity@.provider_id) && !force_refresh ==> match lookup(
            old(store)@,
            identity@,
        ) {
            Some(SlotView::Intact(p)) => final(store)@ == old(store)@ && (result matches Ok(pkg)
                && pkg@ == p),
            Some(SlotView::Corrupt(_)) => final(store)@ == old(store)@ && (result matches Err(e)
                && e@ == IndexErrorView::Storage(StorageError::Corrupt)),
            None => fetched_and_committed(old(store)@, final(store)@, identity@, now, result),
        },
        registry@.contains_key(identity@.provider_id) && force_refresh ==> fetched_and_committed(
            old(store)@,
            final(store)@,
            identity@,
            now,
            result,
        ),
        result matches Ok(pkg) ==> pkg@.identity == identity@ && lookup(final(store)@, identity@)
            == Some(SlotView::Intact(pkg@)),
{
    let request = Request { identity: identity.clone(), force_refresh };
    let state = step(&request, State::Idle, Event::Start);
    let found = registry.resolve(identity.provider_id.as_str());
    let state = step(&request, state, Event::Resolved(found.is_ok()));
    let provider = match found {
        Ok(provider) => provider,
        Err(_) => { return Err(IndexError::ProviderNotFound); },
    };
    let cached = if force_refresh {
        Ok(None)
    } else {
        store.get(identity)
    };
    let state = step(&request, state, Event::Checked(cached));
    let state = match state {
        State::Fetching => step(&request, State::Fetching, Event::Fetched(provider.fetch_raw(identity))),
        other => other,
    };
    let state = match state {
        State::Parsing(raw) => {
            let parsed = provider.parse(&raw);
            step(&request, State::Parsing(raw), Event::Parsed(parsed, now))
        },
        other => other,
    };
    let state = match state {
        State::Committing(pkg) => {
            proof {
                lemma_put_then_get(store@, pkg@);
            }
            store.put(pkg.clone());
            step(&request, State::Committing(pkg), Event::Committed(Ok(())))
        },
        other => other,
    };
    match state.outcome() {
        Some(result) => result,
        None => unreached(),
    }
}

/// What a request that asked its provider left behind: the package it
/// returns, built for the identity at the time `now` and put into the store,
/// or a failure of the provider and the store as it was.
pub open spec fn fetched_and_committed(
    before: Seq<RecordView>,
    after: Seq<RecordView>,
    identity: IdentityView,
    now: u64,
    result: Result<IndexedPackage, IndexError>,
) -> bool {
    match result {
        Ok(pkg) => {
            &&& pkg@.identity == identity
            &&& pkg@.indexed_at == now
            &&& after == stored(before, record_of(pkg@))
        },
        Err(e) => {
            &&& (e@ is Fetch || e@ is Parse)
            &&& after == before
        },
    }
}

} // verus!
