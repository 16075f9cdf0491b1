//! The directory of providers, keyed by provider id.

use vstd::prelude::*;
use crate::error::IndexError;
use crate::text::same_text;

verus! {

/// Names a provider.
#[derive(Debug, PartialEq, Eq, Hash)]
pub struct ProviderDescriptor {
    pub id: String,
    pub display_name: String,
}

/// What a [`ProviderDescriptor`] holds.
pub struct DescriptorView {
    pub id: Seq<char>,
    pub display_name: Seq<char>,
}

impl View for ProviderDescriptor {
    type V = DescriptorView;

    open spec fn view(&self) -> DescriptorView {
        DescriptorView { id: self.id@, display_name: self.display_name@ }
    }
}

impl ProviderDescriptor {
    /// A descriptor from its parts.
    pub fn new(id: String, display_name: String) -> (d: Self)
        ensures
            d.id == id,
            d.display_name == display_name,
    {
        ProviderDescriptor { id, display_name }
    }
}

impl Clone for ProviderDescriptor {
    fn clone(&self) -> (r: Self)
        ensures
            r@ == self@,
    {
        ProviderDescriptor { id: self.id.clone(), display_name: self.display_name.clone() }
    }
}

/// A provider as it is registered: under a descriptor.
pub struct RegistrationView<P> {
    pub descriptor: DescriptorView,
    pub provider: P,
}

struct Entry<P> {
    descriptor: ProviderDescriptor,
    provider: P,
}

/// The providers that are registered, each under the id of its descriptor.
pub struct Registry<P> {
    entries: Vec<Entry<P>>,
}

/// Some entry has the id `id`.
spec fn listed<P>(entries: Seq<Entry<P>>, id: Seq<char>) -> bool {
    exists|i: int| 0 <= i < entries.len() && (#[trigger] entries[i]).descriptor.id@ == id
}

/// The position of the entry of `id`, where there is one.
spec fn slot<P>(entries: Seq<Entry<P>>, id: Seq<char>) -> int {
    choose|i: int| 0 <= i < entries.len() && (#[trigger] entries[i]).descriptor.id@ == id
}

/// No id has two entries.
spec fn distinct<P>(entries: Seq<Entry<P>>) -> bool {
    forall|i: int, j: int|
        0 <= i < j < entries.len() ==> (#[trigger] entries[i]).descriptor.id@ != (
        #[trigger] entries[j]).descriptor.id@
}

/// What the entries register.
spec fn registered<P>(entries: Seq<Entry<P>>) -> Map<Seq<char>, RegistrationView<P>> {
    Map::new(
        |id: Seq<char>| listed(entries, id),
        |id: Seq<char>|
            RegistrationView {
                descriptor: entries[slot(entries, id)].descriptor@,
                provider: entries[slot(entries, id)].provider,
            },
    )
}

/// Where no id has two entries, the entry of an id is the one found at any
/// position that holds it.
proof fn lemma_slot<P>(entries: Seq<Entry<P>>, id: Seq<char>, i: int)
    requires
        distinct(entries),
        0 <= i < entries.len(),
        entries[i].descriptor.id@ == id,
    ensures
        listed(entries, id),
        slot(entries, id) == i,
{
    let k = slot(entries, id);
    if k < i {
        assert(entries[k].descriptor.id@ != entries[i].descriptor.id@);
    } else if i < k {
        assert(entries[i].descriptor.id@ != entries[k].descriptor.id@);
    }
}

impl<P> View for Registry<P> {
    type V = Map<Seq<char>, RegistrationView<P>>;

    closed spec fn view(&self) -> Map<Seq<char>, RegistrationView<P>> {
        registered(self.entries@)
    }
}

impl<P> Registry<P> {
    /// No provider id is registered twice.
    pub closed spec fn well_formed(&self) -> bool {
        distinct(self.entries@)
    }

    /// A registry with no provider.
    pub fn new() -> (registry: Self)
        ensures
            registry.well_formed(),
            registry@ == Map::<Seq<char>, RegistrationView<P>>::empty(),
    {
        let registry = Registry { entries: Vec::new() };
        assert(registry@ =~= Map::<Seq<char>, RegistrationView<P>>::empty());
        registry
    }

    /// Whether a provider is registered under `id`.
    pub fn is_registered(&self, id: &str) -> (r: bool)
        requires
            self.well_formed(),
        ensures
            r == self@.contains_key(id@),
    {
        self.position(id).is_some()
    }

    /// The position of the entry of `id`, if there is one.
    fn position(&self, id: &str) -> (r: Option<usize>)
        requires
            self.well_formed(),
        ensures
            match r {
                Some(i) => i < self.entries@.len() && self.entries@[i as int].descriptor.id@ == id@
                    && listed(self.entries@, id@) && slot(self.entries@, id@) == i,
                None => !listed(self.entries@, id@),
            },
    {
        let mut i: usize = 0;
        while i < self.entries.len()
            invariant
                i <= self.entries@.len(),
                self.well_formed(),
                forall|j: int| 0 <= j < i ==> (#[trigger] self.entries@[j]).descriptor.id@ != id@,
            decreases self.entries@.len() - i,
        {
            if same_text(self.entries[i].descriptor.id.as_str(), id) {
                proof {
                    lemma_slot(self.entries@, id@, i as int);
                }
                return Some(i);
            }
            i += 1;
        }
        None
    }

    /// Registers `provider` under the id of `descriptor`, in the place of
    /// whatever was registered under that id before.
    pub fn register(&mut self, descriptor: ProviderDescriptor, provider: P)
        requires
            old(self).well_formed(),
        ensures
            final(self).well_formed(),
            final(self)@ == old(self)@.insert(
                descriptor.id@,
                RegistrationView { descriptor: descriptor@, provider },
            ),
    {
        let ghost before = self.entries@;
        let ghost id = descriptor.id@;
        let ghost added = RegistrationView { descriptor: descriptor@, provider };
        let found = self.position(descriptor.id.as_str());
        let at: usize = match found {
            Some(i) => i,
            None => self.entries.len(),
        };
        match found {
            Some(i) => {
                self.entries.set(i, Entry { descriptor, provider });
            },
            None => {
                self.entries.push(Entry { descriptor, provider });
            },
        }
        proof {
            let after = self.entries@;
            assert forall|i: int, j: int| 0 <= i < j < after.len() implies (#[trigger] after[i]).descriptor.id@
                != (#[trigger] after[j]).descriptor.id@ by {
                if i != at && i < before.len() {
                    assert(after[i] == before[i]);
                }
                if j != at && j < before.len() {
                    assert(after[j] == before[j]);
                }
                if i < before.len() && j < before.len() {
                    assert(before[i].descriptor.id@ != before[j].descriptor.id@);
                }
            }
            assert forall|k: Seq<char>| listed(after, k) <==> (k == id || listed(before, k)) by {
                if listed(after, k) {
                    let i = slot(after, k);
                    if i != at {
                        assert(after[i] == before[i]);
                    }
                }
                if listed(before, k) {
                    let i = slot(before, k);
                    assert(after[i].descriptor.id@ == before[i].descriptor.id@);
                }
                if k == id {
                    assert(after[at as int].descriptor.id@ == id);
                }
            }
            assert forall|k: Seq<char>| listed(after, k) implies #[trigger] registered(after)[k] == (
            if k == id {
                added
            } else {
                registered(before)[k]
            }) by {
                if k == id {
                    lemma_slot(after, k, at as int);
                } else {
                    let i = slot(before, k);
                    assert(after[i] == before[i]);
                    lemma_slot(after, k, i);
                }
            }
            assert(registered(after) =~= registered(before).insert(id, added));
        }
    }

    /// Removes the provider registered under `id`; changes nothing where
    /// there is none.
    pub fn unregister(&mut self, id: &str)
        requires
            old(self).well_formed(),
        ensures
            final(self).well_formed(),
            final(self)@ == old(self)@.remove(id@),
    {
        let ghost before = self.entries@;
        match self.position(id) {
            Some(at) => {
                self.entries.remove(at);
                proof {
                    let after = self.entries@;
                    assert forall|i: int, j: int| 0 <= i < j < after.len() implies (
                    #[trigger] after[i]).descriptor.id@ != (#[trigger] after[j]).descriptor.id@ by {
                        let i0 = if i < at { i } else { i + 1 };
                        let j0 = if j < at { j } else { j + 1 };
                        assert(after[i] == before[i0]);
                        assert(after[j] == before[j0]);
                    }
                    assert forall|k: Seq<char>| listed(after, k) <==> (k != id@ && listed(before, k)) by {
                        if listed(after, k) {
                            let i = slot(after, k);
                            let i0 = if i < at { i } else { i + 1 };
                            assert(after[i] == before[i0]);
                            if k == id@ {
                                lemma_slot(before, k, i0);
                            }
                        }
                        if k != id@ && listed(before, k) {
                            let i = slot(before, k);
                            let i1 = if i < at { i } else { i - 1 };
                            assert(after[i1] == before[i]);
                        }
                    }
                    assert forall|k: Seq<char>| listed(after, k) implies #[trigger] registered(after)[k]
                        == registered(before)[k] by {
                        let i = slot(before, k);
                        let i1 = if i < at { i } else { i - 1 };
                        assert(after[i1] == before[i]);
                        lemma_slot(after, k, i1);
                    }
                    assert(registered(after) =~= registered(before).remove(id@));
                }
            },
            None => {
                assert(registered(before) =~= registered(before).remove(id@));
            },
        }
    }

    /// The provider registered under `id`; the failure `ProviderNotFound`
    /// where there is none.
    pub fn resolve(&self, id: &str) -> (r: Result<&P, IndexError>)
        requires
            self.well_formed(),
        ensures
            match r {
                Ok(provider) => self@.contains_key(id@) && *provider == self@[id@].provider,
                Err(e) => !self@.contains_key(id@) && e == IndexError::ProviderNotFound,
            },
    {
        match self.position(id) {
            Some(i) => Ok(&self.entries[i].provider),
            None => Err(IndexError::ProviderNotFound),
        }
    }

    /// The descriptor registered under `id`, if there is one.
    pub fn descriptor(&self, id: &str) -> (r: Option<&ProviderDescriptor>)
        requires
            self.well_formed(),
        ensures
            match r {
                Some(d) => self@.contains_key(id@) && d@ == self@[id@].descriptor,
                None => !self@.contains_key(id@),
            },
    {
        match self.position(id) {
            Some(i) => Some(&self.entries[i].descriptor),
            None => None,
        }
    }
}

/// After a provider is registered and its id unregistered, no provider is
/// registered under that id.
pub proof fn lemma_unregister_then_resolve<P>(
    providers: Map<Seq<char>, RegistrationView<P>>,
    descriptor: DescriptorView,
    provider: P,
)
    ensures
        !providers.insert(descriptor.id, RegistrationView { descriptor, provider }).remove(
            descriptor.id,
        ).contains_key(descriptor.id),
{
}

/// Of two providers registered one after the other under one id, the second
/// stands; registering the same provider twice is registering it once.
pub proof fn lemma_last_write_wins<P>(
    providers: Map<Seq<char>, RegistrationView<P>>,
    id: Seq<char>,
    first: RegistrationView<P>,
    second: RegistrationView<P>,
)
    ensures
        providers.insert(id, first).insert(id, second) == providers.insert(id, second),
        providers.insert(id, first).insert(id, first) == providers.insert(id, first),
{
    assert(providers.insert(id, first).insert(id, second) =~= providers.insert(id, second));
    assert(providers.insert(id, first).insert(id, first) =~= providers.insert(id, first));
}

/// A provider that is registered is the one that its id resolves to, until
/// the id is registered again or unregistered.
pub proof fn lemma_register_then_resolve<P>(
    providers: Map<Seq<char>, RegistrationView<P>>,
    descriptor: DescriptorView,
    provider: P,
)
    ensures
        providers.insert(descriptor.id, RegistrationView { descriptor, provider }).contains_key(
            descriptor.id,
        ),
        providers.insert(descriptor.id, RegistrationView { descriptor, provider })[descriptor.id].provider
            == provider,
{
}

} // verus!
