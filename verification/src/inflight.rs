//! The identities that are being indexed right now.
//!
//! A request for an identity that is already being indexed does not start
//! the work a second time: it follows the request that leads and takes its
//! result. Whether a cached package may be used plays no part in this; only
//! the identity counts.

use vstd::prelude::*;
use crate::identity::{IdentityView, PackageIdentity};

verus! {

/// The part a request plays in indexing its identity.
#[derive(Clone, Copy, Debug, PartialEq, Eq, Structural)]
pub enum Role {
    /// No request for the identity is under way: this one does the work.
    Lead,
    /// A request for the identity is under way: this one waits for it.
    Follow,
}

/// The identities with a request under way.
pub struct InFlight {
    active: Vec<PackageIdentity>,
}

impl View for InFlight {
    type V = Set<IdentityView>;

    closed spec fn view(&self) -> Set<IdentityView> {
        Set::new(
            |id: IdentityView|
                exists|i: int| 0 <= i < self.active@.len() && (#[trigger] self.active@[i])@ == id,
        )
    }
}

/// The part that a request for `id` plays while `active` are under way.
pub open spec fn role(active: Set<IdentityView>, id: IdentityView) -> Role {
    if active.contains(id) {
        Role::Follow
    } else {
        Role::Lead
    }
}

/// The parts that `n` requests for `id` play when they come in one after the
/// other, with none of them ending in between.
pub open spec fn roles(active: Set<IdentityView>, id: IdentityView, n: nat) -> Seq<Role>
    decreases n,
{
    if n == 0 {
        Seq::empty()
    } else {
        seq![role(active, id)] + roles(active.insert(id), id, (n - 1) as nat)
    }
}

/// Of any number of requests for one identity that come in while none for
/// it is under way, the first leads and all the others follow: the work is
/// started once.
pub proof fn lemma_one_leader(active: Set<IdentityView>, id: IdentityView, n: nat)
    requires
        n >= 1,
        !active.contains(id),
    ensures
        roles(active, id, n).len() == n,
        roles(active, id, n)[0] == Role::Lead,
        forall|i: int| 1 <= i < n ==> roles(active, id, n)[i] == Role::Follow,
{
    lemma_followers(active.insert(id), id, (n - 1) as nat);
}

/// While a request for an identity is under way, every further request for
/// it follows.
pub proof fn lemma_followers(active: Set<IdentityView>, id: IdentityView, n: nat)
    requires
        active.contains(id),
    ensures
        roles(active, id, n).len() == n,
        forall|i: int| 0 <= i < n ==> roles(active, id, n)[i] == Role::Follow,
    decreases n,
{
    if n > 0 {
        assert(active.insert(id) =~= active);
        lemma_followers(active, id, (n - 1) as nat);
    }
}

impl InFlight {
    /// No request under way.
    pub fn new() -> (table: Self)
        ensures
            table@ == Set::<IdentityView>::empty(),
    {
        let table = InFlight { active: Vec::new() };
        assert(table@ =~= Set::<IdentityView>::empty());
        table
    }

    /// Whether a request for `id` is under way.
    pub fn is_active(&self, id: &PackageIdentity) -> (r: bool)
        ensures
            r == self@.contains(id@),
    {
        let mut i: usize = 0;
        while i < self.active.len()
            invariant
                i <= self.active@.len(),
                forall|j: int| 0 <= j < i ==> (#[trigger] self.active@[j])@ != id@,
            decreases self.active@.len() - i,
        {
            if self.active[i] == *id {
                return true;
            }
            i += 1;
        }
        false
    }

    /// Takes in a request for `id` and says which part it plays. From now on
    /// a request for `id` is under way.
    pub fn enter(&mut self, id: &PackageIdentity) -> (r: Role)
        ensures
            r == role(old(self)@, id@),
            final(self)@ == old(self)@.insert(id@),
    {
        if self.is_active(id) {
            assert(self@.insert(id@) =~= self@);
            Role::Follow
        } else {
            let ghost before = self.active@;
            self.active.push(id.clone());
            proof {
                let after = self.active@;
                assert forall|k: IdentityView| final(self)@.contains(k) <==> old(self)@.insert(
                    id@,
                ).contains(k) by {
                    if old(self)@.contains(k) {
                        let i = choose|i: int| 0 <= i < before.len() && (#[trigger] before[i])@ == k;
                        assert(after[i]@ == k);
                    }
                    if k == id@ {
                        assert(after[before.len() as int]@ == k);
                    }
                    if final(self)@.contains(k) {
                        let i = choose|i: int| 0 <= i < after.len() && (#[trigger] after[i])@ == k;
                        if i < before.len() {
                            assert(before[i]@ == k);
                        }
                    }
                }
                assert(final(self)@ =~= old(self)@.insert(id@));
            }
            Role::Lead
        }
    }

    /// Notes that the request for `id` has ended. The next request for `id`
    /// leads again.
    pub fn complete(&mut self, id: &PackageIdentity)
        ensures
            final(self)@ == old(self)@.remove(id@),
    {
        let ghost before = self.active@;
        let mut kept: Vec<PackageIdentity> = Vec::new();
        let mut i: usize = 0;
        while i < self.active.len()
            invariant
                i <= self.active@.len(),
                self.active@ == before,
                forall|j: int| 0 <= j < kept@.len() ==> (#[trigger] kept@[j])@ != id@ && exists|k: int|
                    0 <= k < i && (#[trigger] before[k])@ == kept@[j]@,
                forall|k: int|
                    0 <= k < i && (#[trigger] before[k])@ != id@ ==> exists|j: int|
                        0 <= j < kept@.len() && (#[trigger] kept@[j])@ == before[k]@,
            decreases self.active@.len() - i,
        {
            if !(self.active[i] == *id) {
                let ghost held = kept@;
                kept.push(self.active[i].clone());
                proof {
                    assert forall|k: int|
                        0 <= k < i + 1 && (#[trigger] before[k])@ != id@ implies exists|j: int|
                        0 <= j < kept@.len() && (#[trigger] kept@[j])@ == before[k]@ by {
                        if k < i {
                            let j = choose|j: int|
                                0 <= j < held.len() && (#[trigger] held[j])@ == before[k]@;
                            assert(kept@[j]@ == before[k]@);
                        } else {
                            assert(kept@[held.len() as int]@ == before[k]@);
                        }
                    }
                    assert forall|j: int| 0 <= j < kept@.len() implies (#[trigger] kept@[j])@ != id@
                        && exists|k: int| 0 <= k < i + 1 && (#[trigger] before[k])@ == kept@[j]@ by {
                        if j < held.len() {
                            assert(kept@[j] == held[j]);
                            let k = choose|k: int| 0 <= k < i && (#[trigger] before[k])@ == held[j]@;
                            assert(before[k]@ == kept@[j]@);
                        } else {
                            assert(before[i as int]@ == kept@[j]@);
                        }
                    }
                }
            }
            i += 1;
        }
        self.active = kept;
        proof {
            assert forall|k: IdentityView| final(self)@.contains(k) <==> old(self)@.remove(
                id@,
            ).contains(k) by {
                if final(self)@.contains(k) {
                    let j = choose|j: int| 0 <= j < kept@.len() && (#[trigger] kept@[j])@ == k;
                    let w = choose|w: int| 0 <= w < i && (#[trigger] before[w])@ == kept@[j]@;
                    assert(before[w]@ == k);
                }
                if old(self)@.remove(id@).contains(k) {
                    let w = choose|w: int| 0 <= w < before.len() && (#[trigger] before[w])@ == k;
                    let j = choose|j: int| 0 <= j < kept@.len() && (#[trigger] kept@[j])@ == before[w]@;
                    assert(kept@[j]@ == k);
                }
            }
            assert(final(self)@ =~= old(self)@.remove(id@));
        }
    }
}

} // verus!
