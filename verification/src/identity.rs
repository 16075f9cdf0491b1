//! The identity of a documentation source: provider, package name and an
//! optional version.

use vstd::prelude::*;
use vstd::std_specs::cmp::PartialEqSpecImpl;

verus! {

/// Names one documentation source. Two identities are the same source only
/// when all three parts agree.
#[derive(Debug, Hash)]
pub struct PackageIdentity {
    pub provider_id: String,
    pub name: String,
    pub version: Option<String>,
}

/// What a [`PackageIdentity`] holds.
pub struct IdentityView {
    pub provider_id: Seq<char>,
    pub name: Seq<char>,
    pub version: Option<Seq<char>>,
}

/// What an optional string holds.
pub open spec fn optional_text(s: Option<String>) -> Option<Seq<char>> {
    match s {
        Some(t) => Some(t@),
        None => None,
    }
}

impl View for PackageIdentity {
    type V = IdentityView;

    open spec fn view(&self) -> IdentityView {
        IdentityView {
            provider_id: self.provider_id@,
            name: self.name@,
            version: optional_text(self.version),
        }
    }
}

/// A copy of an optional string.
pub fn copy_optional(s: &Option<String>) -> (r: Option<String>)
    ensures
        optional_text(r) == optional_text(*s),
{
    match s {
        Some(t) => Some(t.clone()),
        None => None,
    }
}

/// Whether two optional strings hold the same.
pub fn same_optional(a: &Option<String>, b: &Option<String>) -> (r: bool)
    ensures
        r == (optional_text(*a) == optional_text(*b)),
{
    match (a, b) {
        (Some(x), Some(y)) => *x == *y,
        (None, None) => true,
        _ => false,
    }
}

impl PackageIdentity {
    /// An identity from its three parts.
    pub fn new(provider_id: String, name: String, version: Option<String>) -> (id: Self)
        ensures
            id.provider_id == provider_id,
            id.name == name,
            id.version == version,
    {
        PackageIdentity { provider_id, name, version }
    }
}

impl Clone for PackageIdentity {
    fn clone(&self) -> (r: Self)
        ensures
            r@ == self@,
    {
        PackageIdentity {
            provider_id: self.provider_id.clone(),
            name: self.name.clone(),
            version: copy_optional(&self.version),
        }
    }
}

impl PartialEq for PackageIdentity {
    fn eq(&self, other: &Self) -> (r: bool) {
        self.provider_id == other.provider_id && self.name == other.name && same_optional(
            &self.version,
            &other.version,
        )
    }
}

impl PartialEqSpecImpl for PackageIdentity {
    open spec fn obeys_eq_spec() -> bool {
        true
    }

    open spec fn eq_spec(&self, other: &Self) -> bool {
        self@ == other@
    }
}

impl Eq for PackageIdentity {

}

} // verus!
