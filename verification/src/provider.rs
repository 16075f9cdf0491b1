//! What a documentation provider offers.

use vstd::prelude::*;
use crate::entry::DocEntry;
use crate::error::{FetchError, ParseError};
use crate::identity::PackageIdentity;
use crate::package::RawDocument;

verus! {

/// A source of documentation for one kind of package.
///
/// Fetching may take long and may fail for reasons that pass; parsing works
/// on what was fetched and nothing else.
pub trait Provider {
    /// Retrieves the unparsed documentation of `identity`.
    fn fetch_raw(&self, identity: &PackageIdentity) -> Result<RawDocument, FetchError>;

    /// Turns raw documentation into entries.
    fn parse(&self, raw: &RawDocument) -> Result<Vec<DocEntry>, ParseError>;
}

} // verus!
