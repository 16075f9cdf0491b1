//! What can go wrong while a package is indexed or read back.

use vstd::prelude::*;
use crate::package::RawDocument;

verus! {

/// Why a provider could not hand over raw documentation.
#[derive(Clone, Copy, Debug, PartialEq, Eq, Structural)]
pub enum FetchError {
    /// The provider knows no such package.
    NotFound,
    /// The source could not be reached.
    NetworkError,
    /// The source asks to be called less often.
    RateLimited,
}

impl FetchError {
    /// The same request may succeed later: every failure but `NotFound`.
    pub open spec fn transient(self) -> bool {
        self != FetchError::NotFound
    }

    /// Whether the same request may succeed when it is made again later.
    pub fn is_transient(&self) -> (r: bool)
        ensures
            r == self.transient(),
    {
        match self {
            FetchError::NotFound => false,
            FetchError::NetworkError => true,
            FetchError::RateLimited => true,
        }
    }
}

/// What a provider reports when raw documentation is malformed.
#[derive(Debug, PartialEq, Eq)]
pub struct ParseError {
    pub message: String,
}

/// A parse error together with the raw content that did not parse.
#[derive(Debug, PartialEq, Eq)]
pub struct ParseFailure {
    pub error: ParseError,
    pub raw: RawDocument,
}

/// Why the store could not answer.
#[derive(Clone, Copy, Debug, PartialEq, Eq, Structural)]
pub enum StorageError {
    /// What is persisted for the package does not read back as that package.
    Corrupt,
    /// The persistence layer failed.
    Io,
}

/// Why a package could not be indexed.
#[derive(Debug, PartialEq, Eq)]
pub enum IndexError {
    /// No provider is registered under the identity's provider id.
    ProviderNotFound,
    /// The provider could not fetch the raw documentation.
    Fetch(FetchError),
    /// The provider could not parse what it fetched.
    Parse(ParseFailure),
    /// The store failed.
    Storage(StorageError),
}

/// What an [`IndexError`] holds.
pub enum IndexErrorView {
    ProviderNotFound,
    Fetch(FetchError),
    Parse { message: Seq<char>, raw: Seq<u8> },
    Storage(StorageError),
}

impl View for IndexError {
    type V = IndexErrorView;

    open spec fn view(&self) -> IndexErrorView {
        match self {
            IndexError::ProviderNotFound => IndexErrorView::ProviderNotFound,
            IndexError::Fetch(e) => IndexErrorView::Fetch(*e),
            IndexError::Parse(failure) => IndexErrorView::Parse {
                message: failure.error.message@,
                raw: failure.raw@,
            },
            IndexError::Storage(e) => IndexErrorView::Storage(*e),
        }
    }
}

} // verus!
