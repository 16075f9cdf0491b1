//! One unit of documentation: a module, a type, a function and so on, with
//! the text that is searched.

use vstd::prelude::*;
use crate::identity::{copy_optional, optional_text};
use crate::text::texts;

verus! {

/// What an entry documents.
#[derive(Clone, Copy, Debug, PartialEq, Eq, Structural, Hash)]
pub enum DocKind {
    Module,
    Type,
    Function,
    Constant,
    Trait,
    Other,
}

/// One documentation unit. Its path is never empty and neither is its title;
/// its body may be.
#[derive(Debug, PartialEq, Eq)]
pub struct DocEntry {
    path: Vec<String>,
    kind: DocKind,
    title: String,
    body: String,
    source_url: Option<String>,
}

/// What a [`DocEntry`] holds.
pub struct EntryView {
    pub path: Seq<Seq<char>>,
    pub kind: DocKind,
    pub title: Seq<char>,
    pub body: Seq<char>,
    pub source_url: Option<Seq<char>>,
}

impl EntryView {
    /// The path and the title are not empty.
    pub open spec fn well_formed(self) -> bool {
        self.path.len() > 0 && self.title.len() > 0
    }
}

/// Why a set of parts is no entry.
#[derive(Clone, Copy, Debug, PartialEq, Eq, Structural)]
pub enum EntryError {
    /// The path has no segment.
    EmptyPath,
    /// The title has no character.
    EmptyTitle,
}

impl View for DocEntry {
    type V = EntryView;

    closed spec fn view(&self) -> EntryView {
        EntryView {
            path: texts(self.path@),
            kind: self.kind,
            title: self.title@,
            body: self.body@,
            source_url: optional_text(self.source_url),
        }
    }
}

/// A copy of a list of strings.
pub fn copy_strings(v: &Vec<String>) -> (r: Vec<String>)
    ensures
        texts(r@) == texts(v@),
{
    let mut r: Vec<String> = Vec::new();
    let mut i: usize = 0;
    while i < v.len()
        invariant
            i <= v@.len(),
            r@.len() == i,
            forall|j: int| 0 <= j < i ==> r@[j]@ == v@[j]@,
        decreases v@.len() - i,
    {
        r.push(v[i].clone());
        i += 1;
    }
    assert(texts(r@) =~= texts(v@));
    r
}

impl DocEntry {
    #[verifier::type_invariant]
    spec fn inv(&self) -> bool {
        self@.well_formed()
    }

    /// An entry from its parts, or the reason why they make none.
    pub fn new(
        path: Vec<String>,
        kind: DocKind,
        title: String,
        body: String,
        source_url: Option<String>,
    ) -> (r: Result<DocEntry, EntryError>)
        ensures
            path@.len() == 0 ==> r == Err::<DocEntry, EntryError>(EntryError::EmptyPath),
            path@.len() > 0 && title@.len() == 0 ==> r == Err::<DocEntry, EntryError>(
                EntryError::EmptyTitle,
            ),
            path@.len() > 0 && title@.len() > 0 ==> r is Ok && r->Ok_0@ == (EntryView {
                path: texts(path@),
                kind,
                title: title@,
                body: body@,
                source_url: optional_text(source_url),
            }),
    {
        if path.len() == 0 {
            return Err(EntryError::EmptyPath);
        }
        if title.as_str().is_empty() {
            return Err(EntryError::EmptyTitle);
        }
        Ok(DocEntry { path, kind, title, body, source_url })
    }

    /// The namespace path, outermost segment first.
    pub fn path(&self) -> (p: &Vec<String>)
        ensures
            texts(p@) == self@.path,
            p@.len() > 0,
    {
        proof {
            use_type_invariant(self);
        }
        &self.path
    }

    /// What the entry documents.
    pub fn kind(&self) -> (k: DocKind)
        ensures
            k == self@.kind,
    {
        self.kind
    }

    /// The title.
    pub fn title(&self) -> (t: &String)
        ensures
            t@ == self@.title,
            t@.len() > 0,
    {
        proof {
            use_type_invariant(self);
        }
        &self.title
    }

    /// The documentation text.
    pub fn body(&self) -> (b: &String)
        ensures
            b@ == self@.body,
    {
        &self.body
    }

    /// Where the documentation was taken from, if known.
    pub fn source_url(&self) -> (u: &Option<String>)
        ensures
            optional_text(*u) == self@.source_url,
    {
        &self.source_url
    }
}

impl Clone for DocEntry {
    fn clone(&self) -> (r: Self)
        ensures
            r@ == self@,
    {
        proof {
            use_type_invariant(self);
        }
        DocEntry {
            path: copy_strings(&self.path),
            kind: self.kind,
            title: self.title.clone(),
            body: self.body.clone(),
            source_url: copy_optional(&self.source_url),
        }
    }
}

/// What a list of entries holds.
pub open spec fn entry_views(v: Seq<DocEntry>) -> Seq<EntryView> {
    Seq::new(v.len(), |i: int| v[i]@)
}

/// A copy of a list of entries.
pub fn copy_entries(v: &Vec<DocEntry>) -> (r: Vec<DocEntry>)
    ensures
        entry_views(r@) == entry_views(v@),
{
    let mut r: Vec<DocEntry> = Vec::new();
    let mut i: usize = 0;
    while i < v.len()
        invariant
            i <= v@.len(),
            r@.len() == i,
            forall|j: int| 0 <= j < i ==> r@[j]@ == v@[j]@,
        decreases v@.len() - i,
    {
        r.push(v[i].clone());
        i += 1;
    }
    assert(entry_views(r@) =~= entry_views(v@));
    r
}

} // verus!
