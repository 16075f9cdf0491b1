//! Actions of the assistant that carry data.

use vstd::prelude::*;
use crate::identity::{copy_optional, optional_text};

verus! {

/// Opens a new thread, optionally continuing from an earlier one.
#[derive(Debug, PartialEq)]
pub struct NewThread {
    from_thread_id: Option<String>,
}

impl View for NewThread {
    type V = Option<Seq<char>>;

    closed spec fn view(&self) -> Option<Seq<char>> {
        optional_text(self.from_thread_id)
    }
}

impl NewThread {
    /// The action that continues from `from_thread_id`, or starts afresh
    /// where there is none.
    pub fn new(from_thread_id: Option<String>) -> (action: Self)
        ensures
            action@ == optional_text(from_thread_id),
    {
        NewThread { from_thread_id }
    }

    /// The thread to continue from, if any.
    pub fn from_thread_id(&self) -> (id: &Option<String>)
        ensures
            optional_text(*id) == self@,
    {
        &self.from_thread_id
    }
}

impl Default for NewThread {
    fn default() -> (action: Self)
        ensures
            action@ is None,
    {
        NewThread { from_thread_id: None }
    }
}

impl Clone for NewThread {
    fn clone(&self) -> (action: Self)
        ensures
            action@ == self@,
    {
        NewThread { from_thread_id: copy_optional(&self.from_thread_id) }
    }
}

/// Opens the profile manager, optionally on the tools of one profile.
#[derive(Debug, PartialEq)]
pub struct ManageProfiles {
    pub customize_tools: Option<String>,
}

impl View for ManageProfiles {
    type V = Option<Seq<char>>;

    open spec fn view(&self) -> Option<Seq<char>> {
        optional_text(self.customize_tools)
    }
}

impl ManageProfiles {
    /// The action that opens the manager on the tools of `profile_id`.
    pub fn customize_tools(profile_id: String) -> (action: Self)
        ensures
            action@ == Some(profile_id@),
    {
        ManageProfiles { customize_tools: Some(profile_id) }
    }
}

impl Default for ManageProfiles {
    fn default() -> (action: Self)
        ensures
            action@ is None,
    {
        ManageProfiles { customize_tools: None }
    }
}

impl Clone for ManageProfiles {
    fn clone(&self) -> (action: Self)
        ensures
            action@ == self@,
    {
        ManageProfiles { customize_tools: copy_optional(&self.customize_tools) }
    }
}

} // verus!
