//! Notification sounds and the asset each one is stored under.

use vstd::prelude::*;

verus! {

/// A sound the assistant can play.
#[derive(Clone, Copy, Debug)]
pub enum Sound {
    AgentDone,
}

impl Sound {
    /// The asset name a sound is looked up by.
    pub open spec fn file_name(self) -> Seq<char> {
        match self {
            Sound::AgentDone => "agent_done"@,
        }
    }

    /// Returns the asset name of this sound.
    pub fn file(&self) -> (name: &'static str)
        ensures
            name@ == self.file_name(),
    {
        match self {
            Sound::AgentDone => "agent_done",
        }
    }
}

} // verus!
