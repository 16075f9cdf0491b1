//! The order in which the parts of the assistant are set up.

use vstd::prelude::*;

verus! {

/// A part of the assistant that is set up at start.
#[derive(Clone, Copy, Debug, PartialEq, Eq, Structural)]
pub enum Subsystem {
    AgentSettings,
    SlashCommandSettings,
    ContextEditor,
    RulesLibrary,
    LanguageModelSettings,
    SlashCommandRegistry,
    ThreadStore,
    AgentPanel,
    SlashCommands,
    InlineAssistant,
    TerminalInlineAssistant,
    IndexedDocs,
    ContextServerModal,
    ManageProfilesModal,
}

/// The parts that are set up whether or not an evaluation runs, in their
/// order, up to the selection of the language models.
pub open spec fn before_models() -> Seq<Subsystem> {
    seq![
        Subsystem::AgentSettings,
        Subsystem::SlashCommandSettings,
        Subsystem::ContextEditor,
        Subsystem::RulesLibrary,
    ]
}

/// The parts that are set up after the selection of the language models, in
/// their order.
pub open spec fn after_models() -> Seq<Subsystem> {
    seq![
        Subsystem::SlashCommandRegistry,
        Subsystem::ThreadStore,
        Subsystem::AgentPanel,
        Subsystem::SlashCommands,
        Subsystem::InlineAssistant,
        Subsystem::TerminalInlineAssistant,
        Subsystem::IndexedDocs,
        Subsystem::ContextServerModal,
        Subsystem::ManageProfilesModal,
    ]
}

/// The parts to set up, in their order. Inside an evaluation the language
/// models are not selected from the user's settings; outside of one they
/// are, between the two groups.
pub open spec fn sequence(is_eval: bool) -> Seq<Subsystem> {
    if is_eval {
        before_models() + after_models()
    } else {
        before_models() + seq![Subsystem::LanguageModelSettings] + after_models()
    }
}

/// The parts to set up at start, in their order.
pub fn init(is_eval: bool) -> (parts: Vec<Subsystem>)
    ensures
        parts@ == sequence(is_eval),
{
    let mut parts: Vec<Subsystem> = Vec::new();
    parts.push(Subsystem::AgentSettings);
    parts.push(Subsystem::SlashCommandSettings);
    parts.push(Subsystem::ContextEditor);
    parts.push(Subsystem::RulesLibrary);
    if !is_eval {
        parts.push(Subsystem::LanguageModelSettings);
    }
    parts.push(Subsystem::SlashCommandRegistry);
    parts.push(Subsystem::ThreadStore);
    parts.push(Subsystem::AgentPanel);
    parts.push(Subsystem::SlashCommands);
    parts.push(Subsystem::InlineAssistant);
    parts.push(Subsystem::TerminalInlineAssistant);
    parts.push(Subsystem::IndexedDocs);
    parts.push(Subsystem::ContextServerModal);
    parts.push(Subsystem::ManageProfilesModal);
    assert(parts@ =~= sequence(is_eval));
    parts
}

} // verus!
