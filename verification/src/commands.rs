//! Which slash commands are registered, and when.

use vstd::prelude::*;

verus! {

/// A slash command of the assistant.
#[derive(Clone, Copy, Debug, PartialEq, Eq, Structural, Hash)]
pub enum SlashCommand {
    File,
    Delta,
    Outline,
    Tab,
    CargoWorkspace,
    Prompt,
    Selection,
    Default,
    Now,
    Diagnostics,
    Fetch,
    StreamingExample,
    Docs,
}

/// A change to the set of registered commands.
#[derive(Clone, Copy, Debug, PartialEq, Eq, Structural)]
pub enum CommandChange {
    /// Register the command; the flag says whether it is featured.
    Register(SlashCommand, bool),
    /// Remove the command.
    Unregister(SlashCommand),
}

/// The registered commands after one change: each command with its
/// featured flag.
pub open spec fn applied(registered: Map<SlashCommand, bool>, change: CommandChange) -> Map<
    SlashCommand,
    bool,
> {
    match change {
        CommandChange::Register(command, featured) => registered.insert(command, featured),
        CommandChange::Unregister(command) => registered.remove(command),
    }
}

/// The registered commands after the changes, made in their order.
pub open spec fn applied_all(registered: Map<SlashCommand, bool>, changes: Seq<CommandChange>) -> Map<
    SlashCommand,
    bool,
>
    decreases changes.len(),
{
    if changes.len() == 0 {
        registered
    } else {
        applied(applied_all(registered, changes.drop_last()), changes.last())
    }
}

/// The commands registered at start, in the order of their registration.
pub open spec fn builtin() -> Seq<CommandChange> {
    seq![
        CommandChange::Register(SlashCommand::File, true),
        CommandChange::Register(SlashCommand::Delta, true),
        CommandChange::Register(SlashCommand::Outline, true),
        CommandChange::Register(SlashCommand::Tab, true),
        CommandChange::Register(SlashCommand::CargoWorkspace, true),
        CommandChange::Register(SlashCommand::Prompt, true),
        CommandChange::Register(SlashCommand::Selection, true),
        CommandChange::Register(SlashCommand::Default, false),
        CommandChange::Register(SlashCommand::Now, false),
        CommandChange::Register(SlashCommand::Diagnostics, true),
        CommandChange::Register(SlashCommand::Fetch, true),
    ]
}

/// The change that the settings ask for on a command that they switch on or
/// off: registered and featured when on, removed when off.
pub open spec fn switched(command: SlashCommand, enabled: bool) -> CommandChange {
    if enabled {
        CommandChange::Register(command, true)
    } else {
        CommandChange::Unregister(command)
    }
}

/// The changes that the settings ask for.
pub open spec fn from_settings(docs_enabled: bool, cargo_workspace_enabled: bool) -> Seq<
    CommandChange,
> {
    seq![
        switched(SlashCommand::Docs, docs_enabled),
        switched(SlashCommand::CargoWorkspace, cargo_workspace_enabled),
    ]
}

/// The registrations to make at start.
pub fn register_slash_commands() -> (changes: Vec<CommandChange>)
    ensures
        changes@ == builtin(),
{
    let mut changes: Vec<CommandChange> = Vec::new();
    changes.push(CommandChange::Register(SlashCommand::File, true));
    changes.push(CommandChange::Register(SlashCommand::Delta, true));
    changes.push(CommandChange::Register(SlashCommand::Outline, true));
    changes.push(CommandChange::Register(SlashCommand::Tab, true));
    changes.push(CommandChange::Register(SlashCommand::CargoWorkspace, true));
    changes.push(CommandChange::Register(SlashCommand::Prompt, true));
    changes.push(CommandChange::Register(SlashCommand::Selection, true));
    changes.push(CommandChange::Register(SlashCommand::Default, false));
    changes.push(CommandChange::Register(SlashCommand::Now, false));
    changes.push(CommandChange::Register(SlashCommand::Diagnostics, true));
    changes.push(CommandChange::Register(SlashCommand::Fetch, true));
    assert(changes@ =~= builtin());
    changes
}

/// The change to make when the flag of the streaming example is seen: the
/// command is registered, not featured, when the flag is on; nothing
/// happens when it is off.
pub fn streaming_example_flag_seen(is_enabled: bool) -> (change: Option<CommandChange>)
    ensures
        change == if is_enabled {
            Some(CommandChange::Register(SlashCommand::StreamingExample, false))
        } else {
            None
        },
{
    if is_enabled {
        Some(CommandChange::Register(SlashCommand::StreamingExample, false))
    } else {
        None
    }
}

/// The changes to make when the settings are read: the documentation
/// command and the workspace command are each registered when switched on
/// and removed when switched off.
pub fn update_slash_commands_from_settings(docs_enabled: bool, cargo_workspace_enabled: bool) -> (changes:
    Vec<CommandChange>)
    ensures
        changes@ == from_settings(docs_enabled, cargo_workspace_enabled),
{
    let mut changes: Vec<CommandChange> = Vec::new();
    if docs_enabled {
        changes.push(CommandChange::Register(SlashCommand::Docs, true));
    } else {
        changes.push(CommandChange::Unregister(SlashCommand::Docs));
    }
    if cargo_workspace_enabled {
        changes.push(CommandChange::Register(SlashCommand::CargoWorkspace, true));
    } else {
        changes.push(CommandChange::Unregister(SlashCommand::CargoWorkspace));
    }
    assert(changes@ =~= from_settings(docs_enabled, cargo_workspace_enabled));
    changes
}

/// After the changes that the settings ask for, the documentation command
/// and the workspace command are registered exactly when they are switched
/// on, and every other command is as it was.
pub proof fn lemma_settings_decide(
    registered: Map<SlashCommand, bool>,
    docs_enabled: bool,
    cargo_workspace_enabled: bool,
)
    ensures
        ({
            let after = applied_all(registered, from_settings(docs_enabled, cargo_workspace_enabled));
            &&& after.contains_key(SlashCommand::Docs) == docs_enabled
            &&& after.contains_key(SlashCommand::CargoWorkspace) == cargo_workspace_enabled
            &&& forall|c: SlashCommand|
                c != SlashCommand::Docs && c != SlashCommand::CargoWorkspace ==> (
                after.contains_key(c) == registered.contains_key(c)) && (after.contains_key(c)
                    ==> after[c] == registered[c])
        }),
{
    let changes = from_settings(docs_enabled, cargo_workspace_enabled);
    let first = changes.drop_last();
    assert(first.drop_last().len() == 0);
    assert(applied_all(registered, first.drop_last()) == registered);
    assert(first.last() == switched(SlashCommand::Docs, docs_enabled));
    assert(applied_all(registered, first) == applied(registered, first.last()));
    assert(changes.last() == switched(SlashCommand::CargoWorkspace, cargo_workspace_enabled));
    assert(applied_all(registered, changes) == applied(
        applied_all(registered, first),
        changes.last(),
    ));
}

} // verus!
