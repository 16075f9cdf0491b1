use indexed_docs::actions::{ManageProfiles, NewThread};
use indexed_docs::commands::{
    register_slash_commands, streaming_example_flag_seen, update_slash_commands_from_settings,
    CommandChange, SlashCommand,
};
use indexed_docs::models::{
    to_selected_model, update_active_language_model_from_settings, LanguageModelSelection,
    ModelSelections, ModelSettings, ModelUsageContext, RegistryEvent, SelectedModel,
};
use indexed_docs::startup::{init, Subsystem};

#[test]
fn new_thread_defaults_to_a_fresh_thread() {
    assert_eq!(NewThread::default().from_thread_id(), &None);
    assert_eq!(NewThread::default(), NewThread::new(None));
}

#[test]
fn new_thread_keeps_the_thread_to_continue() {
    let action = NewThread::new(Some("thread-1".to_string()));
    assert_eq!(action.from_thread_id(), &Some("thread-1".to_string()));
    assert_eq!(action.clone(), action);
    assert_ne!(action, NewThread::default());
}

#[test]
fn manage_profiles_customize_tools_names_the_profile() {
    let action = ManageProfiles::customize_tools("write".to_string());
    assert_eq!(action.customize_tools, Some("write".to_string()));
    assert_eq!(action.clone(), action);
    assert_eq!(ManageProfiles::default().customize_tools, None);
}

fn selection(provider: &str, model: &str) -> LanguageModelSelection {
    LanguageModelSelection { provider: provider.to_string(), model: model.to_string() }
}

fn selected(provider: &str, model: &str) -> SelectedModel {
    SelectedModel { provider: provider.to_string(), model: model.to_string() }
}

#[test]
fn selected_model_has_the_provider_and_model_of_the_setting() {
    assert_eq!(to_selected_model(&selection("anthropic", "sonnet")), selected("anthropic", "sonnet"));
    assert_eq!(to_selected_model(&selection("", "")), selected("", ""));
}

#[test]
fn settings_select_every_use() {
    let settings = ModelSettings {
        default_model: selection("a", "default"),
        inline_assistant_model: Some(selection("b", "inline")),
        commit_message_model: None,
        thread_summary_model: Some(selection("c", "summary")),
        inline_alternatives: vec![selection("d", "alt1"), selection("e", "alt2")],
    };
    let expected = ModelSelections {
        default: selected("a", "default"),
        inline_assistant: Some(selected("b", "inline")),
        commit_message: None,
        thread_summary: Some(selected("c", "summary")),
        inline_alternatives: vec![selected("d", "alt1"), selected("e", "alt2")],
    };
    assert_eq!(update_active_language_model_from_settings(&settings), expected);
}

#[test]
fn settings_with_only_a_default_select_only_that() {
    let settings = ModelSettings {
        default_model: selection("a", "default"),
        inline_assistant_model: None,
        commit_message_model: None,
        thread_summary_model: None,
        inline_alternatives: Vec::new(),
    };
    let expected = ModelSelections {
        default: selected("a", "default"),
        inline_assistant: None,
        commit_message: None,
        thread_summary: None,
        inline_alternatives: Vec::new(),
    };
    assert_eq!(update_active_language_model_from_settings(&settings), expected);
}

#[test]
fn only_provider_events_call_for_a_new_selection() {
    assert!(RegistryEvent::ProviderStateChanged.calls_for_selection());
    assert!(RegistryEvent::AddedProvider("x".to_string()).calls_for_selection());
    assert!(RegistryEvent::RemovedProvider("x".to_string()).calls_for_selection());
    assert!(!RegistryEvent::DefaultModelChanged.calls_for_selection());
    assert!(!RegistryEvent::InlineAssistantModelChanged.calls_for_selection());
    assert!(!RegistryEvent::CommitMessageModelChanged.calls_for_selection());
    assert!(!RegistryEvent::ThreadSummaryModelChanged.calls_for_selection());
}

#[test]
fn a_thread_uses_its_own_model_and_the_inline_assistant_the_selected_one() {
    let inline = Some(selected("b", "inline"));
    let thread = ModelUsageContext::Thread(Some(selected("a", "thread")));
    assert_eq!(thread.configured_model(&inline), Some(selected("a", "thread")));
    assert_eq!(thread.language_model(&inline), Some("thread".to_string()));
    let bare = ModelUsageContext::Thread(None);
    assert_eq!(bare.configured_model(&inline), None);
    assert_eq!(bare.language_model(&inline), None);
    let assistant = ModelUsageContext::InlineAssistant;
    assert_eq!(assistant.configured_model(&inline), Some(selected("b", "inline")));
    assert_eq!(assistant.language_model(&inline), Some("inline".to_string()));
    assert_eq!(assistant.configured_model(&None), None);
}

#[test]
fn commands_registered_at_start() {
    assert_eq!(
        register_slash_commands(),
        vec![
            CommandChange::Register(SlashCommand::File, true),
            CommandChange::Register(SlashCommand::Delta, true),
            CommandChange::Register(SlashCommand::Outline, true),
            CommandChange::Register(SlashCommand::Tab, true),
            CommandChange::Register(SlashCommand::CargoWorkspace, true),
            CommandChange::Register(SlashCommand::Prompt, true),
            CommandChange::Register(SlashCommand::Selection, true),
            CommandChange::Register(SlashCommand::Default, false),
            CommandChange::Register(SlashCommand::Now, false),
            CommandChange::Register(SlashCommand::Diagnostics, true),
            CommandChange::Register(SlashCommand::Fetch, true),
        ]
    );
}

#[test]
fn streaming_example_is_registered_only_under_its_flag() {
    assert_eq!(
        streaming_example_flag_seen(true),
        Some(CommandChange::Register(SlashCommand::StreamingExample, false))
    );
    assert_eq!(streaming_example_flag_seen(false), None);
}

#[test]
fn settings_switch_docs_and_cargo_workspace() {
    assert_eq!(
        update_slash_commands_from_settings(true, true),
        vec![
            CommandChange::Register(SlashCommand::Docs, true),
            CommandChange::Register(SlashCommand::CargoWorkspace, true),
        ]
    );
    assert_eq!(
        update_slash_commands_from_settings(true, false),
        vec![
            CommandChange::Register(SlashCommand::Docs, true),
            CommandChange::Unregister(SlashCommand::CargoWorkspace),
        ]
    );
    assert_eq!(
        update_slash_commands_from_settings(false, true),
        vec![
            CommandChange::Unregister(SlashCommand::Docs),
            CommandChange::Register(SlashCommand::CargoWorkspace, true),
        ]
    );
    assert_eq!(
        update_slash_commands_from_settings(false, false),
        vec![
            CommandChange::Unregister(SlashCommand::Docs),
            CommandChange::Unregister(SlashCommand::CargoWorkspace),
        ]
    );
}

#[test]
fn start_sets_up_every_part_in_order() {
    assert_eq!(
        init(false),
        vec![
            Subsystem::AgentSettings,
            Subsystem::SlashCommandSettings,
            Subsystem::ContextEditor,
            Subsystem::RulesLibrary,
            Subsystem::LanguageModelSettings,
            Subsystem::SlashCommandRegistry,
            Subsystem::ThreadStore,
            Subsystem::AgentPanel,
            Subsystem::SlashCommands,
            Subsystem::InlineAssistant,
            Subsystem::TerminalInlineAssistant,
            Subsystem::IndexedDocs,
            Subsystem::ContextServerModal,
            Subsystem::ManageProfilesModal,
        ]
    );
}

#[test]
fn an_evaluation_leaves_the_language_model_settings_alone() {
    let parts = init(true);
    assert_eq!(parts.len(), 13);
    assert!(!parts.contains(&Subsystem::LanguageModelSettings));
    let mut expected = init(false);
    expected.retain(|p| *p != Subsystem::LanguageModelSettings);
    assert_eq!(parts, expected);
}
