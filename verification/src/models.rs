//! Which language models the settings select.

use vstd::prelude::*;

verus! {

/// A model as the settings name it.
#[derive(Debug, PartialEq, Eq)]
pub struct LanguageModelSelection {
    pub provider: String,
    pub model: String,
}

/// A model as the model registry is asked for it.
#[derive(Debug, PartialEq, Eq)]
pub struct SelectedModel {
    pub provider: String,
    pub model: String,
}

/// A provider id and a model id.
pub struct ModelView {
    pub provider: Seq<char>,
    pub model: Seq<char>,
}

impl View for LanguageModelSelection {
    type V = ModelView;

    open spec fn view(&self) -> ModelView {
        ModelView { provider: self.provider@, model: self.model@ }
    }
}

impl View for SelectedModel {
    type V = ModelView;

    open spec fn view(&self) -> ModelView {
        ModelView { provider: self.provider@, model: self.model@ }
    }
}

/// The models that the settings name, by use.
#[derive(Debug, PartialEq, Eq)]
pub struct ModelSettings {
    pub default_model: LanguageModelSelection,
    pub inline_assistant_model: Option<LanguageModelSelection>,
    pub commit_message_model: Option<LanguageModelSelection>,
    pub thread_summary_model: Option<LanguageModelSelection>,
    pub inline_alternatives: Vec<LanguageModelSelection>,
}

/// The models to select in the registry, by use.
#[derive(Debug, PartialEq, Eq)]
pub struct ModelSelections {
    pub default: SelectedModel,
    pub inline_assistant: Option<SelectedModel>,
    pub commit_message: Option<SelectedModel>,
    pub thread_summary: Option<SelectedModel>,
    pub inline_alternatives: Vec<SelectedModel>,
}

/// Models by use.
pub struct ModelsView {
    pub default: ModelView,
    pub inline_assistant: Option<ModelView>,
    pub commit_message: Option<ModelView>,
    pub thread_summary: Option<ModelView>,
    pub inline_alternatives: Seq<ModelView>,
}

/// What an optional selection in the settings holds.
pub open spec fn optional_selection(s: Option<LanguageModelSelection>) -> Option<ModelView> {
    match s {
        Some(m) => Some(m@),
        None => None,
    }
}

/// What an optional selected model holds.
pub open spec fn optional_selected(s: Option<SelectedModel>) -> Option<ModelView> {
    match s {
        Some(m) => Some(m@),
        None => None,
    }
}

impl View for ModelSettings {
    type V = ModelsView;

    open spec fn view(&self) -> ModelsView {
        ModelsView {
            default: self.default_model@,
            inline_assistant: optional_selection(self.inline_assistant_model),
            commit_message: optional_selection(self.commit_message_model),
            thread_summary: optional_selection(self.thread_summary_model),
            inline_alternatives: Seq::new(
                self.inline_alternatives@.len(),
                |i: int| self.inline_alternatives@[i]@,
            ),
        }
    }
}

impl View for ModelSelections {
    type V = ModelsView;

    open spec fn view(&self) -> ModelsView {
        ModelsView {
            default: self.default@,
            inline_assistant: optional_selected(self.inline_assistant),
            commit_message: optional_selected(self.commit_message),
            thread_summary: optional_selected(self.thread_summary),
            inline_alternatives: Seq::new(
                self.inline_alternatives@.len(),
                |i: int| self.inline_alternatives@[i]@,
            ),
        }
    }
}

/// The model to select for a model that the settings name: the same
/// provider and the same model.
pub fn to_selected_model(selection: &LanguageModelSelection) -> (selected: SelectedModel)
    ensures
        selected@ == selection@,
{
    SelectedModel { provider: selection.provider.clone(), model: selection.model.clone() }
}

/// The model to select for an optional model in the settings.
fn to_optional_selected(selection: &Option<LanguageModelSelection>) -> (selected: Option<
    SelectedModel,
>)
    ensures
        optional_selected(selected) == optional_selection(*selection),
{
    match selection {
        Some(m) => Some(to_selected_model(m)),
        None => None,
    }
}

/// The models to select for the settings: use by use the model that the
/// settings name, and the alternatives in their order.
pub fn update_active_language_model_from_settings(settings: &ModelSettings) -> (selections: ModelSelections)
    ensures
        selections@ == settings@,
{
    let mut inline_alternatives: Vec<SelectedModel> = Vec::new();
    let mut i: usize = 0;
    while i < settings.inline_alternatives.len()
        invariant
            i <= settings.inline_alternatives@.len(),
            inline_alternatives@.len() == i,
            forall|j: int| 0 <= j < i ==> inline_alternatives@[j]@ == settings.inline_alternatives@[j]@,
        decreases settings.inline_alternatives@.len() - i,
    {
        inline_alternatives.push(to_selected_model(&settings.inline_alternatives[i]));
        i += 1;
    }
    let selections = ModelSelections {
        default: to_selected_model(&settings.default_model),
        inline_assistant: to_optional_selected(&settings.inline_assistant_model),
        commit_message: to_optional_selected(&settings.commit_message_model),
        thread_summary: to_optional_selected(&settings.thread_summary_model),
        inline_alternatives,
    };
    assert(selections@.inline_alternatives =~= settings@.inline_alternatives);
    selections
}

/// Where a language model is used from.
#[derive(Debug, PartialEq, Eq)]
pub enum ModelUsageContext {
    /// A thread, with the model that the thread is configured with, if any.
    Thread(Option<SelectedModel>),
    /// The inline assistant.
    InlineAssistant,
}

impl ModelUsageContext {
    /// The model to use: the thread's own in a thread, the one selected for
    /// the inline assistant there.
    pub open spec fn configured(self, inline_assistant: Option<SelectedModel>) -> Option<ModelView> {
        match self {
            ModelUsageContext::Thread(model) => optional_selected(model),
            ModelUsageContext::InlineAssistant => optional_selected(inline_assistant),
        }
    }

    /// The model that is configured for this use, given the model that is
    /// selected for the inline assistant.
    pub fn configured_model(&self, inline_assistant: &Option<SelectedModel>) -> (model: Option<
        SelectedModel,
    >)
        ensures
            optional_selected(model) == self.configured(*inline_assistant),
    {
        let source = match self {
            ModelUsageContext::Thread(model) => model,
            ModelUsageContext::InlineAssistant => inline_assistant,
        };
        match source {
            Some(m) => Some(SelectedModel { provider: m.provider.clone(), model: m.model.clone() }),
            None => None,
        }
    }

    /// The id of the language model that is configured for this use.
    pub fn language_model(&self, inline_assistant: &Option<SelectedModel>) -> (model: Option<String>)
        ensures
            match self.configured(*inline_assistant) {
                Some(m) => model is Some && model->Some_0@ == m.model,
                None => model is None,
            },
    {
        match self.configured_model(inline_assistant) {
            Some(m) => Some(m.model),
            None => None,
        }
    }
}

/// What the model registry reports.
#[derive(Debug, PartialEq, Eq)]
pub enum RegistryEvent {
    DefaultModelChanged,
    InlineAssistantModelChanged,
    CommitMessageModelChanged,
    ThreadSummaryModelChanged,
    ProviderStateChanged,
    AddedProvider(String),
    RemovedProvider(String),
}

impl RegistryEvent {
    /// The event changes which providers there are or what state they are
    /// in.
    pub open spec fn touches_providers(&self) -> bool {
        self is ProviderStateChanged || self is AddedProvider || self is RemovedProvider
    }

    /// Whether the models are to be selected anew from the settings after
    /// this event: after every change to the providers, and after nothing
    /// else.
    pub fn calls_for_selection(&self) -> (r: bool)
        ensures
            r == self.touches_providers(),
    {
        match self {
            RegistryEvent::ProviderStateChanged => true,
            RegistryEvent::AddedProvider(_) => true,
            RegistryEvent::RemovedProvider(_) => true,
            _ => false,
        }
    }
}

} // verus!
