//! Chat modes and editing actions.

use vstd::prelude::*;
use crate::prompts::{
    CORRECT_GRAMMAR_PROMPT, IMPROVE_CLARITY_PROMPT, LENGTH_EXPAND_PROMPT, LENGTH_SHORTEN_PROMPT,
    LOGICAL_FLOW_PROMPT, MAKE_FORMAL_PROMPT, PROMPT_EXPANSION_PROMPT, SIMPLIFY_PROMPT,
    STYLE_CREATIVE_PROMPT, TONE_ACADEMIC_PROMPT, TONE_FRIENDLY_PROMPT,
};

use crate::error::FileError;
use crate::paths::{joined_path, path_join};

verus! {

/// Modes for chat interactions.
#[derive(Debug, Clone, PartialEq, Eq, Structural)]
pub enum ChatMode {
    Normal,
    Autocomplete,
    Grammar,
    EditAction,
    RagChat,
}

impl ChatMode {
    pub open spec fn name(&self) -> Seq<char> {
        match self {
            ChatMode::Normal => "Normal"@,
            ChatMode::Autocomplete => "Autocomplete"@,
            ChatMode::Grammar => "Grammar"@,
            ChatMode::EditAction => "EditAction"@,
            ChatMode::RagChat => "RagChat"@,
        }
    }

    pub fn as_str(&self) -> (s: &'static str)
        ensures
            s@ == self.name(),
    {
        match self {
            ChatMode::Normal => "Normal",
            ChatMode::Autocomplete => "Autocomplete",
            ChatMode::Grammar => "Grammar",
            ChatMode::EditAction => "EditAction",
            ChatMode::RagChat => "RagChat",
        }
    }
}

/// Editing actions that can be performed on text.
#[derive(Debug, Clone, PartialEq, Eq, Structural)]
pub enum EditAction {
    CorrectGrammar,
    ImproveClarity,
    MakeFormal,
    Simplify,
    PromptExpansion,
    ToneFriendly,
    ToneAcademic,
    LengthExpand,
    LengthShorten,
    StyleCreative,
    LogicalFlow,
}

impl EditAction {
    pub open spec fn name(&self) -> Seq<char> {
        match self {
            EditAction::PromptExpansion => "PromptExpansion"@,
            EditAction::CorrectGrammar => "CorrectGrammar"@,
            EditAction::ImproveClarity => "ImproveClarity"@,
            EditAction::MakeFormal => "MakeFormal"@,
            EditAction::Simplify => "Simplify"@,
            EditAction::ToneFriendly => "ToneFriendly"@,
            EditAction::ToneAcademic => "ToneAcademic"@,
            EditAction::LengthExpand => "LengthExpand"@,
            EditAction::LengthShorten => "LengthShorten"@,
            EditAction::StyleCreative => "StyleCreative"@,
            EditAction::LogicalFlow => "LogicalFlow"@,
        }
    }

    pub fn as_str(&self) -> (s: &'static str)
        ensures
            s@ == self.name(),
    {
        match self {
            EditAction::PromptExpansion => "PromptExpansion",
            EditAction::CorrectGrammar => "CorrectGrammar",
            EditAction::ImproveClarity => "ImproveClarity",
            EditAction::MakeFormal => "MakeFormal",
            EditAction::Simplify => "Simplify",
            EditAction::ToneFriendly => "ToneFriendly",
            EditAction::ToneAcademic => "ToneAcademic",
            EditAction::LengthExpand => "LengthExpand",
            EditAction::LengthShorten => "LengthShorten",
            EditAction::StyleCreative => "StyleCreative",
            EditAction::LogicalFlow => "LogicalFlow",
        }
    }

    /// The instructions for this action.
    pub open spec fn prompt(&self) -> Seq<char> {
        match self {
            EditAction::PromptExpansion => PROMPT_EXPANSION_PROMPT@,
            EditAction::CorrectGrammar => CORRECT_GRAMMAR_PROMPT@,
            EditAction::ImproveClarity => IMPROVE_CLARITY_PROMPT@,
            EditAction::MakeFormal => MAKE_FORMAL_PROMPT@,
            EditAction::Simplify => SIMPLIFY_PROMPT@,
            EditAction::ToneFriendly => TONE_FRIENDLY_PROMPT@,
            EditAction::ToneAcademic => TONE_ACADEMIC_PROMPT@,
            EditAction::LengthExpand => LENGTH_EXPAND_PROMPT@,
            EditAction::LengthShorten => LENGTH_SHORTEN_PROMPT@,
            EditAction::StyleCreative => STYLE_CREATIVE_PROMPT@,
            EditAction::LogicalFlow => LOGICAL_FLOW_PROMPT@,
        }
    }

    pub fn into_prompt(&self) -> (s: &'static str)
        ensures
            s@ == self.prompt(),
    {
        match self {
            EditAction::PromptExpansion => PROMPT_EXPANSION_PROMPT,
            EditAction::CorrectGrammar => CORRECT_GRAMMAR_PROMPT,
            EditAction::ImproveClarity => IMPROVE_CLARITY_PROMPT,
            EditAction::MakeFormal => MAKE_FORMAL_PROMPT,
            EditAction::Simplify => SIMPLIFY_PROMPT,
            EditAction::ToneFriendly => TONE_FRIENDLY_PROMPT,
            EditAction::ToneAcademic => TONE_ACADEMIC_PROMPT,
            EditAction::LengthExpand => LENGTH_EXPAND_PROMPT,
            EditAction::LengthShorten => LENGTH_SHORTEN_PROMPT,
            EditAction::StyleCreative => STYLE_CREATIVE_PROMPT,
            EditAction::LogicalFlow => LOGICAL_FLOW_PROMPT,
        }
    }
}

/// One message of a conversation.
#[derive(Debug, Clone)]
pub struct ChatTurn {
    pub role: String,
    pub content: String,
}


/// `dirs::home_dir`: the user's home directory, as text, when the platform
/// reports one. It depends on the environment, so nothing is claimed about it.
#[verifier::external_body]
fn home_dir() -> Option<String> {
    dirs::home_dir().map(|p| p.to_string_lossy().into_owned())
}

/// Get the directory where the app stores its data: `.memorie/` in the home
/// directory.
pub fn get_app_dir() -> (r: Result<String, FileError>)
    ensures
        match r {
            Ok(p) => exists|home: Seq<char>| p@ == joined_path(home, ".memorie/"@),
            Err(e) => e is HomeDirNotFound,
        },
{
    match home_dir() {
        Some(home) => Ok(path_join(home.as_str(), ".memorie/")),
        None => Err(FileError::HomeDirNotFound),
    }
}

} // verus!
