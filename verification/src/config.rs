//! The application's settings.

use vstd::prelude::*;
use crate::error::{ConfigurationError, FileError};
use crate::paths::{path_buf, path_join};
use crate::utils::get_app_dir;

verus! {

/// The model preset loaded until the user picks another.
pub const DEFAULT_MODEL_ID: &'static str = "qwen_2_5_1_5b_instruct";

#[derive(Debug)]
pub struct AppConfig {
    pub content_directory: std::path::PathBuf,
    pub undotree_dir: std::path::PathBuf,
    pub default_llm_model: std::path::PathBuf,
    /// Selected model preset id (e.g. "qwen_2_5_1_5b_instruct"). Used when loading chat/autocomplete.
    pub default_llm_model_id: Option<String>,
    pub system_prompt: Option<String>,
    /// "owner/repo" of the GitHub repository writing is pushed to.
    pub github_repo: Option<String>,
    /// If true, commit & push any pending changes to GitHub when the app is closed.
    pub auto_push_on_exit: bool,
    /// If true, local AI (model download/load/chat) is enabled. Disabled by default so the app
    /// starts as a plain writing app.
    pub ai_enabled: bool,
}

impl AppConfig {
    /// The settings of a fresh install, under the app directory: content in
    /// `content`, history in `history`, the default model under `models`, the
    /// default model preset chosen, and AI and auto-push off. Fails only when
    /// there is no home directory.
    pub fn new_default() -> (r: Result<Self, ConfigurationError>)
        ensures
            match r {
                Ok(c) => {
                    &&& c.default_llm_model_id matches Some(id) && id@ == DEFAULT_MODEL_ID@
                    &&& c.system_prompt is None
                    &&& c.github_repo is None
                    &&& !c.auto_push_on_exit
                    &&& !c.ai_enabled
                },
                Err(e) => e matches ConfigurationError::FilePathError(FileError::HomeDirNotFound),
            },
    {
        let app_dir = match get_app_dir() {
            Ok(d) => d,
            Err(e) => {
                return Err(ConfigurationError::FilePathError(e));
            },
        };
        let models = path_join(app_dir.as_str(), "models");
        Ok(AppConfig {
            content_directory: path_buf(path_join(app_dir.as_str(), "content")),
            undotree_dir: path_buf(path_join(app_dir.as_str(), "history")),
            default_llm_model: path_buf(path_join(models.as_str(), "default_model.gguf")),
            default_llm_model_id: Some(DEFAULT_MODEL_ID.to_owned()),
            system_prompt: None,
            github_repo: None,
            auto_push_on_exit: false,
            ai_enabled: false,
        })
    }
}

/// Where writing is synced to.
#[derive(Debug, Clone, Copy)]
pub enum SyncProvider {
    Github,
    Dropbox,
}

/// What closing the app pushes: whether to commit and push to GitHub, and the
/// Dropbox folder to push to, if any.
#[derive(Debug)]
pub struct ExitPush {
    pub github: bool,
    pub dropbox_folder: Option<String>,
}

/// What to push when the app closes. Only the preferred storage pushes:
/// GitHub when it is preferred, pushing on exit is on and a repository is
/// set; Dropbox when it is preferred, its push on exit is on and a folder is
/// set. So closing the app never sends the writing to two remotes.
pub fn exit_push(
    provider: SyncProvider,
    auto_push_on_exit: bool,
    github_repo: &Option<String>,
    dropbox_auto_push_on_exit: bool,
    dropbox_folder: Option<String>,
) -> (r: ExitPush)
    ensures
        r.github == (provider is Github && auto_push_on_exit && github_repo is Some),
        r.dropbox_folder == (if provider is Dropbox && dropbox_auto_push_on_exit {
            dropbox_folder
        } else {
            None
        }),
        !(r.github && r.dropbox_folder is Some),
{
    match provider {
        SyncProvider::Github => ExitPush { github: auto_push_on_exit && github_repo.is_some(), dropbox_folder: None },
        SyncProvider::Dropbox => ExitPush {
            github: false,
            dropbox_folder: if dropbox_auto_push_on_exit { dropbox_folder } else { None },
        },
    }
}

} // verus!
