//! Names of the events the chat and model services emit to the window.

use vstd::prelude::*;

verus! {

pub enum ChatEvents {
    InProgress,
    Completed,
    Error,
}

impl ChatEvents {
    pub open spec fn name(&self) -> Seq<char> {
        match self {
            ChatEvents::InProgress => "chat-in-progress"@,
            ChatEvents::Completed => "chat-completed"@,
            ChatEvents::Error => "chat-error"@,
        }
    }

    pub fn as_str(&self) -> (s: &'static str)
        ensures
            s@ == self.name(),
    {
        match self {
            ChatEvents::InProgress => "chat-in-progress",
            ChatEvents::Completed => "chat-completed",
            ChatEvents::Error => "chat-error",
        }
    }
}

/// A piece of a reply as it streams in.
pub struct ChatStreamInProgress<'a> {
    pub content: &'a str,
}

pub enum ModelEvents {
    Downloading,
    Loading,
    Loaded,
    Error,
}

impl ModelEvents {
    pub open spec fn name(&self) -> Seq<char> {
        match self {
            ModelEvents::Downloading => "model-downloading"@,
            ModelEvents::Loading => "model-loading"@,
            ModelEvents::Loaded => "model-loaded"@,
            ModelEvents::Error => "model-error"@,
        }
    }

    pub fn as_str(&self) -> (s: &'static str)
        ensures
            s@ == self.name(),
    {
        match self {
            ModelEvents::Downloading => "model-downloading",
            ModelEvents::Loading => "model-loading",
            ModelEvents::Loaded => "model-loaded",
            ModelEvents::Error => "model-error",
        }
    }
}

} // verus!
