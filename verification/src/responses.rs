//! Shapes of the answers sent back to the window.

use vstd::prelude::*;

verus! {

/// Success with data, or failure with a message.
#[derive(Debug)]
pub struct Response<T> {
    pub success: bool,
    pub data: Option<T>,
    pub error: Option<String>,
}

impl<T> Response<T> {
    /// A successful response carrying `data`.
    pub fn success(data: T) -> (r: Self)
        ensures
            r.success,
            r.data == Some(data),
            r.error is None,
    {
        Response { success: true, data: Some(data), error: None }
    }

    /// A failed response carrying `error_msg`.
    pub fn error(error_msg: String) -> (r: Self)
        ensures
            !r.success,
            r.data is None,
            r.error == Some(error_msg),
    {
        Response { success: false, data: None, error: Some(error_msg) }
    }
}

#[derive(Clone, Debug)]
pub struct AutoCompleteResponse {
    pub suggestion: String,
}

#[derive(Clone, Debug)]
pub struct GrammarCheckResponse {
    pub corrections: String,
    pub explanation: String,
}

#[derive(Clone, Debug)]
pub struct ModelLoadingResponse {
    pub is_loaded: bool,
    pub message: String,
}

/// How the router classified a message.
#[derive(Clone, Debug)]
pub struct IntentResponse {
    pub intent: String,
    pub query: String,
}

} // verus!
