//! GitHub sign-in and sync: the records exchanged with GitHub.

use vstd::prelude::*;
use crate::text::push_str;

verus! {

#[derive(Debug)]
pub struct DeviceCode {
    pub device_code: String,
    pub user_code: String,
    pub verification_uri: String,
    pub interval: u64,
    pub expires_in: u64,
}

#[derive(Debug)]
pub enum DevicePollResult {
    Pending,
    SlowDown,
    Success { user: GitHubUser },
    Expired,
    Error { message: String },
}

#[derive(Debug, Clone)]
pub struct GitHubUser {
    pub login: String,
    pub name: Option<String>,
    pub avatar_url: Option<String>,
}

#[derive(Debug)]
pub struct GitFileStatus {
    pub path: String,
    pub status: String,
}

/// The HTTPS remote of a GitHub repository named `owner/repo`.
pub fn github_remote_url(owner_repo: &str) -> (r: String)
    ensures
        r@ == "https://github.com/"@ + owner_repo@ + ".git"@,
{
    let mut url = String::new();
    push_str(&mut url, "https://github.com/");
    push_str(&mut url, owner_repo);
    push_str(&mut url, ".git");
    url
}

} // verus!
