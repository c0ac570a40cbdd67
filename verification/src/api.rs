//! The shapes of the forge's two responses — a branch lookup and a
//! recursive tree listing — together with the request URLs the resolver
//! builds and the errors a resolution can end in.  The network calls
//! themselves are made by the surrounding program; this module holds the
//! data they produce and the pure steps between them.

use vstd::prelude::*;

verus! {

/// One entry of a recursive tree listing.
pub struct File {
    /// Full relative path, slash-separated.
    pub path: String,
    /// File mode bits as the forge reports them.
    pub mode: String,
    /// `"blob"` for a regular file, `"tree"` for a directory, `"commit"`
    /// for a submodule reference.
    pub entry_type: String,
    /// Content hash of the entry.
    pub sha: String,
    /// Where the entry's own resource lives.
    pub url: String,
    /// Byte size; absent for non-blob entries.
    pub size: Option<u64>,
}

/// The recursive tree listing: a flat list of entries.
pub struct TreeResponse {
    pub sha: String,
    pub url: String,
    pub tree: Vec<File>,
}

/// The branch lookup's nested `commit.commit.tree` object.
pub struct ShaResponseTreeData {
    pub url: String,
}

/// The branch lookup's inner `commit` object.
pub struct ShaResponseTree {
    pub tree: ShaResponseTreeData,
}

/// The branch lookup's outer `commit` object.
pub struct ShaResponseCommit {
    pub commit: ShaResponseTree,
}

/// The branch lookup response; only the nested tree URL matters.
pub struct ShaResponse {
    pub commit: ShaResponseCommit,
}

/// Why a tree resolution failed.  All three end the run: no partial
/// result is ever produced.
#[derive(Debug, PartialEq, Eq, Clone, Copy, Structural)]
pub enum FetchError {
    /// The transport failed: connection, name resolution or timeout.
    NetworkError,
    /// The forge answered with the given non-success status.
    HttpStatusError(u16),
    /// The response decoded but a required field is missing or of the
    /// wrong shape.
    MalformedResponse,
}

/// The branch-lookup URL for a repository given as `"owner/name"`.
pub fn branch_url(owner_and_repo: &str) -> (r: String)
    ensures
        r@ == "https://api.github.com/repos/"@ + owner_and_repo@ + "/branches/master"@,
{
    let mut u = "https://api.github.com/repos/".to_owned();
    u.append(owner_and_repo);
    u.append("/branches/master");
    u
}

/// The recursive-listing URL derived from a tree URL.
pub fn tree_request_url(tree_url: &str) -> (r: String)
    ensures
        r@ == tree_url@ + "?recursive=1"@,
{
    let mut u = tree_url.to_owned();
    u.append("?recursive=1");
    u
}

/// The tree resource URL nested inside a branch lookup response, at
/// `commit.commit.tree.url`.
pub fn tree_url_of(resp: &ShaResponse) -> (r: &String)
    ensures
        r@ == resp.commit.commit.tree.url@,
{
    &resp.commit.commit.tree.url
}

} // verus!
