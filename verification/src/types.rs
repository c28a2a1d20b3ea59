//! The data the pipeline moves around: a username/password pair and a saved
//! search. Credentials travel inside slugs and cookies and must pass the
//! credential gate before they are treated as authenticated.
use vstd::prelude::*;

verus! {

/// A username and password pair, compared in plaintext against the hashed
/// password store.
#[derive(Clone, Debug)]
pub struct Credentials {
    pub user: String,
    pub pass: String,
}

/// A saved search. `author` and `title` are display metadata; `search` is the
/// object-store filter.
#[derive(Clone, Debug)]
pub struct SearchRequest {
    pub author: String,
    pub search: String,
    pub title: String,
}

} // verus!
