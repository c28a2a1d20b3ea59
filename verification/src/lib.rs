//! A password-gated search over an object-storage bucket of audio files,
//! and a stateless feed link for a saved search: the "slug" token encodes
//! the search and the caller's credentials, so any process holding the URL
//! can rebuild the feed without server-side state.
pub mod auth;
pub mod feed;
pub mod search;
pub mod slug;
pub mod strutil;
pub mod types;
