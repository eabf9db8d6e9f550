//! Core of a client for a remote bookmark-management service.
//!
//! The library fetches nothing and writes nothing itself: it normalizes the
//! remote service's JSON responses into typed results, encodes and decodes
//! the local snapshot of bookmarks and tags, and searches that snapshot.
//! Callers supply raw response bodies and file contents and perform the
//! network and disk transfers.

pub mod api;
pub mod clock;
pub mod codec;
pub mod json;
pub mod matching;
pub mod pin;
pub mod pinboard;
pub mod request;

pub use pin::Pin;
pub use pin::Tag;
pub use pinboard::Pinboard;
