//! Configuration-driven indexing of tree-shaped content metadata.
//!
//! A configuration names fields and the dotted metadata paths under which each is
//! found ([`indexer`]). The paths are folded into a trie ([`trie`]), the metadata of
//! the root object is walked in lock-step with that trie, and every match becomes a
//! field of the object's document ([`walk`]). The host that stores content and
//! builds the index is driven through a state machine: the library decides each
//! request, the caller performs it and hands back the reply ([`crawler`]).
//!
//! Metadata and replies are JSON values of `serde_json`; what is taken on trust of
//! that crate stands in [`json`].

pub mod json;
pub mod error;
pub mod text;
pub mod indexer;
pub mod trie;
pub mod walk;
pub mod crawler;
