//! Persistent, nested inline code comments: the comment data model, the
//! per-workspace store, and the rules for persisting, rendering, syncing and
//! sending comments.

pub mod text;
pub mod text_laws;
pub mod ids;
pub mod clock;
pub mod comment;
pub mod thread;
pub mod tree;
pub mod comment_store;
pub mod persistence;
pub mod store_laws;
pub mod row_laws;
pub mod agent_integration;
pub mod agent_laws;
pub mod comment_sync;
pub mod sync_laws;
pub mod exchange_laws;
pub mod inline_comments;
pub mod inline_laws;
pub mod comment_card;
pub mod card_laws;
pub mod comment_settings;
pub mod registry;
pub mod edit_laws;
pub mod sync_github;
pub mod sync_custom;
pub mod provider_laws;
pub mod model_laws;
