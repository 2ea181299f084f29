//! Artemis: the logic of an assistant that drafts technical replies for a
//! first-line support team. It builds the prompts sent to the language model,
//! curates the user's Markdown vault (style, phrases to avoid, recurring
//! values, per-category examples) and mines the approved history for releases
//! and menu paths.
//!
//! Every function here works on plain values; reading and writing files,
//! the network and the database live in the application around it.

pub mod text;
pub mod stats;
pub mod vault;
pub mod deepseek;
pub mod prompt;
pub mod settings;
pub mod commands;
pub mod history;
