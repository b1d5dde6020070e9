//! Compaction of command output and conversation text.

pub mod outside;
pub mod text;
pub mod order;
pub mod json;
pub mod simhash;
pub mod sentence;
pub mod whitespace;
pub mod ansi;
pub mod tokens;
pub mod generative;
pub mod summarizer;
pub mod handlers;
pub mod rewrite;
pub mod agents;
pub mod hook;
pub mod history;
