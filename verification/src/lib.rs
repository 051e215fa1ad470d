//! Verified core of a dual-window Typst presentation tool.
pub mod text;
pub mod outline;
pub mod notes_db;
pub mod markdown;
pub mod notes;
pub mod app;
pub mod render;
pub mod theme;
