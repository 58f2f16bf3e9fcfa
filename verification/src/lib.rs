//! A developer journal kept as markdown: one dated entry per day in a
//! per-year log document, edited in place, collected by date range and
//! exported as a standalone document.

pub mod config;
pub mod daily;
pub mod date;
pub mod export;
pub mod git;
pub mod journal;
pub mod laws;
pub mod llm;
pub mod markdown;
pub mod text;
pub mod upload;
