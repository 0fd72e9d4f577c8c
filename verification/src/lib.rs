//! Subtitle, sentence and vocabulary logic of a podcast English-learning app.

pub mod text;
pub mod json;
pub mod decimal;
pub mod subtitle;
pub mod translate;
pub mod translation;
pub mod structure;
pub mod words;
pub mod channel;
pub mod ingest;
pub mod download;
pub mod import;
pub mod asr;
pub mod export;
pub mod llm;
pub mod media;
pub mod dict;
pub mod mdx;
