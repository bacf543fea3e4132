//! Translation and transcription service logic: text chunking, subtitle
//! handling, document paragraph handling, access control and configuration.

pub mod text;
pub mod chunker;
pub mod subtitle;
pub mod tts;
pub mod document;
pub mod prompt;
pub mod config;
pub mod models;
pub mod client;
pub mod access;
pub mod media;
pub mod language;
pub mod bitvault;
pub mod xml;
pub mod office;
pub mod archive;
pub mod paragraphs;
pub mod captions;
pub mod subtitle_roundtrip;
