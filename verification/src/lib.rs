//! Request handling, response framing and conversation logic of a small
//! video-summary web service backed by a local Ollama server.

pub mod text;
pub mod http;
pub mod json;
pub mod ollama;
pub mod summary;
