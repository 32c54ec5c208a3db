//! Message rendering, text splitting, login back-off and transcription
//! decisions for a chat bot that fronts a coding agent.

pub mod auth;
pub mod escape;
pub mod html_tags;
pub mod render;
pub mod startup;
pub mod text;
pub mod transcribe;
