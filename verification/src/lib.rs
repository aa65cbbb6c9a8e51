//! Building and drilling a question bank of past exam questions: a parser
//! for the plain-text question format, the planning of the download
//! pipeline, and the quiz's decisions.

pub mod downloader;
pub mod models;
pub mod parser;
pub mod pipeline;
pub mod quiz;
pub mod text;
