pub mod api;
pub mod splitter;
pub mod summarizer;
pub mod text;
