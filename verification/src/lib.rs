//! Core logic of the LiteCode coding tool server: text handling, edits,
//! notebook rendering and editing, search result shaping and task state.

pub mod error;
pub mod file_service;
pub mod glob;
pub mod grep;
pub mod json;
pub mod laws;
pub mod matchers;
pub mod notebook;
pub mod escapes;
pub mod replace;
pub mod order;
pub mod paths;
pub mod pdf;
pub mod process;
pub mod schema;
pub mod task_manager;
pub mod text;
pub mod tools;
pub mod workspace;
