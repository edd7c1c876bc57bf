//! Finding the files of a project and what they define and import.

pub mod config;
pub mod embedding_client;
pub mod file_walker;
pub mod import_extractor;
pub mod pipeline;
pub mod symbol_extractor;
pub mod syntax;
pub mod watch_manager;
