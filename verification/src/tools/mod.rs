//! What the tools of the server answer.

pub mod get_architecture;
pub mod get_file_context;
pub mod get_symbol;
pub mod list_files;
pub mod search_codebase;
pub mod stats;
