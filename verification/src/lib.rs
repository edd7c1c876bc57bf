pub mod collections;
pub mod context;
pub mod db;
pub mod float32;
pub mod hash;
pub mod indexer;
pub mod memory;
pub mod numerals;
pub mod path;
pub mod server;
pub mod sort;
pub mod telemetry;
pub mod text;
pub mod tools;
pub mod turboquant;
pub mod width;
