//! What the project database stores, as bytes.

pub mod schema;
