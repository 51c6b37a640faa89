//! A registry of addresses reported as spam: reports from allow-listed
//! reporters, appeals resolved by the reporters' unanimous acceptance, and
//! secondary indices scanned page by page.
pub mod error;
pub mod execute;
pub mod index;
pub mod laws;
pub mod models;
pub mod msg;
pub mod query;
pub mod state;
pub mod text;
