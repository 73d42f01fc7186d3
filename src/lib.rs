//! Extraction, identification and reconciliation of in-code annotations
//! such as `// TODO: fix this`.

pub mod config;
pub mod item;
pub mod matcher;
pub mod reconcile;
pub mod render;
pub mod scan;
pub mod text;
pub mod store;
