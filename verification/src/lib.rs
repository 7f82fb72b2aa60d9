//! Finds known-vulnerable dependencies in a workspace's manifests.
pub mod action;
pub mod api;
pub mod archive;
pub mod config;
pub mod db;
pub mod diagnostics;
pub mod engine;
pub mod extract;
pub mod graph;
pub mod index;
pub mod json;
pub mod laws;
pub mod load;
pub mod lsp;
pub mod manifest;
pub mod matcher;
pub mod model;
pub mod order;
pub mod osv;
pub mod path;
pub mod progress;
pub mod read;
pub mod scan;
pub mod span;
pub mod table;
pub mod text;
pub mod version;
