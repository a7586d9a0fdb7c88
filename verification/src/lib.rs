//! Synchronization engine for declarative configuration resources.
//!
//! The library keeps one authoritative copy (the SSOT) of each resource,
//! projects enabled copies into per-application directories, tracks the
//! installed records in a database model, detects drift between the copies,
//! resolves conflicts, and decides remote-update checks.

pub mod apps;
pub mod database;
pub mod deeplink;
pub mod discovery;
pub mod engine;
pub mod errors;
pub mod fstore;
pub mod hashing;
pub mod hooks;
pub mod ident;
pub mod parse;
pub mod project;
pub mod resources;
pub mod strutil;
pub mod update;
