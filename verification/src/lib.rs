//! Verified core of a read-only MDict dictionary web service: configuration
//! rules, the sidecar suggestion index, entry and resource rewriting rules,
//! and the service's request logic.

pub mod text;
pub mod domain;
pub mod config;
pub mod trusted;
pub mod markup;
pub mod rewrite;
pub mod engine;
pub mod service;
pub mod http;
pub mod index;
