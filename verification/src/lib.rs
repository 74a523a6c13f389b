//! A URL shortener's core: short-code generation, request validation, a cuckoo
//! filter, an in-memory link store, and the node, page and log formats of a
//! B+ tree store.

pub mod app_settings;
pub mod handlers;
pub mod id;
pub mod store;
pub mod text;
pub mod cuckoo_filter;
pub mod models;
pub mod routes;
