//! An append-only log of byte records, addressed by dense sequence numbers,
//! with the link arithmetic that lets a reader page through it.

pub mod files;
pub mod links;
pub mod query;
pub mod service;
pub mod text;
pub mod uri;
