//! Core of a web administration console: the schema-driven configuration
//! diff engine that turns a populated form into an ordered, minimal set of
//! key-value store mutations, the read-side settings view, and the
//! request-governance services (sliding-window rate limiter, one-time
//! token store, bounded audit trail) that gate every mutation attempt.

pub mod audit;
pub mod form;
pub mod layout;
pub mod security;
pub mod settings;
pub mod text;
pub mod units;
pub mod update;
pub mod validation;
