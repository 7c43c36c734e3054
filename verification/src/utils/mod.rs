//! Helpers for rendered command text.

pub mod env_expand;
