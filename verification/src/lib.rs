//! Structural snapshots of Windows metadata and their comparison.

pub mod text;
pub mod records;
pub mod names;
pub mod order;
pub mod snapshot;
pub mod validation;
pub mod agility;
pub mod canonical;
pub mod laws;
pub mod rewrite;
pub mod pipeline;
pub mod sdk;
