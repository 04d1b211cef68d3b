//! A tiered add-wins observed-remove set with a verified hand-off protocol.
pub mod aworset_opt;
pub mod dotcontext;
pub mod handoff;
pub mod keyed;
pub mod kernel;
pub mod laws;
pub mod tagged;
pub mod types;
