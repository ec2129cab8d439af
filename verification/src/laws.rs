//! What holds of the loader as a whole.
//!
//! The laws speak of the model of the loader's state. What its functions do to that model is in
//! their contracts.

pub mod views;
pub mod answers;
pub mod handles;
pub mod references;
pub mod dependencies;
pub mod versions;
pub mod lifetimes;
pub mod reloads;
pub mod calls;
pub mod passes;
pub mod counts;
pub mod steps;
pub mod holdings;
pub mod origins;
pub mod processes;
pub mod reports;
pub mod descriptions;
pub mod fetches;
pub mod changes;
pub mod turns;
pub mod stages;
