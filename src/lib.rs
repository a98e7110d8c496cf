//! A condition-driven hierarchical task scheduler: task trees of leaves and
//! contexts, a predicate language with edge and delay semantics, and a
//! dispatcher that walks each tree's active path once per tick.

pub mod types;
pub mod environment;
pub mod errors;
pub mod evaluator;
pub mod conditions;
pub mod tasks;
pub mod dispatcher;
pub mod suite;
pub mod logger;
pub mod lcd_driver;
pub mod laws;
