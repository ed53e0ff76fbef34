//! A static ownership and borrow verification engine over pre-built
//! operation streams.
//!
//! The crate models a value-ownership discipline: values move on use unless
//! their type is copy-eligible, shared borrows may coexist, an exclusive
//! borrow excludes every other borrow of the same variable, a borrow lives
//! from its creation to its last use, and borrows that must share one
//! lifetime are constrained to a common interval.
pub mod kinds;
pub mod value_table;
pub mod borrow_ledger;
pub mod scope_tree;
pub mod lifetime;
pub mod stream;
pub mod model;
pub mod engine;
pub mod reachable;
pub mod laws;
pub mod samples;
