//! Resolves a partial pod name typed by an operator to the live pods it
//! denotes, and builds the cluster command for the requested action.
//!
//! The crate holds the pure decision logic of the shim: the infix
//! normalizer, the character-overlap similarity scorer, the two-phase
//! candidate resolver, the disambiguation menu rules, and the command
//! builder.  Listing pods, prompting the operator and executing commands
//! are left to the surrounding binary, which hands plain values in and
//! takes plain values back.

pub mod command;
pub mod distance;
pub mod manager;
pub mod normalize;
pub mod pod;
pub mod resolve;
pub mod select;
