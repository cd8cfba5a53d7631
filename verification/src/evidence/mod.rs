//! Evidence: the records that make a claim assertable, and how strongly they support it.

pub mod kind;
pub mod collector;
pub mod confidence;
pub mod claims;
pub mod artifact;
pub mod source;
pub mod event;
pub mod deployment;
pub mod transaction;
pub mod errors;
pub mod document;
