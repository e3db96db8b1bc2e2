//! Filter expressions over events and the query language that builds them.
pub mod number;
pub mod pattern;
pub mod expression;
pub mod range;
pub mod construct;
pub mod lucene;
