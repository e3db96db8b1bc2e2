//! Verified core of a log-event processing library: dotted-field access on
//! JSON-like events, filter expressions with a Lucene-style query parser, the
//! rule-parsing pipeline (De Morgan, DNF segmentation, sorting, tagging) and
//! the rule tree that matches events against many rules at once.
pub mod field;
pub mod render;
pub mod filter;
pub mod processor;
pub mod rule;
pub mod sorted;
pub mod text;
pub mod value;

use vstd::prelude::*;

verus! {

} // verus!
