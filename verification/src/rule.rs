//! From a rule's filter to the rule tree: De Morgan resolution, division
//! into conjunctive segments (DNF), ordering and tagging of the segments,
//! and the tree that matches an event against all rules at once.
pub mod demorgan;
pub mod node;
pub mod order;
pub mod parser;
pub mod segmenter;
pub mod sorter;
pub mod tagger;
pub mod tree;
