//! Finds short cyclic patterns of integer operations that generate a sequence.
pub mod analyzer;
pub mod arith;
pub mod choice;
pub mod meta;
pub mod pattern;
pub mod render;
pub mod repeat;
pub mod seq;
pub mod stepper;

pub use analyzer::Analyzer;
pub use choice::PatternElemChoice;
pub use meta::MetaAnalyzer;
pub use pattern::{CustomPatternElem, NoRelation, Pattern, PatternElem, Relation};
pub use repeat::{is_repeating, is_repeating_with_predicate};
pub use seq::{OpSequence, SeqElem};
pub use stepper::Stepper;
pub mod laws;
pub mod order;
