//! Propositional expressions over the letters A to D: a recursive parser, bit-packed
//! assignments of truth values, and truth tables built from expressions or from rows.
//!
//! An assignment of truth values is packed in one order throughout: a permutation holds
//! the i-th proposition in bit i, A in bit 0 up to D in bit 3. Assignment, evaluation,
//! the keys of a truth table, row decoding (the first column of a row is A) and the
//! conjunctions written from a table all use it.
pub mod expressions;
pub mod propositions;
pub mod round_trip;
pub mod truth_table;

pub use expressions::get_subexpression;
pub use expressions::Expression;
pub use expressions::ExpressionElement;
pub use expressions::ExpressionElementToken;
pub use expressions::Operator;
pub use expressions::ParseError;
pub use propositions::PropositionIdentifier;
pub use propositions::PropositionTable;
pub use truth_table::decode_permutation_str;
pub use truth_table::get_bit_permutations;
pub use truth_table::RowError;
pub use truth_table::TruthTable;
