//! A pattern-indexed multimap for symbolic expressions, with the reader for
//! their source text.
//!
//! The trie ([`multitrie`]) stores values under keys ([`key`]) of symbols,
//! wildcards and balanced grouping markers. Lookup yields the values under
//! every key that matches the query, where a wildcard of either side stands
//! for one symbol or one whole group of the other.
//!
//! - [`graph`] is the trie as a mathematical object, with what insertion,
//!   lookup and removal do to it step by step.
//! - [`matching`] and [`reach`] say what lookup finds without the order of
//!   the steps; [`insertion`], [`growth`], [`removal`] and [`pruning`] say what
//!   the operations change and what they leave alone.
//! - [`stored`], [`pairs`] and [`pairs_removed`] show that the trie is the set
//!   of its stored pairs; [`laws`], [`once`], [`undo`] and [`tidy`] state what
//!   follows for callers.
//! - [`explorer`] is lookup one value at a time.
//! - [`text`], [`tokenizer`] and [`reader`] read source text into syntax nodes
//!   and atoms; [`runner`] holds the rules by which a program is run.

pub mod explorer;
pub mod graph;
pub mod growth;
pub mod insertion;
pub mod key;
pub mod laws;
pub mod matching;
pub mod multitrie;
pub mod once;
pub mod pairs;
pub mod pairs_removed;
pub mod pruning;
pub mod reach;
pub mod reader;
pub mod removal;
pub mod runner;
pub mod stored;
pub mod text;
pub mod tidy;
pub mod tokenizer;
pub mod undo;
