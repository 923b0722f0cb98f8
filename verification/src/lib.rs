//! Sets of cluster node names in folded range notation, such as
//! `node[1-100,200]` or `rack[1-3]node[01-10]`, with exact set algebra on
//! the folded form.
//!
//! The parts, from the ground up:
//!
//! - `runs`, `normal_form`: runs of consecutive identifiers, the sweep that
//!   combines two sorted sequences of runs, and the minimal form of a set.
//! - `range`, `range_list`, `range_tree`: a set of identifiers with its
//!   display width, as a list of runs or as an ordered map of runs.
//! - `numeral`, `pattern`, `order`, `grammar`, `parser`: the folded notation,
//!   how it is read, and the order of patterns.
//! - `content`, `idset`, `nodeset`: sets of node names over either
//!   representation, their algebra, splitting and merging.
//! - `folding`, `compaction`: how a set is written in the folded notation.
//! - `resolver`, `expansion`, `report`: named groups of nodes and their
//!   sources, texts that refer to groups, and the lines that the
//!   command-line tool prints about them.
//! - `laws`, `joining`, `names`, `readback`, `widths`: what is proved of all
//!   this: the laws of the algebra, of folding and parsing, of texts joined
//!   by a blank, of the names of a set read back, and of the widths that
//!   the sets of texts keep.
//! - `roundtrip`, `locality`, `unfolding`, `grammar_wf`: the lemmas that the
//!   laws rest on.

pub mod compaction;
pub mod content;
pub mod expansion;
pub mod folding;
pub mod grammar;
pub mod grammar_wf;
pub mod idset;
pub mod joining;
pub mod laws;
pub mod locality;
pub mod names;
pub mod nodeset;
pub mod normal_form;
pub mod numeral;
pub mod order;
pub mod parser;
pub mod pattern;
pub mod range;
pub mod range_list;
pub mod range_tree;
pub mod readback;
pub mod report;
pub mod resolver;
pub mod roundtrip;
pub mod runs;
pub mod text;
pub mod unfolding;
pub mod widths;
