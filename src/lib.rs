//! Materialisation of a tree-structured sequence CRDT (an RGA-style
//! replicated list) over in-memory relations.
//!
//! Inserts form a forest of nodes; assignments give elements values, and
//! remove markers tombstone assignments. Every fact carries an integer
//! multiplicity. Inserts and assignments count while their net multiplicity is
//! positive; a remove marker is in force while its net multiplicity is
//! nonzero, since removal drops every assignment whose operation nets to
//! anything but zero among the markers. The
//! library turns the facts into the pre-order successor relation of the
//! forest and then into the visible sequence: each valued element followed by
//! the next valued element, with that element's value.
//!
//! Children of one parent are ranked by identifier, largest first: a parent is
//! followed by its largest child, and each child by the largest sibling below
//! it.
//!
//! - `node`: identifiers, pointers and the three kinds of facts.
//! - `bag`: net multiplicities and the facts present in a log.
//! - `chain`: path compression by pointer doubling, and path fusion.
//! - `tree`: sibling order and the pre-order successor relation.
//! - `visible`: surviving values and successors that skip blank elements.
//! - `rga`: the whole pipeline, and the change between two results.
//! - `laws`: properties relating several calls.
//! - `records`: reading trace records.

pub mod node;
pub mod chain;
pub mod bag;
pub mod tree;
pub mod visible;
pub mod rga;
pub mod laws;
pub mod records;
