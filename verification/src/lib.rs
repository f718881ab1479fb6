//! An in-memory description-logic knowledge base: named classes and object
//! properties identified by interned resource identifiers, and axioms that
//! relate them.
//!
//! Each [`model::Ontology`] instance owns a bijective interning table from
//! numeric identifiers to external name strings, and five deduplicated
//! collections of entities, expressions and axioms.  Every constructor
//! validates that all identifiers referenced by its arguments belong to the
//! instance itself before anything is stored; queries answer only directly
//! asserted facts.

pub mod interner;
pub mod model;
