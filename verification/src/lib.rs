//! A PDF object-graph merge engine.
//!
//! Several documents, each an object table keyed by object identifier, are
//! combined into one: every object receives a fresh identifier, every
//! cross-reference is rewritten to follow, and a single page tree and
//! catalog are built over the pages of all the sources.

pub mod allocate;
pub mod copy;
pub mod dictionary;
pub mod document;
pub mod error;
pub mod graph;
pub mod id_map;
pub mod integrity;
pub mod kinds;
pub mod laws;
pub mod merge;
pub mod names;
pub mod object;
pub mod ordering;
pub mod page_order;
pub mod page_tree;
pub mod rewrite;
pub mod scan;
pub mod structure;
pub mod table;
pub mod well_formed;
