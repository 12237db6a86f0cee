//! Readability extraction over an arena document tree.
//!
//! The document tree lives in [`rcdom::RcDom`]: a parser builds it through the tree-construction
//! methods there. [`extractor`] turns the best node of a document into a reader page.

pub mod calls;
pub mod dom;
pub mod dropping;
pub mod error;
pub mod extractor;
pub mod guarantees;
pub mod html;
pub mod interface;
pub mod laws;
pub mod lemmas;
pub mod model;
pub mod rcdom;
pub mod scorer;
pub mod selectedcontent;
pub mod shape;
