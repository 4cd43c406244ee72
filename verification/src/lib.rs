//! Position identifiers and document replicas for character-wise collaborative
//! editing: every character carries a position identifier, and replicas order
//! their characters by those identifiers.

pub mod between;
pub mod collab;
pub mod crdt;
pub mod decimal;
pub mod digits;
pub mod document;
pub mod keys;
pub mod limits;
pub mod panel;
pub mod position;
pub mod session;
