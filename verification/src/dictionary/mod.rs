//! Dictionary data: the LOUDS tries, character identifiers and entry metadata.
pub mod binary;
pub mod entry;
pub mod louds;
pub mod store;
pub mod user;
