//! Conversions between a concrete syntax tree and token trees, plus the
//! attribute completion table.

pub mod attribute;
pub mod tt;
pub mod token_map;
pub mod doc_comment;
pub mod convert;
pub mod sink;
pub mod bridge;
pub mod walk;
