//! Scanner for the attribute region of an XML start-tag.
//!
//! The scanner walks a borrowed byte buffer and yields `key="value"` /
//! `key='value'` pairs without copying, optionally enforcing that no two
//! attributes in one tag share a name. Entity escapes inside a value are
//! left intact until the caller resolves them.

pub mod ascii;
pub mod attributes;
pub mod errors;
pub mod escape;
pub mod model;
pub mod search;
