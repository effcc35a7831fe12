//! An allocation-free, pull-based event scanner for a lenient, XML-like markup
//! dialect: elements, boolean and quoted attributes, comments, and text runs.
//!
//! The scanner borrows the whole document as one `&str` and hands out events
//! whose payloads are slices of that same buffer; it never copies them.  Two
//! scanners are provided behind the same contract: a Unicode-aware reference
//! scanner ([`scalar::Parser`]) and a chunked byte scanner ([`simd::Parser`])
//! for ASCII input.  Both are specified against the single step function
//! [`model::spec_step`], so on inputs both accept they produce identical
//! event streams.

pub mod event;
pub mod laws;
pub mod model;
pub mod scalar;
pub mod simd;

pub use event::{XmlError, XmlEvent};
pub use scalar::Parser as XmlIter;
