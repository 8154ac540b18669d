//! staticimp: a verified entry-processing library for static-site comment
//! storage.
//!
//! The library turns a caller-supplied set of named text fields (an entry)
//! into a fully resolved, validated, storage-ready record:
//!
//! - [`rendertemplate`] holds the `{name}` placeholder tokenizer and the
//!   rendering pipeline built on pluggable resolvers.
//! - [`base85`] holds the binary-to-text codec used by field transforms,
//!   together with a proof that decoding inverts encoding.
//! - [`staticimp`] holds the entry pipeline itself: field validation,
//!   generated fields, field transforms, and the record builder.

pub mod base85;
pub mod rendertemplate;
pub mod staticimp;
