//! A verified codec for the Web Bundle container format: a single-file
//! packaging of HTTP exchanges built on canonical CBOR.
//!
//! The crate offers a builder that assembles an in-memory [`Bundle`], an
//! encoder that serializes it to bytes with a correct section offset table,
//! and a decoder that parses a byte slice back into a validated [`Bundle`].

mod builder;
mod bundle;
mod canon;
mod decoder;
mod cbor;
mod encoder;
mod error;
mod laws;
mod strutil;
mod urlpath;

pub use builder::Builder;
pub use bundle::{Bundle, Exchange, Request, Response, Version};
pub use error::Error;
pub use urlpath::url_to_path;
