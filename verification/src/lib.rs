//! Binary-to-text codecs compiled from a declarative alphabet specification.
pub mod arithmetic;
pub mod base45;
pub mod bigint;
pub mod block;
pub mod encoder;
pub mod encoding;
pub mod error;
pub mod inverse;
pub mod laws;
pub mod predefined;
pub mod radix;
pub mod specification;
pub mod text;
pub mod wide;
