//! Dynamically typed Solidity values: a tagged union over the ABI scalar
//! types and three composite shapes, with a self-describing JSON codec, a
//! type guesser for untyped JSON, and structural and arithmetic operations.
pub mod encoding;
pub mod scalars;
pub mod value;
pub mod access;
pub mod ops;
pub mod transform;
pub mod json;
pub mod guess;
pub mod tagged;
pub mod events;
pub mod casts;
