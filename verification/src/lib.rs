//! A personal memory store: short text snippets saved together with a
//! natural-language description and retrieved by semantic similarity.
//!
//! The engine keeps an ordered collection of records, each paired with a
//! fixed-dimension embedding row, persists the collection to a single byte
//! buffer, and ranks records against per-row similarity scores.  Embedding
//! components and scores are carried as the bit patterns of IEEE 754
//! single-precision values; the surrounding application converts to and
//! from floating point and performs the dot products.

pub mod codec;
pub mod error;
pub mod rank;
pub mod score;
pub mod store;
