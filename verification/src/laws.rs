//! What the stages of the decoder are for.
//!
//! The contracts of the executable functions name spec functions. The laws here say
//! what those mean for their inputs and results: how the bits of a word lie in a
//! stream, which sample a filter looks back to, what a checksum is a sum of.
pub mod bits;
pub mod container;
pub mod filters;
pub mod table;
pub mod residuals;
pub mod samples;
pub mod setup;
