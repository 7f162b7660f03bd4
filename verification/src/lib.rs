//! Hardening of soft word alignments.
//!
//! A soft alignment gives, for every target word of a sentence pair, one
//! score per candidate source word. Hardening turns those scores into a list
//! of `(source, target)` position pairs under one of three policies: the best
//! source per target, every source at or above a fixed cutoff, or every source
//! at or above a fraction of the target's own best score.
//!
//! * [`score`] holds the score type and its exact arithmetic.
//! * [`model`] states what each policy selects, as functions on sequences.
//! * [`align_hard`] holds the executable policies.
//! * [`laws`] proves properties that relate the policies to one another.

pub mod align_hard;
pub mod decode;
pub mod fault;
pub mod laws;
pub mod model;
pub mod score;
