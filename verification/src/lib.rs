//! A verified parser and serializer for SDP (Session Description Protocol)
//! text, the line-oriented format exchanged during RTP session negotiation.
//!
//! The executable entry points live in [`sdp`]; their behaviour is stated
//! against the mathematical grammar in [`grammar`] over the document models
//! in [`model`], and the round-trip laws relating the two directions are
//! proved in [`laws`].

pub mod chars;
pub mod digits;
pub mod grammar;
pub mod laws;
pub mod model;
pub mod sdp;
pub mod text;
