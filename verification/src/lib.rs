//! Timed transcript events and the operators that reshape sequences of them.
//!
//! A speech recognizer hands out a transcript as a sequence of events: a
//! text with the millisecond at which it starts and the millisecond at which
//! it ends. This crate joins the fragments of such a transcript into
//! utterances and groups the utterances into longer events, by silence, by
//! sentence, by word count, by duration or by number, and writes the result
//! as text.
//!
//! - [`event`] is the mathematical model: an event, and what it means to
//!   combine events.
//! - [`grouping`] says what a run is and which rule ends it, for every
//!   operator.
//! - [`transcribe`] holds the values and the operators that compute what
//!   [`grouping`] says.
//! - [`laws`] and [`fixpoints`] prove what holds of every operator.
//! - [`text`], [`decimal`], [`clock`] and [`render`] turn events into text.
//! - [`vendor`] repairs the lines of one producer of transcripts.
//! - [`cli`] holds the options of the command line as plain values.

pub mod cli;
pub mod clock;
pub mod decimal;
pub mod event;
pub mod fixpoints;
pub mod grouping;
pub mod laws;
pub mod render;
pub mod text;
pub mod transcribe;
pub mod vendor;
