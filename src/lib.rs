//! Conversion engine between PCM audio and SPICE piecewise-linear (PWL) text.
//!
//! The library holds the decisions of the conversion: how a PWL text is
//! tokenized and which of its fields carry the signal, which input frames the
//! audio encoder keeps, and when a watched file is considered fully written.
//! Arithmetic on sample values and all file access live in the application.
pub mod text;
pub mod number;
pub mod pwl;
pub mod encode;
pub mod watch;
pub mod interp;
