//! Verified core of an extractor for multitrack recordings made on an
//! X-LIVE card: decoding of the session log, location of takes by time or
//! marker, the WAV header that every extracted channel gets, and the
//! de-interleaving of 32-bit multichannel words into 24-bit mono samples.

pub mod words;
pub mod log;
pub mod limits;
pub mod wave;
pub mod span;
