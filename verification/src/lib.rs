//! A framing layer for a RESP-style request/response protocol: it turns an
//! ordered byte stream into discrete protocol frames and serializes frames
//! back into wire bytes.
//!
//! The wire grammar is specified by the spec functions `frame::enc` (what a
//! frame looks like on the wire) and `decode::scan` (what one complete frame
//! at the front of a byte sequence decodes to). Every executable function is
//! verified against those two definitions, and `laws` proves that they agree:
//! encoding a well-formed frame and scanning the result yields the same frame
//! back, while any strict prefix of an encoding scans as incomplete.

pub mod digits;
pub mod utf8;
pub mod frame;
pub mod decode;
pub mod buffer;
pub mod laws;
