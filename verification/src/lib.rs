//! Allocation-free formatting into a caller-supplied byte buffer.
//!
//! Text fragments are copied into a fixed-size buffer. When a fragment does
//! not fit, the output is cut at the nearest UTF-8 code-point boundary, so
//! that what has been written is a well-formed string at every moment.
//!
//! `boundary` finds the place to cut, `sink` holds the buffer and takes the
//! fragments, and `format` writes a whole run of fragments in one call.

pub mod boundary;
pub mod format;
pub mod sink;

pub use crate::boundary::{find_closest_boundary, is_not_first_utf8};
pub use crate::format::fmt_truncate;
pub use crate::sink::WriteTo;
