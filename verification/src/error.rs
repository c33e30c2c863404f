//! The error of a failed read from a bit stream.
use vstd::prelude::*;

verus! {

/// The error returned when a bit stream holds too few bits, or bits that do not encode a
/// value of the requested type.
#[derive(Clone, Copy, Debug, PartialEq, Eq, Structural)]
pub struct SerdeErr;

/// The result of reading a value from a bit stream.
pub type SerdeResult<T> = Result<T, SerdeErr>;

/// The error of sending into a channel whose other end is gone; it hands the value back.
#[derive(Debug, Eq, PartialEq)]
pub struct ChannelClosedError<T>(pub T);

} // verus!
