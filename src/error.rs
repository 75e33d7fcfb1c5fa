use vstd::prelude::*;

verus! {

/// What can go wrong in the library's own logic. Failures to open, read or
/// write a file belong to the caller that does the I/O.
#[derive(Debug, Clone, Copy, PartialEq, Eq, Structural)]
pub enum BacklightError {
    /// An attribute file holds no token at all.
    Empty,
    /// The first token of an attribute file is not an unsigned integer that
    /// fits in a `usize`.
    Unparsable,
    /// No device was found.
    NoBacklights,
    /// No device of the requested name was found.
    NotFound,
}

impl BacklightError {
    /// A short description of the error.
    pub fn message(&self) -> (r: &'static str)
        ensures
            *self == BacklightError::Empty ==> r@ == "Empty file"@,
            *self == BacklightError::Unparsable ==> r@ == "Couldn't parse value"@,
            *self == BacklightError::NoBacklights ==> r@ == "No backlights detected"@,
            *self == BacklightError::NotFound ==> r@ == "No such backlight"@,
    {
        match self {
            BacklightError::Empty => "Empty file",
            BacklightError::Unparsable => "Couldn't parse value",
            BacklightError::NoBacklights => "No backlights detected",
            BacklightError::NotFound => "No such backlight",
        }
    }
}

} // verus!
