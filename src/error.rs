use vstd::prelude::*;

verus! {

/// Why an identity number could not be turned into an age.
#[derive(Debug, Clone, PartialEq)]
pub enum PersonError {
    /// The birth date lies after the reference date.
    FutureBirthday,
    /// The derived age exceeds the oldest plausible age.
    LongDead,
    /// A date field held something other than decimal digits.
    InvalidPin(String),
    /// The identity number had neither 10 nor 12 bytes; carries the length found.
    InvalidPinLength(usize),
}

} // verus!
