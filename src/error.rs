use vstd::prelude::*;

verus! {

/// BASE32 decode error.
///
/// Either the length is wrong or some characters are invalid.
#[derive(Debug, Clone, Copy, PartialEq, Eq, Structural)]
pub enum DecodeError {
    /// The number of symbols is not the length of any encoding.
    InvalidLength,
    /// A byte of the input is not one of the 32 symbols.
    InvalidCharacter,
}

impl DecodeError {
    /// A short description of the error.
    pub fn message(&self) -> (r: &'static str)
        ensures
            *self == DecodeError::InvalidLength ==> r@ == "invalid BASE32 length"@,
            *self == DecodeError::InvalidCharacter ==> r@ == "invalid BASE32 character"@,
    {
        match self {
            DecodeError::InvalidLength => "invalid BASE32 length",
            DecodeError::InvalidCharacter => "invalid BASE32 character",
        }
    }
}

} // verus!
