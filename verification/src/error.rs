//! The ways in which an operation of this library can fail.

use vstd::prelude::*;

verus! {

/// Why an operation was refused.
#[derive(Clone, Copy, Debug, PartialEq, Eq, Structural)]
pub enum KyberError {
    /// The parameter record is not one of the supported sets.
    InvalidParams,
    /// A key, a seed or a ciphertext has the wrong length.
    MalformedInput,
    /// Zero has no multiplicative inverse.
    DivisionByZero,
    /// The output stream that seeds the public matrix held fewer than 256
    /// acceptable coefficients within the length that the library reads.
    StreamExhausted,
}

impl KyberError {
    /// The description of this error.
    pub open spec fn message_spec(&self) -> Seq<char> {
        match self {
            KyberError::InvalidParams => "invalid parameter set"@,
            KyberError::MalformedInput => "malformed input"@,
            KyberError::DivisionByZero => "division by zero"@,
            KyberError::StreamExhausted => "output stream exhausted"@,
        }
    }

    /// A short description for messages.
    pub fn message(&self) -> (r: &'static str)
        ensures
            r@ == self.message_spec(),
    {
        match self {
            KyberError::InvalidParams => {
                proof {
                    reveal_strlit("invalid parameter set");
                }
                "invalid parameter set"
            },
            KyberError::MalformedInput => {
                proof {
                    reveal_strlit("malformed input");
                }
                "malformed input"
            },
            KyberError::DivisionByZero => {
                proof {
                    reveal_strlit("division by zero");
                }
                "division by zero"
            },
            KyberError::StreamExhausted => {
                proof {
                    reveal_strlit("output stream exhausted");
                }
                "output stream exhausted"
            },
        }
    }
}

} // verus!
