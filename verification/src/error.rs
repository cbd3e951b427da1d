//! The library's error type, and how failures of the backend map into it.

use vstd::prelude::*;

verus! {

/// Why an operation of this library gave no result.
#[derive(Debug, Clone, Copy, PartialEq, Eq, Structural)]
pub enum Error {
    /// The delay depth is negative or too large for the machine's counters.
    DepthOutOfRange,
    /// One of the two trapdoor factors is 0 or 1, so the modulus or the totient is 0.
    DegenerateTrapdoor,
    /// A reduction modulo 0 was asked for.
    ZeroModulus,
    /// A prime of fewer than 2 bits was asked for, and there is none.
    PrimeTooShort,
    /// A byte string is longer than the arithmetic backend can take in.
    OperandTooLong,
    /// The arithmetic or digest backend reported a failure of its own, or
    /// drew a number of another length than it was asked for.
    Backend,
}

/// The error queue that OpenSSL hands back when one of its calls fails.
#[verifier::external_type_specification]
#[verifier::external_body]
pub struct ExErrorStack(openssl::error::ErrorStack);

/// Keeps a backend result and folds any backend failure into [`Error::Backend`].
pub fn from_backend<T>(r: Result<T, openssl::error::ErrorStack>) -> (out: Result<T, Error>)
    ensures
        r matches Ok(v) ==> out == Ok::<T, Error>(v),
        r is Err ==> out == Err::<T, Error>(Error::Backend),
{
    match r {
        Ok(v) => Ok(v),
        Err(_) => Err(Error::Backend),
    }
}

/// `r` is what `ideal` prescribes: the value or the error that it names. Only
/// where `ideal` names a value may `r` instead be a failure of the backend.
pub open spec fn bytes_outcome(r: Result<Vec<u8>, Error>, ideal: Result<Seq<u8>, Error>) -> bool {
    match ideal {
        Ok(value) => match r {
            Ok(out) => out@ == value,
            Err(e) => e == Error::Backend,
        },
        Err(e) => r == Err::<Vec<u8>, Error>(e),
    }
}

/// As [`bytes_outcome`], for a pair of byte strings.
pub open spec fn pair_outcome(
    r: Result<(Vec<u8>, Vec<u8>), Error>,
    ideal: Result<(Seq<u8>, Seq<u8>), Error>,
) -> bool {
    match ideal {
        Ok(value) => match r {
            Ok(out) => out.0@ == value.0 && out.1@ == value.1,
            Err(e) => e == Error::Backend,
        },
        Err(e) => r == Err::<(Vec<u8>, Vec<u8>), Error>(e),
    }
}

} // verus!
