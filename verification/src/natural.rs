//! Arbitrary-precision natural numbers, held as big-endian bytes. The
//! arithmetic on them is OpenSSL's.

use vstd::arithmetic::power::pow;
use vstd::arithmetic::power2::pow2;
use vstd::prelude::*;

use crate::encoding::{
    be_bytes, be_bytes_of, be_value, bit_len, is_minimal, lemma_be_bytes_minimal,
    lemma_be_value_of_be_bytes, strip_leading_zeros,
};
use crate::error::{from_backend, Error};

verus! {

/// The longest byte string that the backend takes in as a number.
pub const MAX_OPERAND_LEN: usize = 0x7fff_ffff;

/// `openssl::bn::BigNumRef::checked_mul` on two numbers read with
/// `BigNum::from_slice`, the product written out with `to_vec`: the shortest
/// big-endian encoding of the product.
#[verifier::external_body]
fn bn_mul(a: &[u8], b: &[u8]) -> (r: Result<Vec<u8>, openssl::error::ErrorStack>)
    requires
        a@.len() <= MAX_OPERAND_LEN,
        b@.len() <= MAX_OPERAND_LEN,
    ensures
        r matches Ok(out) ==> out@ == be_bytes(be_value(a@) * be_value(b@)) && out@.len()
            <= MAX_OPERAND_LEN,
{
    let x = openssl::bn::BigNum::from_slice(a)?;
    let y = openssl::bn::BigNum::from_slice(b)?;
    let mut ctx = openssl::bn::BigNumContext::new()?;
    let mut out = openssl::bn::BigNum::new()?;
    out.checked_mul(&x, &y, &mut ctx)?;
    Ok(out.to_vec())
}

/// `openssl::bn::BigNumRef::checked_sub` on two numbers read with
/// `BigNum::from_slice`, the first not below the second, the difference
/// written out with `to_vec`: the shortest big-endian encoding of the
/// difference.
#[verifier::external_body]
fn bn_sub(a: &[u8], b: &[u8]) -> (r: Result<Vec<u8>, openssl::error::ErrorStack>)
    requires
        a@.len() <= MAX_OPERAND_LEN,
        b@.len() <= MAX_OPERAND_LEN,
        be_value(a@) >= be_value(b@),
    ensures
        r matches Ok(out) ==> out@ == be_bytes((be_value(a@) - be_value(b@)) as nat) && out@.len()
            <= MAX_OPERAND_LEN,
{
    let x = openssl::bn::BigNum::from_slice(a)?;
    let y = openssl::bn::BigNum::from_slice(b)?;
    let mut out = openssl::bn::BigNum::new()?;
    out.checked_sub(&x, &y)?;
    Ok(out.to_vec())
}

/// `openssl::bn::BigNumRef::checked_rem` on two numbers read with
/// `BigNum::from_slice`, the remainder written out with `to_vec`: for a
/// divisor other than 0, the shortest big-endian encoding of the remainder.
#[verifier::external_body]
fn bn_rem(a: &[u8], m: &[u8]) -> (r: Result<Vec<u8>, openssl::error::ErrorStack>)
    requires
        a@.len() <= MAX_OPERAND_LEN,
        m@.len() <= MAX_OPERAND_LEN,
    ensures
        r matches Ok(out) ==> out@.len() <= MAX_OPERAND_LEN && (be_value(m@) != 0 ==> out@
            == be_bytes(be_value(a@) % be_value(m@))),
{
    let x = openssl::bn::BigNum::from_slice(a)?;
    let y = openssl::bn::BigNum::from_slice(m)?;
    let mut ctx = openssl::bn::BigNumContext::new()?;
    let mut out = openssl::bn::BigNum::new()?;
    out.checked_rem(&x, &y, &mut ctx)?;
    Ok(out.to_vec())
}

/// `openssl::bn::BigNumRef::mod_exp` on three numbers read with
/// `BigNum::from_slice`, the result written out with `to_vec`: for a modulus
/// other than 0, the shortest big-endian encoding of `a` to the power `p`,
/// reduced modulo `m`.
#[verifier::external_body]
fn bn_mod_exp(a: &[u8], p: &[u8], m: &[u8]) -> (r: Result<Vec<u8>, openssl::error::ErrorStack>)
    requires
        a@.len() <= MAX_OPERAND_LEN,
        p@.len() <= MAX_OPERAND_LEN,
        m@.len() <= MAX_OPERAND_LEN,
    ensures
        r matches Ok(out) ==> out@.len() <= MAX_OPERAND_LEN && (be_value(m@) != 0 ==> out@
            == be_bytes((pow(be_value(a@) as int, be_value(p@)) % (be_value(m@) as int)) as nat)),
{
    let x = openssl::bn::BigNum::from_slice(a)?;
    let e = openssl::bn::BigNum::from_slice(p)?;
    let n = openssl::bn::BigNum::from_slice(m)?;
    let mut ctx = openssl::bn::BigNumContext::new()?;
    let mut out = openssl::bn::BigNum::new()?;
    out.mod_exp(&x, &e, &n, &mut ctx)?;
    Ok(out.to_vec())
}

/// `openssl::bn::BigNumRef::set_bit` on a fresh `BigNum::new`, which is 0,
/// written out with `to_vec`: the shortest big-endian encoding of 2 to the
/// power `bit`.
#[verifier::external_body]
fn bn_set_bit(bit: i32) -> (r: Result<Vec<u8>, openssl::error::ErrorStack>)
    requires
        bit >= 0,
    ensures
        r matches Ok(out) ==> out@ == be_bytes(pow2(bit as nat)) && out@.len() <= MAX_OPERAND_LEN,
{
    let mut out = openssl::bn::BigNum::new()?;
    out.set_bit(bit)?;
    Ok(out.to_vec())
}

/// `openssl::bn::BigNumRef::generate_prime` without the safe-prime and the
/// residue options, written out with `to_vec`: some number in its shortest
/// big-endian encoding, of at least `bits` bits where `bits` is 2 or more.
/// Two calls may give different numbers; that the number is prime holds only
/// with high probability and is not claimed.
#[verifier::external_body]
fn bn_generate_prime(bits: i32) -> (r: Result<Vec<u8>, openssl::error::ErrorStack>)
    ensures
        r matches Ok(out) ==> is_minimal(out@) && out@.len() <= MAX_OPERAND_LEN && (bits >= 2
            ==> be_value(out@) >= pow2((bits - 1) as nat)),
{
    let mut out = openssl::bn::BigNum::new()?;
    out.generate_prime(bits, false, None, None)?;
    Ok(out.to_vec())
}

/// A natural number of arbitrary size.
#[derive(Debug, PartialEq, Eq)]
pub struct Natural {
    /// Big-endian, without a leading zero byte; empty for 0.
    bytes: Vec<u8>,
}

impl View for Natural {
    type V = nat;

    closed spec fn view(&self) -> nat {
        be_value(self.bytes@)
    }
}

/// `r` is what `ideal` prescribes: the number or the error that it names.
/// Only where `ideal` names a number may `r` instead be a failure of the
/// backend.
pub open spec fn natural_outcome(r: Result<Natural, Error>, ideal: Result<nat, Error>) -> bool {
    match ideal {
        Ok(value) => match r {
            Ok(out) => out@ == value,
            Err(e) => e == Error::Backend,
        },
        Err(e) => r == Err::<Natural, Error>(e),
    }
}

impl Natural {
    #[verifier::type_invariant]
    spec fn well_formed(self) -> bool {
        is_minimal(self.bytes@) && self.bytes@.len() <= MAX_OPERAND_LEN
    }

    /// Wraps an encoding that the backend produced.
    fn from_minimal(bytes: Vec<u8>) -> (n: Natural)
        requires
            is_minimal(bytes@),
            bytes@.len() <= MAX_OPERAND_LEN,
        ensures
            n@ == be_value(bytes@),
    {
        Natural { bytes }
    }

    /// The number that `bytes` denotes in big-endian order; leading zero
    /// bytes are allowed. A string longer than the backend takes in is
    /// refused, and nothing else is.
    pub fn from_be_bytes(bytes: &[u8]) -> (r: Result<Natural, Error>)
        ensures
            bytes@.len() <= MAX_OPERAND_LEN <==> r is Ok,
            r matches Ok(n) ==> n@ == be_value(bytes@),
            r matches Err(e) ==> e == Error::OperandTooLong,
    {
        if bytes.len() > MAX_OPERAND_LEN {
            return Err(Error::OperandTooLong);
        }
        let stripped = strip_leading_zeros(bytes);
        proof {
            lemma_be_bytes_minimal(be_value(bytes@));
            lemma_be_value_of_be_bytes(be_value(bytes@));
        }
        Ok(Natural::from_minimal(stripped))
    }

    /// The number `v`.
    pub fn from_u64(v: u64) -> (n: Natural)
        ensures
            n@ == v,
    {
        let bytes = be_bytes_of(v);
        proof {
            lemma_be_bytes_minimal(v as nat);
            lemma_be_value_of_be_bytes(v as nat);
            assert(crate::encoding::radix_pow(8) == 0x1_0000_0000_0000_0000) by {
                reveal_with_fuel(crate::encoding::radix_pow, 9);
            }
            crate::encoding::lemma_be_bytes_len(v as nat, 8);
        }
        Natural::from_minimal(bytes)
    }

    /// The shortest big-endian encoding of the number; empty for 0.
    pub fn to_be_bytes(&self) -> (out: Vec<u8>)
        ensures
            out@ == be_bytes(self@),
    {
        proof {
            use_type_invariant(self);
            crate::encoding::lemma_be_bytes_of_be_value(self.bytes@);
        }
        self.bytes.clone()
    }

    /// Whether the number is 0.
    pub fn is_zero(&self) -> (b: bool)
        ensures
            b == (self@ == 0),
    {
        proof {
            use_type_invariant(self);
            if self.bytes@.len() > 0 {
                crate::encoding::lemma_minimal_value_positive(self.bytes@);
            }
        }
        self.bytes.len() == 0
    }

    /// Whether the number is 0 or 1.
    pub fn is_at_most_one(&self) -> (b: bool)
        ensures
            b == (self@ <= 1),
    {
        proof {
            use_type_invariant(self);
            let s = self.bytes@;
            if s.len() == 1 {
                assert(be_value(s.drop_last()) == 0);
                assert(s.last() == s[0]);
            } else if s.len() > 1 {
                assert(s.drop_last()[0] == s[0]);
                crate::encoding::lemma_minimal_value_positive(s.drop_last());
            }
        }
        self.bytes.len() == 0 || (self.bytes.len() == 1 && self.bytes[0] == 1)
    }

    /// The product of two numbers.
    pub fn times(&self, other: &Natural) -> (r: Result<Natural, Error>)
        ensures
            natural_outcome(r, Ok(self@ * other@)),
    {
        proof {
            use_type_invariant(self);
            use_type_invariant(other);
        }
        match from_backend(bn_mul(self.bytes.as_slice(), other.bytes.as_slice())) {
            Ok(bytes) => {
                proof {
                    lemma_be_bytes_minimal(self@ * other@);
                    lemma_be_value_of_be_bytes(self@ * other@);
                }
                Ok(Natural::from_minimal(bytes))
            },
            Err(e) => Err(e),
        }
    }

    /// The difference of two numbers, the first not below the second.
    pub fn minus(&self, other: &Natural) -> (r: Result<Natural, Error>)
        requires
            self@ >= other@,
        ensures
            natural_outcome(r, Ok((self@ - other@) as nat)),
    {
        proof {
            use_type_invariant(self);
            use_type_invariant(other);
        }
        match from_backend(bn_sub(self.bytes.as_slice(), other.bytes.as_slice())) {
            Ok(bytes) => {
                proof {
                    lemma_be_bytes_minimal((self@ - other@) as nat);
                    lemma_be_value_of_be_bytes((self@ - other@) as nat);
                }
                Ok(Natural::from_minimal(bytes))
            },
            Err(e) => Err(e),
        }
    }

    /// The remainder of the number on division by `modulus`.
    pub fn modulo(&self, modulus: &Natural) -> (r: Result<Natural, Error>)
        ensures
            natural_outcome(
                r,
                if modulus@ == 0 {
                    Err(Error::ZeroModulus)
                } else {
                    Ok(self@ % modulus@)
                },
            ),
    {
        proof {
            use_type_invariant(self);
            use_type_invariant(modulus);
        }
        if modulus.is_zero() {
            return Err(Error::ZeroModulus);
        }
        match from_backend(bn_rem(self.bytes.as_slice(), modulus.bytes.as_slice())) {
            Ok(bytes) => {
                proof {
                    lemma_be_bytes_minimal(self@ % modulus@);
                    lemma_be_value_of_be_bytes(self@ % modulus@);
                }
                Ok(Natural::from_minimal(bytes))
            },
            Err(e) => Err(e),
        }
    }

    /// The number raised to `exponent` and reduced modulo `modulus`.
    pub fn mod_pow(&self, exponent: &Natural, modulus: &Natural) -> (r: Result<Natural, Error>)
        ensures
            natural_outcome(
                r,
                if modulus@ == 0 {
                    Err(Error::ZeroModulus)
                } else {
                    Ok((pow(self@ as int, exponent@) % (modulus@ as int)) as nat)
                },
            ),
    {
        proof {
            use_type_invariant(self);
            use_type_invariant(exponent);
            use_type_invariant(modulus);
        }
        if modulus.is_zero() {
            return Err(Error::ZeroModulus);
        }
        match from_backend(
            bn_mod_exp(self.bytes.as_slice(), exponent.bytes.as_slice(), modulus.bytes.as_slice()),
        ) {
            Ok(bytes) => {
                proof {
                    let v = pow(self@ as int, exponent@) % (modulus@ as int);
                    vstd::arithmetic::div_mod::lemma_mod_bound(
                        pow(self@ as int, exponent@),
                        modulus@ as int,
                    );
                    lemma_be_bytes_minimal(v as nat);
                    lemma_be_value_of_be_bytes(v as nat);
                }
                Ok(Natural::from_minimal(bytes))
            },
            Err(e) => Err(e),
        }
    }

    /// 2 to the power `bit`.
    pub fn power_of_two(bit: u32) -> (r: Result<Natural, Error>)
        ensures
            natural_outcome(
                r,
                if bit > i32::MAX {
                    Err(Error::OperandTooLong)
                } else {
                    Ok(pow2(bit as nat))
                },
            ),
    {
        if bit > 0x7fff_ffff {
            return Err(Error::OperandTooLong);
        }
        match from_backend(bn_set_bit(bit as i32)) {
            Ok(bytes) => {
                proof {
                    lemma_be_bytes_minimal(pow2(bit as nat));
                    lemma_be_value_of_be_bytes(pow2(bit as nat));
                }
                Ok(Natural::from_minimal(bytes))
            },
            Err(e) => Err(e),
        }
    }

    /// The number of binary digits of the number; 0 for 0.
    pub fn bit_length(&self) -> (r: u64)
        ensures
            r == bit_len(self@),
    {
        proof {
            use_type_invariant(self);
        }
        let len = self.bytes.len();
        if len == 0 {
            return 0;
        }
        let lead = self.bytes[0];
        let top: u64 = if lead >= 128 {
            8
        } else if lead >= 64 {
            7
        } else if lead >= 32 {
            6
        } else if lead >= 16 {
            5
        } else if lead >= 8 {
            4
        } else if lead >= 4 {
            3
        } else if lead >= 2 {
            2
        } else {
            1
        };
        proof {
            let whole = (8 * (len - 1)) as nat;
            let unit = pow2(whole);
            crate::encoding::lemma_be_value_bounds(self.bytes@);
            crate::encoding::lemma_radix_pow_is_pow2((len - 1) as nat);
            vstd::arithmetic::power2::lemma2_to64();
            vstd::arithmetic::power2::lemma_pow2_adds(whole, (top - 1) as nat);
            vstd::arithmetic::power2::lemma_pow2_adds(whole, top as nat);
            let low = pow2((top - 1) as nat);
            let high = pow2(top as nat);
            assert(low <= lead && lead + 1 <= high);
            assert(unit * low <= unit * lead && unit * (lead + 1) <= unit * high)
                by (nonlinear_arith)
                requires
                    low <= lead,
                    lead + 1 <= high,
                    unit >= 0,
            ;
            crate::encoding::lemma_bit_len_unique(self@, whole + top as nat);
        }
        8 * (len as u64 - 1) + top
    }

    /// A fresh random number of exactly `bits` bits that is prime with high
    /// probability. A length below 2 bits is refused before anything is
    /// drawn; a number of another length than asked for is not handed on.
    pub fn random_prime(bits: i32) -> (r: Result<Natural, Error>)
        ensures
            bits < 2 <==> r == Err::<Natural, Error>(Error::PrimeTooShort),
            r matches Ok(n) ==> bit_len(n@) == bits && pow2((bits - 1) as nat) <= n@ < pow2(
                bits as nat,
            ),
            r matches Err(e) ==> e == Error::PrimeTooShort || e == Error::Backend,
    {
        if bits < 2 {
            return Err(Error::PrimeTooShort);
        }
        match from_backend(bn_generate_prime(bits)) {
            Ok(bytes) => prime_of_length(Natural::from_minimal(bytes), bits),
            Err(e) => Err(e),
        }
    }
}

/// Hands on what the prime generator drew if it has exactly `bits` bits, and
/// counts any other length as a failure of the generator.
pub fn prime_of_length(drawn: Natural, bits: i32) -> (r: Result<Natural, Error>)
    requires
        bits >= 2,
    ensures
        bit_len(drawn@) == bits <==> r is Ok,
        r matches Ok(n) ==> n@ == drawn@ && pow2((bits - 1) as nat) <= n@ < pow2(bits as nat),
        r matches Err(e) ==> e == Error::Backend,
{
    if drawn.bit_length() == bits as u64 {
        proof {
            assert(drawn@ > 0) by {
                if drawn@ == 0 {
                    assert(bit_len(0) == 0);
                }
            }
            crate::encoding::lemma_bit_len_bounds(drawn@);
        }
        Ok(drawn)
    } else {
        Err(Error::Backend)
    }
}

} // verus!
