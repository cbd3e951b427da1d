//! The delay function: raising to the power 2^(2^T) modulo `n`, either by
//! 2^T sequential squarings or, with the factors of `n` at hand, by one
//! modular exponentiation with a reduced exponent.

use vstd::arithmetic::power::pow;
use vstd::arithmetic::power2::pow2;
use vstd::prelude::*;

use crate::encoding::{be_bytes, be_value, bit_len};
use crate::error::{bytes_outcome, Error};
use crate::natural::{natural_outcome, Natural, MAX_OPERAND_LEN};

verus! {

/// The deepest delay that the sequential evaluator counts through.
pub const MAX_SEQUENTIAL_DEPTH: usize = 63;

/// The deepest delay for which the trapdoor exponent can be derived: the
/// backend addresses the bits of a number with a signed 32-bit index.
pub const MAX_TRAPDOOR_DEPTH: i32 = 30;

/// The byte string `x`, read as a big-endian number, raised to `exponent` and
/// reduced modulo `n`, in its shortest big-endian encoding.
pub open spec fn delay(x: Seq<u8>, n: nat, exponent: nat) -> Seq<u8> {
    be_bytes((pow(be_value(x) as int, exponent) % (n as int)) as nat)
}

/// The exponent that 2^`t` squarings amount to.
pub open spec fn sequential_exponent(t: nat) -> nat {
    pow2(pow2(t))
}

/// The totient of the product of two distinct primes `p` and `q`.
pub open spec fn totient(p: nat, q: nat) -> nat {
    ((p - 1) * (q - 1)) as nat
}

/// The exponent of depth `t` reduced modulo the totient.
pub open spec fn reduced_exponent(p: nat, q: nat, t: nat) -> nat {
    sequential_exponent(t) % totient(p, q)
}

/// What [`eval_trap`] is to return.
pub open spec fn eval_trap_spec(x: Seq<u8>, n: nat, e: nat) -> Result<Seq<u8>, Error> {
    if x.len() > MAX_OPERAND_LEN {
        Err(Error::OperandTooLong)
    } else if n == 0 {
        Err(Error::ZeroModulus)
    } else {
        Ok(delay(x, n, e))
    }
}

/// What [`eval`] is to return.
pub open spec fn eval_spec(x: Seq<u8>, n: nat, t: nat) -> Result<Seq<u8>, Error> {
    if x.len() > MAX_OPERAND_LEN {
        Err(Error::OperandTooLong)
    } else if t > MAX_SEQUENTIAL_DEPTH {
        Err(Error::DepthOutOfRange)
    } else if n == 0 {
        Err(Error::ZeroModulus)
    } else {
        Ok(delay(x, n, sequential_exponent(t)))
    }
}

/// What [`trapdoor_exponent`] is to return.
pub open spec fn trapdoor_exponent_spec(p: nat, q: nat, t: int) -> Result<nat, Error> {
    if t < 0 || t > MAX_TRAPDOOR_DEPTH {
        Err(Error::DepthOutOfRange)
    } else if p <= 1 || q <= 1 {
        Err(Error::DegenerateTrapdoor)
    } else {
        Ok(reduced_exponent(p, q, t as nat))
    }
}

/// One delay step with the trapdoor: `x` to the power `e` modulo `n`, by a
/// single modular exponentiation.
pub fn eval_trap(x: &[u8], n: &Natural, e: &Natural) -> (r: Result<Vec<u8>, Error>)
    ensures
        bytes_outcome(r, eval_trap_spec(x@, n@, e@)),
{
    let base = match Natural::from_be_bytes(x) {
        Ok(base) => base,
        Err(err) => { return Err(err); },
    };
    match base.mod_pow(e, n) {
        Ok(y) => Ok(y.to_be_bytes()),
        Err(err) => Err(err),
    }
}

/// Squaring a residue of `x` to the power 2^`i` gives the residue of `x` to
/// the power 2^(`i` + 1).
proof fn lemma_square_step(x: int, n: int, i: nat, g: int)
    requires
        n > 0,
        g == pow(x, pow2(i)) % n || (i == 0 && g == x),
    ensures
        (g * g) % n == pow(x, pow2(i + 1)) % n,
{
    let a = pow(x, pow2(i));
    vstd::arithmetic::power2::lemma_pow2_unfold(i + 1);
    vstd::arithmetic::power::lemma_pow_adds(x, pow2(i), pow2(i));
    assert(pow(x, pow2(i + 1)) == a * a);
    if g == a % n {
        vstd::arithmetic::div_mod::lemma_mul_mod_noop(a, a, n);
    } else {
        vstd::arithmetic::power2::lemma2_to64();
        vstd::arithmetic::power::lemma_pow1(x);
    }
}

/// One delay step without the trapdoor: `x` squared modulo `n`, 2^`t` times
/// over, one squaring after the other.
pub fn eval(x: &[u8], n: &Natural, t: usize) -> (r: Result<Vec<u8>, Error>)
    ensures
        bytes_outcome(r, eval_spec(x@, n@, t as nat)),
{
    let mut g = match Natural::from_be_bytes(x) {
        Ok(g) => g,
        Err(err) => { return Err(err); },
    };
    if t > MAX_SEQUENTIAL_DEPTH {
        return Err(Error::DepthOutOfRange);
    }
    if n.is_zero() {
        return Err(Error::ZeroModulus);
    }
    proof {
        vstd::arithmetic::power2::lemma2_to64();
        if t < 63 {
            vstd::arithmetic::power2::lemma_pow2_strictly_increases(t as nat, 63);
        }
        vstd::arithmetic::power2::lemma_pow2_strictly_increases(63, 64);
        vstd::bits::lemma_u64_shl_is_mul(1, t as u64);
    }
    let squarings: u64 = 1u64 << (t as u64);
    let mut i: u64 = 0;
    while i < squarings
        invariant
            i <= squarings,
            squarings == pow2(t as nat),
            x@.len() <= MAX_OPERAND_LEN,
            t <= MAX_SEQUENTIAL_DEPTH,
            n@ > 0,
            g@ == pow(be_value(x@) as int, pow2(i as nat)) % (n@ as int) || (i == 0 && g@
                == be_value(x@)),
        decreases squarings - i,
    {
        let square = match g.times(&g) {
            Ok(square) => square,
            Err(err) => { return Err(err); },
        };
        let reduced = match square.modulo(n) {
            Ok(reduced) => reduced,
            Err(err) => { return Err(err); },
        };
        proof {
            lemma_square_step(be_value(x@) as int, n@ as int, i as nat, g@ as int);
        }
        g = reduced;
        i = i + 1;
    }
    proof {
        vstd::arithmetic::power2::lemma_pow2_pos(t as nat);
    }
    Ok(g.to_be_bytes())
}

/// The trapdoor exponent for the factors `p` and `q` and the depth `t`: the
/// number whose only set bit is bit 2^`t`, reduced modulo (`p` - 1)(`q` - 1).
pub fn trapdoor_exponent(p: &Natural, q: &Natural, t: i32) -> (r: Result<Natural, Error>)
    ensures
        natural_outcome(r, trapdoor_exponent_spec(p@, q@, t as int)),
{
    if t < 0 || t > MAX_TRAPDOOR_DEPTH {
        return Err(Error::DepthOutOfRange);
    }
    if p.is_at_most_one() || q.is_at_most_one() {
        return Err(Error::DegenerateTrapdoor);
    }
    let one = Natural::from_u64(1);
    let p_less = match p.minus(&one) {
        Ok(v) => v,
        Err(err) => { return Err(err); },
    };
    let q_less = match q.minus(&one) {
        Ok(v) => v,
        Err(err) => { return Err(err); },
    };
    let phi = match p_less.times(&q_less) {
        Ok(v) => v,
        Err(err) => { return Err(err); },
    };
    proof {
        vstd::arithmetic::power2::lemma2_to64();
        if t < 30 {
            vstd::arithmetic::power2::lemma_pow2_strictly_increases(t as nat, 30);
        }
        vstd::bits::lemma_u32_shl_is_mul(1, t as u32);
        assert(phi@ > 0) by (nonlinear_arith)
            requires
                phi@ == (p@ - 1) * (q@ - 1),
                p@ > 1,
                q@ > 1,
        ;
    }
    let bit: u32 = 1u32 << (t as u32);
    let whole = match Natural::power_of_two(bit) {
        Ok(v) => v,
        Err(err) => { return Err(err); },
    };
    match whole.modulo(&phi) {
        Ok(e) => Ok(e),
        Err(err) => Err(err),
    }
}

/// The shortest modulus that [`setup`] makes factors for: below it there is
/// no prime of half the length.
pub const MIN_MODULUS_BITS: i32 = 4;

/// A fresh pair of trapdoor factors for a modulus of `n_bits` bits: two
/// random numbers of exactly half that length each, prime with high
/// probability. A length below 4 bits is refused before anything is drawn.
pub fn setup(n_bits: i32) -> (r: Result<(Natural, Natural), Error>)
    ensures
        n_bits < MIN_MODULUS_BITS <==> r == Err::<(Natural, Natural), Error>(Error::PrimeTooShort),
        r matches Ok(pq) ==> {
            &&& bit_len(pq.0@) == n_bits / 2
            &&& bit_len(pq.1@) == n_bits / 2
            &&& pow2((n_bits / 2 - 1) as nat) <= pq.0@ < pow2((n_bits / 2) as nat)
            &&& pow2((n_bits / 2 - 1) as nat) <= pq.1@ < pow2((n_bits / 2) as nat)
            &&& pq.0@ > 1
            &&& pq.1@ > 1
        },
        r matches Err(e) ==> e == Error::PrimeTooShort || e == Error::Backend,
{
    if n_bits < MIN_MODULUS_BITS {
        return Err(Error::PrimeTooShort);
    }
    let half: i32 = n_bits >> 1;
    assert(half == n_bits / 2 && half >= 2) by (bit_vector)
        requires
            half == n_bits >> 1,
            n_bits >= 4,
    ;
    proof {
        vstd::arithmetic::power2::lemma2_to64();
        if half > 2 {
            vstd::arithmetic::power2::lemma_pow2_strictly_increases(1, (half - 1) as nat);
        }
    }
    let p = match Natural::random_prime(half) {
        Ok(p) => p,
        Err(err) => { return Err(err); },
    };
    let q = match Natural::random_prime(half) {
        Ok(q) => q,
        Err(err) => { return Err(err); },
    };
    Ok((p, q))
}

/// How a chain gets from one round to the next.
#[derive(Debug)]
pub enum DelayStep<'a> {
    /// With the trapdoor: one exponentiation by the reduced exponent `e`.
    Trapdoor { n: &'a Natural, e: &'a Natural },
    /// Without it: 2^`t` sequential squarings.
    Sequential { n: &'a Natural, t: usize },
}

impl<'a> DelayStep<'a> {
    /// The modulus of the step.
    pub open spec fn modulus(&self) -> nat {
        match *self {
            DelayStep::Trapdoor { n, e } => n@,
            DelayStep::Sequential { n, t } => n@,
        }
    }

    /// The exponent that the step raises its input to.
    pub open spec fn exponent(&self) -> nat {
        match *self {
            DelayStep::Trapdoor { n, e } => e@,
            DelayStep::Sequential { n, t } => sequential_exponent(t as nat),
        }
    }

    /// Why the step cannot be taken on any input, if so.
    pub open spec fn refusal(&self) -> Option<Error> {
        match *self {
            DelayStep::Trapdoor { n, e } => if n@ == 0 {
                Some(Error::ZeroModulus)
            } else {
                None
            },
            DelayStep::Sequential { n, t } => if t > MAX_SEQUENTIAL_DEPTH {
                Some(Error::DepthOutOfRange)
            } else if n@ == 0 {
                Some(Error::ZeroModulus)
            } else {
                None
            },
        }
    }

    /// What [`DelayStep::step`] is to return.
    pub open spec fn step_spec(&self, x: Seq<u8>) -> Result<Seq<u8>, Error> {
        if x.len() > MAX_OPERAND_LEN {
            Err(Error::OperandTooLong)
        } else if self.refusal() is Some {
            Err(self.refusal()->0)
        } else {
            Ok(delay(x, self.modulus(), self.exponent()))
        }
    }

    /// Why the step cannot be taken on any input, if so.
    pub fn check(&self) -> (r: Option<Error>)
        ensures
            r == self.refusal(),
    {
        match self {
            DelayStep::Trapdoor { n, e } => {
                if n.is_zero() {
                    Some(Error::ZeroModulus)
                } else {
                    None
                }
            },
            DelayStep::Sequential { n, t } => {
                if *t > MAX_SEQUENTIAL_DEPTH {
                    Some(Error::DepthOutOfRange)
                } else if n.is_zero() {
                    Some(Error::ZeroModulus)
                } else {
                    None
                }
            },
        }
    }

    /// Takes the step on `x`.
    pub fn step(&self, x: &[u8]) -> (r: Result<Vec<u8>, Error>)
        ensures
            bytes_outcome(r, self.step_spec(x@)),
    {
        match self {
            DelayStep::Trapdoor { n, e } => eval_trap(x, n, e),
            DelayStep::Sequential { n, t } => eval(x, n, *t),
        }
    }
}

} // verus!
