//! A trapdoor time-lock delay chain that commits to a stored data blob.
//!
//! Whoever knows the two primes behind a modulus can run the chain cheaply;
//! anyone else has to square sequentially. Both arrive at the same pair of
//! digests.
//!
//! - [`digest`]: SHA3-256 and the keyed hash.
//! - [`encoding`], [`natural`]: big-endian byte strings and big numbers.
//! - [`delay`]: the delay step, with and without the trapdoor, and the setup.
//! - [`chain`]: the rounds, and the owner's and the verifier's path.
//! - [`number_theory`], [`laws`]: why the two paths agree, and what else
//!   holds of every chain.

pub mod chain;
pub mod delay;
pub mod digest;
pub mod encoding;
pub mod error;
pub mod laws;
pub mod natural;
pub mod number_theory;

pub use chain::{accumulate, chain, prove, store};
pub use delay::{eval, eval_trap, setup, trapdoor_exponent, DelayStep};
pub use digest::{hmac, sha3};
pub use error::Error;
pub use natural::Natural;
