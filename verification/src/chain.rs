//! The chain of rounds that binds a seed and a data blob into two commitments.
//!
//! Each round answers the current challenge with the keyed hash of the data,
//! notes both, and derives the next challenge from the answer through one
//! delay step. The digests of all challenges and of all responses are the
//! commitment pair.

use vstd::prelude::*;
use vstd::slice::slice_to_vec;

use crate::delay::{
    delay, reduced_exponent, sequential_exponent, trapdoor_exponent, trapdoor_exponent_spec,
    DelayStep, MAX_SEQUENTIAL_DEPTH,
};
use crate::digest::{hmac, keyed_hash, sha3, sha3_256, DIGEST_LEN};
use crate::error::{pair_outcome, Error};
use crate::natural::Natural;

verus! {

/// The challenge that follows the challenge `c`, for the data `d` and the
/// delay step with modulus `n` and exponent `exponent`.
pub open spec fn next_challenge(c: Seq<u8>, d: Seq<u8>, n: nat, exponent: nat) -> Seq<u8> {
    sha3_256(delay(sha3_256(keyed_hash(c, d)), n, exponent))
}

/// The challenge of round `i` of the chain that starts from the seed `c0`.
pub open spec fn challenge(c0: Seq<u8>, d: Seq<u8>, n: nat, exponent: nat, i: nat) -> Seq<u8>
    decreases i,
{
    if i == 0 {
        c0
    } else {
        next_challenge(challenge(c0, d, n, exponent, (i - 1) as nat), d, n, exponent)
    }
}

/// The response of round `i`: the keyed hash of the data under that round's challenge.
pub open spec fn response(c0: Seq<u8>, d: Seq<u8>, n: nat, exponent: nat, i: nat) -> Seq<u8> {
    keyed_hash(challenge(c0, d, n, exponent, i), d)
}

/// What round `i` hands to the delay step: the digest of its response.
pub open spec fn delay_input(c0: Seq<u8>, d: Seq<u8>, n: nat, exponent: nat, i: nat) -> Seq<u8> {
    sha3_256(response(c0, d, n, exponent, i))
}

/// The challenges of the first `rounds` rounds, one after the other.
pub open spec fn challenges(c0: Seq<u8>, d: Seq<u8>, n: nat, exponent: nat, rounds: nat) -> Seq<u8>
    decreases rounds,
{
    if rounds == 0 {
        Seq::empty()
    } else {
        challenges(c0, d, n, exponent, (rounds - 1) as nat) + challenge(
            c0,
            d,
            n,
            exponent,
            (rounds - 1) as nat,
        )
    }
}

/// The responses of the first `rounds` rounds, one after the other.
pub open spec fn responses(c0: Seq<u8>, d: Seq<u8>, n: nat, exponent: nat, rounds: nat) -> Seq<u8>
    decreases rounds,
{
    if rounds == 0 {
        Seq::empty()
    } else {
        responses(c0, d, n, exponent, (rounds - 1) as nat) + response(
            c0,
            d,
            n,
            exponent,
            (rounds - 1) as nat,
        )
    }
}

/// The number of rounds of a chain of length `k`: rounds 0 to `k`, both
/// included; none for a negative `k`.
pub open spec fn round_count(k: int) -> nat {
    if k < 0 {
        0
    } else {
        (k + 1) as nat
    }
}

/// The commitment pair of a chain of length `k`: the digest of its
/// challenges and the digest of its responses.
pub open spec fn commitment(c0: Seq<u8>, d: Seq<u8>, n: nat, exponent: nat, k: int) -> (
    Seq<u8>,
    Seq<u8>,
) {
    (
        sha3_256(challenges(c0, d, n, exponent, round_count(k))),
        sha3_256(responses(c0, d, n, exponent, round_count(k))),
    )
}

/// Every digest made in the first `rounds` rounds has its 32 bytes: the
/// response of each round, and the challenge derived from it.
pub open spec fn digests_sized(c0: Seq<u8>, d: Seq<u8>, n: nat, exponent: nat, rounds: nat) -> bool {
    forall|i: nat|
        #![trigger response(c0, d, n, exponent, i)]
        i < rounds ==> response(c0, d, n, exponent, i).len() == DIGEST_LEN && challenge(
            c0,
            d,
            n,
            exponent,
            i + 1,
        ).len() == DIGEST_LEN
}

/// With every digest at its 32 bytes, `rounds` rounds fill the accumulators
/// with the seed and one digest for each further round, and with one digest
/// for each round.
pub proof fn lemma_accumulator_lengths(c0: Seq<u8>, d: Seq<u8>, n: nat, exponent: nat, rounds: nat)
    requires
        digests_sized(c0, d, n, exponent, rounds),
    ensures
        rounds > 0 ==> challenges(c0, d, n, exponent, rounds).len() == c0.len() + DIGEST_LEN * (
        rounds - 1),
        responses(c0, d, n, exponent, rounds).len() == DIGEST_LEN * rounds,
    decreases rounds,
{
    if rounds > 0 {
        let before = (rounds - 1) as nat;
        assert(digests_sized(c0, d, n, exponent, before));
        lemma_accumulator_lengths(c0, d, n, exponent, before);
        assert(response(c0, d, n, exponent, before).len() == DIGEST_LEN);
        if before > 0 {
            let earlier = (before - 1) as nat;
            assert(response(c0, d, n, exponent, earlier).len() == DIGEST_LEN);
            assert(challenge(c0, d, n, exponent, earlier + 1).len() == DIGEST_LEN);
        } else {
            assert(challenges(c0, d, n, exponent, 0).len() == 0);
        }
    }
}

/// What [`accumulate`] is to return.
pub open spec fn accumulate_spec(c0: Seq<u8>, d: Seq<u8>, step: DelayStep, k: int) -> Result<
    (Seq<u8>, Seq<u8>),
    Error,
> {
    if round_count(k) > 0 && step.refusal() is Some {
        Err(step.refusal()->0)
    } else {
        Ok(
            (
                challenges(c0, d, step.modulus(), step.exponent(), round_count(k)),
                responses(c0, d, step.modulus(), step.exponent(), round_count(k)),
            ),
        )
    }
}

/// What [`chain`] is to return.
pub open spec fn chain_spec(c0: Seq<u8>, d: Seq<u8>, step: DelayStep, k: int) -> Result<
    (Seq<u8>, Seq<u8>),
    Error,
> {
    if round_count(k) > 0 && step.refusal() is Some {
        Err(step.refusal()->0)
    } else {
        Ok(commitment(c0, d, step.modulus(), step.exponent(), k))
    }
}

/// What [`store`] is to return.
pub open spec fn store_spec(c0: Seq<u8>, d: Seq<u8>, p: nat, q: nat, t: int, k: int) -> Result<
    (Seq<u8>, Seq<u8>),
    Error,
> {
    match trapdoor_exponent_spec(p, q, t) {
        Ok(e) => Ok(commitment(c0, d, p * q, e, k)),
        Err(err) => Err(err),
    }
}

/// What [`prove`] is to return.
pub open spec fn prove_spec(c0: Seq<u8>, d: Seq<u8>, n: nat, t: nat, k: int) -> Result<
    (Seq<u8>, Seq<u8>),
    Error,
> {
    if round_count(k) > 0 && t > MAX_SEQUENTIAL_DEPTH {
        Err(Error::DepthOutOfRange)
    } else if round_count(k) > 0 && n == 0 {
        Err(Error::ZeroModulus)
    } else {
        Ok(commitment(c0, d, n, sequential_exponent(t), k))
    }
}

/// Runs the rounds 0 to `k` of the chain from the seed `c` over the data `d`
/// and returns the two accumulators: all challenges, and all responses.
pub fn accumulate(c: &[u8], d: &[u8], step: &DelayStep, k: i32) -> (r: Result<
    (Vec<u8>, Vec<u8>),
    Error,
>)
    ensures
        pair_outcome(r, accumulate_spec(c@, d@, *step, k as int)),
        k < 0 ==> r is Ok,
        r is Ok ==> digests_sized(c@, d@, step.modulus(), step.exponent(), round_count(k as int)),
        r matches Ok(out) ==> k >= 0 ==> out.0@.len() == c@.len() + DIGEST_LEN * k && out.1@.len()
            == DIGEST_LEN * (k + 1),
{
    let rounds: u32 = if k < 0 {
        0
    } else {
        k as u32 + 1
    };
    if rounds > 0 {
        match step.check() {
            Some(err) => { return Err(err); },
            None => {},
        }
    }
    let ghost n = step.modulus();
    let ghost exponent = step.exponent();
    let mut current: Vec<u8> = slice_to_vec(c);
    let mut cs: Vec<u8> = Vec::new();
    let mut vs: Vec<u8> = Vec::new();
    let mut i: u32 = 0;
    while i < rounds
        invariant
            i <= rounds,
            rounds == round_count(k as int),
            n == step.modulus(),
            exponent == step.exponent(),
            rounds > 0 ==> step.refusal() is None,
            i == 0 || current@.len() == DIGEST_LEN,
            digests_sized(c@, d@, n, exponent, i as nat),
            current@ == challenge(c@, d@, n, exponent, i as nat),
            cs@ == challenges(c@, d@, n, exponent, i as nat),
            vs@ == responses(c@, d@, n, exponent, i as nat),
        decreases rounds - i,
    {
        let v = match hmac(current.as_slice(), d) {
            Ok(v) => v,
            Err(err) => { return Err(err); },
        };
        let ghost cs_before = cs@;
        let ghost vs_before = vs@;
        cs.extend_from_slice(current.as_slice());
        vs.extend_from_slice(v.as_slice());
        assert(cs@ =~= cs_before + current@);
        assert(vs@ =~= vs_before + v@);
        let x = match sha3(v.as_slice()) {
            Ok(x) => x,
            Err(err) => { return Err(err); },
        };
        let y = match step.step(x.as_slice()) {
            Ok(y) => y,
            Err(err) => { return Err(err); },
        };
        let next = match sha3(y.as_slice()) {
            Ok(next) => next,
            Err(err) => { return Err(err); },
        };
        current = next;
        i = i + 1;
        assert(digests_sized(c@, d@, n, exponent, i as nat)) by {
            assert forall|j: nat| j < i implies response(c@, d@, n, exponent, j).len()
                == DIGEST_LEN && challenge(c@, d@, n, exponent, j + 1).len() == DIGEST_LEN by {
                if j + 1 < i {
                    assert(response(c@, d@, n, exponent, j).len() == DIGEST_LEN);
                }
            }
        }
    }
    proof {
        lemma_accumulator_lengths(c@, d@, n, exponent, rounds as nat);
    }
    Ok((cs, vs))
}

/// The commitment pair of the chain of rounds 0 to `k` from the seed `c`
/// over the data `d`, with `step` between the rounds.
pub fn chain(c: &[u8], d: &[u8], step: &DelayStep, k: i32) -> (r: Result<
    (Vec<u8>, Vec<u8>),
    Error,
>)
    ensures
        pair_outcome(r, chain_spec(c@, d@, *step, k as int)),
        r matches Ok(out) ==> out.0@.len() == DIGEST_LEN && out.1@.len() == DIGEST_LEN,
        r is Ok ==> digests_sized(c@, d@, step.modulus(), step.exponent(), round_count(k as int)),
{
    let (cs, vs) = match accumulate(c, d, step, k) {
        Ok(both) => both,
        Err(err) => { return Err(err); },
    };
    let digest_c = match sha3(cs.as_slice()) {
        Ok(digest) => digest,
        Err(err) => { return Err(err); },
    };
    let digest_v = match sha3(vs.as_slice()) {
        Ok(digest) => digest,
        Err(err) => { return Err(err); },
    };
    Ok((digest_c, digest_v))
}

/// The owner's path: the commitment pair of the chain, computed with the
/// factors `p` and `q` of the modulus, one exponentiation per round.
pub fn store(c: &[u8], d: &[u8], p: &Natural, q: &Natural, t: i32, k: i32) -> (r: Result<
    (Vec<u8>, Vec<u8>),
    Error,
>)
    ensures
        pair_outcome(r, store_spec(c@, d@, p@, q@, t as int, k as int)),
        r matches Ok(out) ==> out.0@.len() == DIGEST_LEN && out.1@.len() == DIGEST_LEN,
        r is Ok ==> digests_sized(
            c@,
            d@,
            p@ * q@,
            reduced_exponent(p@, q@, t as nat),
            round_count(k as int),
        ),
{
    let e = match trapdoor_exponent(p, q, t) {
        Ok(e) => e,
        Err(err) => { return Err(err); },
    };
    let n = match p.times(q) {
        Ok(n) => n,
        Err(err) => { return Err(err); },
    };
    proof {
        assert(n@ > 0) by (nonlinear_arith)
            requires
                n@ == p@ * q@,
                p@ > 1,
                q@ > 1,
        ;
    }
    chain(c, d, &DelayStep::Trapdoor { n: &n, e: &e }, k)
}

/// The verifier's path: the commitment pair of the chain, computed from the
/// public modulus `n` alone, 2^`t` sequential squarings per round.
pub fn prove(c: &[u8], d: &[u8], n: &Natural, t: usize, k: i32) -> (r: Result<
    (Vec<u8>, Vec<u8>),
    Error,
>)
    ensures
        pair_outcome(r, prove_spec(c@, d@, n@, t as nat, k as int)),
        r matches Ok(out) ==> out.0@.len() == DIGEST_LEN && out.1@.len() == DIGEST_LEN,
        r is Ok ==> digests_sized(
            c@,
            d@,
            n@,
            sequential_exponent(t as nat),
            round_count(k as int),
        ),
{
    chain(c, d, &DelayStep::Sequential { n, t }, k)
}

} // verus!
