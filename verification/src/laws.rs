//! What holds of the chain whatever the seed, the data and the parameters.

use vstd::prelude::*;

use crate::chain::{
    challenge, challenges, commitment, delay_input, digests_sized, lemma_accumulator_lengths,
    prove_spec, response, responses, round_count, store_spec,
};
use crate::delay::{delay, reduced_exponent, sequential_exponent, MAX_TRAPDOOR_DEPTH};
use crate::digest::{keyed_hash, no_collision, sha3_256, DIGEST_LEN};
use crate::encoding::be_value;
use crate::error::{pair_outcome, Error};
use crate::number_theory::{divides, is_prime, lemma_exponent_mod_totient};

verus! {

/// With a single round, the commitment pair is the digest of the seed and
/// the digest of the keyed hash of the data under the seed.
pub proof fn lemma_single_round(c0: Seq<u8>, d: Seq<u8>, n: nat, exponent: nat)
    ensures
        round_count(0) == 1,
        commitment(c0, d, n, exponent, 0) == (sha3_256(c0), sha3_256(keyed_hash(c0, d))),
{
    assert(challenges(c0, d, n, exponent, 0) =~= Seq::<u8>::empty());
    assert(responses(c0, d, n, exponent, 0) =~= Seq::<u8>::empty());
    assert(challenges(c0, d, n, exponent, 1) =~= c0);
    assert(responses(c0, d, n, exponent, 1) =~= keyed_hash(c0, d));
}

/// The accumulators of a shorter run are where the accumulators of a longer
/// run from the same seed begin.
pub proof fn lemma_accumulators_extend(
    c0: Seq<u8>,
    d: Seq<u8>,
    n: nat,
    exponent: nat,
    shorter: nat,
    longer: nat,
)
    requires
        shorter <= longer,
    ensures
        challenges(c0, d, n, exponent, shorter).is_prefix_of(
            challenges(c0, d, n, exponent, longer),
        ),
        responses(c0, d, n, exponent, shorter).is_prefix_of(responses(c0, d, n, exponent, longer)),
    decreases longer,
{
    if shorter < longer {
        lemma_accumulators_extend(c0, d, n, exponent, shorter, (longer - 1) as nat);
    }
}

/// A run of chain length `k` repeats, round for round, the run of any chain
/// length `j` up to `k` from the same seed: its accumulators begin with those
/// of the shorter run.
pub proof fn lemma_longer_chain_repeats_shorter(
    c0: Seq<u8>,
    d: Seq<u8>,
    n: nat,
    exponent: nat,
    j: int,
    k: int,
)
    requires
        j <= k,
    ensures
        challenges(c0, d, n, exponent, round_count(j)).is_prefix_of(
            challenges(c0, d, n, exponent, round_count(k)),
        ),
        responses(c0, d, n, exponent, round_count(j)).is_prefix_of(
            responses(c0, d, n, exponent, round_count(k)),
        ),
{
    lemma_accumulators_extend(c0, d, n, exponent, round_count(j), round_count(k));
}

/// With every digest at its 32 bytes, the accumulators of the run of chain
/// length `j` are the first bytes of those of the run of any chain length
/// `k` from `j` on: the seed and `j` digests, and `j` + 1 digests.
pub proof fn lemma_shorter_run_is_a_slice_of_longer(
    c0: Seq<u8>,
    d: Seq<u8>,
    n: nat,
    exponent: nat,
    j: int,
    k: int,
)
    requires
        0 <= j <= k,
        digests_sized(c0, d, n, exponent, round_count(k)),
    ensures
        challenges(c0, d, n, exponent, round_count(j)) == challenges(
            c0,
            d,
            n,
            exponent,
            round_count(k),
        ).subrange(0, c0.len() + DIGEST_LEN * j),
        responses(c0, d, n, exponent, round_count(j)) == responses(
            c0,
            d,
            n,
            exponent,
            round_count(k),
        ).subrange(0, DIGEST_LEN * (j + 1)),
{
    assert(digests_sized(c0, d, n, exponent, round_count(j)));
    lemma_accumulator_lengths(c0, d, n, exponent, round_count(j));
    lemma_accumulators_extend(c0, d, n, exponent, round_count(j), round_count(k));
}

/// Runs of different chain lengths commit to different pairs, as long as
/// every digest has its 32 bytes and SHA3-256 tells the accumulators of the
/// two runs apart.
pub proof fn lemma_chain_length_changes_commitment(
    c0: Seq<u8>,
    d: Seq<u8>,
    n: nat,
    exponent: nat,
    j: int,
    k: int,
)
    requires
        0 <= j < k,
        digests_sized(c0, d, n, exponent, round_count(k)),
        no_collision(
            challenges(c0, d, n, exponent, round_count(j)),
            challenges(c0, d, n, exponent, round_count(k)),
        ),
        no_collision(
            responses(c0, d, n, exponent, round_count(j)),
            responses(c0, d, n, exponent, round_count(k)),
        ),
    ensures
        commitment(c0, d, n, exponent, j).0 != commitment(c0, d, n, exponent, k).0,
        commitment(c0, d, n, exponent, j).1 != commitment(c0, d, n, exponent, k).1,
{
    assert(digests_sized(c0, d, n, exponent, round_count(j)));
    lemma_accumulator_lengths(c0, d, n, exponent, round_count(j));
    lemma_accumulator_lengths(c0, d, n, exponent, round_count(k));
}

/// From the first round on, the challenges begin with the seed and the
/// responses with the keyed hash of the data under the seed.
pub proof fn lemma_accumulators_begin(c0: Seq<u8>, d: Seq<u8>, n: nat, exponent: nat, rounds: nat)
    requires
        rounds >= 1,
    ensures
        c0.is_prefix_of(challenges(c0, d, n, exponent, rounds)),
        keyed_hash(c0, d).is_prefix_of(responses(c0, d, n, exponent, rounds)),
{
    lemma_accumulators_extend(c0, d, n, exponent, 1, rounds);
    assert(challenges(c0, d, n, exponent, 0) =~= Seq::<u8>::empty());
    assert(responses(c0, d, n, exponent, 0) =~= Seq::<u8>::empty());
    assert(challenges(c0, d, n, exponent, 1) =~= c0);
    assert(responses(c0, d, n, exponent, 1) =~= keyed_hash(c0, d));
}

/// Two strings that begin with different strings of one length differ.
proof fn lemma_different_beginnings(a: Seq<u8>, b: Seq<u8>, whole_a: Seq<u8>, whole_b: Seq<u8>)
    requires
        a.is_prefix_of(whole_a),
        b.is_prefix_of(whole_b),
        a.len() == b.len(),
        a != b,
    ensures
        whole_a != whole_b,
{
    if whole_a == whole_b {
        assert(a =~= whole_a.subrange(0, a.len() as int));
        assert(b =~= whole_b.subrange(0, b.len() as int));
    }
}

/// Another seed of the same length changes both halves of the commitment,
/// as long as every digest has its 32 bytes and SHA3-256 tells apart what
/// the two runs hash: the first keyed-hash inputs and the accumulators.
pub proof fn lemma_seed_changes_commitment(
    c1: Seq<u8>,
    c2: Seq<u8>,
    d: Seq<u8>,
    n: nat,
    exponent: nat,
    k: int,
)
    requires
        c1 != c2,
        c1.len() == c2.len(),
        k >= 0,
        digests_sized(c1, d, n, exponent, round_count(k)),
        digests_sized(c2, d, n, exponent, round_count(k)),
        no_collision(c1 + d, c2 + d),
        no_collision(
            challenges(c1, d, n, exponent, round_count(k)),
            challenges(c2, d, n, exponent, round_count(k)),
        ),
        no_collision(
            responses(c1, d, n, exponent, round_count(k)),
            responses(c2, d, n, exponent, round_count(k)),
        ),
    ensures
        commitment(c1, d, n, exponent, k).0 != commitment(c2, d, n, exponent, k).0,
        commitment(c1, d, n, exponent, k).1 != commitment(c2, d, n, exponent, k).1,
{
    let rounds = round_count(k);
    lemma_accumulators_begin(c1, d, n, exponent, rounds);
    lemma_accumulators_begin(c2, d, n, exponent, rounds);
    lemma_different_beginnings(
        c1,
        c2,
        challenges(c1, d, n, exponent, rounds),
        challenges(c2, d, n, exponent, rounds),
    );
    assert(c1 + d != c2 + d) by {
        lemma_different_beginnings(c1, c2, c1 + d, c2 + d);
    }
    assert(response(c1, d, n, exponent, 0).len() == DIGEST_LEN);
    assert(response(c2, d, n, exponent, 0).len() == DIGEST_LEN);
    lemma_different_beginnings(
        keyed_hash(c1, d),
        keyed_hash(c2, d),
        responses(c1, d, n, exponent, rounds),
        responses(c2, d, n, exponent, rounds),
    );
}

/// Other data changes the digest of the responses, as long as every digest
/// has its 32 bytes and SHA3-256 tells apart what the two runs hash: the
/// first keyed-hash inputs and the response accumulators.
pub proof fn lemma_data_changes_responses(
    c0: Seq<u8>,
    d1: Seq<u8>,
    d2: Seq<u8>,
    n: nat,
    exponent: nat,
    k: int,
)
    requires
        d1 != d2,
        k >= 0,
        digests_sized(c0, d1, n, exponent, round_count(k)),
        digests_sized(c0, d2, n, exponent, round_count(k)),
        no_collision(c0 + d1, c0 + d2),
        no_collision(
            responses(c0, d1, n, exponent, round_count(k)),
            responses(c0, d2, n, exponent, round_count(k)),
        ),
    ensures
        commitment(c0, d1, n, exponent, k).1 != commitment(c0, d2, n, exponent, k).1,
{
    let rounds = round_count(k);
    lemma_accumulators_begin(c0, d1, n, exponent, rounds);
    lemma_accumulators_begin(c0, d2, n, exponent, rounds);
    assert(c0 + d1 != c0 + d2) by {
        if c0 + d1 == c0 + d2 {
            assert(d1 =~= (c0 + d1).subrange(c0.len() as int, (c0 + d1).len() as int));
            assert(d2 =~= (c0 + d2).subrange(c0.len() as int, (c0 + d2).len() as int));
        }
    }
    assert(response(c0, d1, n, exponent, 0).len() == DIGEST_LEN);
    assert(response(c0, d2, n, exponent, 0).len() == DIGEST_LEN);
    lemma_different_beginnings(
        keyed_hash(c0, d1),
        keyed_hash(c0, d2),
        responses(c0, d1, n, exponent, rounds),
        responses(c0, d2, n, exponent, rounds),
    );
}

/// With more than one round, other data changes the digest of the
/// challenges too, where it changes what the first delay step returns: the
/// data reaches the challenges through the second one. Every digest is to
/// have its 32 bytes, and SHA3-256 is to tell apart the two results of the
/// delay step and the two challenge accumulators.
pub proof fn lemma_data_changes_challenges(
    c0: Seq<u8>,
    d1: Seq<u8>,
    d2: Seq<u8>,
    n: nat,
    exponent: nat,
    k: int,
)
    requires
        k >= 1,
        delay(delay_input(c0, d1, n, exponent, 0), n, exponent) != delay(
            delay_input(c0, d2, n, exponent, 0),
            n,
            exponent,
        ),
        digests_sized(c0, d1, n, exponent, round_count(k)),
        digests_sized(c0, d2, n, exponent, round_count(k)),
        no_collision(
            delay(delay_input(c0, d1, n, exponent, 0), n, exponent),
            delay(delay_input(c0, d2, n, exponent, 0), n, exponent),
        ),
        no_collision(
            challenges(c0, d1, n, exponent, round_count(k)),
            challenges(c0, d2, n, exponent, round_count(k)),
        ),
    ensures
        commitment(c0, d1, n, exponent, k).0 != commitment(c0, d2, n, exponent, k).0,
{
    let rounds = round_count(k);
    let second1 = challenge(c0, d1, n, exponent, 1);
    let second2 = challenge(c0, d2, n, exponent, 1);
    assert(challenge(c0, d1, n, exponent, 0) == c0);
    assert(challenge(c0, d2, n, exponent, 0) == c0);
    assert(second1 == sha3_256(delay(delay_input(c0, d1, n, exponent, 0), n, exponent)));
    assert(second2 == sha3_256(delay(delay_input(c0, d2, n, exponent, 0), n, exponent)));
    assert(response(c0, d1, n, exponent, 0).len() == DIGEST_LEN);
    assert(response(c0, d2, n, exponent, 0).len() == DIGEST_LEN);
    assert(second1.len() == DIGEST_LEN && second2.len() == DIGEST_LEN);
    let two1 = challenges(c0, d1, n, exponent, 2);
    let two2 = challenges(c0, d2, n, exponent, 2);
    lemma_accumulators_begin(c0, d1, n, exponent, 1);
    lemma_accumulators_begin(c0, d2, n, exponent, 1);
    assert(challenges(c0, d1, n, exponent, 1) =~= c0) by {
        assert(challenges(c0, d1, n, exponent, 0) =~= Seq::<u8>::empty());
    }
    assert(challenges(c0, d2, n, exponent, 1) =~= c0) by {
        assert(challenges(c0, d2, n, exponent, 0) =~= Seq::<u8>::empty());
    }
    assert(two1 == c0 + second1);
    assert(two2 == c0 + second2);
    assert(two1 != two2) by {
        if two1 == two2 {
            assert(second1 =~= two1.subrange(c0.len() as int, two1.len() as int));
            assert(second2 =~= two2.subrange(c0.len() as int, two2.len() as int));
        }
    }
    lemma_accumulators_extend(c0, d1, n, exponent, 2, rounds);
    lemma_accumulators_extend(c0, d2, n, exponent, 2, rounds);
    lemma_different_beginnings(
        two1,
        two2,
        challenges(c0, d1, n, exponent, rounds),
        challenges(c0, d2, n, exponent, rounds),
    );
}

/// Two results that both are what `ideal` prescribes, neither of them a
/// failure of the backend, are the same.
pub proof fn lemma_outcome_is_determined(
    first: Result<(Vec<u8>, Vec<u8>), Error>,
    second: Result<(Vec<u8>, Vec<u8>), Error>,
    ideal: Result<(Seq<u8>, Seq<u8>), Error>,
)
    requires
        pair_outcome(first, ideal),
        pair_outcome(second, ideal),
        first != Err::<(Vec<u8>, Vec<u8>), Error>(Error::Backend),
        second != Err::<(Vec<u8>, Vec<u8>), Error>(Error::Backend),
    ensures
        match (first, second) {
            (Ok(a), Ok(b)) => a.0@ == b.0@ && a.1@ == b.1@,
            (Err(a), Err(b)) => a == b,
            _ => false,
        },
{
}

/// Two runs of the owner's path on the same inputs, neither stopped by a
/// failure of the backend, return the same bytes.
pub proof fn lemma_store_is_deterministic(
    c0: Seq<u8>,
    d: Seq<u8>,
    p: nat,
    q: nat,
    t: int,
    k: int,
    first: Result<(Vec<u8>, Vec<u8>), Error>,
    second: Result<(Vec<u8>, Vec<u8>), Error>,
)
    requires
        pair_outcome(first, store_spec(c0, d, p, q, t, k)),
        pair_outcome(second, store_spec(c0, d, p, q, t, k)),
        first != Err::<(Vec<u8>, Vec<u8>), Error>(Error::Backend),
        second != Err::<(Vec<u8>, Vec<u8>), Error>(Error::Backend),
    ensures
        match (first, second) {
            (Ok(a), Ok(b)) => a.0@ == b.0@ && a.1@ == b.1@,
            (Err(a), Err(b)) => a == b,
            _ => false,
        },
{
    lemma_outcome_is_determined(first, second, store_spec(c0, d, p, q, t, k));
}

/// Two runs of the verifier's path on the same inputs, neither stopped by a
/// failure of the backend, return the same bytes.
pub proof fn lemma_prove_is_deterministic(
    c0: Seq<u8>,
    d: Seq<u8>,
    n: nat,
    t: nat,
    k: int,
    first: Result<(Vec<u8>, Vec<u8>), Error>,
    second: Result<(Vec<u8>, Vec<u8>), Error>,
)
    requires
        pair_outcome(first, prove_spec(c0, d, n, t, k)),
        pair_outcome(second, prove_spec(c0, d, n, t, k)),
        first != Err::<(Vec<u8>, Vec<u8>), Error>(Error::Backend),
        second != Err::<(Vec<u8>, Vec<u8>), Error>(Error::Backend),
    ensures
        match (first, second) {
            (Ok(a), Ok(b)) => a.0@ == b.0@ && a.1@ == b.1@,
            (Err(a), Err(b)) => a == b,
            _ => false,
        },
{
    lemma_outcome_is_determined(first, second, prove_spec(c0, d, n, t, k));
}

/// The two exponents give the same delay step on what round `i` of the chain
/// with the first exponent hands to it.
pub open spec fn steps_agree_at(
    c0: Seq<u8>,
    d: Seq<u8>,
    n: nat,
    first: nat,
    second: nat,
    i: nat,
) -> bool {
    delay(delay_input(c0, d, n, first, i), n, first) == delay(
        delay_input(c0, d, n, first, i),
        n,
        second,
    )
}

/// Where two exponents give the same delay step in every round before
/// round `i`, the two chains have the same challenge in round `i`.
pub proof fn lemma_challenges_agree(
    c0: Seq<u8>,
    d: Seq<u8>,
    n: nat,
    first: nat,
    second: nat,
    i: nat,
)
    requires
        forall|j: nat| j < i ==> steps_agree_at(c0, d, n, first, second, j),
    ensures
        challenge(c0, d, n, first, i) == challenge(c0, d, n, second, i),
    decreases i,
{
    if i > 0 {
        let before = (i - 1) as nat;
        lemma_challenges_agree(c0, d, n, first, second, before);
        assert(steps_agree_at(c0, d, n, first, second, before));
    }
}

/// Where two exponents give the same delay step in every round but the last
/// of `rounds` rounds, the two chains have the same accumulators.
pub proof fn lemma_chains_agree(
    c0: Seq<u8>,
    d: Seq<u8>,
    n: nat,
    first: nat,
    second: nat,
    rounds: nat,
)
    requires
        forall|j: nat| j + 1 < rounds ==> steps_agree_at(c0, d, n, first, second, j),
    ensures
        challenges(c0, d, n, first, rounds) == challenges(c0, d, n, second, rounds),
        responses(c0, d, n, first, rounds) == responses(c0, d, n, second, rounds),
    decreases rounds,
{
    if rounds > 0 {
        let last = (rounds - 1) as nat;
        lemma_chains_agree(c0, d, n, first, second, last);
        lemma_challenges_agree(c0, d, n, first, second, last);
    }
}

/// The trapdoor is sound for round `i` of the sequential chain: the reduced
/// exponent is not 0, or neither factor divides what the round hands to the
/// delay step.
pub open spec fn trapdoor_sound_at(
    c0: Seq<u8>,
    d: Seq<u8>,
    p: nat,
    q: nat,
    t: nat,
    i: nat,
) -> bool {
    let x = be_value(delay_input(c0, d, p * q, sequential_exponent(t), i));
    reduced_exponent(p, q, t) != 0 || (!divides(p, x as int) && !divides(q, x as int))
}

/// For two distinct primes, the delay step with the reduced exponent is the
/// step of 2^`t` squarings on every input for which the trapdoor is sound.
pub proof fn lemma_trapdoor_step_is_sequential_step(x: Seq<u8>, p: nat, q: nat, t: nat)
    requires
        is_prime(p),
        is_prime(q),
        p != q,
        reduced_exponent(p, q, t) != 0 || (!divides(p, be_value(x) as int) && !divides(
            q,
            be_value(x) as int,
        )),
    ensures
        delay(x, p * q, reduced_exponent(p, q, t)) == delay(x, p * q, sequential_exponent(t)),
{
    lemma_exponent_mod_totient(be_value(x), p, q, sequential_exponent(t));
}

/// The owner's path and the verifier's path agree: for two distinct primes
/// `p` and `q`, a depth within the trapdoor's range, and a chain in whose
/// every round before the last the trapdoor is sound, what `store` is to
/// return for `p` and `q` is what `prove` is to return for their product.
pub proof fn lemma_store_agrees_with_prove(
    c0: Seq<u8>,
    d: Seq<u8>,
    p: nat,
    q: nat,
    t: nat,
    k: int,
)
    requires
        is_prime(p),
        is_prime(q),
        p != q,
        t <= MAX_TRAPDOOR_DEPTH,
        forall|i: nat| i < k ==> trapdoor_sound_at(c0, d, p, q, t, i),
    ensures
        store_spec(c0, d, p, q, t as int, k) == prove_spec(c0, d, p * q, t, k),
{
    let n = p * q;
    let high = sequential_exponent(t);
    let low = reduced_exponent(p, q, t);
    assert(n > 0) by (nonlinear_arith)
        requires
            n == p * q,
            p >= 2,
            q >= 2,
    ;
    assert forall|i: nat| i + 1 < round_count(k) implies steps_agree_at(
        c0,
        d,
        n,
        high,
        low,
        i,
    ) by {
        assert(trapdoor_sound_at(c0, d, p, q, t, i));
        lemma_trapdoor_step_is_sequential_step(delay_input(c0, d, n, high, i), p, q, t);
    }
    lemma_chains_agree(c0, d, n, high, low, round_count(k));
}

} // verus!
