//! The number theory behind the trapdoor: Fermat's little theorem, and why
//! an exponent may be reduced modulo (p - 1)(q - 1) when working modulo the
//! product of two distinct primes p and q.

use vstd::arithmetic::div_mod::{
    lemma_add_mod_noop, lemma_fundamental_div_mod, lemma_mod_bound, lemma_mod_equivalence,
    lemma_mod_multiples_basic, lemma_mul_mod_noop, lemma_small_mod,
};
use vstd::arithmetic::power::{
    lemma1_pow, lemma_pow0, lemma_pow1, lemma_pow_adds, lemma_pow_mod_noop, lemma_pow_multiplies,
    pow,
};
use vstd::prelude::*;

verus! {

/// `d` divides `a`.
pub open spec fn divides(d: nat, a: int) -> bool {
    d != 0 && a % (d as int) == 0
}

/// `p` is a prime number.
pub open spec fn is_prime(p: nat) -> bool {
    p >= 2 && forall|d: nat| 1 < d < p ==> !#[trigger] divides(d, p as int)
}

/// A multiple of `d` is divisible by `d`.
pub proof fn lemma_multiple_divides(d: nat, c: int, a: int)
    requires
        d > 0,
        a == d * c,
    ensures
        divides(d, a),
{
    lemma_mod_multiples_basic(c, d as int);
    assert(c * d == d * c) by (nonlinear_arith);
}

/// What `d` divides is `d` times the quotient.
pub proof fn lemma_divides_quotient(d: nat, a: int)
    requires
        divides(d, a),
    ensures
        a == d * (a / (d as int)),
{
    lemma_fundamental_div_mod(a, d as int);
}

/// Euclid's lemma for a factor below the prime: if the prime `p` divides
/// `k * m` and 0 < `k` < `p`, then `p` divides `m`.
pub proof fn lemma_euclid_small(p: nat, k: nat, m: int)
    requires
        is_prime(p),
        0 < k < p,
        divides(p, k * m),
    ensures
        divides(p, m),
    decreases k,
{
    if k == 1 {
        assert(1 * m == m);
    } else {
        let quot = (p as int) / (k as int);
        let r = (p as int) % (k as int);
        lemma_fundamental_div_mod(p as int, k as int);
        lemma_mod_bound(p as int, k as int);
        assert(r != 0) by {
            assert(!divides(k, p as int));
        }
        // r * m = p * m - quot * (k * m), and both terms are multiples of p.
        lemma_divides_quotient(p, k * m);
        let c = (k * m) / (p as int);
        assert(r * m == p * (m - quot * c)) by (nonlinear_arith)
            requires
                p == k * quot + r,
                k * m == p * c,
        ;
        lemma_multiple_divides(p, m - quot * c, r * m);
        lemma_euclid_small(p, r as nat, m);
    }
}

/// Euclid's lemma: a prime that divides a product divides one of the factors.
pub proof fn lemma_euclid(p: nat, a: int, m: int)
    requires
        is_prime(p),
        divides(p, a * m),
        !divides(p, a),
    ensures
        divides(p, m),
{
    let quot = a / (p as int);
    let k = a % (p as int);
    lemma_fundamental_div_mod(a, p as int);
    lemma_mod_bound(a, p as int);
    lemma_divides_quotient(p, a * m);
    let c = (a * m) / (p as int);
    assert(k * m == p * (c - quot * m)) by (nonlinear_arith)
        requires
            a == p * quot + k,
            a * m == p * c,
    ;
    lemma_multiple_divides(p, c - quot * m, k * m);
    lemma_euclid_small(p, k as nat, m);
}

/// The number of ways to choose `k` out of `n`, by Pascal's rule.
pub open spec fn binomial(n: nat, k: nat) -> nat
    decreases n,
{
    if k == 0 {
        1
    } else if n == 0 {
        0
    } else {
        binomial((n - 1) as nat, (k - 1) as nat) + binomial((n - 1) as nat, k)
    }
}

/// There is no way to choose more than there is.
pub proof fn lemma_binomial_beyond(n: nat, k: nat)
    requires
        k > n,
    ensures
        binomial(n, k) == 0,
    decreases n,
{
    if n > 0 {
        lemma_binomial_beyond((n - 1) as nat, (k - 1) as nat);
        lemma_binomial_beyond((n - 1) as nat, k);
    }
}

/// There is one way to choose everything.
pub proof fn lemma_binomial_all(n: nat)
    ensures
        binomial(n, n) == 1,
    decreases n,
{
    if n > 0 {
        lemma_binomial_all((n - 1) as nat);
        lemma_binomial_beyond((n - 1) as nat, n);
    }
}

/// The absorption identity: k * C(n, k) = n * C(n - 1, k - 1).
pub proof fn lemma_binomial_absorption(n: nat, k: nat)
    requires
        n >= 1,
        k >= 1,
    ensures
        k * binomial(n, k) == n * binomial((n - 1) as nat, (k - 1) as nat),
    decreases n,
{
    let up_left = binomial((n - 1) as nat, (k - 1) as nat);
    let up = binomial((n - 1) as nat, k);
    assert(binomial(n, k) == up_left + up);
    if n == 1 {
        if k == 1 {
            assert(up == 0);
            assert(up_left == 1);
        } else {
            lemma_binomial_beyond(0, (k - 1) as nat);
            lemma_binomial_beyond(0, k);
            assert(k * (up_left + up) == n * up_left) by (nonlinear_arith)
                requires
                    up_left == 0,
                    up == 0,
            ;
        }
    } else {
        lemma_binomial_absorption((n - 1) as nat, k);
        let far_left = binomial((n - 2) as nat, (k - 1) as nat);
        assert(k * up == (n - 1) * far_left);
        if k == 1 {
            assert(up_left == 1);
            assert(far_left == 1);
            assert(k * (up_left + up) == n * up_left) by (nonlinear_arith)
                requires
                    k == 1,
                    up_left == 1,
                    far_left == 1,
                    k * up == (n - 1) * far_left,
            ;
        } else {
            lemma_binomial_absorption((n - 1) as nat, (k - 1) as nat);
            let far_far_left = binomial((n - 2) as nat, (k - 2) as nat);
            assert((k - 1) * up_left == (n - 1) * far_far_left);
            assert(up_left == far_far_left + far_left);
            assert(k * (up_left + up) == n * up_left) by (nonlinear_arith)
                requires
                    k * up == (n - 1) * far_left,
                    (k - 1) * up_left == (n - 1) * far_far_left,
                    up_left == far_far_left + far_left,
            ;
        }
    }
}

/// A prime divides the binomial coefficients strictly inside its row.
pub proof fn lemma_prime_divides_binomial(p: nat, k: nat)
    requires
        is_prime(p),
        0 < k < p,
    ensures
        divides(p, binomial(p, k) as int),
{
    lemma_binomial_absorption(p, k);
    lemma_multiple_divides(
        p,
        binomial((p - 1) as nat, (k - 1) as nat) as int,
        (k * binomial(p, k)) as int,
    );
    lemma_euclid_small(p, k, binomial(p, k) as int);
}

/// The first `m` + 1 terms of the binomial expansion of (`a` + 1)^`n`.
pub open spec fn binomial_sum(a: int, n: nat, m: nat) -> int
    decreases m,
{
    if m == 0 {
        1
    } else {
        binomial_sum(a, n, (m - 1) as nat) + binomial(n, m) * pow(a, m)
    }
}

/// Pascal's rule, summed: how the partial sums of one row arise from the row above.
proof fn lemma_binomial_sum_step(a: int, n: nat, m: nat)
    ensures
        binomial_sum(a, n + 1, m + 1) == a * binomial_sum(a, n, m) + binomial_sum(a, n, m + 1),
    decreases m,
{
    let above = binomial(n, m);
    let above_right = binomial(n, m + 1);
    assert(binomial(n + 1, m + 1) == above + above_right);
    lemma_pow_adds(a, 1, m);
    lemma_pow1(a);
    assert(pow(a, m + 1) == a * pow(a, m));
    if m == 0 {
        lemma_pow0(a);
        assert(binomial_sum(a, n + 1, 0) == 1);
        assert(binomial_sum(a, n, 0) == 1);
        assert(binomial_sum(a, n + 1, 1) == 1 + (above + above_right) * pow(a, 1));
        assert(binomial_sum(a, n, 1) == 1 + above_right * pow(a, 1));
        assert(above == 1);
        assert((1 + above_right) * a == a + above_right * a) by (nonlinear_arith);
    } else {
        lemma_binomial_sum_step(a, n, (m - 1) as nat);
        let s_low = binomial_sum(a, n, (m - 1) as nat);
        let s_mid = binomial_sum(a, n, m);
        let pm = pow(a, m);
        let pm1 = pow(a, m + 1);
        assert(binomial_sum(a, n + 1, m) == a * s_low + s_mid);
        assert(s_mid == s_low + above * pm);
        assert(binomial_sum(a, n, m + 1) == s_mid + above_right * pm1);
        assert(binomial_sum(a, n + 1, m + 1) == binomial_sum(a, n + 1, m) + (above + above_right)
            * pm1);
        assert(a * s_low + s_mid + (above + above_right) * pm1 == a * s_mid + (s_mid + above_right
            * pm1)) by (nonlinear_arith)
            requires
                s_mid == s_low + above * pm,
                pm1 == a * pm,
        ;
    }
}

/// The binomial theorem for (`a` + 1)^`n`.
pub proof fn lemma_binomial_theorem(a: int, n: nat)
    ensures
        binomial_sum(a, n, n) == pow(a + 1, n),
    decreases n,
{
    if n == 0 {
        lemma_pow0(a + 1);
    } else {
        let n1 = (n - 1) as nat;
        lemma_binomial_theorem(a, n1);
        if n1 == 0 {
            lemma_pow1(a);
            lemma_pow1(a + 1);
            assert(binomial(1, 1) == 1) by {
                assert(binomial(0, 0) == 1);
                assert(binomial(0, 1) == 0);
            }
            assert(binomial_sum(a, 1, 1) == binomial_sum(a, 1, 0) + binomial(1, 1) * pow(a, 1));
        } else {
            lemma_binomial_sum_step(a, n1, (n1 - 1) as nat);
            // binomial_sum(a, n, n1) == a * binomial_sum(a, n1, n1 - 1) + binomial_sum(a, n1, n1)
            lemma_binomial_all(n);
            lemma_binomial_all(n1);
            let s = binomial_sum(a, n1, n1);
            let s_low = binomial_sum(a, n1, (n1 - 1) as nat);
            assert(s == s_low + 1 * pow(a, n1));
            assert(binomial_sum(a, n, n) == binomial_sum(a, n, n1) + 1 * pow(a, n));
            lemma_pow_adds(a, 1, n1);
            lemma_pow1(a);
            lemma_pow_adds(a + 1, 1, n1);
            lemma_pow1(a + 1);
            let pn1 = pow(a, n1);
            assert(a * s_low + s + a * pn1 == (a + 1) * s) by (nonlinear_arith)
                requires
                    s == s_low + pn1,
            ;
        }
    }
}

/// Modulo a prime `p`, every partial sum of row `p` short of its last term is 1.
proof fn lemma_binomial_sum_mod_prime(a: int, p: nat, m: nat)
    requires
        is_prime(p),
        m < p,
    ensures
        binomial_sum(a, p, m) % (p as int) == 1,
    decreases m,
{
    if m == 0 {
        lemma_small_mod(1, p);
    } else {
        lemma_binomial_sum_mod_prime(a, p, (m - 1) as nat);
        lemma_prime_divides_binomial(p, m);
        lemma_divides_quotient(p, binomial(p, m) as int);
        let c = (binomial(p, m) as int) / (p as int);
        let term = binomial(p, m) * pow(a, m);
        let pm = pow(a, m);
        assert(term == p * (c * pm)) by (nonlinear_arith)
            requires
                term == binomial(p, m) * pm,
                binomial(p, m) == p * c,
        ;
        lemma_multiple_divides(p, c * pm, term);
        lemma_add_mod_noop(binomial_sum(a, p, (m - 1) as nat), term, p as int);
        lemma_small_mod(1, p);
    }
}

/// Modulo a prime `p`, (`a` + 1)^`p` is `a`^`p` + 1.
proof fn lemma_successor_power_mod_prime(a: int, p: nat)
    requires
        is_prime(p),
    ensures
        pow(a + 1, p) % (p as int) == (pow(a, p) + 1) % (p as int),
{
    lemma_binomial_theorem(a, p);
    lemma_binomial_sum_mod_prime(a, p, (p - 1) as nat);
    lemma_binomial_all(p);
    let s = binomial_sum(a, p, (p - 1) as nat);
    assert(binomial_sum(a, p, p) == s + 1 * pow(a, p));
    lemma_add_mod_noop(s, pow(a, p), p as int);
    lemma_add_mod_noop(1, pow(a, p), p as int);
    lemma_small_mod(1, p);
}

/// Fermat's little theorem: modulo a prime `p`, `a`^`p` is `a`.
pub proof fn lemma_fermat_power(a: nat, p: nat)
    requires
        is_prime(p),
    ensures
        pow(a as int, p) % (p as int) == a % p,
    decreases a,
{
    if a == 0 {
        vstd::arithmetic::power::lemma0_pow(p);
    } else {
        let b = (a - 1) as nat;
        lemma_fermat_power(b, p);
        lemma_successor_power_mod_prime(b as int, p);
        lemma_add_mod_noop(pow(b as int, p), 1, p as int);
        lemma_add_mod_noop(b as int, 1, p as int);
    }
}

/// Fermat's little theorem: modulo a prime `p`, `a`^(`p` - 1) is 1 unless `p` divides `a`.
pub proof fn lemma_fermat(a: nat, p: nat)
    requires
        is_prime(p),
        !divides(p, a as int),
    ensures
        pow(a as int, (p - 1) as nat) % (p as int) == 1,
{
    lemma_fermat_power(a, p);
    let less = pow(a as int, (p - 1) as nat);
    lemma_pow_adds(a as int, 1, (p - 1) as nat);
    lemma_pow1(a as int);
    assert(pow(a as int, p) == a * less);
    lemma_mod_equivalence(a * less, a as int, p as int);
    assert(a * (less - 1) == a * less - a) by (nonlinear_arith);
    lemma_euclid(p, a as int, less - 1);
    lemma_mod_equivalence(less, 1, p as int);
    lemma_small_mod(1, p);
}

/// Modulo a prime `p`, an exponent may change by a multiple of `p` - 1:
/// always where `p` does not divide the base, and else where the smaller
/// exponent is not 0.
pub proof fn lemma_exponent_mod_prime(x: nat, p: nat, e: nat, u: nat)
    requires
        is_prime(p),
        !divides(p, x as int) || e > 0,
    ensures
        pow(x as int, (e + (p - 1) * u) as nat) % (p as int) == pow(x as int, e) % (p as int),
{
    let m = p as int;
    let cycle = ((p - 1) * u) as nat;
    assert((p - 1) * u >= 0) by (nonlinear_arith)
        requires
            p >= 1,
            u >= 0,
    ;
    lemma_pow_adds(x as int, e, cycle);
    let low = pow(x as int, e);
    let high = pow(x as int, cycle);
    assert(pow(x as int, e + cycle) == low * high);
    if !divides(p, x as int) {
        lemma_fermat(x, p);
        lemma_pow_multiplies(x as int, (p - 1) as nat, u);
        lemma_pow_mod_noop(pow(x as int, (p - 1) as nat), u, m);
        lemma1_pow(u);
        lemma_small_mod(1, p);
        assert(high % m == 1);
        lemma_mul_mod_noop(low, high, m);
        lemma_mul_mod_noop(low, 1, m);
        assert(low * 1 == low);
    } else {
        // Both powers are multiples of x, which is a multiple of p.
        lemma_pow_adds(x as int, 1, (e - 1) as nat);
        lemma_pow1(x as int);
        let rest = pow(x as int, (e - 1) as nat);
        assert(low == x * rest);
        lemma_divides_quotient(p, x as int);
        let c = (x as int) / m;
        assert(low == p * (c * rest)) by (nonlinear_arith)
            requires
                low == x * rest,
                x == p * c,
        ;
        lemma_multiple_divides(p, c * rest, low);
        assert(low * high == p * (c * rest * high)) by (nonlinear_arith)
            requires
                low == p * (c * rest),
        ;
        lemma_multiple_divides(p, c * rest * high, low * high);
    }
}

/// What two distinct primes divide, their product divides.
pub proof fn lemma_two_primes_divide(p: nat, q: nat, a: int)
    requires
        is_prime(p),
        is_prime(q),
        p != q,
        divides(p, a),
        divides(q, a),
    ensures
        divides(p * q, a),
{
    lemma_divides_quotient(p, a);
    let m = a / (p as int);
    assert(!divides(q, p as int)) by {
        if q < p {
            assert(!divides(q, p as int));
        } else {
            lemma_small_mod(p, q);
        }
    }
    assert(p * m == (p as int) * m);
    lemma_euclid(q, p as int, m);
    lemma_divides_quotient(q, m);
    let m2 = m / (q as int);
    assert(a == (p * q) * m2) by (nonlinear_arith)
        requires
            a == p * m,
            m == q * m2,
    ;
    assert(p * q > 0) by (nonlinear_arith)
        requires
            p >= 2,
            q >= 2,
    ;
    lemma_multiple_divides(p * q, m2, a);
}

/// Modulo the product of two distinct primes `p` and `q`, an exponent may be
/// replaced by its residue modulo (`p` - 1)(`q` - 1): always where neither
/// prime divides the base, and else where that residue is not 0.
pub proof fn lemma_exponent_mod_totient(x: nat, p: nat, q: nat, exponent: nat)
    requires
        is_prime(p),
        is_prime(q),
        p != q,
        (!divides(p, x as int) && !divides(q, x as int)) || exponent % (((p - 1) * (q - 1)) as nat)
            != 0,
    ensures
        pow(x as int, exponent % (((p - 1) * (q - 1)) as nat)) % ((p * q) as int) == pow(
            x as int,
            exponent,
        ) % ((p * q) as int),
{
    let phi = ((p - 1) * (q - 1)) as nat;
    assert((p - 1) * (q - 1) > 0) by (nonlinear_arith)
        requires
            p >= 2,
            q >= 2,
    ;
    let e = exponent % phi;
    let u = exponent / phi;
    lemma_fundamental_div_mod(exponent as int, phi as int);
    lemma_mod_bound(exponent as int, phi as int);
    vstd::arithmetic::div_mod::lemma_div_pos_is_pos(exponent as int, phi as int);
    assert(exponent == e + (p - 1) * ((q - 1) * u) && exponent == e + (q - 1) * ((p - 1) * u)
        && (q - 1) * u >= 0 && (p - 1) * u >= 0) by (nonlinear_arith)
        requires
            exponent == phi * u + e,
            phi == (p - 1) * (q - 1),
            p >= 2,
            q >= 2,
            u >= 0,
    ;
    lemma_exponent_mod_prime(x, p, e, ((q - 1) * u) as nat);
    lemma_exponent_mod_prime(x, q, e, ((p - 1) * u) as nat);
    let high = pow(x as int, exponent);
    let low = pow(x as int, e);
    lemma_mod_equivalence(high, low, p as int);
    lemma_mod_equivalence(high, low, q as int);
    lemma_two_primes_divide(p, q, high - low);
    assert(p * q > 0) by (nonlinear_arith)
        requires
            p >= 2,
            q >= 2,
    ;
    lemma_mod_equivalence(high, low, (p * q) as int);
}

} // verus!
