//! Key exchange over the multiplicative group modulo a prime.

use vstd::arithmetic::div_mod::*;
use vstd::arithmetic::mul::*;
use vstd::arithmetic::power::*;
use vstd::prelude::*;
use vstd::std_specs::hash::{group_hash_axioms, spec_hash_keys_iter};
use vstd::std_specs::iter::IteratorSpec;

use crate::number_theory::{
    has_order, is_prime, lemma_divides_transitive, lemma_generator_has_full_order,
    lemma_mod_pow_adds, lemma_mod_zero_multiple, lemma_multiple_mod, lemma_pow_positive_or_zero,
    lemma_prime_divides_product, lemma_prime_factor_exists, mod_pow,
};
use rand::{Rng, SeedableRng};
use rand_chacha::ChaCha20Rng;
use sha2::{Digest, Sha256};
use std::collections::HashSet;

verus! {

/// One step of square-and-multiply: the pending power of `b` is rewritten in
/// terms of the square of `b` and half the exponent.
proof fn lemma_square_step(acc: int, b: int, e: nat, m: int)
    requires
        m > 0,
        e > 0,
    ensures
        e % 2 == 1 ==> (acc * pow(b, e)) % m == (((acc * b) % m) * pow((b * b) % m, e / 2)) % m,
        e % 2 == 0 ==> (acc * pow(b, e)) % m == (acc * pow((b * b) % m, e / 2)) % m,
{
    let h = e / 2;
    let sq = b * b;
    assert(pow(sq, h) == pow(b, 2 * h)) by {
        lemma_square_is_pow2(b);
        assert(pow(b, 2) == sq);
        lemma_pow_multiplies(b, 2, h);
    }
    // Squaring may be reduced before it is raised.
    lemma_pow_mod_noop(sq, h, m);
    let p = pow(sq, h);
    let pr = pow(sq % m, h);
    assert(pr % m == p % m);
    if e % 2 == 1 {
        assert(e == 2 * h + 1);
        assert(pow(b, e) == b * p) by {
            lemma_pow_adds(b, 1, 2 * h);
            lemma_pow1(b);
        }
        assert(acc * (b * p) == (acc * b) * p) by {
            lemma_mul_is_associative(acc, b, p);
        }
        lemma_mul_mod_noop_general(acc * b, p, m);
        lemma_mul_mod_noop_general((acc * b) % m, pr, m);
        lemma_mod_twice(acc * b, m);
    } else {
        assert(e == 2 * h);
        lemma_mul_mod_noop_general(acc, p, m);
        lemma_mul_mod_noop_general(acc, pr, m);
    }
}

/// Modular exponentiation by square-and-multiply.
pub fn mod_exp(base: u64, exp: u64, modulus: u64) -> (result: u64)
    requires
        modulus > 0,
    ensures
        result == mod_pow(base as nat, exp as nat, modulus as nat),
{
    let m: u128 = modulus as u128;
    let mut acc: u128 = 1 % m;
    let mut b: u128 = (base as u128) % m;
    let mut e: u64 = exp;
    proof {
        lemma_pow_mod_noop(base as int, exp as nat, modulus as int);
        lemma_mul_mod_noop_general(1, pow(b as int, e as nat), m as int);
    }
    while e > 0
        invariant
            m == modulus,
            m > 0,
            acc < m,
            b < m,
            (acc * pow(b as int, e as nat)) % (m as int) == pow(base as int, exp as nat) % (
            m as int),
        decreases e,
    {
        proof {
            lemma_square_step(acc as int, b as int, e as nat, m as int);
            assert(acc * b <= m * m) by (nonlinear_arith)
                requires
                    acc < m,
                    b < m,
            ;
            assert(b * b <= m * m) by (nonlinear_arith)
                requires
                    b < m,
            ;
            assert(m * m < 0x1_0000_0000_0000_0000_0000_0000_0000_0000) by (nonlinear_arith)
                requires
                    m < 0x1_0000_0000_0000_0000,
            ;
        }
        if e % 2 == 1 {
            acc = acc * b % m;
        }
        b = b * b % m;
        e = e / 2;
    }
    proof {
        lemma_pow0(b as int);
        lemma_small_mod(acc as nat, m as nat);
    }
    acc as u64
}

/// The distinct primes that divide `n`; no number is said to divide zero.
pub open spec fn prime_factors(n: nat) -> Set<u64> {
    Set::new(|p: u64| n > 0 && is_prime(p as nat) && n % (p as nat) == 0)
}

/// No number in `[2, bound)` divides `x`.
pub open spec fn no_divisor_below(x: nat, bound: nat) -> bool {
    forall|k: nat| 2 <= k < bound ==> #[trigger] (x % k) != 0
}

/// The least divisor of a number, above 1, is prime.
proof fn lemma_least_divisor_is_prime(x: nat, d: nat)
    requires
        d >= 2,
        x % d == 0,
        no_divisor_below(x, d),
    ensures
        is_prime(d),
{
    assert forall|k: nat| 1 < k < d implies #[trigger] (d % k) != 0 by {
        if d % k == 0 {
            lemma_divides_transitive(k, d, x);
            assert(x % k == 0);
        }
    }
}

/// A number whose divisors above 1 all have a square beyond it is prime.
proof fn lemma_no_small_divisor_is_prime(x: nat, d: nat)
    requires
        x >= 2,
        d >= 2,
        x / d < d,
        no_divisor_below(x, d),
    ensures
        is_prime(x),
{
    assert forall|k: nat| 1 < k < x implies #[trigger] (x % k) != 0 by {
        if x % k == 0 {
            if k >= d {
                let j = x / k;
                lemma_mod_zero_multiple(x, k);
                lemma_div_is_ordered_by_denominator(x as int, d as int, k as int);
                assert(j >= 2) by (nonlinear_arith)
                    requires
                        x == k * j,
                        k < x,
                        k > 1,
                ;
                lemma_multiple_mod(j, k);
                lemma_mul_is_commutative(j as int, k as int);
                assert(x % j == 0);
            }
        }
    }
}

/// Dividing one prime out of a number keeps its other prime divisors, and
/// adds no divisor.
proof fn lemma_strip_prime(x: nat, d: nat, p: nat)
    requires
        is_prime(d),
        x > 0,
        x % d == 0,
        p >= 2,
    ensures
        (x / d) % p == 0 ==> x % p == 0,
        is_prime(p) && p != d && x % p == 0 ==> (x / d) % p == 0,
        x / d >= 1,
        x / d < x,
        x % (x / d) == 0,
{
    let y = x / d;
    lemma_mod_zero_multiple(x, d);
    assert(y >= 1 && y < x) by (nonlinear_arith)
        requires
            x == d * y,
            x > 0,
            d >= 2,
    ;
    lemma_multiple_mod(y, d);
    lemma_mul_is_commutative(y as int, d as int);
    if y % p == 0 {
        lemma_divides_transitive(p, y, x);
    }
    if is_prime(p) && p != d && x % p == 0 {
        lemma_prime_divides_product(p, d, y);
        if d % p == 0 {
            if p < d {
                assert(d % p != 0);
            } else {
                lemma_small_mod(d, p);
            }
        }
    }
}

/// The only prime divisor of a prime is the prime itself, and 1 has none.
proof fn lemma_prime_divisors_of_prime_or_one(x: nat, p: nat)
    requires
        is_prime(p),
        x % p == 0,
        x == 1 || is_prime(x),
    ensures
        x == p,
{
    if x == 1 {
        lemma_small_mod(1, p);
    } else if p < x {
        assert(x % p != 0);
    } else if p > x {
        lemma_small_mod(x, p);
    }
}

/// The distinct prime factors of `n`, by trial division up to the square
/// root of what is left of `n`.
pub fn get_prime_factors(n: u64) -> (factors: HashSet<u64>)
    ensures
        factors@ == prime_factors(n as nat),
{
    broadcast use group_hash_axioms;

    let mut factors: HashSet<u64> = HashSet::new();
    if n == 0 {
        assert(factors@ =~= prime_factors(n as nat));
        return factors;
    }
    let mut rest: u64 = n;
    let mut d: u64 = 2;
    proof {
        lemma_mod_self_0(n as int);
    }
    while d <= rest / d
        invariant
            n > 0,
            d >= 2,
            1 <= rest <= n,
            n % rest == 0,
            no_divisor_below(rest as nat, d as nat),
            forall|p: u64| #[trigger] factors@.contains(p) ==> is_prime(p as nat) && n % p == 0,
            forall|p: u64|
                is_prime(p as nat) && n % p == 0 ==> #[trigger] factors@.contains(p) || rest % p
                    == 0,
        decreases u64::MAX - d,
    {
        proof {
            lemma_div_is_ordered_by_denominator(rest as int, 2, d as int);
        }
        if rest % d == 0 {
            proof {
                lemma_least_divisor_is_prime(rest as nat, d as nat);
                lemma_divides_transitive(d as nat, rest as nat, n as nat);
            }
            factors.insert(d);
            while rest % d == 0
                invariant
                    n > 0,
                    d >= 2,
                    is_prime(d as nat),
                    1 <= rest <= n,
                    n % rest == 0,
                    no_divisor_below(rest as nat, d as nat),
                    forall|p: u64|
                        #[trigger] factors@.contains(p) ==> is_prime(p as nat) && n % p == 0,
                    factors@.contains(d),
                    forall|p: u64|
                        is_prime(p as nat) && n % p == 0 ==> #[trigger] factors@.contains(p) || rest
                            % p == 0,
                decreases rest,
            {
                proof {
                    let x = rest as nat;
                    let y = x / (d as nat);
                    lemma_strip_prime(x, d as nat, 2);
                    lemma_divides_transitive(y, x, n as nat);
                    assert forall|k: nat| 2 <= k < d implies #[trigger] (y % k) != 0 by {
                        lemma_strip_prime(x, d as nat, k);
                        assert(x % k != 0);
                    }
                    assert forall|p: u64| is_prime(p as nat) && n % p == 0 implies #[trigger]
                        factors@.contains(p) || y % (p as nat) == 0 by {
                        if p != d && !factors@.contains(p) {
                            lemma_strip_prime(x, d as nat, p as nat);
                        }
                    }
                }
                rest = rest / d;
            }
        }
        d = d + 1;
    }
    if rest > 1 {
        proof {
            lemma_no_small_divisor_is_prime(rest as nat, d as nat);
        }
        factors.insert(rest);
    }
    proof {
        assert forall|p: u64| prime_factors(n as nat).contains(p) implies factors@.contains(
            p,
        ) by {
            if !factors@.contains(p) && rest % p == 0 {
                lemma_prime_divisors_of_prime_or_one(rest as nat, p as nat);
            }
        }
        assert(factors@ =~= prime_factors(n as nat));
    }
    factors
}

/// The exponents are in ascending order.
pub open spec fn ascending(exps: Seq<u64>) -> bool {
    forall|i: int, j: int| 0 <= i <= j < exps.len() ==> exps[i] <= exps[j]
}

/// None of the powers of `x` to the given exponents is 1 modulo `modulus`.
pub open spec fn no_power_is_one(x: nat, modulus: nat, exps: Seq<u64>) -> bool {
    forall|i: int| 0 <= i < exps.len() ==> mod_pow(x, #[trigger] exps[i] as nat, modulus) != 1
}

/// Tests a candidate generator: raises `n` from one exponent to the next,
/// and rejects it as soon as a power is 1.
pub fn check_gen(n: u64, modulus: u64, exps: &Vec<u64>) -> (accepted: bool)
    requires
        modulus > 0,
        ascending(exps@),
    ensures
        accepted == no_power_is_one(n as nat, modulus as nat, exps@),
{
    let m: u128 = modulus as u128;
    let mut current_exp: u64 = 0;
    let mut acc: u64 = (1 % m) as u64;
    let mut i: usize = 0;
    proof {
        lemma_pow0(n as int);
    }
    while i < exps.len()
        invariant
            m == modulus,
            m > 0,
            ascending(exps@),
            0 <= i <= exps.len(),
            i == 0 ==> current_exp == 0,
            i > 0 ==> current_exp == exps[i - 1],
            acc == mod_pow(n as nat, current_exp as nat, modulus as nat),
            forall|k: int|
                0 <= k < i ==> mod_pow(n as nat, #[trigger] exps[k] as nat, modulus as nat) != 1,
        decreases exps.len() - i,
    {
        let exp = exps[i];
        assert(current_exp <= exp) by {
            if i > 0 {
                assert(exps[i - 1] <= exps[i as int]);
            }
        }
        let step = mod_exp(n, exp - current_exp, modulus);
        proof {
            lemma_mod_pow_adds(
                n as nat,
                current_exp as nat,
                (exp - current_exp) as nat,
                modulus as nat,
            );
            lemma_mod_bound(pow(n as int, current_exp as nat), modulus as int);
            lemma_mod_bound(pow(n as int, (exp - current_exp) as nat), modulus as int);
            assert(acc * step <= m * m) by (nonlinear_arith)
                requires
                    acc < m,
                    step < m,
            ;
            assert(m * m < 0x1_0000_0000_0000_0000_0000_0000_0000_0000) by (nonlinear_arith)
                requires
                    m < 0x1_0000_0000_0000_0000,
            ;
        }
        acc = ((acc as u128) * (step as u128) % m) as u64;
        if acc == 1 {
            return false;
        }
        current_exp = exp;
        i = i + 1;
    }
    true
}

/// The most generators that a search returns.
pub const MAX_GENERATORS: usize = 81;

/// `x` passes the generator test for the modulus `n`: for no prime `p` that
/// divides `n - 1` is `x` to the power `(n - 1) / p` equal to 1 modulo `n`.
pub open spec fn passes_generator_test(x: nat, n: nat) -> bool {
    forall|p: u64| #[trigger]
        prime_factors((n - 1) as nat).contains(p) ==> mod_pow(
            x,
            ((n - 1) / (p as int)) as nat,
            n,
        ) != 1
}

/// The numbers in `[lo, hi)` that pass the generator test for `n`, ascending.
pub open spec fn generators_between(n: nat, lo: nat, hi: nat) -> Seq<u64>
    decreases hi,
{
    if hi <= lo {
        Seq::empty()
    } else {
        let before = generators_between(n, lo, (hi - 1) as nat);
        if passes_generator_test((hi - 1) as nat, n) {
            before.push((hi - 1) as u64)
        } else {
            before
        }
    }
}

/// The generators that a search for the modulus `n` returns: the first
/// `MAX_GENERATORS` numbers on `[n / 3, 2n / 3)` that pass the test.
pub open spec fn generators(n: nat) -> Seq<u64> {
    let all = generators_between(n, n / 3, (2 * n) / 3);
    if all.len() <= MAX_GENERATORS {
        all
    } else {
        all.take(MAX_GENERATORS as int)
    }
}

/// Widening the range of a search only appends to what it finds.
proof fn lemma_generators_between_prefix(n: nat, lo: nat, mid: nat, hi: nat)
    requires
        lo <= mid <= hi,
    ensures
        generators_between(n, lo, mid).len() <= generators_between(n, lo, hi).len(),
        generators_between(n, lo, hi).take(generators_between(n, lo, mid).len() as int)
            == generators_between(n, lo, mid),
    decreases hi,
{
    let short = generators_between(n, lo, mid);
    if mid == hi {
        assert(short.take(short.len() as int) =~= short);
    } else {
        lemma_generators_between_prefix(n, lo, mid, (hi - 1) as nat);
        let before = generators_between(n, lo, (hi - 1) as nat);
        assert(before.take(short.len() as int) == short);
        assert(generators_between(n, lo, hi).take(short.len() as int) =~= before.take(
            short.len() as int,
        ));
    }
}

/// What a search between two bounds finds lies between them, in ascending
/// order, and passes the generator test.
pub proof fn lemma_generators_between_members(n: nat, lo: nat, hi: nat)
    requires
        hi <= u64::MAX,
    ensures
        forall|i: int|
            0 <= i < generators_between(n, lo, hi).len() ==> {
                let x = #[trigger] generators_between(n, lo, hi)[i];
                lo <= x < hi && passes_generator_test(x as nat, n)
            },
        forall|i: int, j: int|
            0 <= i < j < generators_between(n, lo, hi).len() ==> generators_between(n, lo, hi)[i]
                < generators_between(n, lo, hi)[j],
    decreases hi,
{
    if hi > lo {
        lemma_generators_between_members(n, lo, (hi - 1) as nat);
        let before = generators_between(n, lo, (hi - 1) as nat);
        let all = generators_between(n, lo, hi);
        assert forall|i: int| 0 <= i < all.len() implies {
            let x = #[trigger] all[i];
            lo <= x < hi && passes_generator_test(x as nat, n)
        } by {
            if i < before.len() {
                assert(all[i] == before[i]);
            }
        }
        assert forall|i: int, j: int| 0 <= i < j < all.len() implies all[i] < all[j] by {
            assert(all[i] == before[i]);
            if j < before.len() {
                assert(all[j] == before[j]);
            }
        }
    }
}

/// Every generator that a search for a prime modulus above 2 returns has
/// the multiplicative order `n - 1`: its powers run through all the nonzero
/// residues before they come back to 1.
pub proof fn lemma_generators_have_full_order(n: nat, i: int)
    requires
        is_prime(n),
        2 < n <= u64::MAX,
        0 <= i < generators(n).len(),
    ensures
        has_order(generators(n)[i] as nat, n, (n - 1) as nat),
{
    let lo = n / 3;
    let hi = (2 * n) / 3;
    let all = generators_between(n, lo, hi);
    lemma_generators_between_members(n, lo, hi);
    let x = generators(n)[i] as nat;
    assert(x == all[i]);
    assert(lo <= x < hi && passes_generator_test(x, n));
    assert forall|q: nat| is_prime(q) && (n - 1) % (q as int) == 0 implies #[trigger] mod_pow(
        x,
        ((n - 1) / (q as int)) as nat,
        n,
    ) != 1 by {
        if q > n - 1 {
            lemma_small_mod((n - 1) as nat, q);
        }
        assert(prime_factors((n - 1) as nat).contains(q as u64));
    }
    lemma_generator_has_full_order(x, n);
}

/// The generator test misses no generator: a number of the multiplicative
/// order `n - 1` passes it.
pub proof fn lemma_full_order_passes_test(x: nat, n: nat)
    requires
        2 < n <= u64::MAX,
        has_order(x, n, (n - 1) as nat),
    ensures
        passes_generator_test(x, n),
{
    let phi = (n - 1) as nat;
    assert forall|p: u64| #[trigger] prime_factors(phi).contains(p) implies mod_pow(
        x,
        ((n - 1) / (p as int)) as nat,
        n,
    ) != 1 by {
        let q = p as nat;
        let j = phi / q;
        lemma_mod_zero_multiple(phi, q);
        assert(0 < j < phi) by (nonlinear_arith)
            requires
                phi == q * j,
                q >= 2,
                phi >= 2,
        ;
        assert(mod_pow(x, j, n) != 1);
    }
}

/// The law on the order of what a search returns, for all of it at once.
proof fn lemma_found_have_full_order(n: nat, found: Seq<u64>)
    requires
        1 <= n <= u64::MAX,
        found == generators(n),
    ensures
        is_prime(n) && n > 2 ==> forall|i: int|
            0 <= i < found.len() ==> has_order(#[trigger] found[i] as nat, n, (n - 1) as nat),
{
    if is_prime(n) && n > 2 {
        assert forall|i: int| 0 <= i < found.len() implies has_order(
            #[trigger] found[i] as nat,
            n,
            (n - 1) as nat,
        ) by {
            lemma_generators_have_full_order(n, i);
        }
    }
}

/// The test on a list that holds exactly the exponents `(n - 1) / p` is the
/// generator test.
proof fn lemma_test_by_exponents(x: nat, n: nat, exps: Seq<u64>)
    requires
        1 <= n <= u64::MAX,
        forall|y: u64|
            exps.contains(y) <==> exists|p: u64| #[trigger]
                prime_factors((n - 1) as nat).contains(p) && y == ((n - 1) as u64) / p,
    ensures
        no_power_is_one(x, n, exps) == passes_generator_test(x, n),
{
    let phi = (n - 1) as u64;
    if no_power_is_one(x, n, exps) {
        assert forall|p: u64| #[trigger] prime_factors((n - 1) as nat).contains(p) implies mod_pow(
            x,
            ((n - 1) / (p as int)) as nat,
            n,
        ) != 1 by {
            let y = phi / p;
            assert(exps.contains(y));
            let k = choose|k: int| 0 <= k < exps.len() && exps[k] == y;
            assert(mod_pow(x, exps[k] as nat, n) != 1);
        }
    }
    if passes_generator_test(x, n) {
        assert forall|i: int| 0 <= i < exps.len() implies mod_pow(
            x,
            #[trigger] exps[i] as nat,
            n,
        ) != 1 by {
            assert(exps.contains(exps[i]));
            let p = choose|p: u64| #[trigger]
                prime_factors((n - 1) as nat).contains(p) && exps[i] == phi / p;
        }
    }
}

/// Puts `x` into an ascending vector at its place.
fn insert_ascending(v: &mut Vec<u64>, x: u64)
    requires
        ascending(old(v)@),
    ensures
        ascending(final(v)@),
        forall|y: u64| final(v)@.contains(y) <==> (old(v)@.contains(y) || y == x),
{
    let mut i: usize = 0;
    while i < v.len() && v[i] <= x
        invariant
            0 <= i <= v.len(),
            v@ == old(v)@,
            forall|k: int| 0 <= k < i ==> v@[k] <= x,
        decreases v.len() - i,
    {
        i = i + 1;
    }
    v.insert(i, x);
    proof {
        let before = old(v)@;
        let after = v@;
        assert(after == before.insert(i as int, x));
        assert forall|a: int, b: int| 0 <= a <= b < after.len() implies after[a] <= after[b] by {
            if a < i && b > i {
                assert(before[a] <= before[b - 1]);
            } else if a > i {
                assert(before[a - 1] <= before[b - 1]);
            } else if b < i {
                assert(before[a] <= before[b]);
            } else if a == i && b > i {
                assert(before[i as int] <= before[b - 1]);
            }
        }
        assert forall|y: u64| after.contains(y) <==> (before.contains(y) || y == x) by {
            if after.contains(y) {
                let k = choose|k: int| 0 <= k < after.len() && after[k] == y;
                if k < i {
                    assert(before[k] == y);
                } else if k > i {
                    assert(before[k - 1] == y);
                }
            }
            if before.contains(y) {
                let k = choose|k: int| 0 <= k < before.len() && before[k] == y;
                if k < i {
                    assert(after[k] == y);
                } else {
                    assert(after[k + 1] == y);
                }
            }
            if y == x {
                assert(after[i as int] == y);
            }
        }
    }
}

/// The exponents of the generator test for `phi`, ascending: `phi / p` for
/// each prime `p` that divides `phi`.
fn test_exponents(phi: u64) -> (exps: Vec<u64>)
    ensures
        ascending(exps@),
        forall|y: u64|
            exps@.contains(y) <==> exists|p: u64| #[trigger]
                prime_factors(phi as nat).contains(p) && y == phi / p,
{
    broadcast use group_hash_axioms;

    let factors = get_prime_factors(phi);
    let mut exps: Vec<u64> = Vec::new();
    let ghost keys = spec_hash_keys_iter(&factors).remaining();
    let ghost done: int = 0;
    for p in it: factors.iter()
        invariant
            factors@ == prime_factors(phi as nat),
            it.seq() == keys,
            done == it.index(),
            ascending(exps@),
            forall|y: u64|
                exps@.contains(y) <==> exists|k: int|
                    0 <= k < done && y == phi / *(#[trigger] keys[k]),
    {
        assert(keys.unref()[done] == *p);
        assert(factors@.contains(*p));
        insert_ascending(&mut exps, phi / *p);
        proof {
            done = done + 1;
        }
    }
    proof {
        assert(done == keys.len());
        assert forall|y: u64| exps@.contains(y) implies exists|p: u64| #[trigger]
            prime_factors(phi as nat).contains(p) && y == phi / p by {
            let k = choose|k: int| 0 <= k < done && y == phi / *(#[trigger] keys[k]);
            assert(keys.unref()[k] == *keys[k]);
            assert(factors@.contains(*keys[k]));
        }
        assert forall|y: u64|
            (exists|p: u64| #[trigger] prime_factors(phi as nat).contains(p) && y == phi / p)
            implies exps@.contains(y) by {
            let p = choose|p: u64| #[trigger]
                prime_factors(phi as nat).contains(p) && y == phi / p;
            assert(keys.unref().to_set().contains(p));
            let k = choose|k: int| 0 <= k < keys.unref().len() && keys.unref()[k] == p;
            assert(y == phi / *keys[k]);
        }
    }
    exps
}

/// Searches for generators of the multiplicative group modulo `n`: scans
/// `[n / 3, 2n / 3)` upwards and keeps the numbers that pass the generator
/// test, until it has `MAX_GENERATORS` of them.
pub fn get_gen(n: u64) -> (res: Vec<u64>)
    requires
        n >= 1,
    ensures
        res@ == generators(n as nat),
        res.len() <= MAX_GENERATORS,
        is_prime(n as nat) && n > 2 ==> forall|i: int|
            0 <= i < res.len() ==> has_order(#[trigger] res[i] as nat, n as nat, (n - 1) as nat),
{
    let mut res: Vec<u64> = Vec::new();
    let phi = n - 1;
    let exps = test_exponents(phi);
    let lo: u64 = n / 3;
    let hi: u64 = ((n as u128) * 2 / 3) as u64;
    let mut i: u64 = lo;
    while i < hi
        invariant
            n >= 1,
            phi == n - 1,
            lo == n / 3,
            hi == (2 * n) / 3,
            lo <= i <= hi,
            ascending(exps@),
            forall|y: u64|
                exps@.contains(y) <==> exists|p: u64| #[trigger]
                    prime_factors(phi as nat).contains(p) && y == phi / p,
            res@ == generators_between(n as nat, lo as nat, i as nat),
            res.len() < MAX_GENERATORS,
        decreases hi - i,
    {
        let accepted = check_gen(i, n, &exps);
        proof {
            lemma_test_by_exponents(i as nat, n as nat, exps@);
        }
        if accepted {
            res.push(i);
            if res.len() > 80 {
                proof {
                    lemma_generators_between_prefix(n as nat, lo as nat, (i + 1) as nat, hi as nat);
                    assert(res@ =~= generators(n as nat));
                    lemma_found_have_full_order(n as nat, res@);
                }
                return res;
            }
        }
        i = i + 1;
    }
    proof {
        lemma_found_have_full_order(n as nat, res@);
    }
    res
}

/// One side's key material for an exchange in the group modulo `modulus`.
#[derive(Debug, Clone, Copy, PartialEq, Eq, Structural)]
pub struct KeyPair {
    pub private: u64,
    pub public: u64,
    pub modulus: u64,
    pub gen: u64,
}

impl KeyPair {
    /// The private exponent lies below the modulus, and the public value is
    /// the generator raised to it.
    pub open spec fn wf(&self) -> bool {
        &&& self.modulus > 0
        &&& self.private < self.modulus
        &&& self.public == mod_pow(self.gen as nat, self.private as nat, self.modulus as nat)
    }

    /// Tells whether the pair is well formed, by computing the public value
    /// again.
    pub fn is_consistent(&self) -> (ok: bool)
        ensures
            ok == self.wf(),
    {
        self.modulus > 0 && self.private < self.modulus && self.public == mod_exp(
            self.gen,
            self.private,
            self.modulus,
        )
    }
}

/// The random number generator of rand_chacha, carried as an opaque value.
#[verifier::external_type_specification]
#[verifier::external_body]
pub struct ExChaCha20Rng(ChaCha20Rng);

/// `ChaCha20Rng::from_entropy` of rand_chacha: a generator seeded by the
/// operating system. Nothing is claimed of it. The call does not return
/// where the system has no entropy to give.
#[verifier::external_body]
fn entropy_rng() -> ChaCha20Rng {
    ChaCha20Rng::from_entropy()
}

/// `Rng::gen_range` of rand on the half-open range `0..bound`: the sample
/// lies in the range. Which number it is depends on the generator's state.
#[verifier::external_body]
fn random_below(rng: &mut ChaCha20Rng, bound: u64) -> (sample: u64)
    requires
        bound > 0,
    ensures
        sample < bound,
{
    rng.gen_range(0..bound)
}

/// The key pair that has the given private exponent.
pub fn key_pair_from_private(modulus: u64, generator: u64, private: u64) -> (pair: KeyPair)
    requires
        modulus > 0,
    ensures
        pair == (KeyPair {
            private,
            public: mod_pow(generator as nat, private as nat, modulus as nat) as u64,
            modulus,
            gen: generator,
        }),
        private < modulus ==> pair.wf(),
{
    let public = mod_exp(generator, private, modulus);
    KeyPair { private, public, modulus, gen: generator }
}

/// Draws a private exponent below `modulus` and forms its key pair.
pub fn gen_key_pair(modulus: u64, generator: u64) -> (pair: KeyPair)
    requires
        modulus > 0,
    ensures
        pair.wf(),
        pair.modulus == modulus,
        pair.gen == generator,
{
    let mut rng = entropy_rng();
    let private = random_below(&mut rng, modulus);
    key_pair_from_private(modulus, generator, private)
}

/// The SHA-256 digest of a byte string.
pub uninterp spec fn sha256(data: Seq<u8>) -> Seq<u8>;

/// `Sha256::digest` of sha2: the digest of `data`, which has 32 bytes.
#[verifier::external_body]
fn sha256_digest(data: &[u8]) -> (digest: Vec<u8>)
    ensures
        digest@ == sha256(data@),
        digest@.len() == 32,
{
    Sha256::digest(data).to_vec()
}

/// The eight bytes of `x`, most significant first.
pub open spec fn big_endian(x: u64) -> Seq<u8> {
    seq![
        (x >> 56) as u8,
        ((x >> 48) & 0xff) as u8,
        ((x >> 40) & 0xff) as u8,
        ((x >> 32) & 0xff) as u8,
        ((x >> 24) & 0xff) as u8,
        ((x >> 16) & 0xff) as u8,
        ((x >> 8) & 0xff) as u8,
        (x & 0xff) as u8,
    ]
}

/// Encodes `x` in eight bytes, most significant first.
pub fn to_big_endian(x: u64) -> (bytes: Vec<u8>)
    ensures
        bytes@ == big_endian(x),
{
    let mut bytes: Vec<u8> = Vec::new();
    assert(x >> 56 < 256) by (bit_vector);
    assert((x >> 48) & 0xff < 256) by (bit_vector);
    assert((x >> 40) & 0xff < 256) by (bit_vector);
    assert((x >> 32) & 0xff < 256) by (bit_vector);
    assert((x >> 24) & 0xff < 256) by (bit_vector);
    assert((x >> 16) & 0xff < 256) by (bit_vector);
    assert((x >> 8) & 0xff < 256) by (bit_vector);
    assert(x & 0xff < 256) by (bit_vector);
    bytes.push((x >> 56) as u8);
    bytes.push(((x >> 48) & 0xff) as u8);
    bytes.push(((x >> 40) & 0xff) as u8);
    bytes.push(((x >> 32) & 0xff) as u8);
    bytes.push(((x >> 24) & 0xff) as u8);
    bytes.push(((x >> 16) & 0xff) as u8);
    bytes.push(((x >> 8) & 0xff) as u8);
    bytes.push((x & 0xff) as u8);
    assert(bytes@ =~= big_endian(x));
    bytes
}

/// The secret that the holder of `private` shares with the holder of the
/// private exponent behind `other_public`.
pub open spec fn shared_secret(modulus: nat, private: nat, other_public: nat) -> Seq<u8> {
    sha256(big_endian(mod_pow(other_public, private, modulus) as u64))
}

/// Derives the shared secret: the digest of the other side's public value
/// raised to one's own private exponent.
pub fn gen_common_key(modulus: u64, self_key: u64, other_key: u64) -> (key: Vec<u8>)
    requires
        modulus > 0,
    ensures
        key@ == shared_secret(modulus as nat, self_key as nat, other_key as nat),
        key@.len() == 32,
{
    let shared = mod_exp(other_key, self_key, modulus);
    let bytes = to_big_endian(shared);
    sha256_digest(bytes.as_slice())
}

/// Both sides of an exchange derive the same secret: for two well-formed key
/// pairs over one modulus and generator, each private exponent applied to the
/// other pair's public value gives the same bytes.
pub proof fn lemma_shared_secret_agreement(a: KeyPair, b: KeyPair)
    requires
        a.wf(),
        b.wf(),
        a.modulus == b.modulus,
        a.gen == b.gen,
    ensures
        shared_secret(a.modulus as nat, a.private as nat, b.public as nat) == shared_secret(
            a.modulus as nat,
            b.private as nat,
            a.public as nat,
        ),
{
    let m = a.modulus as int;
    let g = a.gen as int;
    let x = a.private as nat;
    let y = b.private as nat;
    lemma_pow_positive_or_zero(a.gen as nat, x);
    lemma_pow_positive_or_zero(a.gen as nat, y);
    lemma_mod_bound(pow(g, x), m);
    lemma_mod_bound(pow(g, y), m);
    lemma_pow_mod_noop(pow(g, y), x, m);
    lemma_pow_mod_noop(pow(g, x), y, m);
    lemma_pow_multiplies(g, y, x);
    lemma_pow_multiplies(g, x, y);
    lemma_mul_is_commutative(x as int, y as int);
}

/// `p` is the least odd prime that is at least `lower`.
pub open spec fn is_first_odd_prime_from(p: u64, lower: u64) -> bool {
    &&& is_prime(p as nat)
    &&& p >= 3
    &&& p >= lower
    &&& forall|q: u64| 3 <= q < p && lower <= q ==> !is_prime(q as nat)
}

/// A number that no smaller prime divides is prime.
proof fn lemma_prime_by_smaller_primes(x: nat)
    requires
        x >= 2,
        forall|q: nat| is_prime(q) && q < x ==> #[trigger] (x % q) != 0,
    ensures
        is_prime(x),
{
    if !is_prime(x) {
        let q = lemma_prime_factor_exists(x);
        assert(x % q == 0);
    }
}

/// The least odd prime from `lower` on, found by trial division by the
/// primes below each candidate; nothing where 64 bits hold no such prime.
pub fn first_odd_prime_from(lower: u64) -> (found: Option<u64>)
    ensures
        match found {
            Some(p) => is_first_odd_prime_from(p, lower),
            None => forall|q: u64| 3 <= q && lower <= q ==> !is_prime(q as nat),
        },
{
    let mut primes: Vec<u64> = Vec::new();
    primes.push(2);
    let mut i: u64 = 3;
    assert(is_prime(2)) by {
        assert forall|d: nat| 1 < d < 2 implies #[trigger] (2nat % d) != 0 by {}
    }
    assert forall|q: u64| is_prime(q as nat) && q < 3 implies primes@.contains(q) by {
        assert(primes@[0] == 2);
    }
    loop
        invariant
            i >= 3,
            forall|k: int|
                0 <= k < primes@.len() ==> is_prime(#[trigger] primes@[k] as nat) && primes@[k]
                    < i,
            forall|q: u64| is_prime(q as nat) && q < i ==> primes@.contains(q),
            forall|q: u64| 3 <= q < i && lower <= q ==> !is_prime(q as nat),
        decreases u64::MAX - i,
    {
        let mut is_prime_i = true;
        let mut k: usize = 0;
        while k < primes.len()
            invariant_except_break
                is_prime_i,
                forall|j: int| 0 <= j < k ==> i % #[trigger] primes@[j] != 0,
            invariant
                0 <= k <= primes@.len(),
                i >= 3,
                forall|k: int|
                    0 <= k < primes@.len() ==> is_prime(#[trigger] primes@[k] as nat) && primes@[k]
                        < i,
            ensures
                is_prime_i ==> forall|j: int|
                    0 <= j < primes@.len() ==> i % #[trigger] primes@[j] != 0,
                !is_prime_i ==> !is_prime(i as nat),
            decreases primes@.len() - k,
        {
            let p = primes[k];
            assert(is_prime(primes@[k as int] as nat));
            if i % p == 0 {
                is_prime_i = false;
                assert((i as nat) % (p as nat) == 0);
                break ;
            }
            k = k + 1;
        }
        if is_prime_i {
            proof {
                assert forall|q: nat| is_prime(q) && q < i implies #[trigger] ((i as nat) % q)
                    != 0 by {
                    assert(primes@.contains(q as u64));
                    let j = choose|j: int| 0 <= j < primes@.len() && primes@[j] == q as u64;
                    assert(i % primes@[j] != 0);
                }
                lemma_prime_by_smaller_primes(i as nat);
            }
            if i >= lower {
                return Some(i);
            }
            let ghost before = primes@;
            primes.push(i);
            proof {
                let grown = primes@;
                assert forall|q: u64| is_prime(q as nat) && q < i + 1 implies grown.contains(q) by {
                    if q == i {
                        assert(grown[grown.len() - 1] == q);
                    } else {
                        assert(before.contains(q));
                        let j = choose|j: int| 0 <= j < before.len() && before[j] == q;
                        assert(grown[j] == q);
                    }
                }
            }
        }
        if i == u64::MAX {
            return None;
        }
        i = i + 1;
    }
}

/// Draws a lower bound below `min` and gives the least odd prime from that
/// bound on; nothing where 64 bits hold no such prime.
pub fn gen_prime(min: u64) -> (found: Option<u64>)
    requires
        min > 0,
    ensures
        match found {
            Some(p) => is_prime(p as nat) && p >= 3 && exists|lower: u64|
                lower < min && is_first_odd_prime_from(p, lower),
            None => forall|q: u64| 3 <= q && min <= q ==> !is_prime(q as nat),
        },
{
    let mut rng = entropy_rng();
    let lower = random_below(&mut rng, min);
    first_odd_prime_from(lower)
}

} // verus!
