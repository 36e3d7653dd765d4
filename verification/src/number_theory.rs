//! Elementary number theory behind the key exchange: divisibility, primes,
//! and the facts about modular powers that make a primitive-root test sound.

use vstd::arithmetic::div_mod::*;
use vstd::arithmetic::mul::*;
use vstd::arithmetic::power::*;
use vstd::prelude::*;
use vstd::set_lib::{lemma_int_range, lemma_len_subset, set_int_range};

verus! {

/// `base` raised to `exp`, reduced modulo `modulus`.
pub open spec fn mod_pow(base: nat, exp: nat, modulus: nat) -> nat {
    (pow(base as int, exp) % (modulus as int)) as nat
}

/// `k` is the multiplicative order of `x` modulo `n`: the least positive
/// exponent that takes `x` to 1.
pub open spec fn has_order(x: nat, n: nat, k: nat) -> bool {
    &&& k > 0
    &&& mod_pow(x, k, n) == 1
    &&& forall|j: nat| 0 < j < k ==> #[trigger] mod_pow(x, j, n) != 1
}

/// A modular power of a sum of exponents is the product of the two powers.
pub proof fn lemma_mod_pow_adds(x: nat, a: nat, b: nat, m: nat)
    requires
        m > 0,
    ensures
        mod_pow(x, a + b, m) == (mod_pow(x, a, m) * mod_pow(x, b, m)) % m,
{
    lemma_pow_adds(x as int, a, b);
    lemma_mul_mod_noop_general(pow(x as int, a), pow(x as int, b), m as int);
    lemma_pow_positive_or_zero(x, a);
    lemma_pow_positive_or_zero(x, b);
    lemma_mod_bound(pow(x as int, a), m as int);
    lemma_mod_bound(pow(x as int, b), m as int);
}

/// A power of a natural number is not negative.
pub proof fn lemma_pow_positive_or_zero(x: nat, e: nat)
    ensures
        pow(x as int, e) >= 0,
{
    if e == 0 {
        lemma_pow0(x as int);
    } else if x == 0 {
        lemma0_pow(e);
    } else {
        lemma_pow_positive(x as int, e);
    }
}

/// `p` is prime: at least 2 and without a divisor strictly between 1 and `p`.
pub open spec fn is_prime(p: nat) -> bool {
    p >= 2 && forall|d: nat| 1 < d < p ==> #[trigger] (p % d) != 0
}

/// A multiple of `d` leaves no remainder.
pub proof fn lemma_multiple_mod(d: nat, k: nat)
    requires
        d > 0,
    ensures
        (d * k) % d == 0,
        (k * d) % d == 0,
{
    lemma_mod_multiples_basic(k as int, d as int);
    lemma_mul_is_commutative(d as int, k as int);
}

/// A number without remainder modulo `d` is `d` times its quotient.
pub proof fn lemma_mod_zero_multiple(x: nat, d: nat)
    requires
        d > 0,
        x % d == 0,
    ensures
        x == d * (x / d),
{
    lemma_fundamental_div_mod(x as int, d as int);
}

/// Divisibility is transitive.
pub proof fn lemma_divides_transitive(a: nat, b: nat, c: nat)
    requires
        a > 0,
        b > 0,
        b % a == 0,
        c % b == 0,
    ensures
        c % a == 0,
{
    lemma_mod_zero_multiple(b, a);
    lemma_mod_zero_multiple(c, b);
    let j = b / a;
    let k = c / b;
    assert(c == a * (j * k)) by (nonlinear_arith)
        requires
            b == a * j,
            c == b * k,
    ;
    lemma_multiple_mod(a, j * k);
}

/// Every number from 2 on has a prime divisor.
pub proof fn lemma_prime_factor_exists(n: nat) -> (p: nat)
    requires
        n >= 2,
    ensures
        is_prime(p),
        n % p == 0,
        p <= n,
    decreases n,
{
    if is_prime(n) {
        lemma_mod_self_0(n as int);
        n
    } else {
        let d = choose|d: nat| 1 < d < n && #[trigger] (n % d) == 0;
        let p = lemma_prime_factor_exists(d);
        lemma_divides_transitive(p, d, n);
        p
    }
}

/// Modulo a prime, two nonzero residues never multiply to zero.
pub proof fn lemma_prime_residues_multiply_nonzero(p: nat, a: nat, b: nat)
    requires
        is_prime(p),
        0 < a < p,
        0 < b < p,
    ensures
        (a * b) % p != 0,
    decreases a,
{
    if a == 1 {
        assert(a * b == b) by (nonlinear_arith)
            requires
                a == 1,
        ;
        lemma_small_mod(b, p);
    } else {
        let q = p / a;
        let r = p % a;
        assert(r != 0);
        lemma_fundamental_div_mod(p as int, a as int);
        lemma_mod_bound(p as int, a as int);
        if (a * b) % p == 0 {
            lemma_mod_zero_multiple(a * b, p);
            let k = (a * b) / p;
            assert(q * k <= b) by (nonlinear_arith)
                requires
                    p == a * q + r,
                    a * b == p * k,
                    a > 0,
                    r >= 0,
            ;
            let c = (b - q * k) as nat;
            assert(r * b == p * c) by (nonlinear_arith)
                requires
                    p == a * q + r,
                    a * b == p * k,
                    c == b - q * k,
            ;
            lemma_multiple_mod(p, c);
            lemma_prime_residues_multiply_nonzero(p, r, b);
        }
    }
}

/// Euclid's lemma: a prime that divides a product divides one of its factors.
pub proof fn lemma_prime_divides_product(p: nat, x: nat, y: nat)
    requires
        is_prime(p),
        (x * y) % p == 0,
    ensures
        x % p == 0 || y % p == 0,
{
    let a = x % p;
    let b = y % p;
    lemma_mul_mod_noop_general(x as int, y as int, p as int);
    lemma_mod_bound(x as int, p as int);
    lemma_mod_bound(y as int, p as int);
    if a != 0 && b != 0 {
        lemma_prime_residues_multiply_nonzero(p, a, b);
    }
}

/// The product of the members of a sequence.
pub open spec fn product(s: Seq<int>) -> int
    decreases s.len(),
{
    if s.len() == 0 {
        1
    } else {
        product(s.drop_last()) * s.last()
    }
}

/// The product of the numbers from 1 to `m`.
pub open spec fn factorial(m: nat) -> int
    decreases m,
{
    if m == 0 {
        1
    } else {
        m * factorial((m - 1) as nat)
    }
}

/// Any member of a sequence can be taken out of its product.
proof fn lemma_product_remove(s: Seq<int>, j: int)
    requires
        0 <= j < s.len(),
    ensures
        product(s) == s[j] * product(s.remove(j)),
    decreases s.len(),
{
    let last = s.len() - 1;
    if j == last {
        assert(s.remove(j) =~= s.drop_last());
        lemma_mul_is_commutative(s[j], product(s.drop_last()));
    } else {
        let t = s.drop_last();
        let r = s.remove(j);
        lemma_product_remove(t, j);
        assert(r.drop_last() =~= t.remove(j));
        assert(r.last() == s.last());
        lemma_mul_is_associative(s[j], product(t.remove(j)), s.last());
    }
}

/// A sequence that holds each number from 1 to `m` once has the product
/// `m!`, in whatever order it holds them.
proof fn lemma_permutation_product(s: Seq<int>, m: nat)
    requires
        s.len() == m,
        s.no_duplicates(),
        forall|i: int| 0 <= i < m ==> 1 <= #[trigger] s[i] <= m,
    ensures
        product(s) == factorial(m),
    decreases m,
{
    if m > 0 {
        if !s.contains(m as int) {
            s.unique_seq_to_set();
            lemma_int_range(1, m as int);
            assert(s.to_set().subset_of(set_int_range(1, m as int))) by {
                assert forall|a: int| s.to_set().contains(a) implies set_int_range(
                    1,
                    m as int,
                ).contains(a) by {
                    let i = choose|i: int| 0 <= i < s.len() && s[i] == a;
                    assert(1 <= s[i] <= m);
                }
            }
            lemma_len_subset(s.to_set(), set_int_range(1, m as int));
            assert(false);
        }
        let j = choose|j: int| 0 <= j < s.len() && s[j] == m as int;
        let r = s.remove(j);
        s.remove_ensures(j);
        assert forall|a: int, b: int| 0 <= a < r.len() && 0 <= b < r.len() && a != b implies r[a]
            != r[b] by {
            let a0 = if a < j {
                a
            } else {
                a + 1
            };
            let b0 = if b < j {
                b
            } else {
                b + 1
            };
            assert(r[a] == s[a0] && r[b] == s[b0]);
        }
        assert forall|i: int| 0 <= i < m - 1 implies 1 <= #[trigger] r[i] <= m - 1 by {
            let i0 = if i < j {
                i
            } else {
                i + 1
            };
            assert(r[i] == s[i0]);
            assert(1 <= s[i0] <= m);
            assert(s[i0] != s[j]);
        }
        lemma_permutation_product(r, (m - 1) as nat);
        lemma_product_remove(s, j);
    }
}

/// The members of `s`, each multiplied by `a` and reduced modulo `p`.
spec fn scaled(s: Seq<int>, a: int, p: int) -> Seq<int> {
    Seq::new(s.len(), |i: int| (a * s[i]) % p)
}

/// Modulo `p`, the product of the scaled members is the product of the
/// members times a power of `a`.
proof fn lemma_scaled_product(s: Seq<int>, a: int, p: int)
    requires
        p > 0,
    ensures
        product(scaled(s, a, p)) % p == (pow(a, s.len()) * product(s)) % p,
    decreases s.len(),
{
    if s.len() == 0 {
        lemma_pow0(a);
    } else {
        let t = s.drop_last();
        let l = s.last();
        let n = s.len();
        lemma_scaled_product(t, a, p);
        assert(scaled(s, a, p).drop_last() =~= scaled(t, a, p));
        let st = product(scaled(t, a, p));
        let pt = product(t);
        let at = pow(a, t.len());
        assert(product(scaled(s, a, p)) == st * ((a * l) % p));
        lemma_mul_mod_noop_right(st, a * l, p);
        lemma_mul_mod_noop_left(st, a * l, p);
        lemma_mul_mod_noop_left(at * pt, a * l, p);
        assert(pow(a, n) == at * a) by {
            lemma_pow_adds(a, t.len(), 1);
            lemma_pow1(a);
        }
        assert((at * pt) * (a * l) == (at * a) * (pt * l)) by (nonlinear_arith);
    }
}

/// Below a prime `p`, no factorial is a multiple of `p`.
proof fn lemma_factorial_not_multiple(p: nat, m: nat)
    requires
        is_prime(p),
        m < p,
    ensures
        factorial(m) >= 1,
        factorial(m) % (p as int) != 0,
    decreases m,
{
    if m == 0 {
        lemma_small_mod(1, p);
    } else {
        let f = factorial((m - 1) as nat);
        lemma_factorial_not_multiple(p, (m - 1) as nat);
        assert(m * f >= 1) by (nonlinear_arith)
            requires
                m >= 1,
                f >= 1,
        ;
        if (m * f) % (p as int) == 0 {
            lemma_prime_divides_product(p, m, f as nat);
            lemma_small_mod(m, p);
        }
    }
}

/// Fermat's little theorem: a number that a prime `p` does not divide,
/// raised to `p - 1`, is 1 modulo `p`.
pub proof fn lemma_fermat_little(p: nat, a: nat)
    requires
        is_prime(p),
        a % p != 0,
    ensures
        mod_pow(a, (p - 1) as nat, p) == 1,
{
    let m = (p - 1) as nat;
    let pi = p as int;
    let ai = a as int;
    let ident = Seq::new(m, |i: int| i + 1);
    let s = scaled(ident, ai, pi);
    assert forall|i: int| 0 <= i < m implies 1 <= #[trigger] s[i] <= m by {
        lemma_mod_bound(ai * (i + 1), pi);
        if s[i] == 0 {
            assert(a * ((i + 1) as nat) == ai * (i + 1)) by (nonlinear_arith)
                requires
                    ai == a,
                    i + 1 >= 0,
            ;
            lemma_prime_divides_product(p, a, (i + 1) as nat);
            lemma_small_mod((i + 1) as nat, p);
        }
    }
    assert forall|i: int, j: int| 0 <= i < s.len() && 0 <= j < s.len() && i != j implies s[i]
        != s[j] by {
        if s[i] == s[j] {
            let (lo, hi) = if i < j {
                (i, j)
            } else {
                (j, i)
            };
            let gap = (hi - lo) as nat;
            lemma_mod_equivalence(ai * (hi + 1), ai * (lo + 1), pi);
            assert(ai * (hi + 1) - ai * (lo + 1) == a * gap) by (nonlinear_arith)
                requires
                    ai == a,
                    gap == hi - lo,
            ;
            lemma_prime_divides_product(p, a, gap);
            lemma_small_mod(gap, p);
        }
    }
    assert(s.no_duplicates());
    lemma_permutation_product(s, m);
    lemma_permutation_product(ident, m);
    lemma_scaled_product(ident, ai, pi);
    let f = factorial(m);
    let big = pow(ai, m);
    lemma_factorial_not_multiple(p, m);
    assert(a >= 1) by {
        if a == 0 {
            lemma_small_mod(0, p);
        }
    }
    lemma_pow_positive(ai, m);
    assert(f % pi == (big * f) % pi);
    lemma_mod_equivalence(big * f, f, pi);
    assert(big * f - f == (big - 1) * f) by (nonlinear_arith);
    assert(((big - 1) as nat) * (f as nat) == (big - 1) * f) by (nonlinear_arith)
        requires
            big >= 1,
            f >= 1,
    ;
    lemma_prime_divides_product(p, (big - 1) as nat, f as nat);
    lemma_mod_equivalence(big, 1, pi);
    lemma_small_mod(1, p);
}

/// Where some positive power up to `bound` is 1, there is a least one.
proof fn lemma_least_unit_power(x: nat, n: nat, from: nat, bound: nat) -> (d: nat)
    requires
        0 < from <= bound,
        mod_pow(x, bound, n) == 1,
        forall|j: nat| 0 < j < from ==> #[trigger] mod_pow(x, j, n) != 1,
    ensures
        from <= d <= bound,
        has_order(x, n, d),
    decreases bound - from,
{
    if mod_pow(x, from, n) == 1 {
        from
    } else {
        lemma_least_unit_power(x, n, from + 1, bound)
    }
}

/// A power whose exponent is a multiple of an exponent that gives 1 is 1.
proof fn lemma_unit_power_multiple(x: nat, n: nat, d: nat, t: nat)
    requires
        n > 1,
        mod_pow(x, d, n) == 1,
    ensures
        mod_pow(x, d * t, n) == 1,
{
    let xi = x as int;
    let ni = n as int;
    lemma_pow_multiplies(xi, d, t);
    lemma_pow_mod_noop(pow(xi, d), t, ni);
    lemma1_pow(t);
    lemma_small_mod(1, n);
}

/// The generator test is sound: modulo a prime `n` above 2, a number in
/// `[1, n)` whose powers to `(n - 1) / q` differ from 1, for every prime `q`
/// that divides `n - 1`, has the multiplicative order `n - 1`.
pub proof fn lemma_generator_has_full_order(x: nat, n: nat)
    requires
        is_prime(n),
        n > 2,
        1 <= x < n,
        forall|q: nat|
            is_prime(q) && (n - 1) % (q as int) == 0 ==> #[trigger] mod_pow(
                x,
                ((n - 1) / (q as int)) as nat,
                n,
            ) != 1,
    ensures
        has_order(x, n, (n - 1) as nat),
{
    let phi = (n - 1) as nat;
    lemma_small_mod(x, n);
    lemma_fermat_little(n, x);
    if exists|j: nat| 0 < j < phi && #[trigger] mod_pow(x, j, n) == 1 {
        let j = choose|j: nat| 0 < j < phi && #[trigger] mod_pow(x, j, n) == 1;
        let d = lemma_least_unit_power(x, n, 1, j);
        let k = phi / d;
        let r = phi % d;
        lemma_fundamental_div_mod(phi as int, d as int);
        lemma_mod_bound(phi as int, d as int);
        lemma_div_pos_is_pos(phi as int, d as int);
        // The remainder of `phi` by `d` gives 1 too, so it is zero.
        lemma_unit_power_multiple(x, n, d, k);
        assert(mod_pow(x, r, n) == 1) by {
            lemma_pow_adds(x as int, d * k, r);
            lemma_mul_mod_noop_left(pow(x as int, d * k), pow(x as int, r), n as int);
            assert(1 * pow(x as int, r) == pow(x as int, r));
        }
        assert(r == 0);
        assert(k >= 2) by (nonlinear_arith)
            requires
                phi == d * k,
                d < phi,
                d > 0,
                k >= 0,
        ;
        let q = lemma_prime_factor_exists(k);
        lemma_mod_zero_multiple(k, q);
        let t = k / q;
        assert(phi == q * (d * t)) by (nonlinear_arith)
            requires
                phi == d * k,
                k == q * t,
        ;
        lemma_multiple_mod(q, d * t);
        lemma_div_multiples_vanish((d * t) as int, q as int);
        lemma_mul_is_commutative(q as int, (d * t) as int);
        assert(phi / q == d * t);
        lemma_unit_power_multiple(x, n, d, t);
        assert(mod_pow(x, ((n - 1) / (q as int)) as nat, n) != 1);
        assert(false);
    }
}

} // verus!
