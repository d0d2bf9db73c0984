//! Greatest common divisors and inverses modulo a number.

use vstd::arithmetic::div_mod::{
    lemma_fundamental_div_mod, lemma_mod_multiples_vanish, lemma_mul_mod_noop_general,
    lemma_small_mod,
};
use vstd::arithmetic::power::pow;
use vstd::prelude::*;

verus! {

/// The greatest common divisor of `a` and `b`, by Euclid's algorithm.
pub open spec fn gcd(a: nat, b: nat) -> nat
    decreases b,
{
    if b == 0 {
        a
    } else {
        gcd(b, a % b)
    }
}

/// Whether `i` is the inverse of `a` modulo `n`.
pub open spec fn is_inverse(a: nat, i: nat, n: nat) -> bool {
    i < n && (a * i) % n == 1
}

/// Whether `p` is a prime number.
pub open spec fn is_prime(p: nat) -> bool {
    p >= 2 && forall|d: nat| 1 < d < p ==> #[trigger] (p % d) != 0
}

/// The greatest common divisor does not depend on the order.
pub proof fn lemma_gcd_sym(a: nat, b: nat)
    ensures
        gcd(a, b) == gcd(b, a),
{
    reveal_with_fuel(gcd, 3);
    if a != 0 && b != 0 {
        if a < b {
            lemma_small_mod(a, b);
        } else if b < a {
            lemma_small_mod(b, a);
        }
    }
}

/// The greatest common divisor divides both numbers.
pub proof fn lemma_gcd_divides(a: nat, b: nat)
    ensures
        exists|k: nat| a == #[trigger] (k * gcd(a, b)),
        exists|k: nat| b == #[trigger] (k * gcd(a, b)),
    decreases b,
{
    let g = gcd(a, b);
    if b == 0 {
        assert(a == 1 * g);
        assert(b == 0 * g);
    } else {
        lemma_gcd_divides(b, a % b);
        let kb = choose|k: nat| b == #[trigger] (k * g);
        let kr = choose|k: nat| a % b == #[trigger] (k * g);
        lemma_fundamental_div_mod(a as int, b as int);
        let q = a / b;
        assert(a == (q * kb + kr) * g) by (nonlinear_arith)
            requires
                a == b * q + a % b,
                b == kb * g,
                a % b == kr * g,
        ;
    }
}

/// Bezout's identity: the greatest common divisor is a combination of the
/// two numbers.
pub proof fn lemma_gcd_bezout(a: nat, b: nat)
    ensures
        exists|x: int, y: int| #[trigger] (x * a + y * b) == gcd(a, b),
    decreases b,
{
    if b == 0 {
        assert(1 * a + 0 * b == gcd(a, b));
    } else {
        lemma_gcd_bezout(b, a % b);
        let (x, y) = choose|x: int, y: int| #[trigger] (x * b + y * (a % b)) == gcd(b, a % b);
        lemma_fundamental_div_mod(a as int, b as int);
        let q = (a / b) as int;
        let r = (a % b) as int;
        assert(y * a + (x - y * q) * b == x * b + y * r) by (nonlinear_arith)
            requires
                a == b * q + r,
        ;
    }
}

/// Modulo a number of two or more, the numbers with an inverse are those
/// coprime to it.
pub proof fn lemma_coprime_inverse(a: nat, n: nat)
    requires
        n >= 2,
    ensures
        gcd(a, n) == 1 <==> exists|i: nat| is_inverse(a, i, n),
{
    if gcd(a, n) == 1 {
        lemma_gcd_bezout(a, n);
        let (x, y) = choose|x: int, y: int| #[trigger] (x * a + y * n) == gcd(a, n);
        let i = (x % (n as int)) as nat;
        lemma_mul_mod_noop_general(a as int, x, n as int);
        assert(a * x == 1 + n * (-y)) by (nonlinear_arith)
            requires
                x * a + y * n == 1,
        ;
        lemma_mod_multiples_vanish(-y, 1, n as int);
        lemma_small_mod(1, n);
        assert(is_inverse(a, i, n));
    }
    if exists|i: nat| is_inverse(a, i, n) {
        let i = choose|i: nat| is_inverse(a, i, n);
        let g = gcd(a, n);
        lemma_gcd_divides(a, n);
        let ka = choose|k: nat| a == #[trigger] (k * g);
        let kn = choose|k: nat| n == #[trigger] (k * g);
        lemma_fundamental_div_mod((a * i) as int, n as int);
        let q = ((a * i) / n) as int;
        assert(g * (ka * i - kn * q) == 1) by (nonlinear_arith)
            requires
                a * i == n * q + 1,
                a == ka * g,
                n == kn * g,
        ;
        assert(g == 1) by (nonlinear_arith)
            requires
                g * (ka * i - kn * q) == 1,
        ;
    }
}

/// One is coprime to every number, and to a number of two or more neither
/// zero nor a multiple of it is.
pub proof fn lemma_gcd_basics(n: nat)
    requires
        n >= 2,
    ensures
        gcd(1, n) == 1,
        gcd(0, n) == n,
        gcd((n - 1) as nat, n) == 1,
{
    reveal_with_fuel(gcd, 4);
    lemma_small_mod(1, n);
    lemma_small_mod((n - 1) as nat, n);
    lemma_gcd_sym((n - 1) as nat, n);
    lemma_gcd_sym(1, n);
    assert(n % ((n - 1) as nat) == 1nat % ((n - 1) as nat)) by {
        lemma_mod_multiples_vanish(1, 1, (n - 1) as int);
    }
    if n > 2 {
        lemma_small_mod(1, (n - 1) as nat);
    }
    assert(gcd(n, (n - 1) as nat) == gcd((n - 1) as nat, n % ((n - 1) as nat)));
}

/// The inverse of `a` modulo `n`, where `a` has one.
pub open spec fn mod_inverse(a: nat, n: nat) -> nat {
    choose|i: nat| is_inverse(a, i, n)
}

/// A number has at most one inverse modulo `n`.
pub proof fn lemma_inverse_unique(a: nat, i: nat, n: nat)
    requires
        n >= 2,
        is_inverse(a, i, n),
    ensures
        mod_inverse(a, n) == i,
        is_inverse(a, mod_inverse(a, n), n),
{
    let j = mod_inverse(a, n);
    assert(is_inverse(a, j, n));
    // i = i (a j) = (i a) j = j, modulo n
    lemma_mul_mod_noop_general((a * i) as int, j as int, n as int);
    lemma_mul_mod_noop_general(i as int, (a * j) as int, n as int);
    assert((a * i) * j == i * (a * j)) by (nonlinear_arith);
    assert(1 * j == j && i * 1 == i);
    lemma_small_mod(i, n);
    lemma_small_mod(j, n);
}

/// The product of two numbers comes back from a multiplication by the
/// inverse of the second.
pub proof fn lemma_mul_inverse_cancels(a: nat, b: nat, i: nat, n: nat)
    requires
        n >= 2,
        a < n,
        is_inverse(b, i, n),
    ensures
        (((a * b) % n) * i) % n == a,
{
    lemma_mul_mod_noop_general((a * b) as int, i as int, n as int);
    lemma_mul_mod_noop_general(a as int, (b * i) as int, n as int);
    assert((a * b) * i == a * (b * i)) by (nonlinear_arith);
    assert(a * 1 == a);
    lemma_small_mod(a, n);
}

/// Numbers with an inverse modulo `n` are closed under multiplication.
pub proof fn lemma_coprime_mul(a: nat, b: nat, n: nat)
    requires
        n >= 2,
        gcd(a, n) == 1,
        gcd(b, n) == 1,
    ensures
        gcd((a * b) % n, n) == 1,
{
    lemma_coprime_inverse(a, n);
    lemma_coprime_inverse(b, n);
    let i = choose|i: nat| is_inverse(a, i, n);
    let j = choose|j: nat| is_inverse(b, j, n);
    let k = (i * j) % n;
    lemma_mul_mod_noop_general((a * b) as int, (i * j) as int, n as int);
    lemma_mul_mod_noop_general((a * i) as int, (b * j) as int, n as int);
    assert((a * b) * (i * j) == (a * i) * (b * j)) by (nonlinear_arith);
    assert(1 * 1 == 1);
    lemma_small_mod(1, n);
    vstd::arithmetic::div_mod::lemma_mod_bound((i * j) as int, n as int);
    assert(is_inverse((a * b) % n, k, n));
    lemma_coprime_inverse((a * b) % n, n);
}

/// The greatest common divisor with the modulus does not change on
/// reduction.
pub proof fn lemma_gcd_reduce(v: nat, n: nat)
    requires
        n > 0,
    ensures
        gcd(n, v) == gcd(v % n, n),
{
    lemma_gcd_sym(n, v);
    lemma_gcd_sym(v % n, n);
}

/// The inverse of a number has that number for its inverse.
pub proof fn lemma_inverse_coprime(a: nat, i: nat, n: nat)
    requires
        n >= 2,
        a < n,
        is_inverse(a, i, n),
    ensures
        gcd(i, n) == 1,
        gcd(a, n) == 1,
{
    assert(a * i == i * a) by (nonlinear_arith);
    assert(is_inverse(i, a, n));
    lemma_coprime_inverse(i, n);
    lemma_coprime_inverse(a, n);
}

/// Numbers with an inverse modulo `n` are closed under powers.
pub proof fn lemma_coprime_pow(a: nat, e: nat, n: nat)
    requires
        n >= 2,
        gcd(a, n) == 1,
    ensures
        pow(a as int, e) % (n as int) >= 0,
        gcd((pow(a as int, e) % (n as int)) as nat, n) == 1,
    decreases e,
{
    vstd::arithmetic::div_mod::lemma_mod_bound(pow(a as int, e), n as int);
    if e == 0 {
        vstd::arithmetic::power::lemma_pow0(a as int);
        lemma_small_mod(1, n);
        lemma_gcd_basics(n);
    } else {
        lemma_coprime_pow(a, (e - 1) as nat, n);
        let rest = pow(a as int, (e - 1) as nat);
        let reduced = (rest % (n as int)) as nat;
        vstd::arithmetic::div_mod::lemma_mod_bound(rest, n as int);
        assert(pow(a as int, e) == a * rest) by {
            reveal(pow);
        }
        lemma_mul_mod_noop_general(a as int, rest, n as int);
        lemma_coprime_mul(a, reduced, n);
    }
}

/// A number with no divisor below `k`, where `k * k` exceeds it, is prime.
pub proof fn lemma_prime_by_trial(p: nat, k: nat)
    requires
        p >= 2,
        k * k > p,
        forall|d: nat| 1 < d < k && d < p ==> #[trigger] (p % d) != 0,
    ensures
        is_prime(p),
{
    assert forall|d: nat| 1 < d < p implies #[trigger] (p % d) != 0 by {
        if p % d == 0 {
            let e = p / d;
            vstd::arithmetic::div_mod::lemma_fundamental_div_mod(p as int, d as int);
            assert(p == d * e);
            assert(1 < e < p && d * e == e * d && (d >= k && e >= k ==> d * e >= k * k))
                by (nonlinear_arith)
                requires
                    p == d * e,
                    1 < d < p,
            ;
            assert(p % e == 0) by {
                vstd::arithmetic::div_mod::lemma_mod_multiples_basic(d as int, e as int);
            }
            assert(d < k || e < k);
            if d >= k {
                assert(p % e != 0);
            }
        }
    }
}

/// None of these primes has a divisor between one and its square root, on
/// machine words.
#[verifier::rlimit(100)]
proof fn lemma_small_primes_word(d: u32)
    by (bit_vector)
    requires
        1 < d < 257,
    ensures
        d < 3 ==> 3u32 % d != 0,
        d < 5 ==> 5u32 % d != 0,
        d < 7 ==> 7u32 % d != 0,
        d < 11 ==> 11u32 % d != 0,
        d < 13 ==> 13u32 % d != 0,
        d < 17 ==> 17u32 % d != 0,
        d < 19 ==> 19u32 % d != 0,
        d < 23 ==> 23u32 % d != 0,
        d < 29 ==> 29u32 % d != 0,
        d < 31 ==> 31u32 % d != 0,
        d < 37 ==> 37u32 % d != 0,
        d < 101 ==> 101u32 % d != 0,
        d < 103 ==> 103u32 % d != 0,
        d < 65537 ==> 65537u32 % d != 0,
{
}

/// The Mersenne prime 2147483647 has no divisor between one and its square
/// root, on machine words.
#[verifier::rlimit(100)]
proof fn lemma_mersenne_word(d: u32)
    by (bit_vector)
    requires
        1 < d < 46342,
    ensures
        2147483647u32 % d != 0,
{
}

/// These numbers are prime: the small primes that the tests of primality
/// are tried on, the Fermat prime 65537 and the Mersenne prime
/// 2147483647. A test of primality by witnesses therefore never refuses
/// one of them.
pub proof fn law_known_primes()
    ensures
        is_prime(2),
        is_prime(3),
        is_prime(5),
        is_prime(7),
        is_prime(11),
        is_prime(13),
        is_prime(17),
        is_prime(19),
        is_prime(23),
        is_prime(29),
        is_prime(31),
        is_prime(37),
        is_prime(101),
        is_prime(103),
        is_prime(65537),
        is_prime(2147483647),
{
    assert forall|d: nat| 1 < d < 257 && d < 3 implies #[trigger] (3nat % d) != 0 by {
        lemma_small_primes_word(d as u32);
    }
    lemma_prime_by_trial(3, 257);
    assert forall|d: nat| 1 < d < 257 && d < 5 implies #[trigger] (5nat % d) != 0 by {
        lemma_small_primes_word(d as u32);
    }
    lemma_prime_by_trial(5, 257);
    assert forall|d: nat| 1 < d < 257 && d < 7 implies #[trigger] (7nat % d) != 0 by {
        lemma_small_primes_word(d as u32);
    }
    lemma_prime_by_trial(7, 257);
    assert forall|d: nat| 1 < d < 257 && d < 11 implies #[trigger] (11nat % d) != 0 by {
        lemma_small_primes_word(d as u32);
    }
    lemma_prime_by_trial(11, 257);
    assert forall|d: nat| 1 < d < 257 && d < 13 implies #[trigger] (13nat % d) != 0 by {
        lemma_small_primes_word(d as u32);
    }
    lemma_prime_by_trial(13, 257);
    assert forall|d: nat| 1 < d < 257 && d < 17 implies #[trigger] (17nat % d) != 0 by {
        lemma_small_primes_word(d as u32);
    }
    lemma_prime_by_trial(17, 257);
    assert forall|d: nat| 1 < d < 257 && d < 19 implies #[trigger] (19nat % d) != 0 by {
        lemma_small_primes_word(d as u32);
    }
    lemma_prime_by_trial(19, 257);
    assert forall|d: nat| 1 < d < 257 && d < 23 implies #[trigger] (23nat % d) != 0 by {
        lemma_small_primes_word(d as u32);
    }
    lemma_prime_by_trial(23, 257);
    assert forall|d: nat| 1 < d < 257 && d < 29 implies #[trigger] (29nat % d) != 0 by {
        lemma_small_primes_word(d as u32);
    }
    lemma_prime_by_trial(29, 257);
    assert forall|d: nat| 1 < d < 257 && d < 31 implies #[trigger] (31nat % d) != 0 by {
        lemma_small_primes_word(d as u32);
    }
    lemma_prime_by_trial(31, 257);
    assert forall|d: nat| 1 < d < 257 && d < 37 implies #[trigger] (37nat % d) != 0 by {
        lemma_small_primes_word(d as u32);
    }
    lemma_prime_by_trial(37, 257);
    assert forall|d: nat| 1 < d < 257 && d < 101 implies #[trigger] (101nat % d) != 0 by {
        lemma_small_primes_word(d as u32);
    }
    lemma_prime_by_trial(101, 257);
    assert forall|d: nat| 1 < d < 257 && d < 103 implies #[trigger] (103nat % d) != 0 by {
        lemma_small_primes_word(d as u32);
    }
    lemma_prime_by_trial(103, 257);
    assert forall|d: nat| 1 < d < 257 && d < 65537 implies #[trigger] (65537nat % d) != 0 by {
        lemma_small_primes_word(d as u32);
    }
    lemma_prime_by_trial(65537, 257);
    assert forall|d: nat| 1 < d < 46342 && d < 2147483647 implies #[trigger] (2147483647nat % d)
        != 0 by {
        lemma_mersenne_word(d as u32);
    }
    assert(46342 * 46342 > 2147483647) by (nonlinear_arith);
    lemma_prime_by_trial(2147483647, 46342);
}

} // verus!
