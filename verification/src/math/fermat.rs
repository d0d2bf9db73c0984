//! Probabilistic primality tests and prime moduli.

use crate::math::abel::{AbelianMonoid, Modulus, Residue, UnitGroup};
use crate::math::bits::{
    bit_len, lemma_bit_len_bound, lemma_low_zeros, lemma_or_bit_len, low_zeros, or,
};
use crate::math::galois::primefield::{law_fermat, lemma_prime_coprime, PrimeField};
use crate::math::number::{
    gcd, is_prime, lemma_coprime_mul, lemma_gcd_basics, lemma_gcd_reduce, lemma_gcd_sym,
};
use crate::math::modular::{random_mod, reduce, valid_modulus};
use crate::math::uint::{Odd, Uint};
use vstd::arithmetic::div_mod::{
    lemma_fundamental_div_mod, lemma_mod_bound, lemma_mod_multiples_basic, lemma_mul_mod_noop,
    lemma_mul_mod_noop_general, lemma_small_mod,
};
use vstd::arithmetic::power::{lemma1_pow, lemma_pow0, lemma_pow1, lemma_pow_adds, pow};
use vstd::arithmetic::power2::{
    lemma2_to64, lemma_pow2_pos, lemma_pow2_strictly_increases, lemma_pow2_unfold, pow2,
};
use vstd::prelude::*;

verus! {

/// How many witnesses a primality test draws before it accepts a number.
pub const MAX_ITERTIME: usize = 128;

/// A number raised to the power `n - 1`, modulo `n`.
pub open spec fn fermat_power(a: nat, n: nat) -> int {
    pow(a as int, (n - 1) as nat) % (n as int)
}

/// Where `n - 1` is `2^h` times the odd number `d`: `a` to the power
/// `d * 2^j`, modulo `n`.
pub open spec fn miller_rabin_power(a: nat, n: nat, j: nat) -> int {
    let t = (n - 1) as nat;
    pow(a as int, (t / pow2(low_zeros(t))) * pow2(j)) % (n as int)
}

/// Whether `a` passes the Miller-Rabin test for `n`: with `n - 1` written
/// as `2^h` times an odd `d`, either `a^d` is one, or one of `a^d`,
/// `a^(2d)`, ..., `a^(2^(h-1) d)` is minus one, modulo `n`.
pub open spec fn miller_rabin_passes(a: nat, n: nat) -> bool {
    miller_rabin_power(a, n, 0) == 1 || exists|j: nat|
        j < low_zeros((n - 1) as nat) && #[trigger] miller_rabin_power(a, n, j) == n - 1
}

/// Each of the powers of the Miller-Rabin test is the square of the one
/// before.
pub proof fn lemma_miller_rabin_square(a: nat, n: nat, j: nat)
    requires
        n > 0,
    ensures
        miller_rabin_power(a, n, j + 1) == (miller_rabin_power(a, n, j) * miller_rabin_power(
            a,
            n,
            j,
        )) % (n as int),
{
    let t = (n - 1) as nat;
    let d = t / pow2(low_zeros(t));
    let e = d * pow2(j);
    lemma_pow2_unfold(j + 1);
    assert(d * pow2(j + 1) == e + e) by (nonlinear_arith)
        requires
            pow2(j + 1) == 2 * pow2(j),
            e == d * pow2(j),
    ;
    lemma_pow_adds(a as int, e, e);
    lemma_mul_mod_noop(pow(a as int, e), pow(a as int, e), n as int);
}

/// Once one of the powers of the Miller-Rabin test is one, all that
/// follow are one.
pub proof fn lemma_miller_rabin_stays_one(a: nat, n: nat, i: nat, j: nat)
    requires
        n >= 2,
        i <= j,
        miller_rabin_power(a, n, i) == 1,
    ensures
        miller_rabin_power(a, n, j) == 1,
    decreases j - i,
{
    if i < j {
        lemma_miller_rabin_stays_one(a, n, i, (j - 1) as nat);
        lemma_miller_rabin_square(a, n, (j - 1) as nat);
        lemma_small_mod(1, n);
    }
}

/// Modulo a prime, one has no square roots but one and minus one.
pub proof fn lemma_square_root_of_one(x: nat, p: nat)
    requires
        is_prime(p),
        0 < x < p,
        (x * x) % p == 1,
    ensures
        x == 1 || x == p - 1,
{
    if x != 1 && x != p - 1 {
        let u = (x - 1) as nat;
        let v = x + 1;
        lemma_prime_coprime(u, p);
        lemma_prime_coprime(v, p);
        lemma_coprime_mul(u, v, p);
        lemma_gcd_basics(p);
        // (x - 1)(x + 1) is a multiple of p
        lemma_fundamental_div_mod((x * x) as int, p as int);
        let q = (x * x) / p;
        assert(u * v == p * q) by (nonlinear_arith)
            requires
                x * x == p * q + 1,
                u == x - 1,
                v == x + 1,
        ;
        lemma_mod_multiples_basic(q as int, p as int);
        assert(p * q == q * p) by (nonlinear_arith);
    }
}

/// Modulo a prime, the first of the powers of the Miller-Rabin test that
/// is one is the first of all, or comes after one that is minus one.
proof fn lemma_miller_rabin_chain(a: nat, p: nat, j: nat)
    requires
        is_prime(p),
        miller_rabin_power(a, p, j) == 1,
    ensures
        miller_rabin_power(a, p, 0) == 1 || exists|i: nat|
            i < j && #[trigger] miller_rabin_power(a, p, i) == p - 1,
    decreases j,
{
    if j > 0 {
        let before = miller_rabin_power(a, p, (j - 1) as nat);
        lemma_miller_rabin_square(a, p, (j - 1) as nat);
        let t = (p - 1) as nat;
        lemma_mod_bound(
            pow(a as int, (t / pow2(low_zeros(t))) * pow2((j - 1) as nat)),
            p as int,
        );
        if before == 0 {
            assert(0 * 0 == 0);
            lemma_small_mod(0, p);
        }
        lemma_square_root_of_one(before as nat, p);
        if before == 1 {
            lemma_miller_rabin_chain(a, p, (j - 1) as nat);
            if miller_rabin_power(a, p, 0) != 1 {
                let i = choose|i: nat|
                    i < j - 1 && #[trigger] miller_rabin_power(a, p, i) == p - 1;
                assert(i < j && miller_rabin_power(a, p, i) == p - 1);
            }
        } else {
            assert(miller_rabin_power(a, p, (j - 1) as nat) == p - 1);
        }
    }
}

/// Every residue other than zero passes the Miller-Rabin test for an odd
/// prime.
pub proof fn law_miller_rabin_accepts_primes(a: nat, p: nat)
    requires
        is_prime(p),
        p >= 3,
        0 < a < p,
    ensures
        miller_rabin_passes(a, p),
{
    let t = (p - 1) as nat;
    let h = low_zeros(t);
    lemma_low_zeros(t);
    law_fermat(a, p);
    assert(miller_rabin_power(a, p, h) == fermat_power(a, p));
    lemma_miller_rabin_chain(a, p, h);
}

/// An odd prime modulus, as far as the Miller-Rabin test can tell.
#[derive(Debug, Clone, Copy, PartialEq, Eq)]
pub struct PrimeModulus<const LIMBS: usize>(Uint<LIMBS>);

impl<const LIMBS: usize> View for PrimeModulus<LIMBS> {
    type V = nat;

    closed spec fn view(&self) -> nat {
        self.0@
    }
}

/// From one power to the next ones: where `a^e` is `r` modulo `n`,
/// `a^(e + 1)` is `r a` and `a^(2 e)` is `r r` modulo `n`.
proof fn lemma_power_steps(a: nat, e: nat, n: nat, r: int)
    requires
        n > 0,
        pow(a as int, e) % (n as int) == r,
    ensures
        pow(a as int, e + 1) % (n as int) == (r * a) % (n as int),
        pow(a as int, 2 * e) % (n as int) == (r * r) % (n as int),
{
    let x = pow(a as int, e);
    lemma_pow_adds(a as int, e, 1);
    lemma_pow_adds(a as int, e, e);
    lemma_pow1(a as int);
    lemma_mul_mod_noop_general(x, a as int, n as int);
    lemma_mul_mod_noop_general(x, x, n as int);
    assert(2 * e == e + e);
}

/// The witness two fails the Miller-Rabin test for 9.
proof fn lemma_two_refutes_9()
    ensures
        !miller_rabin_passes(2, 9),
{
    let n: nat = 9;
    lemma2_to64();
    reveal_with_fuel(low_zeros, 5);
    assert(low_zeros(8) == 3);
    assert(8nat / pow2(3) == 1);
    lemma_pow0(2);
    lemma_small_mod(1, n);
    assert(pow(2, 0) % 9 == 1);
    lemma_power_steps(2, 0, n, 1);
    assert(pow(2, 1) % 9 == 2);
    assert(1nat * pow2(0) == 1);
    assert(miller_rabin_power(2, n, 0) == 2);
    lemma_miller_rabin_square(2, n, 0);
    assert(miller_rabin_power(2, n, 1) == 4);
    lemma_miller_rabin_square(2, n, 1);
    assert(miller_rabin_power(2, n, 2) == 7);
    assert forall|j: nat| j < low_zeros((n - 1) as nat) implies #[trigger] miller_rabin_power(2, n, j) != n - 1 by {
        assert(j == 0 || j == 1 || j == 2);
    }
}

/// The witness two fails the Miller-Rabin test for 15.
proof fn lemma_two_refutes_15()
    ensures
        !miller_rabin_passes(2, 15),
{
    let n: nat = 15;
    lemma2_to64();
    reveal_with_fuel(low_zeros, 3);
    assert(low_zeros(14) == 1);
    assert(14nat / pow2(1) == 7);
    lemma_pow0(2);
    lemma_small_mod(1, n);
    assert(pow(2, 0) % 15 == 1);
    lemma_power_steps(2, 0, n, 1);
    assert(pow(2, 1) % 15 == 2);
    lemma_power_steps(2, 1, n, 2);
    assert(pow(2, 2) % 15 == 4);
    lemma_power_steps(2, 2, n, 4);
    assert(pow(2, 3) % 15 == 8);
    lemma_power_steps(2, 3, n, 8);
    assert(pow(2, 6) % 15 == 4);
    lemma_power_steps(2, 6, n, 4);
    assert(pow(2, 7) % 15 == 8);
    assert(7nat * pow2(0) == 7);
    assert(miller_rabin_power(2, n, 0) == 8);
    assert forall|j: nat| j < low_zeros((n - 1) as nat) implies #[trigger] miller_rabin_power(2, n, j) != n - 1 by {
        assert(j == 0);
    }
}

/// The witness two fails the Miller-Rabin test for 21.
proof fn lemma_two_refutes_21()
    ensures
        !miller_rabin_passes(2, 21),
{
    let n: nat = 21;
    lemma2_to64();
    reveal_with_fuel(low_zeros, 4);
    assert(low_zeros(20) == 2);
    assert(20nat / pow2(2) == 5);
    lemma_pow0(2);
    lemma_small_mod(1, n);
    assert(pow(2, 0) % 21 == 1);
    lemma_power_steps(2, 0, n, 1);
    assert(pow(2, 1) % 21 == 2);
    lemma_power_steps(2, 1, n, 2);
    assert(pow(2, 2) % 21 == 4);
    lemma_power_steps(2, 2, n, 4);
    assert(pow(2, 4) % 21 == 16);
    lemma_power_steps(2, 4, n, 16);
    assert(pow(2, 5) % 21 == 11);
    assert(5nat * pow2(0) == 5);
    assert(miller_rabin_power(2, n, 0) == 11);
    lemma_miller_rabin_square(2, n, 0);
    assert(miller_rabin_power(2, n, 1) == 16);
    assert forall|j: nat| j < low_zeros((n - 1) as nat) implies #[trigger] miller_rabin_power(2, n, j) != n - 1 by {
        assert(j == 0 || j == 1);
    }
}

/// The witness two fails the Miller-Rabin test for 25.
proof fn lemma_two_refutes_25()
    ensures
        !miller_rabin_passes(2, 25),
{
    let n: nat = 25;
    lemma2_to64();
    reveal_with_fuel(low_zeros, 5);
    assert(low_zeros(24) == 3);
    assert(24nat / pow2(3) == 3);
    lemma_pow0(2);
    lemma_small_mod(1, n);
    assert(pow(2, 0) % 25 == 1);
    lemma_power_steps(2, 0, n, 1);
    assert(pow(2, 1) % 25 == 2);
    lemma_power_steps(2, 1, n, 2);
    assert(pow(2, 2) % 25 == 4);
    lemma_power_steps(2, 2, n, 4);
    assert(pow(2, 3) % 25 == 8);
    assert(3nat * pow2(0) == 3);
    assert(miller_rabin_power(2, n, 0) == 8);
    lemma_miller_rabin_square(2, n, 0);
    assert(miller_rabin_power(2, n, 1) == 14);
    lemma_miller_rabin_square(2, n, 1);
    assert(miller_rabin_power(2, n, 2) == 21);
    assert forall|j: nat| j < low_zeros((n - 1) as nat) implies #[trigger] miller_rabin_power(2, n, j) != n - 1 by {
        assert(j == 0 || j == 1 || j == 2);
    }
}

/// The witness two fails the Miller-Rabin test for 341.
proof fn lemma_two_refutes_341()
    ensures
        !miller_rabin_passes(2, 341),
{
    let n: nat = 341;
    lemma2_to64();
    reveal_with_fuel(low_zeros, 4);
    assert(low_zeros(340) == 2);
    assert(340nat / pow2(2) == 85);
    lemma_pow0(2);
    lemma_small_mod(1, n);
    assert(pow(2, 0) % 341 == 1);
    lemma_power_steps(2, 0, n, 1);
    assert(pow(2, 1) % 341 == 2);
    lemma_power_steps(2, 1, n, 2);
    assert(pow(2, 2) % 341 == 4);
    lemma_power_steps(2, 2, n, 4);
    assert(pow(2, 4) % 341 == 16);
    lemma_power_steps(2, 4, n, 16);
    assert(pow(2, 5) % 341 == 32);
    lemma_power_steps(2, 5, n, 32);
    assert(pow(2, 10) % 341 == 1);
    lemma_power_steps(2, 10, n, 1);
    assert(pow(2, 20) % 341 == 1);
    lemma_power_steps(2, 20, n, 1);
    assert(pow(2, 21) % 341 == 2);
    lemma_power_steps(2, 21, n, 2);
    assert(pow(2, 42) % 341 == 4);
    lemma_power_steps(2, 42, n, 4);
    assert(pow(2, 84) % 341 == 16);
    lemma_power_steps(2, 84, n, 16);
    assert(pow(2, 85) % 341 == 32);
    assert(85nat * pow2(0) == 85);
    assert(miller_rabin_power(2, n, 0) == 32);
    lemma_miller_rabin_square(2, n, 0);
    assert(miller_rabin_power(2, n, 1) == 1);
    assert forall|j: nat| j < low_zeros((n - 1) as nat) implies #[trigger] miller_rabin_power(2, n, j) != n - 1 by {
        assert(j == 0 || j == 1);
    }
}

/// The witness two fails the Miller-Rabin test for 561.
proof fn lemma_two_refutes_561()
    ensures
        !miller_rabin_passes(2, 561),
{
    let n: nat = 561;
    lemma2_to64();
    reveal_with_fuel(low_zeros, 6);
    assert(low_zeros(560) == 4);
    assert(560nat / pow2(4) == 35);
    lemma_pow0(2);
    lemma_small_mod(1, n);
    assert(pow(2, 0) % 561 == 1);
    lemma_power_steps(2, 0, n, 1);
    assert(pow(2, 1) % 561 == 2);
    lemma_power_steps(2, 1, n, 2);
    assert(pow(2, 2) % 561 == 4);
    lemma_power_steps(2, 2, n, 4);
    assert(pow(2, 4) % 561 == 16);
    lemma_power_steps(2, 4, n, 16);
    assert(pow(2, 8) % 561 == 256);
    lemma_power_steps(2, 8, n, 256);
    assert(pow(2, 16) % 561 == 460);
    lemma_power_steps(2, 16, n, 460);
    assert(pow(2, 17) % 561 == 359);
    lemma_power_steps(2, 17, n, 359);
    assert(pow(2, 34) % 561 == 412);
    lemma_power_steps(2, 34, n, 412);
    assert(pow(2, 35) % 561 == 263);
    assert(35nat * pow2(0) == 35);
    assert(miller_rabin_power(2, n, 0) == 263);
    lemma_miller_rabin_square(2, n, 0);
    assert(miller_rabin_power(2, n, 1) == 166);
    lemma_miller_rabin_square(2, n, 1);
    assert(miller_rabin_power(2, n, 2) == 67);
    lemma_miller_rabin_square(2, n, 2);
    assert(miller_rabin_power(2, n, 3) == 1);
    assert forall|j: nat| j < low_zeros((n - 1) as nat) implies #[trigger] miller_rabin_power(2, n, j) != n - 1 by {
        assert(j == 0 || j == 1 || j == 2 || j == 3);
    }
}

/// The witness two fails the Miller-Rabin test for 1105.
proof fn lemma_two_refutes_1105()
    ensures
        !miller_rabin_passes(2, 1105),
{
    let n: nat = 1105;
    lemma2_to64();
    reveal_with_fuel(low_zeros, 6);
    assert(low_zeros(1104) == 4);
    assert(1104nat / pow2(4) == 69);
    lemma_pow0(2);
    lemma_small_mod(1, n);
    assert(pow(2, 0) % 1105 == 1);
    lemma_power_steps(2, 0, n, 1);
    assert(pow(2, 1) % 1105 == 2);
    lemma_power_steps(2, 1, n, 2);
    assert(pow(2, 2) % 1105 == 4);
    lemma_power_steps(2, 2, n, 4);
    assert(pow(2, 4) % 1105 == 16);
    lemma_power_steps(2, 4, n, 16);
    assert(pow(2, 8) % 1105 == 256);
    lemma_power_steps(2, 8, n, 256);
    assert(pow(2, 16) % 1105 == 341);
    lemma_power_steps(2, 16, n, 341);
    assert(pow(2, 17) % 1105 == 682);
    lemma_power_steps(2, 17, n, 682);
    assert(pow(2, 34) % 1105 == 1024);
    lemma_power_steps(2, 34, n, 1024);
    assert(pow(2, 68) % 1105 == 1036);
    lemma_power_steps(2, 68, n, 1036);
    assert(pow(2, 69) % 1105 == 967);
    assert(69nat * pow2(0) == 69);
    assert(miller_rabin_power(2, n, 0) == 967);
    lemma_miller_rabin_square(2, n, 0);
    assert(miller_rabin_power(2, n, 1) == 259);
    lemma_miller_rabin_square(2, n, 1);
    assert(miller_rabin_power(2, n, 2) == 781);
    lemma_miller_rabin_square(2, n, 2);
    assert(miller_rabin_power(2, n, 3) == 1);
    assert forall|j: nat| j < low_zeros((n - 1) as nat) implies #[trigger] miller_rabin_power(2, n, j) != n - 1 by {
        assert(j == 0 || j == 1 || j == 2 || j == 3);
    }
}

/// These odd composites are refuted by the witness two: it fails the
/// Miller-Rabin test for each of them, the Carmichael numbers 561 and 1105
/// and the pseudoprime 341 among them. So the test refuses each of them
/// wherever two is among its witnesses.
pub proof fn law_known_composites()
    ensures
        !miller_rabin_passes(2, 9),
        !miller_rabin_passes(2, 15),
        !miller_rabin_passes(2, 21),
        !miller_rabin_passes(2, 25),
        !miller_rabin_passes(2, 341),
        !miller_rabin_passes(2, 561),
        !miller_rabin_passes(2, 1105),
{
    lemma_two_refutes_9();
    lemma_two_refutes_15();
    lemma_two_refutes_21();
    lemma_two_refutes_25();
    lemma_two_refutes_341();
    lemma_two_refutes_561();
    lemma_two_refutes_1105();
}

/// What the witness `w` says of the odd number `n` to the test `T`. A
/// witness coprime to `n` speaks for it where its residue passes the test.
/// A multiple of `n` says nothing against it. Any other witness has a
/// factor in common with `n`, and speaks against it.
pub open spec fn witness_accepts<T: PseudoPrimalityTester<LIMBS>, const LIMBS: usize>(
    n: nat,
    w: nat,
) -> bool {
    if gcd(w, n) == 1 {
        T::passes(Residue { rep: w % n, modulus: n })
    } else {
        w % n == 0
    }
}

/// The verdict of the test `T` on `n` by the given witnesses: two is
/// prime; other even numbers, zero and one are not; an odd number of three
/// or more is taken for prime where every witness accepts it.
pub open spec fn accepted<T: PseudoPrimalityTester<LIMBS>, const LIMBS: usize>(
    n: nat,
    witnesses: Seq<nat>,
) -> bool {
    n == 2 || (n >= 3 && n % 2 == 1 && forall|i: int|
        0 <= i < witnesses.len() ==> witness_accepts::<T, LIMBS>(n, #[trigger] witnesses[i]))
}

/// A prime is taken for prime, whatever the witnesses.
pub proof fn law_primes_accepted<T: PseudoPrimalityTester<LIMBS>, const LIMBS: usize>(
    n: nat,
    witnesses: Seq<nat>,
)
    requires
        is_prime(n),
    ensures
        accepted::<T, LIMBS>(n, witnesses),
{
    if n != 2 {
        assert(n % 2 != 0);
        assert forall|i: int| 0 <= i < witnesses.len() implies witness_accepts::<T, LIMBS>(
            n,
            #[trigger] witnesses[i],
        ) by {
            let w = witnesses[i];
            lemma_gcd_reduce(w, n);
            lemma_gcd_sym(n, w);
            lemma_mod_bound(w as int, n as int);
            if gcd(w, n) == 1 {
                T::lemma_primes_pass(Residue { rep: w % n, modulus: n });
            } else if w % n != 0 {
                lemma_prime_coprime(w % n, n);
            }
        }
    }
}

/// The Miller-Rabin test refuses each of these odd composites wherever two
/// is among its witnesses.
pub proof fn law_known_composites_refused<const LIMBS: usize>(n: nat, witnesses: Seq<nat>)
    requires
        n == 9 || n == 15 || n == 21 || n == 25 || n == 341 || n == 561 || n == 1105,
        witnesses.contains(2),
    ensures
        !accepted::<MillerRabinTester<LIMBS>, LIMBS>(n, witnesses),
{
    law_known_composites();
    lemma_gcd_sym(2, n);
    lemma_gcd_reduce(n, 2);
    assert(gcd(1, 2) == 1) by {
        reveal_with_fuel(gcd, 4);
    }
    assert(2nat % n == 2) by {
        lemma_small_mod(2, n);
    }
    let i = choose|i: int| 0 <= i < witnesses.len() && witnesses[i] == 2;
    assert(!witness_accepts::<MillerRabinTester<LIMBS>, LIMBS>(n, witnesses[i]));
}

/// A modulus was refused because it is composite.
#[derive(Debug, Clone, Copy, PartialEq, Eq)]
pub struct TryFromCompositeError;

/// A probabilistic test of primality by random witnesses.
pub trait PseudoPrimalityTester<const LIMBS: usize> {
    /// Whether the witness `a` speaks for the primality of its modulus.
    spec fn passes(a: Residue) -> bool;

    /// Tests one witness against its modulus.
    fn check(a: PrimeField<LIMBS>) -> (r: bool)
        requires
            a.wf(),
            64 * LIMBS <= u32::MAX,
        ensures
            r == Self::passes(a@),
    ;

    /// Every unit modulo a prime of three or more speaks for it.
    proof fn lemma_primes_pass(a: Residue)
        requires
            is_prime(a.modulus),
            a.modulus >= 3,
            a.rep < a.modulus,
            gcd(a.rep, a.modulus) == 1,
        ensures
            Self::passes(a),
    ;

    /// Whether `n` is prime, as far as `MAX_ITERTIME` random witnesses can
    /// tell. Two is prime; other even numbers, zero and one are not. For
    /// an odd number of three or more, up to `MAX_ITERTIME` random units
    /// are drawn, and the number is refused on the first that fails the
    /// test: so it is refused only on a witness that fails, and a prime
    /// is never refused.
    fn is_prime(n: Uint<LIMBS>) -> (r: bool)
        requires
            64 * LIMBS <= u32::MAX,
        ensures
            n@ == 2 ==> r,
            is_prime(n@) ==> r,
            n@ < 2 || (n@ != 2 && n@ % 2 == 0) ==> !r,
            n@ >= 3 && !r ==> n@ % 2 == 0 || exists|a: PrimeField<LIMBS>|
                a.wf() && a.is_unit() && a@.modulus == n@ && !#[trigger] Self::passes(a@),
    {
        proof {
            if n@ >= 4 && n@ % 2 == 0 {
                assert(n@ % 2 == 0);
                assert(!is_prime(n@));
            }
        }
        if LIMBS == 0 {
            proof {
                crate::math::uint::lemma_zero_limbs(n.limbs@);
            }
            return false;
        }
        if n.equals(&Uint::from_u64(2)) {
            return true;
        }
        if !n.is_odd() || n.equals(&Uint::one()) {
            return false;
        }
        let modulus = Modulus::from(Odd::from_odd(n));
        let mut round: usize = 0;
        while round < MAX_ITERTIME
            invariant
                modulus.well_formed(),
                modulus@ == n@,
                64 * LIMBS <= u32::MAX,
            decreases MAX_ITERTIME - round,
        {
            let a = modulus.random_make();
            if !Self::check(a) {
                proof {
                    if is_prime(n@) {
                        Self::lemma_primes_pass(a@);
                    }
                }
                return false;
            }
            round += 1;
        }
        true
    }
}

/// Whether `n` is prime, as far as the given witnesses can tell the test
/// `T`: the verdict that `is_prime` gives where it draws them. Nothing is
/// drawn here.
pub fn is_prime_by<T: PseudoPrimalityTester<LIMBS>, const LIMBS: usize>(
    n: Uint<LIMBS>,
    witnesses: &[Uint<LIMBS>],
) -> (r: bool)
    requires
        64 * LIMBS <= u32::MAX,
    ensures
        r == accepted::<T, LIMBS>(n@, witnesses@.map_values(|w: Uint<LIMBS>| w@)),
{
    let ghost numbers = witnesses@.map_values(|w: Uint<LIMBS>| w@);
    if LIMBS == 0 {
        proof {
            crate::math::uint::lemma_zero_limbs(n.limbs@);
        }
        return false;
    }
    if n.equals(&Uint::from_u64(2)) {
        return true;
    }
    if !n.is_odd() || n.equals(&Uint::one()) {
        return false;
    }
    let modulus = Modulus::from(Odd::from_odd(n));
    let mut i: usize = 0;
    while i < witnesses.len()
        invariant
            i <= witnesses.len(),
            modulus.well_formed(),
            modulus@ == n@,
            64 * LIMBS <= u32::MAX,
            numbers == witnesses@.map_values(|w: Uint<LIMBS>| w@),
            forall|j: int| 0 <= j < i ==> witness_accepts::<T, LIMBS>(n@, #[trigger] numbers[j]),
        decreases witnesses.len() - i,
    {
        let w = &witnesses[i];
        assert(numbers[i as int] == w@);
        let accepts = match modulus.make(w) {
            Some(a) => {
                assert(a@ == Residue { rep: w@ % n@, modulus: n@ });
                T::check(a)
            },
            None => modulus.residue(w).is_zero(),
        };
        if !accepts {
            return false;
        }
        i += 1;
    }
    true
}

/// The test by Fermat's little theorem.
#[derive(Debug, Clone, Copy, PartialEq, Eq)]
pub struct FermatTester<const LIMBS: usize>;

impl<const LIMBS: usize> PseudoPrimalityTester<LIMBS> for FermatTester<LIMBS> {
    /// A witness passes when its power by the modulus less one is one.
    open spec fn passes(a: Residue) -> bool {
        fermat_power(a.rep, a.modulus) == 1
    }

    fn check(a: PrimeField<LIMBS>) -> (r: bool) {
        let n = a.modulus();
        proof {
            n.lemma_value(n);
        }
        let exponent = a.modulus().wrapping_sub(&Uint::one());
        a.pow(&exponent).equals(&a.one())
    }

    proof fn lemma_primes_pass(a: Residue) {
        lemma_gcd_basics(a.modulus);
        law_fermat(a.rep, a.modulus);
    }
}

/// The test of Miller and Rabin.
#[derive(Debug, Clone, Copy, PartialEq, Eq)]
pub struct MillerRabinTester<const LIMBS: usize>;

impl<const LIMBS: usize> PseudoPrimalityTester<LIMBS> for MillerRabinTester<LIMBS> {
    open spec fn passes(a: Residue) -> bool {
        miller_rabin_passes(a.rep, a.modulus)
    }

    fn check(a: PrimeField<LIMBS>) -> (r: bool) {
        let ghost n = a@.modulus;
        let ghost x = a@.rep;
        let ghost t = (n - 1) as nat;
        let modulus = a.modulus();
        proof {
            modulus.lemma_value(modulus);
            lemma_low_zeros(t);
            lemma2_to64();
            lemma_bit_len_bound(t, Uint::<LIMBS>::width());
            lemma_bit_len_bound(pow2(low_zeros(t)), Uint::<LIMBS>::width());
            if low_zeros(t) >= Uint::<LIMBS>::width() {
                if low_zeros(t) > Uint::<LIMBS>::width() {
                    lemma_pow2_strictly_increases(Uint::<LIMBS>::width(), low_zeros(t));
                }
            }
        }
        let t_int = a.modulus().wrapping_sub(&Uint::one());
        let h = t_int.trailing_zeros();
        let unit = a.one();
        let minus = a.minus_one();
        let d = t_int.shr(h);
        let mut b = a.pow(&d);
        proof {
            assert(d@ * pow2(0) == d@);
        }
        if b.equals(&unit) {
            return true;
        }
        let mut i: u32 = 0;
        while i < h
            invariant
                a.wf(),
                b.wf(),
                n == a@.modulus,
                x == a@.rep,
                t == n - 1,
                h == low_zeros(t),
                i <= h,
                b@.modulus == n,
                b@.rep == miller_rabin_power(x, n, i as nat),
                unit@.modulus == n,
                unit@.rep == 1,
                minus@.modulus == n,
                minus@.rep == n - 1,
                miller_rabin_power(x, n, 0) != 1,
                forall|j: nat| j < i ==> #[trigger] miller_rabin_power(x, n, j) != n - 1,
            decreases h - i,
        {
            if b.equals(&minus) {
                return true;
            }
            if b.equals(&unit) {
                proof {
                    assert forall|j: nat| j < h implies #[trigger] miller_rabin_power(x, n, j) != n
                        - 1 by {
                        if j >= i {
                            lemma_miller_rabin_stays_one(x, n, i as nat, j);
                        }
                    }
                }
                return false;
            }
            proof {
                lemma_miller_rabin_square(x, n, i as nat);
            }
            b = b.mul(b);
            i += 1;
        }
        false
    }

    proof fn lemma_primes_pass(a: Residue) {
        lemma_gcd_basics(a.modulus);
        law_miller_rabin_accepts_primes(a.rep, a.modulus);
    }
}

impl<const LIMBS: usize> PrimeModulus<LIMBS> {
    /// Whether the modulus is odd and at least three.
    pub open spec fn well_formed(&self) -> bool {
        valid_modulus(self@)
    }

    /// The prime modulus `modulus`, unless the Miller-Rabin test finds it
    /// composite: a modulus of three or more is refused only on a witness
    /// that fails the test.
    pub fn try_from(modulus: Odd<LIMBS>) -> (r: Result<Self, TryFromCompositeError>)
        requires
            64 * LIMBS <= u32::MAX,
        ensures
            r matches Ok(m) ==> m@ == modulus@ && m.well_formed(),
            modulus@ < 3 ==> r.is_err(),
            is_prime(modulus@) ==> r.is_ok(),
            modulus@ >= 3 && r.is_err() ==> exists|a: PrimeField<LIMBS>|
                a.wf() && a.is_unit() && a@.modulus == modulus@ && !#[trigger] miller_rabin_passes(
                    a@.rep,
                    a@.modulus,
                ),
    {
        let n = modulus.get();
        if MillerRabinTester::<LIMBS>::is_prime(n) {
            Ok(PrimeModulus(n))
        } else {
            proof {
                if n@ >= 3 {
                    let a = choose|a: PrimeField<LIMBS>|
                        a.wf() && a.is_unit() && a@.modulus == n@ && !#[trigger] MillerRabinTester::<
                            LIMBS,
                        >::passes(a@);
                    assert(!miller_rabin_passes(a@.rep, a@.modulus));
                }
            }
            Err(TryFromCompositeError)
        }
    }

    /// The candidate made of the drawn number `v`: the highest of `nbits`
    /// bits and the lowest bit are set in it.
    pub open spec fn candidate(v: nat, nbits: nat) -> nat {
        or(v, or(1, pow2((nbits - 1) as nat)))
    }

    /// Whether the Miller-Rabin test refuses `c`: some unit modulo `c`
    /// fails it. No prime is refused.
    pub open spec fn refuted(c: nat) -> bool {
        exists|a: PrimeField<LIMBS>|
            a.wf() && a.is_unit() && a@.modulus == c && !#[trigger] miller_rabin_passes(
                a@.rep,
                a@.modulus,
            )
    }

    /// A prime modulus of exactly `nbits` bits, drawn at random by the
    /// operating system's generator: numbers of up to `nbits` bits are
    /// drawn, the highest and the lowest bit are set in each, and the first
    /// such candidate that passes the Miller-Rabin test is returned. The
    /// bound on the number of draws is out of reach in practice; past it
    /// the result is `None`, and then a candidate of that length was
    /// refused on a witness. For two bits the only candidate is three,
    /// which is prime, and is returned.
    pub fn from_random(nbits: u32) -> (r: Option<Self>)
        requires
            2 <= nbits <= Uint::<LIMBS>::width(),
            64 * LIMBS <= u32::MAX,
        ensures
            match r {
                Some(m) => {
                    &&& m.well_formed()
                    &&& bit_len(m@) == nbits
                    &&& exists|v: nat|
                        v < pow2(nbits as nat) && m@ == #[trigger] Self::candidate(v, nbits as nat)
                },
                None => exists|v: nat|
                    v < pow2(nbits as nat) && Self::refuted(
                        #[trigger] Self::candidate(v, nbits as nat),
                    ),
            },
            nbits == 2 ==> (r matches Some(m) && m@ == 3),
    {
        proof {
            lemma2_to64();
            lemma_pow2_pos((nbits - 1) as nat);
            if nbits - 1 < Uint::<LIMBS>::width() {
                lemma_pow2_strictly_increases((nbits - 1) as nat, Uint::<LIMBS>::width());
            }
            lemma_small_mod(pow2((nbits - 1) as nat), pow2(Uint::<LIMBS>::width()));
            assert(1 * pow2((nbits - 1) as nat) == pow2((nbits - 1) as nat));
        }
        let one = Uint::<LIMBS>::one();
        let mask = one.or(&one.shl(nbits - 1));
        proof {
            lemma_or_bit_len(1, pow2((nbits - 1) as nat));
            lemma_bit_len_bound(pow2((nbits - 1) as nat), nbits as nat);
            lemma_bit_len_bound(pow2((nbits - 1) as nat), (nbits - 1) as nat);
            lemma_pow2_unfold(nbits as nat);
            reveal_with_fuel(bit_len, 2);
            assert(bit_len(mask@) == nbits);
        }
        let ghost mut refused: nat = 0;
        let mut draws: usize = 0;
        while draws < usize::MAX
            invariant
                2 <= nbits <= Uint::<LIMBS>::width(),
                64 * LIMBS <= u32::MAX,
                mask@ == or(1, pow2((nbits - 1) as nat)),
                bit_len(mask@) == nbits,
                mask@ % 2 == 1,
                nbits == 2 ==> draws == 0,
                draws > 0 ==> refused < pow2(nbits as nat) && Self::refuted(
                    Self::candidate(refused, nbits as nat),
                ),
            decreases usize::MAX - draws,
        {
            let candidate = Uint::<LIMBS>::random_bits(nbits).or(&mask);
            let ghost drawn = choose|v: nat| v < pow2(nbits as nat) && candidate@ == or(v, mask@);
            proof {
                lemma_bit_len_bound(drawn, nbits as nat);
                lemma_or_bit_len(drawn, mask@);
                assert(candidate@ == Self::candidate(drawn, nbits as nat));
                // a candidate is three or more
                lemma_bit_len_bound(candidate@, 1);
                lemma2_to64();
                if nbits == 2 {
                    // and of two bits it is three, which is prime
                    lemma_bit_len_bound(candidate@, 2);
                    assert(candidate@ == 3);
                    assert(is_prime(3)) by {
                        assert forall|d: nat| 1 < d < 3 implies #[trigger] (3nat % d) != 0 by {
                            assert(d == 2);
                        }
                    }
                }
            }
            match Self::try_from(Odd::from_odd(candidate)) {
                Ok(modulus) => {
                    return Some(modulus);
                },
                Err(_) => {
                    proof {
                        refused = drawn;
                    }
                },
            }
            draws += 1;
        }
        None
    }

    /// The modulus as an odd integer.
    pub fn to_odd(&self) -> (r: Odd<LIMBS>)
        requires
            self.well_formed(),
        ensures
            r@ == self@,
    {
        Odd::from_odd(self.0)
    }

    /// The modulus of the field that `a` belongs to.
    pub(crate) fn of(a: &PrimeField<LIMBS>) -> (r: Self)
        requires
            a.wf(),
        ensures
            r.well_formed(),
            r@ == a@.modulus,
    {
        PrimeModulus(a.modulus())
    }

    /// The element of the field with the residue of `value`.
    pub fn make(&self, value: &Uint<LIMBS>) -> (r: PrimeField<LIMBS>)
        requires
            self.well_formed(),
        ensures
            r.wf(),
            r@.modulus == self@,
            r@.rep == value@ % self@,
    {
        proof {
            lemma_mod_bound(value@ as int, self@ as int);
        }
        UnitGroup::from_parts(reduce(value, &self.0), self.0)
    }

    /// An element of the field drawn at random by the operating system's
    /// generator.
    pub fn random_make(&self) -> (r: PrimeField<LIMBS>)
        requires
            self.well_formed(),
        ensures
            r.wf(),
            r@.modulus == self@,
    {
        let value = random_mod(&self.0);
        self.make(&value)
    }
}

} // verus!
