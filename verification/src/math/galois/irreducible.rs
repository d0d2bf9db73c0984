//! The irreducible polynomials that define the binary fields.
//!
//! For each supported degree the table holds one irreducible polynomial
//! over GF(2), without its leading term: the polynomial of degree `exp` is
//! `x^exp` plus the terms listed here. All of them have the constant term.
//!
//! That every polynomial of the table is irreducible is proved here, by
//! the test by squares: for each degree the squares of the powers of `x`
//! are tabled, each entry is checked to follow from the one before, and
//! the two conditions of the test are proved on machine words.

use crate::math::bits::{bit_len, lemma_bit_len_bound};
use crate::math::galois::squares::{
    bit_sum, lemma_bit_word, lemma_irreducible_by_squares, lemma_mulx_reduced, lemma_mulx_word,
    lemma_square_as_sum, lemma_square_table, lemma_xor_u128, mulx, mulx_word, square,
};
use crate::math::poly::irreducible;
use vstd::arithmetic::div_mod::lemma_small_mod;
use vstd::arithmetic::power2::{
    lemma2_to64, lemma2_to64_rest, lemma_pow2_adds, lemma_pow2_strictly_increases,
    lemma_pow2_unfold, pow2,
};
use vstd::prelude::*;

verus! {

/// The terms below the leading one of the irreducible polynomial of degree
/// `exp`, or `None` where the table has no polynomial of that degree.
///
/// | degree | polynomial |
/// |---|---|
/// | 2 | x^2 + x + 1 |
/// | 3 | x^3 + x + 1 |
/// | 4 | x^4 + x + 1 |
/// | 5 | x^5 + x^2 + 1 |
/// | 6 | x^6 + x + 1 |
/// | 7 | x^7 + x + 1 |
/// | 8 | x^8 + x^4 + x^3 + x + 1 |
/// | 9 | x^9 + x + 1 |
/// | 10 | x^10 + x^3 + 1 |
/// | 11 | x^11 + x^2 + 1 |
/// | 12 | x^12 + x^3 + 1 |
/// | 13 | x^13 + x^4 + x^3 + x + 1 |
/// | 14 | x^14 + x^5 + 1 |
/// | 15 | x^15 + x + 1 |
/// | 16 | x^16 + x^5 + x^3 + x + 1 |
/// | 32 | x^32 + x^7 + x^3 + x^2 + 1 |
/// | 64 | x^64 + x^4 + x^3 + x + 1 |
/// | 128 | x^128 + x^7 + x^2 + x + 1 |
pub open spec fn low_terms(exp: u32) -> Option<u64> {
    if exp == 2 || exp == 3 || exp == 4 || exp == 6 || exp == 7 || exp == 9 || exp == 15 {
        Some(0x3u64)
    } else if exp == 5 || exp == 11 {
        Some(0x5u64)
    } else if exp == 10 || exp == 12 {
        Some(0x9u64)
    } else if exp == 14 {
        Some(0x21u64)
    } else if exp == 8 || exp == 13 || exp == 64 {
        Some(0x1bu64)
    } else if exp == 16 {
        Some(0x2bu64)
    } else if exp == 32 {
        Some(0x8du64)
    } else if exp == 128 {
        Some(0x87u64)
    } else {
        None
    }
}

/// The table entry for degree `exp`.
pub fn irreducible_low_terms(exp: u32) -> (r: Option<u64>)
    ensures
        r == low_terms(exp),
{
    if exp == 2 || exp == 3 || exp == 4 || exp == 6 || exp == 7 || exp == 9 || exp == 15 {
        Some(0x3)
    } else if exp == 5 || exp == 11 {
        Some(0x5)
    } else if exp == 10 || exp == 12 {
        Some(0x9)
    } else if exp == 14 {
        Some(0x21)
    } else if exp == 8 || exp == 13 || exp == 64 {
        Some(0x1b)
    } else if exp == 16 {
        Some(0x2b)
    } else if exp == 32 {
        Some(0x8d)
    } else if exp == 128 {
        Some(0x87)
    } else {
        None
    }
}

/// The whole polynomial of degree `exp`, leading term included.
pub open spec fn modulus_poly(exp: u32) -> nat {
    pow2(exp as nat) + low_terms(exp).unwrap() as nat
}

/// Every entry has the constant term and stays below its leading term.
pub proof fn lemma_low_terms(exp: u32)
    requires
        low_terms(exp).is_some(),
    ensures
        exp >= 2,
        low_terms(exp).unwrap() % 2 == 1,
        low_terms(exp).unwrap() < pow2(exp as nat),
        low_terms(exp).unwrap() / 2 < pow2((exp - 1) as nat),
{
    lemma2_to64();
    if exp > 16 {
        lemma_pow2_strictly_increases(16, (exp - 1) as nat);
        lemma_pow2_strictly_increases(16, exp as nat);
    }
}

/// The squares of the powers of `x` below degree 2, modulo the
/// polynomial of degree 2: entry `k` is `x^(2k)`, reduced.
pub open spec fn squares_2(k: u128) -> u128 {
    if k == 0 {
        0x1
    } else if k == 1 {
        0x3
    } else {
        0
    }
}

/// The sum of the entries of that table at the bits of `v` below bit `k`.
pub open spec fn square_2(v: u128, k: u128) -> u128
    decreases k,
{
    if k == 0 {
        0
    } else {
        square_2(v, (k - 1) as u128) ^ (if (v >> ((k - 1) as u128)) & 1 == 1 {
            squares_2((k - 1) as u128)
        } else {
            0
        })
    }
}

/// The table of degree 2 as numbers.
pub open spec fn table_2() -> spec_fn(nat) -> nat {
    |i: nat| squares_2(i as u128) as nat
}

/// On machine words, for degree 2: every entry of the table is `x` times
/// `x` times the entry before; no word but zero and one is its own square,
/// and none but zero has the square zero.
#[verifier::rlimit(100)]
proof fn lemma_words_2(v: u128, k: u128)
    by (bit_vector)
    requires
        v < 0x4,
    ensures
        k < 1 ==> mulx_word(mulx_word(squares_2(k), 0x2, 0x3), 0x2, 0x3)
            == squares_2((k + 1) as u128),
        k < 2 ==> squares_2(k) < 0x4,
        square_2(v, 2) == v ==> v == 0 || v == 1,
        square_2(v, 2) == 0 ==> v == 0,
        0x2u128 & ((0x2u128 - 1) as u128) == 0,
{
}

/// The sum over the table is the same on numbers and on machine words.
proof fn lemma_sum_2(v: u128, k: u128)
    requires
        k <= 2,
    ensures
        bit_sum(v as nat, k as nat, table_2()) == square_2(v, k) as nat,
    decreases k,
{
    if k > 0 {
        let j = (k - 1) as u128;
        lemma_sum_2(v, j);
        lemma_bit_word(v, j);
        lemma_xor_u128(square_2(v, j), if (v >> j) & 1 == 1 { squares_2(j) } else { 0 });
    }
}

/// The polynomial of degree 2 of the table is irreducible.
pub proof fn lemma_irreducible_2()
    ensures
        irreducible(modulus_poly(2)),
{
    let p = modulus_poly(2);
    let table = table_2();
    let h: u128 = 0x2;
    let low: u128 = 0x3;
    assert(pow2(2) + low == p && h as nat == pow2(1) && pow2(2) == 2 * h && pow2(128)
        == 0xffff_ffff_ffff_ffff_ffff_ffff_ffff_ffff + 1 && pow2(2) <= pow2(128) && pow2(3)
        == 2 * pow2(2)) by {
        lemma2_to64();
        lemma_pow2_adds(64, 64);
        lemma_pow2_unfold(3);
        if 2 < 128 {
            lemma_pow2_strictly_increases(2, 128);
        }
    }
    lemma_words_2(0, 0);
    lemma_bit_len_bound(p, 2);
    lemma_bit_len_bound(p, 3);
    assert forall|k: nat| k + 1 < 2 implies #[trigger] table(k + 1) == mulx(
        mulx(table(k), p),
        p,
    ) by {
        let c = squares_2(k as u128);
        lemma_words_2(0, k as u128);
        lemma_mulx_word(c, 2, h, low);
        let d = mulx_word(c, h, low);
        lemma_bit_len_bound(c as nat, 2);
        lemma_mulx_reduced(c as nat, p);
        lemma_bit_len_bound(d as nat, 2);
        lemma_mulx_word(d, 2, h, low);
    }
    assert forall|i: nat| i < 2 implies #[trigger] table(i) == square(pow2(i), p) by {
        lemma_square_table(table, 2, p, i);
    }
    assert forall|v: nat| bit_len(v) <= 2 implies (#[trigger] square(v, p) == v ==> v == 0 || v
        == 1) && (square(v, p) == 0 ==> v == 0) by {
        lemma_bit_len_bound(v, 2);
        let w = v as u128;
        lemma_small_mod(v, pow2(2));
        lemma_square_as_sum(v, 2, 2, p, table);
        lemma_sum_2(w, 2);
        lemma_words_2(w, 0);
    }
    lemma_irreducible_by_squares(p, 2);
}

/// The squares of the powers of `x` below degree 3, modulo the
/// polynomial of degree 3: entry `k` is `x^(2k)`, reduced.
pub open spec fn squares_3(k: u128) -> u128 {
    if k == 0 {
        0x1
    } else if k == 1 {
        0x4
    } else if k == 2 {
        0x6
    } else {
        0
    }
}

/// The sum of the entries of that table at the bits of `v` below bit `k`.
pub open spec fn square_3(v: u128, k: u128) -> u128
    decreases k,
{
    if k == 0 {
        0
    } else {
        square_3(v, (k - 1) as u128) ^ (if (v >> ((k - 1) as u128)) & 1 == 1 {
            squares_3((k - 1) as u128)
        } else {
            0
        })
    }
}

/// The table of degree 3 as numbers.
pub open spec fn table_3() -> spec_fn(nat) -> nat {
    |i: nat| squares_3(i as u128) as nat
}

/// On machine words, for degree 3: every entry of the table is `x` times
/// `x` times the entry before; no word but zero and one is its own square,
/// and none but zero has the square zero.
#[verifier::rlimit(100)]
proof fn lemma_words_3(v: u128, k: u128)
    by (bit_vector)
    requires
        v < 0x8,
    ensures
        k < 2 ==> mulx_word(mulx_word(squares_3(k), 0x4, 0x3), 0x4, 0x3)
            == squares_3((k + 1) as u128),
        k < 3 ==> squares_3(k) < 0x8,
        square_3(v, 3) == v ==> v == 0 || v == 1,
        square_3(v, 3) == 0 ==> v == 0,
        0x4u128 & ((0x4u128 - 1) as u128) == 0,
{
}

/// The sum over the table is the same on numbers and on machine words.
proof fn lemma_sum_3(v: u128, k: u128)
    requires
        k <= 3,
    ensures
        bit_sum(v as nat, k as nat, table_3()) == square_3(v, k) as nat,
    decreases k,
{
    if k > 0 {
        let j = (k - 1) as u128;
        lemma_sum_3(v, j);
        lemma_bit_word(v, j);
        lemma_xor_u128(square_3(v, j), if (v >> j) & 1 == 1 { squares_3(j) } else { 0 });
    }
}

/// The polynomial of degree 3 of the table is irreducible.
pub proof fn lemma_irreducible_3()
    ensures
        irreducible(modulus_poly(3)),
{
    let p = modulus_poly(3);
    let table = table_3();
    let h: u128 = 0x4;
    let low: u128 = 0x3;
    assert(pow2(3) + low == p && h as nat == pow2(2) && pow2(3) == 2 * h && pow2(128)
        == 0xffff_ffff_ffff_ffff_ffff_ffff_ffff_ffff + 1 && pow2(3) <= pow2(128) && pow2(4)
        == 2 * pow2(3)) by {
        lemma2_to64();
        lemma_pow2_adds(64, 64);
        lemma_pow2_unfold(4);
        if 3 < 128 {
            lemma_pow2_strictly_increases(3, 128);
        }
    }
    lemma_words_3(0, 0);
    lemma_bit_len_bound(p, 3);
    lemma_bit_len_bound(p, 4);
    assert forall|k: nat| k + 1 < 3 implies #[trigger] table(k + 1) == mulx(
        mulx(table(k), p),
        p,
    ) by {
        let c = squares_3(k as u128);
        lemma_words_3(0, k as u128);
        lemma_mulx_word(c, 3, h, low);
        let d = mulx_word(c, h, low);
        lemma_bit_len_bound(c as nat, 3);
        lemma_mulx_reduced(c as nat, p);
        lemma_bit_len_bound(d as nat, 3);
        lemma_mulx_word(d, 3, h, low);
    }
    assert forall|i: nat| i < 3 implies #[trigger] table(i) == square(pow2(i), p) by {
        lemma_square_table(table, 3, p, i);
    }
    assert forall|v: nat| bit_len(v) <= 3 implies (#[trigger] square(v, p) == v ==> v == 0 || v
        == 1) && (square(v, p) == 0 ==> v == 0) by {
        lemma_bit_len_bound(v, 3);
        let w = v as u128;
        lemma_small_mod(v, pow2(3));
        lemma_square_as_sum(v, 3, 3, p, table);
        lemma_sum_3(w, 3);
        lemma_words_3(w, 0);
    }
    lemma_irreducible_by_squares(p, 3);
}

/// The squares of the powers of `x` below degree 4, modulo the
/// polynomial of degree 4: entry `k` is `x^(2k)`, reduced.
pub open spec fn squares_4(k: u128) -> u128 {
    if k == 0 {
        0x1
    } else if k == 1 {
        0x4
    } else if k == 2 {
        0x3
    } else if k == 3 {
        0xc
    } else {
        0
    }
}

/// The sum of the entries of that table at the bits of `v` below bit `k`.
pub open spec fn square_4(v: u128, k: u128) -> u128
    decreases k,
{
    if k == 0 {
        0
    } else {
        square_4(v, (k - 1) as u128) ^ (if (v >> ((k - 1) as u128)) & 1 == 1 {
            squares_4((k - 1) as u128)
        } else {
            0
        })
    }
}

/// The table of degree 4 as numbers.
pub open spec fn table_4() -> spec_fn(nat) -> nat {
    |i: nat| squares_4(i as u128) as nat
}

/// On machine words, for degree 4: every entry of the table is `x` times
/// `x` times the entry before; no word but zero and one is its own square,
/// and none but zero has the square zero.
#[verifier::rlimit(100)]
proof fn lemma_words_4(v: u128, k: u128)
    by (bit_vector)
    requires
        v < 0x10,
    ensures
        k < 3 ==> mulx_word(mulx_word(squares_4(k), 0x8, 0x3), 0x8, 0x3)
            == squares_4((k + 1) as u128),
        k < 4 ==> squares_4(k) < 0x10,
        square_4(v, 4) == v ==> v == 0 || v == 1,
        square_4(v, 4) == 0 ==> v == 0,
        0x8u128 & ((0x8u128 - 1) as u128) == 0,
{
}

/// The sum over the table is the same on numbers and on machine words.
proof fn lemma_sum_4(v: u128, k: u128)
    requires
        k <= 4,
    ensures
        bit_sum(v as nat, k as nat, table_4()) == square_4(v, k) as nat,
    decreases k,
{
    if k > 0 {
        let j = (k - 1) as u128;
        lemma_sum_4(v, j);
        lemma_bit_word(v, j);
        lemma_xor_u128(square_4(v, j), if (v >> j) & 1 == 1 { squares_4(j) } else { 0 });
    }
}

/// The polynomial of degree 4 of the table is irreducible.
pub proof fn lemma_irreducible_4()
    ensures
        irreducible(modulus_poly(4)),
{
    let p = modulus_poly(4);
    let table = table_4();
    let h: u128 = 0x8;
    let low: u128 = 0x3;
    assert(pow2(4) + low == p && h as nat == pow2(3) && pow2(4) == 2 * h && pow2(128)
        == 0xffff_ffff_ffff_ffff_ffff_ffff_ffff_ffff + 1 && pow2(4) <= pow2(128) && pow2(5)
        == 2 * pow2(4)) by {
        lemma2_to64();
        lemma_pow2_adds(64, 64);
        lemma_pow2_unfold(5);
        if 4 < 128 {
            lemma_pow2_strictly_increases(4, 128);
        }
    }
    lemma_words_4(0, 0);
    lemma_bit_len_bound(p, 4);
    lemma_bit_len_bound(p, 5);
    assert forall|k: nat| k + 1 < 4 implies #[trigger] table(k + 1) == mulx(
        mulx(table(k), p),
        p,
    ) by {
        let c = squares_4(k as u128);
        lemma_words_4(0, k as u128);
        lemma_mulx_word(c, 4, h, low);
        let d = mulx_word(c, h, low);
        lemma_bit_len_bound(c as nat, 4);
        lemma_mulx_reduced(c as nat, p);
        lemma_bit_len_bound(d as nat, 4);
        lemma_mulx_word(d, 4, h, low);
    }
    assert forall|i: nat| i < 4 implies #[trigger] table(i) == square(pow2(i), p) by {
        lemma_square_table(table, 4, p, i);
    }
    assert forall|v: nat| bit_len(v) <= 4 implies (#[trigger] square(v, p) == v ==> v == 0 || v
        == 1) && (square(v, p) == 0 ==> v == 0) by {
        lemma_bit_len_bound(v, 4);
        let w = v as u128;
        lemma_small_mod(v, pow2(4));
        lemma_square_as_sum(v, 4, 4, p, table);
        lemma_sum_4(w, 4);
        lemma_words_4(w, 0);
    }
    lemma_irreducible_by_squares(p, 4);
}

/// The squares of the powers of `x` below degree 5, modulo the
/// polynomial of degree 5: entry `k` is `x^(2k)`, reduced.
pub open spec fn squares_5(k: u128) -> u128 {
    if k == 0 {
        0x1
    } else if k == 1 {
        0x4
    } else if k == 2 {
        0x10
    } else if k == 3 {
        0xa
    } else if k == 4 {
        0xd
    } else {
        0
    }
}

/// The sum of the entries of that table at the bits of `v` below bit `k`.
pub open spec fn square_5(v: u128, k: u128) -> u128
    decreases k,
{
    if k == 0 {
        0
    } else {
        square_5(v, (k - 1) as u128) ^ (if (v >> ((k - 1) as u128)) & 1 == 1 {
            squares_5((k - 1) as u128)
        } else {
            0
        })
    }
}

/// The table of degree 5 as numbers.
pub open spec fn table_5() -> spec_fn(nat) -> nat {
    |i: nat| squares_5(i as u128) as nat
}

/// On machine words, for degree 5: every entry of the table is `x` times
/// `x` times the entry before; no word but zero and one is its own square,
/// and none but zero has the square zero.
#[verifier::rlimit(100)]
proof fn lemma_words_5(v: u128, k: u128)
    by (bit_vector)
    requires
        v < 0x20,
    ensures
        k < 4 ==> mulx_word(mulx_word(squares_5(k), 0x10, 0x5), 0x10, 0x5)
            == squares_5((k + 1) as u128),
        k < 5 ==> squares_5(k) < 0x20,
        square_5(v, 5) == v ==> v == 0 || v == 1,
        square_5(v, 5) == 0 ==> v == 0,
        0x10u128 & ((0x10u128 - 1) as u128) == 0,
{
}

/// The sum over the table is the same on numbers and on machine words.
proof fn lemma_sum_5(v: u128, k: u128)
    requires
        k <= 5,
    ensures
        bit_sum(v as nat, k as nat, table_5()) == square_5(v, k) as nat,
    decreases k,
{
    if k > 0 {
        let j = (k - 1) as u128;
        lemma_sum_5(v, j);
        lemma_bit_word(v, j);
        lemma_xor_u128(square_5(v, j), if (v >> j) & 1 == 1 { squares_5(j) } else { 0 });
    }
}

/// The polynomial of degree 5 of the table is irreducible.
pub proof fn lemma_irreducible_5()
    ensures
        irreducible(modulus_poly(5)),
{
    let p = modulus_poly(5);
    let table = table_5();
    let h: u128 = 0x10;
    let low: u128 = 0x5;
    assert(pow2(5) + low == p && h as nat == pow2(4) && pow2(5) == 2 * h && pow2(128)
        == 0xffff_ffff_ffff_ffff_ffff_ffff_ffff_ffff + 1 && pow2(5) <= pow2(128) && pow2(6)
        == 2 * pow2(5)) by {
        lemma2_to64();
        lemma_pow2_adds(64, 64);
        lemma_pow2_unfold(6);
        if 5 < 128 {
            lemma_pow2_strictly_increases(5, 128);
        }
    }
    lemma_words_5(0, 0);
    lemma_bit_len_bound(p, 5);
    lemma_bit_len_bound(p, 6);
    assert forall|k: nat| k + 1 < 5 implies #[trigger] table(k + 1) == mulx(
        mulx(table(k), p),
        p,
    ) by {
        let c = squares_5(k as u128);
        lemma_words_5(0, k as u128);
        lemma_mulx_word(c, 5, h, low);
        let d = mulx_word(c, h, low);
        lemma_bit_len_bound(c as nat, 5);
        lemma_mulx_reduced(c as nat, p);
        lemma_bit_len_bound(d as nat, 5);
        lemma_mulx_word(d, 5, h, low);
    }
    assert forall|i: nat| i < 5 implies #[trigger] table(i) == square(pow2(i), p) by {
        lemma_square_table(table, 5, p, i);
    }
    assert forall|v: nat| bit_len(v) <= 5 implies (#[trigger] square(v, p) == v ==> v == 0 || v
        == 1) && (square(v, p) == 0 ==> v == 0) by {
        lemma_bit_len_bound(v, 5);
        let w = v as u128;
        lemma_small_mod(v, pow2(5));
        lemma_square_as_sum(v, 5, 5, p, table);
        lemma_sum_5(w, 5);
        lemma_words_5(w, 0);
    }
    lemma_irreducible_by_squares(p, 5);
}

/// The squares of the powers of `x` below degree 6, modulo the
/// polynomial of degree 6: entry `k` is `x^(2k)`, reduced.
pub open spec fn squares_6(k: u128) -> u128 {
    if k == 0 {
        0x1
    } else if k == 1 {
        0x4
    } else if k == 2 {
        0x10
    } else if k == 3 {
        0x3
    } else if k == 4 {
        0xc
    } else if k == 5 {
        0x30
    } else {
        0
    }
}

/// The sum of the entries of that table at the bits of `v` below bit `k`.
pub open spec fn square_6(v: u128, k: u128) -> u128
    decreases k,
{
    if k == 0 {
        0
    } else {
        square_6(v, (k - 1) as u128) ^ (if (v >> ((k - 1) as u128)) & 1 == 1 {
            squares_6((k - 1) as u128)
        } else {
            0
        })
    }
}

/// The table of degree 6 as numbers.
pub open spec fn table_6() -> spec_fn(nat) -> nat {
    |i: nat| squares_6(i as u128) as nat
}

/// On machine words, for degree 6: every entry of the table is `x` times
/// `x` times the entry before; no word but zero and one is its own square,
/// and none but zero has the square zero.
#[verifier::rlimit(100)]
proof fn lemma_words_6(v: u128, k: u128)
    by (bit_vector)
    requires
        v < 0x40,
    ensures
        k < 5 ==> mulx_word(mulx_word(squares_6(k), 0x20, 0x3), 0x20, 0x3)
            == squares_6((k + 1) as u128),
        k < 6 ==> squares_6(k) < 0x40,
        square_6(v, 6) == v ==> v == 0 || v == 1,
        square_6(v, 6) == 0 ==> v == 0,
        0x20u128 & ((0x20u128 - 1) as u128) == 0,
{
}

/// The sum over the table is the same on numbers and on machine words.
proof fn lemma_sum_6(v: u128, k: u128)
    requires
        k <= 6,
    ensures
        bit_sum(v as nat, k as nat, table_6()) == square_6(v, k) as nat,
    decreases k,
{
    if k > 0 {
        let j = (k - 1) as u128;
        lemma_sum_6(v, j);
        lemma_bit_word(v, j);
        lemma_xor_u128(square_6(v, j), if (v >> j) & 1 == 1 { squares_6(j) } else { 0 });
    }
}

/// The polynomial of degree 6 of the table is irreducible.
pub proof fn lemma_irreducible_6()
    ensures
        irreducible(modulus_poly(6)),
{
    let p = modulus_poly(6);
    let table = table_6();
    let h: u128 = 0x20;
    let low: u128 = 0x3;
    assert(pow2(6) + low == p && h as nat == pow2(5) && pow2(6) == 2 * h && pow2(128)
        == 0xffff_ffff_ffff_ffff_ffff_ffff_ffff_ffff + 1 && pow2(6) <= pow2(128) && pow2(7)
        == 2 * pow2(6)) by {
        lemma2_to64();
        lemma_pow2_adds(64, 64);
        lemma_pow2_unfold(7);
        if 6 < 128 {
            lemma_pow2_strictly_increases(6, 128);
        }
    }
    lemma_words_6(0, 0);
    lemma_bit_len_bound(p, 6);
    lemma_bit_len_bound(p, 7);
    assert forall|k: nat| k + 1 < 6 implies #[trigger] table(k + 1) == mulx(
        mulx(table(k), p),
        p,
    ) by {
        let c = squares_6(k as u128);
        lemma_words_6(0, k as u128);
        lemma_mulx_word(c, 6, h, low);
        let d = mulx_word(c, h, low);
        lemma_bit_len_bound(c as nat, 6);
        lemma_mulx_reduced(c as nat, p);
        lemma_bit_len_bound(d as nat, 6);
        lemma_mulx_word(d, 6, h, low);
    }
    assert forall|i: nat| i < 6 implies #[trigger] table(i) == square(pow2(i), p) by {
        lemma_square_table(table, 6, p, i);
    }
    assert forall|v: nat| bit_len(v) <= 6 implies (#[trigger] square(v, p) == v ==> v == 0 || v
        == 1) && (square(v, p) == 0 ==> v == 0) by {
        lemma_bit_len_bound(v, 6);
        let w = v as u128;
        lemma_small_mod(v, pow2(6));
        lemma_square_as_sum(v, 6, 6, p, table);
        lemma_sum_6(w, 6);
        lemma_words_6(w, 0);
    }
    lemma_irreducible_by_squares(p, 6);
}

/// The squares of the powers of `x` below degree 7, modulo the
/// polynomial of degree 7: entry `k` is `x^(2k)`, reduced.
pub open spec fn squares_7(k: u128) -> u128 {
    if k == 0 {
        0x1
    } else if k == 1 {
        0x4
    } else if k == 2 {
        0x10
    } else if k == 3 {
        0x40
    } else if k == 4 {
        0x6
    } else if k == 5 {
        0x18
    } else if k == 6 {
        0x60
    } else {
        0
    }
}

/// The sum of the entries of that table at the bits of `v` below bit `k`.
pub open spec fn square_7(v: u128, k: u128) -> u128
    decreases k,
{
    if k == 0 {
        0
    } else {
        square_7(v, (k - 1) as u128) ^ (if (v >> ((k - 1) as u128)) & 1 == 1 {
            squares_7((k - 1) as u128)
        } else {
            0
        })
    }
}

/// The table of degree 7 as numbers.
pub open spec fn table_7() -> spec_fn(nat) -> nat {
    |i: nat| squares_7(i as u128) as nat
}

/// On machine words, for degree 7: every entry of the table is `x` times
/// `x` times the entry before; no word but zero and one is its own square,
/// and none but zero has the square zero.
#[verifier::rlimit(100)]
proof fn lemma_words_7(v: u128, k: u128)
    by (bit_vector)
    requires
        v < 0x80,
    ensures
        k < 6 ==> mulx_word(mulx_word(squares_7(k), 0x40, 0x3), 0x40, 0x3)
            == squares_7((k + 1) as u128),
        k < 7 ==> squares_7(k) < 0x80,
        square_7(v, 7) == v ==> v == 0 || v == 1,
        square_7(v, 7) == 0 ==> v == 0,
        0x40u128 & ((0x40u128 - 1) as u128) == 0,
{
}

/// The sum over the table is the same on numbers and on machine words.
proof fn lemma_sum_7(v: u128, k: u128)
    requires
        k <= 7,
    ensures
        bit_sum(v as nat, k as nat, table_7()) == square_7(v, k) as nat,
    decreases k,
{
    if k > 0 {
        let j = (k - 1) as u128;
        lemma_sum_7(v, j);
        lemma_bit_word(v, j);
        lemma_xor_u128(square_7(v, j), if (v >> j) & 1 == 1 { squares_7(j) } else { 0 });
    }
}

/// The polynomial of degree 7 of the table is irreducible.
pub proof fn lemma_irreducible_7()
    ensures
        irreducible(modulus_poly(7)),
{
    let p = modulus_poly(7);
    let table = table_7();
    let h: u128 = 0x40;
    let low: u128 = 0x3;
    assert(pow2(7) + low == p && h as nat == pow2(6) && pow2(7) == 2 * h && pow2(128)
        == 0xffff_ffff_ffff_ffff_ffff_ffff_ffff_ffff + 1 && pow2(7) <= pow2(128) && pow2(8)
        == 2 * pow2(7)) by {
        lemma2_to64();
        lemma_pow2_adds(64, 64);
        lemma_pow2_unfold(8);
        if 7 < 128 {
            lemma_pow2_strictly_increases(7, 128);
        }
    }
    lemma_words_7(0, 0);
    lemma_bit_len_bound(p, 7);
    lemma_bit_len_bound(p, 8);
    assert forall|k: nat| k + 1 < 7 implies #[trigger] table(k + 1) == mulx(
        mulx(table(k), p),
        p,
    ) by {
        let c = squares_7(k as u128);
        lemma_words_7(0, k as u128);
        lemma_mulx_word(c, 7, h, low);
        let d = mulx_word(c, h, low);
        lemma_bit_len_bound(c as nat, 7);
        lemma_mulx_reduced(c as nat, p);
        lemma_bit_len_bound(d as nat, 7);
        lemma_mulx_word(d, 7, h, low);
    }
    assert forall|i: nat| i < 7 implies #[trigger] table(i) == square(pow2(i), p) by {
        lemma_square_table(table, 7, p, i);
    }
    assert forall|v: nat| bit_len(v) <= 7 implies (#[trigger] square(v, p) == v ==> v == 0 || v
        == 1) && (square(v, p) == 0 ==> v == 0) by {
        lemma_bit_len_bound(v, 7);
        let w = v as u128;
        lemma_small_mod(v, pow2(7));
        lemma_square_as_sum(v, 7, 7, p, table);
        lemma_sum_7(w, 7);
        lemma_words_7(w, 0);
    }
    lemma_irreducible_by_squares(p, 7);
}

/// The squares of the powers of `x` below degree 8, modulo the
/// polynomial of degree 8: entry `k` is `x^(2k)`, reduced.
pub open spec fn squares_8(k: u128) -> u128 {
    if k == 0 {
        0x1
    } else if k == 1 {
        0x4
    } else if k == 2 {
        0x10
    } else if k == 3 {
        0x40
    } else if k == 4 {
        0x1b
    } else if k == 5 {
        0x6c
    } else if k == 6 {
        0xab
    } else if k == 7 {
        0x9a
    } else {
        0
    }
}

/// The sum of the entries of that table at the bits of `v` below bit `k`.
pub open spec fn square_8(v: u128, k: u128) -> u128
    decreases k,
{
    if k == 0 {
        0
    } else {
        square_8(v, (k - 1) as u128) ^ (if (v >> ((k - 1) as u128)) & 1 == 1 {
            squares_8((k - 1) as u128)
        } else {
            0
        })
    }
}

/// The table of degree 8 as numbers.
pub open spec fn table_8() -> spec_fn(nat) -> nat {
    |i: nat| squares_8(i as u128) as nat
}

/// On machine words, for degree 8: every entry of the table is `x` times
/// `x` times the entry before; no word but zero and one is its own square,
/// and none but zero has the square zero.
#[verifier::rlimit(100)]
proof fn lemma_words_8(v: u128, k: u128)
    by (bit_vector)
    requires
        v < 0x100,
    ensures
        k < 7 ==> mulx_word(mulx_word(squares_8(k), 0x80, 0x1b), 0x80, 0x1b)
            == squares_8((k + 1) as u128),
        k < 8 ==> squares_8(k) < 0x100,
        square_8(v, 8) == v ==> v == 0 || v == 1,
        square_8(v, 8) == 0 ==> v == 0,
        0x80u128 & ((0x80u128 - 1) as u128) == 0,
{
}

/// The sum over the table is the same on numbers and on machine words.
proof fn lemma_sum_8(v: u128, k: u128)
    requires
        k <= 8,
    ensures
        bit_sum(v as nat, k as nat, table_8()) == square_8(v, k) as nat,
    decreases k,
{
    if k > 0 {
        let j = (k - 1) as u128;
        lemma_sum_8(v, j);
        lemma_bit_word(v, j);
        lemma_xor_u128(square_8(v, j), if (v >> j) & 1 == 1 { squares_8(j) } else { 0 });
    }
}

/// The polynomial of degree 8 of the table is irreducible.
pub proof fn lemma_irreducible_8()
    ensures
        irreducible(modulus_poly(8)),
{
    let p = modulus_poly(8);
    let table = table_8();
    let h: u128 = 0x80;
    let low: u128 = 0x1b;
    assert(pow2(8) + low == p && h as nat == pow2(7) && pow2(8) == 2 * h && pow2(128)
        == 0xffff_ffff_ffff_ffff_ffff_ffff_ffff_ffff + 1 && pow2(8) <= pow2(128) && pow2(9)
        == 2 * pow2(8)) by {
        lemma2_to64();
        lemma_pow2_adds(64, 64);
        lemma_pow2_unfold(9);
        if 8 < 128 {
            lemma_pow2_strictly_increases(8, 128);
        }
    }
    lemma_words_8(0, 0);
    lemma_bit_len_bound(p, 8);
    lemma_bit_len_bound(p, 9);
    assert forall|k: nat| k + 1 < 8 implies #[trigger] table(k + 1) == mulx(
        mulx(table(k), p),
        p,
    ) by {
        let c = squares_8(k as u128);
        lemma_words_8(0, k as u128);
        lemma_mulx_word(c, 8, h, low);
        let d = mulx_word(c, h, low);
        lemma_bit_len_bound(c as nat, 8);
        lemma_mulx_reduced(c as nat, p);
        lemma_bit_len_bound(d as nat, 8);
        lemma_mulx_word(d, 8, h, low);
    }
    assert forall|i: nat| i < 8 implies #[trigger] table(i) == square(pow2(i), p) by {
        lemma_square_table(table, 8, p, i);
    }
    assert forall|v: nat| bit_len(v) <= 8 implies (#[trigger] square(v, p) == v ==> v == 0 || v
        == 1) && (square(v, p) == 0 ==> v == 0) by {
        lemma_bit_len_bound(v, 8);
        let w = v as u128;
        lemma_small_mod(v, pow2(8));
        lemma_square_as_sum(v, 8, 8, p, table);
        lemma_sum_8(w, 8);
        lemma_words_8(w, 0);
    }
    lemma_irreducible_by_squares(p, 8);
}

/// The squares of the powers of `x` below degree 9, modulo the
/// polynomial of degree 9: entry `k` is `x^(2k)`, reduced.
pub open spec fn squares_9(k: u128) -> u128 {
    if k == 0 {
        0x1
    } else if k == 1 {
        0x4
    } else if k == 2 {
        0x10
    } else if k == 3 {
        0x40
    } else if k == 4 {
        0x100
    } else if k == 5 {
        0x6
    } else if k == 6 {
        0x18
    } else if k == 7 {
        0x60
    } else if k == 8 {
        0x180
    } else {
        0
    }
}

/// The sum of the entries of that table at the bits of `v` below bit `k`.
pub open spec fn square_9(v: u128, k: u128) -> u128
    decreases k,
{
    if k == 0 {
        0
    } else {
        square_9(v, (k - 1) as u128) ^ (if (v >> ((k - 1) as u128)) & 1 == 1 {
            squares_9((k - 1) as u128)
        } else {
            0
        })
    }
}

/// The table of degree 9 as numbers.
pub open spec fn table_9() -> spec_fn(nat) -> nat {
    |i: nat| squares_9(i as u128) as nat
}

/// On machine words, for degree 9: every entry of the table is `x` times
/// `x` times the entry before; no word but zero and one is its own square,
/// and none but zero has the square zero.
#[verifier::rlimit(100)]
proof fn lemma_words_9(v: u128, k: u128)
    by (bit_vector)
    requires
        v < 0x200,
    ensures
        k < 8 ==> mulx_word(mulx_word(squares_9(k), 0x100, 0x3), 0x100, 0x3)
            == squares_9((k + 1) as u128),
        k < 9 ==> squares_9(k) < 0x200,
        square_9(v, 9) == v ==> v == 0 || v == 1,
        square_9(v, 9) == 0 ==> v == 0,
        0x100u128 & ((0x100u128 - 1) as u128) == 0,
{
}

/// The sum over the table is the same on numbers and on machine words.
proof fn lemma_sum_9(v: u128, k: u128)
    requires
        k <= 9,
    ensures
        bit_sum(v as nat, k as nat, table_9()) == square_9(v, k) as nat,
    decreases k,
{
    if k > 0 {
        let j = (k - 1) as u128;
        lemma_sum_9(v, j);
        lemma_bit_word(v, j);
        lemma_xor_u128(square_9(v, j), if (v >> j) & 1 == 1 { squares_9(j) } else { 0 });
    }
}

/// The polynomial of degree 9 of the table is irreducible.
pub proof fn lemma_irreducible_9()
    ensures
        irreducible(modulus_poly(9)),
{
    let p = modulus_poly(9);
    let table = table_9();
    let h: u128 = 0x100;
    let low: u128 = 0x3;
    assert(pow2(9) + low == p && h as nat == pow2(8) && pow2(9) == 2 * h && pow2(128)
        == 0xffff_ffff_ffff_ffff_ffff_ffff_ffff_ffff + 1 && pow2(9) <= pow2(128) && pow2(10)
        == 2 * pow2(9)) by {
        lemma2_to64();
        lemma_pow2_adds(64, 64);
        lemma_pow2_unfold(10);
        if 9 < 128 {
            lemma_pow2_strictly_increases(9, 128);
        }
    }
    lemma_words_9(0, 0);
    lemma_bit_len_bound(p, 9);
    lemma_bit_len_bound(p, 10);
    assert forall|k: nat| k + 1 < 9 implies #[trigger] table(k + 1) == mulx(
        mulx(table(k), p),
        p,
    ) by {
        let c = squares_9(k as u128);
        lemma_words_9(0, k as u128);
        lemma_mulx_word(c, 9, h, low);
        let d = mulx_word(c, h, low);
        lemma_bit_len_bound(c as nat, 9);
        lemma_mulx_reduced(c as nat, p);
        lemma_bit_len_bound(d as nat, 9);
        lemma_mulx_word(d, 9, h, low);
    }
    assert forall|i: nat| i < 9 implies #[trigger] table(i) == square(pow2(i), p) by {
        lemma_square_table(table, 9, p, i);
    }
    assert forall|v: nat| bit_len(v) <= 9 implies (#[trigger] square(v, p) == v ==> v == 0 || v
        == 1) && (square(v, p) == 0 ==> v == 0) by {
        lemma_bit_len_bound(v, 9);
        let w = v as u128;
        lemma_small_mod(v, pow2(9));
        lemma_square_as_sum(v, 9, 9, p, table);
        lemma_sum_9(w, 9);
        lemma_words_9(w, 0);
    }
    lemma_irreducible_by_squares(p, 9);
}

/// The squares of the powers of `x` below degree 10, modulo the
/// polynomial of degree 10: entry `k` is `x^(2k)`, reduced.
pub open spec fn squares_10(k: u128) -> u128 {
    if k == 0 {
        0x1
    } else if k == 1 {
        0x4
    } else if k == 2 {
        0x10
    } else if k == 3 {
        0x40
    } else if k == 4 {
        0x100
    } else if k == 5 {
        0x9
    } else if k == 6 {
        0x24
    } else if k == 7 {
        0x90
    } else if k == 8 {
        0x240
    } else if k == 9 {
        0x112
    } else {
        0
    }
}

/// The sum of the entries of that table at the bits of `v` below bit `k`.
pub open spec fn square_10(v: u128, k: u128) -> u128
    decreases k,
{
    if k == 0 {
        0
    } else {
        square_10(v, (k - 1) as u128) ^ (if (v >> ((k - 1) as u128)) & 1 == 1 {
            squares_10((k - 1) as u128)
        } else {
            0
        })
    }
}

/// The table of degree 10 as numbers.
pub open spec fn table_10() -> spec_fn(nat) -> nat {
    |i: nat| squares_10(i as u128) as nat
}

/// On machine words, for degree 10: every entry of the table is `x` times
/// `x` times the entry before; no word but zero and one is its own square,
/// and none but zero has the square zero.
#[verifier::rlimit(100)]
proof fn lemma_words_10(v: u128, k: u128)
    by (bit_vector)
    requires
        v < 0x400,
    ensures
        k < 9 ==> mulx_word(mulx_word(squares_10(k), 0x200, 0x9), 0x200, 0x9)
            == squares_10((k + 1) as u128),
        k < 10 ==> squares_10(k) < 0x400,
        square_10(v, 10) == v ==> v == 0 || v == 1,
        square_10(v, 10) == 0 ==> v == 0,
        0x200u128 & ((0x200u128 - 1) as u128) == 0,
{
}

/// The sum over the table is the same on numbers and on machine words.
proof fn lemma_sum_10(v: u128, k: u128)
    requires
        k <= 10,
    ensures
        bit_sum(v as nat, k as nat, table_10()) == square_10(v, k) as nat,
    decreases k,
{
    if k > 0 {
        let j = (k - 1) as u128;
        lemma_sum_10(v, j);
        lemma_bit_word(v, j);
        lemma_xor_u128(square_10(v, j), if (v >> j) & 1 == 1 { squares_10(j) } else { 0 });
    }
}

/// The polynomial of degree 10 of the table is irreducible.
pub proof fn lemma_irreducible_10()
    ensures
        irreducible(modulus_poly(10)),
{
    let p = modulus_poly(10);
    let table = table_10();
    let h: u128 = 0x200;
    let low: u128 = 0x9;
    assert(pow2(10) + low == p && h as nat == pow2(9) && pow2(10) == 2 * h && pow2(128)
        == 0xffff_ffff_ffff_ffff_ffff_ffff_ffff_ffff + 1 && pow2(10) <= pow2(128) && pow2(11)
        == 2 * pow2(10)) by {
        lemma2_to64();
        lemma_pow2_adds(64, 64);
        lemma_pow2_unfold(11);
        if 10 < 128 {
            lemma_pow2_strictly_increases(10, 128);
        }
    }
    lemma_words_10(0, 0);
    lemma_bit_len_bound(p, 10);
    lemma_bit_len_bound(p, 11);
    assert forall|k: nat| k + 1 < 10 implies #[trigger] table(k + 1) == mulx(
        mulx(table(k), p),
        p,
    ) by {
        let c = squares_10(k as u128);
        lemma_words_10(0, k as u128);
        lemma_mulx_word(c, 10, h, low);
        let d = mulx_word(c, h, low);
        lemma_bit_len_bound(c as nat, 10);
        lemma_mulx_reduced(c as nat, p);
        lemma_bit_len_bound(d as nat, 10);
        lemma_mulx_word(d, 10, h, low);
    }
    assert forall|i: nat| i < 10 implies #[trigger] table(i) == square(pow2(i), p) by {
        lemma_square_table(table, 10, p, i);
    }
    assert forall|v: nat| bit_len(v) <= 10 implies (#[trigger] square(v, p) == v ==> v == 0 || v
        == 1) && (square(v, p) == 0 ==> v == 0) by {
        lemma_bit_len_bound(v, 10);
        let w = v as u128;
        lemma_small_mod(v, pow2(10));
        lemma_square_as_sum(v, 10, 10, p, table);
        lemma_sum_10(w, 10);
        lemma_words_10(w, 0);
    }
    lemma_irreducible_by_squares(p, 10);
}

/// The squares of the powers of `x` below degree 11, modulo the
/// polynomial of degree 11: entry `k` is `x^(2k)`, reduced.
pub open spec fn squares_11(k: u128) -> u128 {
    if k == 0 {
        0x1
    } else if k == 1 {
        0x4
    } else if k == 2 {
        0x10
    } else if k == 3 {
        0x40
    } else if k == 4 {
        0x100
    } else if k == 5 {
        0x400
    } else if k == 6 {
        0xa
    } else if k == 7 {
        0x28
    } else if k == 8 {
        0xa0
    } else if k == 9 {
        0x280
    } else if k == 10 {
        0x205
    } else {
        0
    }
}

/// The sum of the entries of that table at the bits of `v` below bit `k`.
pub open spec fn square_11(v: u128, k: u128) -> u128
    decreases k,
{
    if k == 0 {
        0
    } else {
        square_11(v, (k - 1) as u128) ^ (if (v >> ((k - 1) as u128)) & 1 == 1 {
            squares_11((k - 1) as u128)
        } else {
            0
        })
    }
}

/// The table of degree 11 as numbers.
pub open spec fn table_11() -> spec_fn(nat) -> nat {
    |i: nat| squares_11(i as u128) as nat
}

/// On machine words, for degree 11: every entry of the table is `x` times
/// `x` times the entry before; no word but zero and one is its own square,
/// and none but zero has the square zero.
#[verifier::rlimit(100)]
proof fn lemma_words_11(v: u128, k: u128)
    by (bit_vector)
    requires
        v < 0x800,
    ensures
        k < 10 ==> mulx_word(mulx_word(squares_11(k), 0x400, 0x5), 0x400, 0x5)
            == squares_11((k + 1) as u128),
        k < 11 ==> squares_11(k) < 0x800,
        square_11(v, 11) == v ==> v == 0 || v == 1,
        square_11(v, 11) == 0 ==> v == 0,
        0x400u128 & ((0x400u128 - 1) as u128) == 0,
{
}

/// The sum over the table is the same on numbers and on machine words.
proof fn lemma_sum_11(v: u128, k: u128)
    requires
        k <= 11,
    ensures
        bit_sum(v as nat, k as nat, table_11()) == square_11(v, k) as nat,
    decreases k,
{
    if k > 0 {
        let j = (k - 1) as u128;
        lemma_sum_11(v, j);
        lemma_bit_word(v, j);
        lemma_xor_u128(square_11(v, j), if (v >> j) & 1 == 1 { squares_11(j) } else { 0 });
    }
}

/// The polynomial of degree 11 of the table is irreducible.
pub proof fn lemma_irreducible_11()
    ensures
        irreducible(modulus_poly(11)),
{
    let p = modulus_poly(11);
    let table = table_11();
    let h: u128 = 0x400;
    let low: u128 = 0x5;
    assert(pow2(11) + low == p && h as nat == pow2(10) && pow2(11) == 2 * h && pow2(128)
        == 0xffff_ffff_ffff_ffff_ffff_ffff_ffff_ffff + 1 && pow2(11) <= pow2(128) && pow2(12)
        == 2 * pow2(11)) by {
        lemma2_to64();
        lemma_pow2_adds(64, 64);
        lemma_pow2_unfold(12);
        if 11 < 128 {
            lemma_pow2_strictly_increases(11, 128);
        }
    }
    lemma_words_11(0, 0);
    lemma_bit_len_bound(p, 11);
    lemma_bit_len_bound(p, 12);
    assert forall|k: nat| k + 1 < 11 implies #[trigger] table(k + 1) == mulx(
        mulx(table(k), p),
        p,
    ) by {
        let c = squares_11(k as u128);
        lemma_words_11(0, k as u128);
        lemma_mulx_word(c, 11, h, low);
        let d = mulx_word(c, h, low);
        lemma_bit_len_bound(c as nat, 11);
        lemma_mulx_reduced(c as nat, p);
        lemma_bit_len_bound(d as nat, 11);
        lemma_mulx_word(d, 11, h, low);
    }
    assert forall|i: nat| i < 11 implies #[trigger] table(i) == square(pow2(i), p) by {
        lemma_square_table(table, 11, p, i);
    }
    assert forall|v: nat| bit_len(v) <= 11 implies (#[trigger] square(v, p) == v ==> v == 0 || v
        == 1) && (square(v, p) == 0 ==> v == 0) by {
        lemma_bit_len_bound(v, 11);
        let w = v as u128;
        lemma_small_mod(v, pow2(11));
        lemma_square_as_sum(v, 11, 11, p, table);
        lemma_sum_11(w, 11);
        lemma_words_11(w, 0);
    }
    lemma_irreducible_by_squares(p, 11);
}

/// The squares of the powers of `x` below degree 12, modulo the
/// polynomial of degree 12: entry `k` is `x^(2k)`, reduced.
pub open spec fn squares_12(k: u128) -> u128 {
    if k == 0 {
        0x1
    } else if k == 1 {
        0x4
    } else if k == 2 {
        0x10
    } else if k == 3 {
        0x40
    } else if k == 4 {
        0x100
    } else if k == 5 {
        0x400
    } else if k == 6 {
        0x9
    } else if k == 7 {
        0x24
    } else if k == 8 {
        0x90
    } else if k == 9 {
        0x240
    } else if k == 10 {
        0x900
    } else if k == 11 {
        0x412
    } else {
        0
    }
}

/// The sum of the entries of that table at the bits of `v` below bit `k`.
pub open spec fn square_12(v: u128, k: u128) -> u128
    decreases k,
{
    if k == 0 {
        0
    } else {
        square_12(v, (k - 1) as u128) ^ (if (v >> ((k - 1) as u128)) & 1 == 1 {
            squares_12((k - 1) as u128)
        } else {
            0
        })
    }
}

/// The table of degree 12 as numbers.
pub open spec fn table_12() -> spec_fn(nat) -> nat {
    |i: nat| squares_12(i as u128) as nat
}

/// On machine words, for degree 12: every entry of the table is `x` times
/// `x` times the entry before; no word but zero and one is its own square,
/// and none but zero has the square zero.
#[verifier::rlimit(100)]
proof fn lemma_words_12(v: u128, k: u128)
    by (bit_vector)
    requires
        v < 0x1000,
    ensures
        k < 11 ==> mulx_word(mulx_word(squares_12(k), 0x800, 0x9), 0x800, 0x9)
            == squares_12((k + 1) as u128),
        k < 12 ==> squares_12(k) < 0x1000,
        square_12(v, 12) == v ==> v == 0 || v == 1,
        square_12(v, 12) == 0 ==> v == 0,
        0x800u128 & ((0x800u128 - 1) as u128) == 0,
{
}

/// The sum over the table is the same on numbers and on machine words.
proof fn lemma_sum_12(v: u128, k: u128)
    requires
        k <= 12,
    ensures
        bit_sum(v as nat, k as nat, table_12()) == square_12(v, k) as nat,
    decreases k,
{
    if k > 0 {
        let j = (k - 1) as u128;
        lemma_sum_12(v, j);
        lemma_bit_word(v, j);
        lemma_xor_u128(square_12(v, j), if (v >> j) & 1 == 1 { squares_12(j) } else { 0 });
    }
}

/// The polynomial of degree 12 of the table is irreducible.
pub proof fn lemma_irreducible_12()
    ensures
        irreducible(modulus_poly(12)),
{
    let p = modulus_poly(12);
    let table = table_12();
    let h: u128 = 0x800;
    let low: u128 = 0x9;
    assert(pow2(12) + low == p && h as nat == pow2(11) && pow2(12) == 2 * h && pow2(128)
        == 0xffff_ffff_ffff_ffff_ffff_ffff_ffff_ffff + 1 && pow2(12) <= pow2(128) && pow2(13)
        == 2 * pow2(12)) by {
        lemma2_to64();
        lemma_pow2_adds(64, 64);
        lemma_pow2_unfold(13);
        if 12 < 128 {
            lemma_pow2_strictly_increases(12, 128);
        }
    }
    lemma_words_12(0, 0);
    lemma_bit_len_bound(p, 12);
    lemma_bit_len_bound(p, 13);
    assert forall|k: nat| k + 1 < 12 implies #[trigger] table(k + 1) == mulx(
        mulx(table(k), p),
        p,
    ) by {
        let c = squares_12(k as u128);
        lemma_words_12(0, k as u128);
        lemma_mulx_word(c, 12, h, low);
        let d = mulx_word(c, h, low);
        lemma_bit_len_bound(c as nat, 12);
        lemma_mulx_reduced(c as nat, p);
        lemma_bit_len_bound(d as nat, 12);
        lemma_mulx_word(d, 12, h, low);
    }
    assert forall|i: nat| i < 12 implies #[trigger] table(i) == square(pow2(i), p) by {
        lemma_square_table(table, 12, p, i);
    }
    assert forall|v: nat| bit_len(v) <= 12 implies (#[trigger] square(v, p) == v ==> v == 0 || v
        == 1) && (square(v, p) == 0 ==> v == 0) by {
        lemma_bit_len_bound(v, 12);
        let w = v as u128;
        lemma_small_mod(v, pow2(12));
        lemma_square_as_sum(v, 12, 12, p, table);
        lemma_sum_12(w, 12);
        lemma_words_12(w, 0);
    }
    lemma_irreducible_by_squares(p, 12);
}

/// The squares of the powers of `x` below degree 13, modulo the
/// polynomial of degree 13: entry `k` is `x^(2k)`, reduced.
pub open spec fn squares_13(k: u128) -> u128 {
    if k == 0 {
        0x1
    } else if k == 1 {
        0x4
    } else if k == 2 {
        0x10
    } else if k == 3 {
        0x40
    } else if k == 4 {
        0x100
    } else if k == 5 {
        0x400
    } else if k == 6 {
        0x1000
    } else if k == 7 {
        0x36
    } else if k == 8 {
        0xd8
    } else if k == 9 {
        0x360
    } else if k == 10 {
        0xd80
    } else if k == 11 {
        0x161b
    } else if k == 12 {
        0x185a
    } else {
        0
    }
}

/// The sum of the entries of that table at the bits of `v` below bit `k`.
pub open spec fn square_13(v: u128, k: u128) -> u128
    decreases k,
{
    if k == 0 {
        0
    } else {
        square_13(v, (k - 1) as u128) ^ (if (v >> ((k - 1) as u128)) & 1 == 1 {
            squares_13((k - 1) as u128)
        } else {
            0
        })
    }
}

/// The table of degree 13 as numbers.
pub open spec fn table_13() -> spec_fn(nat) -> nat {
    |i: nat| squares_13(i as u128) as nat
}

/// On machine words, for degree 13: every entry of the table is `x` times
/// `x` times the entry before; no word but zero and one is its own square,
/// and none but zero has the square zero.
#[verifier::rlimit(100)]
proof fn lemma_words_13(v: u128, k: u128)
    by (bit_vector)
    requires
        v < 0x2000,
    ensures
        k < 12 ==> mulx_word(mulx_word(squares_13(k), 0x1000, 0x1b), 0x1000, 0x1b)
            == squares_13((k + 1) as u128),
        k < 13 ==> squares_13(k) < 0x2000,
        square_13(v, 13) == v ==> v == 0 || v == 1,
        square_13(v, 13) == 0 ==> v == 0,
        0x1000u128 & ((0x1000u128 - 1) as u128) == 0,
{
}

/// The sum over the table is the same on numbers and on machine words.
proof fn lemma_sum_13(v: u128, k: u128)
    requires
        k <= 13,
    ensures
        bit_sum(v as nat, k as nat, table_13()) == square_13(v, k) as nat,
    decreases k,
{
    if k > 0 {
        let j = (k - 1) as u128;
        lemma_sum_13(v, j);
        lemma_bit_word(v, j);
        lemma_xor_u128(square_13(v, j), if (v >> j) & 1 == 1 { squares_13(j) } else { 0 });
    }
}

/// The polynomial of degree 13 of the table is irreducible.
pub proof fn lemma_irreducible_13()
    ensures
        irreducible(modulus_poly(13)),
{
    let p = modulus_poly(13);
    let table = table_13();
    let h: u128 = 0x1000;
    let low: u128 = 0x1b;
    assert(pow2(13) + low == p && h as nat == pow2(12) && pow2(13) == 2 * h && pow2(128)
        == 0xffff_ffff_ffff_ffff_ffff_ffff_ffff_ffff + 1 && pow2(13) <= pow2(128) && pow2(14)
        == 2 * pow2(13)) by {
        lemma2_to64();
        lemma_pow2_adds(64, 64);
        lemma_pow2_unfold(14);
        if 13 < 128 {
            lemma_pow2_strictly_increases(13, 128);
        }
    }
    lemma_words_13(0, 0);
    lemma_bit_len_bound(p, 13);
    lemma_bit_len_bound(p, 14);
    assert forall|k: nat| k + 1 < 13 implies #[trigger] table(k + 1) == mulx(
        mulx(table(k), p),
        p,
    ) by {
        let c = squares_13(k as u128);
        lemma_words_13(0, k as u128);
        lemma_mulx_word(c, 13, h, low);
        let d = mulx_word(c, h, low);
        lemma_bit_len_bound(c as nat, 13);
        lemma_mulx_reduced(c as nat, p);
        lemma_bit_len_bound(d as nat, 13);
        lemma_mulx_word(d, 13, h, low);
    }
    assert forall|i: nat| i < 13 implies #[trigger] table(i) == square(pow2(i), p) by {
        lemma_square_table(table, 13, p, i);
    }
    assert forall|v: nat| bit_len(v) <= 13 implies (#[trigger] square(v, p) == v ==> v == 0 || v
        == 1) && (square(v, p) == 0 ==> v == 0) by {
        lemma_bit_len_bound(v, 13);
        let w = v as u128;
        lemma_small_mod(v, pow2(13));
        lemma_square_as_sum(v, 13, 13, p, table);
        lemma_sum_13(w, 13);
        lemma_words_13(w, 0);
    }
    lemma_irreducible_by_squares(p, 13);
}

/// The squares of the powers of `x` below degree 14, modulo the
/// polynomial of degree 14: entry `k` is `x^(2k)`, reduced.
pub open spec fn squares_14(k: u128) -> u128 {
    if k == 0 {
        0x1
    } else if k == 1 {
        0x4
    } else if k == 2 {
        0x10
    } else if k == 3 {
        0x40
    } else if k == 4 {
        0x100
    } else if k == 5 {
        0x400
    } else if k == 6 {
        0x1000
    } else if k == 7 {
        0x21
    } else if k == 8 {
        0x84
    } else if k == 9 {
        0x210
    } else if k == 10 {
        0x840
    } else if k == 11 {
        0x2100
    } else if k == 12 {
        0x442
    } else if k == 13 {
        0x1108
    } else {
        0
    }
}

/// The sum of the entries of that table at the bits of `v` below bit `k`.
pub open spec fn square_14(v: u128, k: u128) -> u128
    decreases k,
{
    if k == 0 {
        0
    } else {
        square_14(v, (k - 1) as u128) ^ (if (v >> ((k - 1) as u128)) & 1 == 1 {
            squares_14((k - 1) as u128)
        } else {
            0
        })
    }
}

/// The table of degree 14 as numbers.
pub open spec fn table_14() -> spec_fn(nat) -> nat {
    |i: nat| squares_14(i as u128) as nat
}

/// On machine words, for degree 14: every entry of the table is `x` times
/// `x` times the entry before; no word but zero and one is its own square,
/// and none but zero has the square zero.
#[verifier::rlimit(100)]
proof fn lemma_words_14(v: u128, k: u128)
    by (bit_vector)
    requires
        v < 0x4000,
    ensures
        k < 13 ==> mulx_word(mulx_word(squares_14(k), 0x2000, 0x21), 0x2000, 0x21)
            == squares_14((k + 1) as u128),
        k < 14 ==> squares_14(k) < 0x4000,
        square_14(v, 14) == v ==> v == 0 || v == 1,
        square_14(v, 14) == 0 ==> v == 0,
        0x2000u128 & ((0x2000u128 - 1) as u128) == 0,
{
}

/// The sum over the table is the same on numbers and on machine words.
proof fn lemma_sum_14(v: u128, k: u128)
    requires
        k <= 14,
    ensures
        bit_sum(v as nat, k as nat, table_14()) == square_14(v, k) as nat,
    decreases k,
{
    if k > 0 {
        let j = (k - 1) as u128;
        lemma_sum_14(v, j);
        lemma_bit_word(v, j);
        lemma_xor_u128(square_14(v, j), if (v >> j) & 1 == 1 { squares_14(j) } else { 0 });
    }
}

/// The polynomial of degree 14 of the table is irreducible.
pub proof fn lemma_irreducible_14()
    ensures
        irreducible(modulus_poly(14)),
{
    let p = modulus_poly(14);
    let table = table_14();
    let h: u128 = 0x2000;
    let low: u128 = 0x21;
    assert(pow2(14) + low == p && h as nat == pow2(13) && pow2(14) == 2 * h && pow2(128)
        == 0xffff_ffff_ffff_ffff_ffff_ffff_ffff_ffff + 1 && pow2(14) <= pow2(128) && pow2(15)
        == 2 * pow2(14)) by {
        lemma2_to64();
        lemma_pow2_adds(64, 64);
        lemma_pow2_unfold(15);
        if 14 < 128 {
            lemma_pow2_strictly_increases(14, 128);
        }
    }
    lemma_words_14(0, 0);
    lemma_bit_len_bound(p, 14);
    lemma_bit_len_bound(p, 15);
    assert forall|k: nat| k + 1 < 14 implies #[trigger] table(k + 1) == mulx(
        mulx(table(k), p),
        p,
    ) by {
        let c = squares_14(k as u128);
        lemma_words_14(0, k as u128);
        lemma_mulx_word(c, 14, h, low);
        let d = mulx_word(c, h, low);
        lemma_bit_len_bound(c as nat, 14);
        lemma_mulx_reduced(c as nat, p);
        lemma_bit_len_bound(d as nat, 14);
        lemma_mulx_word(d, 14, h, low);
    }
    assert forall|i: nat| i < 14 implies #[trigger] table(i) == square(pow2(i), p) by {
        lemma_square_table(table, 14, p, i);
    }
    assert forall|v: nat| bit_len(v) <= 14 implies (#[trigger] square(v, p) == v ==> v == 0 || v
        == 1) && (square(v, p) == 0 ==> v == 0) by {
        lemma_bit_len_bound(v, 14);
        let w = v as u128;
        lemma_small_mod(v, pow2(14));
        lemma_square_as_sum(v, 14, 14, p, table);
        lemma_sum_14(w, 14);
        lemma_words_14(w, 0);
    }
    lemma_irreducible_by_squares(p, 14);
}

/// The squares of the powers of `x` below degree 15, modulo the
/// polynomial of degree 15: entry `k` is `x^(2k)`, reduced.
pub open spec fn squares_15(k: u128) -> u128 {
    if k == 0 {
        0x1
    } else if k == 1 {
        0x4
    } else if k == 2 {
        0x10
    } else if k == 3 {
        0x40
    } else if k == 4 {
        0x100
    } else if k == 5 {
        0x400
    } else if k == 6 {
        0x1000
    } else if k == 7 {
        0x4000
    } else if k == 8 {
        0x6
    } else if k == 9 {
        0x18
    } else if k == 10 {
        0x60
    } else if k == 11 {
        0x180
    } else if k == 12 {
        0x600
    } else if k == 13 {
        0x1800
    } else if k == 14 {
        0x6000
    } else {
        0
    }
}

/// The sum of the entries of that table at the bits of `v` below bit `k`.
pub open spec fn square_15(v: u128, k: u128) -> u128
    decreases k,
{
    if k == 0 {
        0
    } else {
        square_15(v, (k - 1) as u128) ^ (if (v >> ((k - 1) as u128)) & 1 == 1 {
            squares_15((k - 1) as u128)
        } else {
            0
        })
    }
}

/// The table of degree 15 as numbers.
pub open spec fn table_15() -> spec_fn(nat) -> nat {
    |i: nat| squares_15(i as u128) as nat
}

/// On machine words, for degree 15: every entry of the table is `x` times
/// `x` times the entry before; no word but zero and one is its own square,
/// and none but zero has the square zero.
#[verifier::rlimit(100)]
proof fn lemma_words_15(v: u128, k: u128)
    by (bit_vector)
    requires
        v < 0x8000,
    ensures
        k < 14 ==> mulx_word(mulx_word(squares_15(k), 0x4000, 0x3), 0x4000, 0x3)
            == squares_15((k + 1) as u128),
        k < 15 ==> squares_15(k) < 0x8000,
        square_15(v, 15) == v ==> v == 0 || v == 1,
        square_15(v, 15) == 0 ==> v == 0,
        0x4000u128 & ((0x4000u128 - 1) as u128) == 0,
{
}

/// The sum over the table is the same on numbers and on machine words.
proof fn lemma_sum_15(v: u128, k: u128)
    requires
        k <= 15,
    ensures
        bit_sum(v as nat, k as nat, table_15()) == square_15(v, k) as nat,
    decreases k,
{
    if k > 0 {
        let j = (k - 1) as u128;
        lemma_sum_15(v, j);
        lemma_bit_word(v, j);
        lemma_xor_u128(square_15(v, j), if (v >> j) & 1 == 1 { squares_15(j) } else { 0 });
    }
}

/// The polynomial of degree 15 of the table is irreducible.
pub proof fn lemma_irreducible_15()
    ensures
        irreducible(modulus_poly(15)),
{
    let p = modulus_poly(15);
    let table = table_15();
    let h: u128 = 0x4000;
    let low: u128 = 0x3;
    assert(pow2(15) + low == p && h as nat == pow2(14) && pow2(15) == 2 * h && pow2(128)
        == 0xffff_ffff_ffff_ffff_ffff_ffff_ffff_ffff + 1 && pow2(15) <= pow2(128) && pow2(16)
        == 2 * pow2(15)) by {
        lemma2_to64();
        lemma_pow2_adds(64, 64);
        lemma_pow2_unfold(16);
        if 15 < 128 {
            lemma_pow2_strictly_increases(15, 128);
        }
    }
    lemma_words_15(0, 0);
    lemma_bit_len_bound(p, 15);
    lemma_bit_len_bound(p, 16);
    assert forall|k: nat| k + 1 < 15 implies #[trigger] table(k + 1) == mulx(
        mulx(table(k), p),
        p,
    ) by {
        let c = squares_15(k as u128);
        lemma_words_15(0, k as u128);
        lemma_mulx_word(c, 15, h, low);
        let d = mulx_word(c, h, low);
        lemma_bit_len_bound(c as nat, 15);
        lemma_mulx_reduced(c as nat, p);
        lemma_bit_len_bound(d as nat, 15);
        lemma_mulx_word(d, 15, h, low);
    }
    assert forall|i: nat| i < 15 implies #[trigger] table(i) == square(pow2(i), p) by {
        lemma_square_table(table, 15, p, i);
    }
    assert forall|v: nat| bit_len(v) <= 15 implies (#[trigger] square(v, p) == v ==> v == 0 || v
        == 1) && (square(v, p) == 0 ==> v == 0) by {
        lemma_bit_len_bound(v, 15);
        let w = v as u128;
        lemma_small_mod(v, pow2(15));
        lemma_square_as_sum(v, 15, 15, p, table);
        lemma_sum_15(w, 15);
        lemma_words_15(w, 0);
    }
    lemma_irreducible_by_squares(p, 15);
}

/// The squares of the powers of `x` below degree 16, modulo the
/// polynomial of degree 16: entry `k` is `x^(2k)`, reduced.
pub open spec fn squares_16(k: u128) -> u128 {
    if k == 0 {
        0x1
    } else if k == 1 {
        0x4
    } else if k == 2 {
        0x10
    } else if k == 3 {
        0x40
    } else if k == 4 {
        0x100
    } else if k == 5 {
        0x400
    } else if k == 6 {
        0x1000
    } else if k == 7 {
        0x4000
    } else if k == 8 {
        0x2b
    } else if k == 9 {
        0xac
    } else if k == 10 {
        0x2b0
    } else if k == 11 {
        0xac0
    } else if k == 12 {
        0x2b00
    } else if k == 13 {
        0xac00
    } else if k == 14 {
        0xb056
    } else if k == 15 {
        0xc10e
    } else {
        0
    }
}

/// The sum of the entries of that table at the bits of `v` below bit `k`.
pub open spec fn square_16(v: u128, k: u128) -> u128
    decreases k,
{
    if k == 0 {
        0
    } else {
        square_16(v, (k - 1) as u128) ^ (if (v >> ((k - 1) as u128)) & 1 == 1 {
            squares_16((k - 1) as u128)
        } else {
            0
        })
    }
}

/// The table of degree 16 as numbers.
pub open spec fn table_16() -> spec_fn(nat) -> nat {
    |i: nat| squares_16(i as u128) as nat
}

/// On machine words, for degree 16: every entry of the table is `x` times
/// `x` times the entry before; no word but zero and one is its own square,
/// and none but zero has the square zero.
#[verifier::rlimit(100)]
proof fn lemma_words_16(v: u128, k: u128)
    by (bit_vector)
    requires
        v < 0x1_0000,
    ensures
        k < 15 ==> mulx_word(mulx_word(squares_16(k), 0x8000, 0x2b), 0x8000, 0x2b)
            == squares_16((k + 1) as u128),
        k < 16 ==> squares_16(k) < 0x1_0000,
        square_16(v, 16) == v ==> v == 0 || v == 1,
        square_16(v, 16) == 0 ==> v == 0,
        0x8000u128 & ((0x8000u128 - 1) as u128) == 0,
{
}

/// The sum over the table is the same on numbers and on machine words.
proof fn lemma_sum_16(v: u128, k: u128)
    requires
        k <= 16,
    ensures
        bit_sum(v as nat, k as nat, table_16()) == square_16(v, k) as nat,
    decreases k,
{
    if k > 0 {
        let j = (k - 1) as u128;
        lemma_sum_16(v, j);
        lemma_bit_word(v, j);
        lemma_xor_u128(square_16(v, j), if (v >> j) & 1 == 1 { squares_16(j) } else { 0 });
    }
}

/// The polynomial of degree 16 of the table is irreducible.
pub proof fn lemma_irreducible_16()
    ensures
        irreducible(modulus_poly(16)),
{
    let p = modulus_poly(16);
    let table = table_16();
    let h: u128 = 0x8000;
    let low: u128 = 0x2b;
    assert(pow2(16) + low == p && h as nat == pow2(15) && pow2(16) == 2 * h && pow2(128)
        == 0xffff_ffff_ffff_ffff_ffff_ffff_ffff_ffff + 1 && pow2(16) <= pow2(128) && pow2(17)
        == 2 * pow2(16)) by {
        lemma2_to64();
        lemma_pow2_adds(64, 64);
        lemma_pow2_unfold(17);
        if 16 < 128 {
            lemma_pow2_strictly_increases(16, 128);
        }
    }
    lemma_words_16(0, 0);
    lemma_bit_len_bound(p, 16);
    lemma_bit_len_bound(p, 17);
    assert forall|k: nat| k + 1 < 16 implies #[trigger] table(k + 1) == mulx(
        mulx(table(k), p),
        p,
    ) by {
        let c = squares_16(k as u128);
        lemma_words_16(0, k as u128);
        lemma_mulx_word(c, 16, h, low);
        let d = mulx_word(c, h, low);
        lemma_bit_len_bound(c as nat, 16);
        lemma_mulx_reduced(c as nat, p);
        lemma_bit_len_bound(d as nat, 16);
        lemma_mulx_word(d, 16, h, low);
    }
    assert forall|i: nat| i < 16 implies #[trigger] table(i) == square(pow2(i), p) by {
        lemma_square_table(table, 16, p, i);
    }
    assert forall|v: nat| bit_len(v) <= 16 implies (#[trigger] square(v, p) == v ==> v == 0 || v
        == 1) && (square(v, p) == 0 ==> v == 0) by {
        lemma_bit_len_bound(v, 16);
        let w = v as u128;
        lemma_small_mod(v, pow2(16));
        lemma_square_as_sum(v, 16, 16, p, table);
        lemma_sum_16(w, 16);
        lemma_words_16(w, 0);
    }
    lemma_irreducible_by_squares(p, 16);
}

/// The squares of the powers of `x` below degree 32, modulo the
/// polynomial of degree 32: entry `k` is `x^(2k)`, reduced.
pub open spec fn squares_32(k: u128) -> u128 {
    if k == 0 {
        0x1
    } else if k == 1 {
        0x4
    } else if k == 2 {
        0x10
    } else if k == 3 {
        0x40
    } else if k == 4 {
        0x100
    } else if k == 5 {
        0x400
    } else if k == 6 {
        0x1000
    } else if k == 7 {
        0x4000
    } else if k == 8 {
        0x1_0000
    } else if k == 9 {
        0x4_0000
    } else if k == 10 {
        0x10_0000
    } else if k == 11 {
        0x40_0000
    } else if k == 12 {
        0x100_0000
    } else if k == 13 {
        0x400_0000
    } else if k == 14 {
        0x1000_0000
    } else if k == 15 {
        0x4000_0000
    } else if k == 16 {
        0x8d
    } else if k == 17 {
        0x234
    } else if k == 18 {
        0x8d0
    } else if k == 19 {
        0x2340
    } else if k == 20 {
        0x8d00
    } else if k == 21 {
        0x2_3400
    } else if k == 22 {
        0x8_d000
    } else if k == 23 {
        0x23_4000
    } else if k == 24 {
        0x8d_0000
    } else if k == 25 {
        0x234_0000
    } else if k == 26 {
        0x8d0_0000
    } else if k == 27 {
        0x2340_0000
    } else if k == 28 {
        0x8d00_0000
    } else if k == 29 {
        0x3400_011a
    } else if k == 30 {
        0xd000_0468
    } else if k == 31 {
        0x4000_1037
    } else {
        0
    }
}

/// The sum of the entries of that table at the bits of `v` below bit `k`.
pub open spec fn square_32(v: u128, k: u128) -> u128
    decreases k,
{
    if k == 0 {
        0
    } else {
        square_32(v, (k - 1) as u128) ^ (if (v >> ((k - 1) as u128)) & 1 == 1 {
            squares_32((k - 1) as u128)
        } else {
            0
        })
    }
}

/// The table of degree 32 as numbers.
pub open spec fn table_32() -> spec_fn(nat) -> nat {
    |i: nat| squares_32(i as u128) as nat
}

/// On machine words, for degree 32: every entry of the table is `x` times
/// `x` times the entry before; no word but zero and one is its own square,
/// and none but zero has the square zero.
#[verifier::rlimit(100)]
proof fn lemma_words_32(v: u128, k: u128)
    by (bit_vector)
    requires
        v < 0x1_0000_0000,
    ensures
        k < 31 ==> mulx_word(mulx_word(squares_32(k), 0x8000_0000, 0x8d), 0x8000_0000, 0x8d)
            == squares_32((k + 1) as u128),
        k < 32 ==> squares_32(k) < 0x1_0000_0000,
        square_32(v, 32) == v ==> v == 0 || v == 1,
        square_32(v, 32) == 0 ==> v == 0,
        0x8000_0000u128 & ((0x8000_0000u128 - 1) as u128) == 0,
{
}

/// The sum over the table is the same on numbers and on machine words.
proof fn lemma_sum_32(v: u128, k: u128)
    requires
        k <= 32,
    ensures
        bit_sum(v as nat, k as nat, table_32()) == square_32(v, k) as nat,
    decreases k,
{
    if k > 0 {
        let j = (k - 1) as u128;
        lemma_sum_32(v, j);
        lemma_bit_word(v, j);
        lemma_xor_u128(square_32(v, j), if (v >> j) & 1 == 1 { squares_32(j) } else { 0 });
    }
}

/// The polynomial of degree 32 of the table is irreducible.
pub proof fn lemma_irreducible_32()
    ensures
        irreducible(modulus_poly(32)),
{
    let p = modulus_poly(32);
    let table = table_32();
    let h: u128 = 0x8000_0000;
    let low: u128 = 0x8d;
    assert(pow2(32) + low == p && h as nat == pow2(31) && pow2(32) == 2 * h && pow2(128)
        == 0xffff_ffff_ffff_ffff_ffff_ffff_ffff_ffff + 1 && pow2(32) <= pow2(128) && pow2(33)
        == 2 * pow2(32)) by {
        lemma2_to64();
        lemma_pow2_adds(64, 64);
        lemma_pow2_unfold(33);
        if 32 < 128 {
            lemma_pow2_strictly_increases(32, 128);
        }
    }
    lemma_words_32(0, 0);
    lemma_bit_len_bound(p, 32);
    lemma_bit_len_bound(p, 33);
    assert forall|k: nat| k + 1 < 32 implies #[trigger] table(k + 1) == mulx(
        mulx(table(k), p),
        p,
    ) by {
        let c = squares_32(k as u128);
        lemma_words_32(0, k as u128);
        lemma_mulx_word(c, 32, h, low);
        let d = mulx_word(c, h, low);
        lemma_bit_len_bound(c as nat, 32);
        lemma_mulx_reduced(c as nat, p);
        lemma_bit_len_bound(d as nat, 32);
        lemma_mulx_word(d, 32, h, low);
    }
    assert forall|i: nat| i < 32 implies #[trigger] table(i) == square(pow2(i), p) by {
        lemma_square_table(table, 32, p, i);
    }
    assert forall|v: nat| bit_len(v) <= 32 implies (#[trigger] square(v, p) == v ==> v == 0 || v
        == 1) && (square(v, p) == 0 ==> v == 0) by {
        lemma_bit_len_bound(v, 32);
        let w = v as u128;
        lemma_small_mod(v, pow2(32));
        lemma_square_as_sum(v, 32, 32, p, table);
        lemma_sum_32(w, 32);
        lemma_words_32(w, 0);
    }
    lemma_irreducible_by_squares(p, 32);
}

/// The squares of the powers of `x` below degree 64, modulo the
/// polynomial of degree 64: entry `k` is `x^(2k)`, reduced.
pub open spec fn squares_64(k: u128) -> u128 {
    if k == 0 {
        0x1
    } else if k == 1 {
        0x4
    } else if k == 2 {
        0x10
    } else if k == 3 {
        0x40
    } else if k == 4 {
        0x100
    } else if k == 5 {
        0x400
    } else if k == 6 {
        0x1000
    } else if k == 7 {
        0x4000
    } else if k == 8 {
        0x1_0000
    } else if k == 9 {
        0x4_0000
    } else if k == 10 {
        0x10_0000
    } else if k == 11 {
        0x40_0000
    } else if k == 12 {
        0x100_0000
    } else if k == 13 {
        0x400_0000
    } else if k == 14 {
        0x1000_0000
    } else if k == 15 {
        0x4000_0000
    } else if k == 16 {
        0x1_0000_0000
    } else if k == 17 {
        0x4_0000_0000
    } else if k == 18 {
        0x10_0000_0000
    } else if k == 19 {
        0x40_0000_0000
    } else if k == 20 {
        0x100_0000_0000
    } else if k == 21 {
        0x400_0000_0000
    } else if k == 22 {
        0x1000_0000_0000
    } else if k == 23 {
        0x4000_0000_0000
    } else if k == 24 {
        0x1_0000_0000_0000
    } else if k == 25 {
        0x4_0000_0000_0000
    } else if k == 26 {
        0x10_0000_0000_0000
    } else if k == 27 {
        0x40_0000_0000_0000
    } else if k == 28 {
        0x100_0000_0000_0000
    } else if k == 29 {
        0x400_0000_0000_0000
    } else if k == 30 {
        0x1000_0000_0000_0000
    } else if k == 31 {
        0x4000_0000_0000_0000
    } else if k == 32 {
        0x1b
    } else if k == 33 {
        0x6c
    } else if k == 34 {
        0x1b0
    } else if k == 35 {
        0x6c0
    } else if k == 36 {
        0x1b00
    } else if k == 37 {
        0x6c00
    } else if k == 38 {
        0x1_b000
    } else if k == 39 {
        0x6_c000
    } else if k == 40 {
        0x1b_0000
    } else if k == 41 {
        0x6c_0000
    } else if k == 42 {
        0x1b0_0000
    } else if k == 43 {
        0x6c0_0000
    } else if k == 44 {
        0x1b00_0000
    } else if k == 45 {
        0x6c00_0000
    } else if k == 46 {
        0x1_b000_0000
    } else if k == 47 {
        0x6_c000_0000
    } else if k == 48 {
        0x1b_0000_0000
    } else if k == 49 {
        0x6c_0000_0000
    } else if k == 50 {
        0x1b0_0000_0000
    } else if k == 51 {
        0x6c0_0000_0000
    } else if k == 52 {
        0x1b00_0000_0000
    } else if k == 53 {
        0x6c00_0000_0000
    } else if k == 54 {
        0x1_b000_0000_0000
    } else if k == 55 {
        0x6_c000_0000_0000
    } else if k == 56 {
        0x1b_0000_0000_0000
    } else if k == 57 {
        0x6c_0000_0000_0000
    } else if k == 58 {
        0x1b0_0000_0000_0000
    } else if k == 59 {
        0x6c0_0000_0000_0000
    } else if k == 60 {
        0x1b00_0000_0000_0000
    } else if k == 61 {
        0x6c00_0000_0000_0000
    } else if k == 62 {
        0xb000_0000_0000_001b
    } else if k == 63 {
        0xc000_0000_0000_005a
    } else {
        0
    }
}

/// The sum of the entries of that table at the bits of `v` below bit `k`.
pub open spec fn square_64(v: u128, k: u128) -> u128
    decreases k,
{
    if k == 0 {
        0
    } else {
        square_64(v, (k - 1) as u128) ^ (if (v >> ((k - 1) as u128)) & 1 == 1 {
            squares_64((k - 1) as u128)
        } else {
            0
        })
    }
}

/// The table of degree 64 as numbers.
pub open spec fn table_64() -> spec_fn(nat) -> nat {
    |i: nat| squares_64(i as u128) as nat
}

/// On machine words, for degree 64: every entry of the table is `x` times
/// `x` times the entry before; no word but zero and one is its own square,
/// and none but zero has the square zero.
#[verifier::rlimit(100)]
proof fn lemma_words_64(v: u128, k: u128)
    by (bit_vector)
    requires
        v < 0x1_0000_0000_0000_0000,
    ensures
        k < 63 ==> mulx_word(mulx_word(squares_64(k), 0x8000_0000_0000_0000, 0x1b), 0x8000_0000_0000_0000, 0x1b)
            == squares_64((k + 1) as u128),
        k < 64 ==> squares_64(k) < 0x1_0000_0000_0000_0000,
        square_64(v, 64) == v ==> v == 0 || v == 1,
        square_64(v, 64) == 0 ==> v == 0,
        0x8000_0000_0000_0000u128 & ((0x8000_0000_0000_0000u128 - 1) as u128) == 0,
{
}

/// The sum over the table is the same on numbers and on machine words.
proof fn lemma_sum_64(v: u128, k: u128)
    requires
        k <= 64,
    ensures
        bit_sum(v as nat, k as nat, table_64()) == square_64(v, k) as nat,
    decreases k,
{
    if k > 0 {
        let j = (k - 1) as u128;
        lemma_sum_64(v, j);
        lemma_bit_word(v, j);
        lemma_xor_u128(square_64(v, j), if (v >> j) & 1 == 1 { squares_64(j) } else { 0 });
    }
}

/// The polynomial of degree 64 of the table is irreducible.
pub proof fn lemma_irreducible_64()
    ensures
        irreducible(modulus_poly(64)),
{
    let p = modulus_poly(64);
    let table = table_64();
    let h: u128 = 0x8000_0000_0000_0000;
    let low: u128 = 0x1b;
    assert(pow2(64) + low == p && h as nat == pow2(63) && pow2(64) == 2 * h && pow2(128)
        == 0xffff_ffff_ffff_ffff_ffff_ffff_ffff_ffff + 1 && pow2(64) <= pow2(128) && pow2(65)
        == 2 * pow2(64)) by {
        lemma2_to64();
        lemma2_to64_rest();
        lemma_pow2_adds(64, 64);
        lemma_pow2_unfold(65);
        if 64 < 128 {
            lemma_pow2_strictly_increases(64, 128);
        }
    }
    lemma_words_64(0, 0);
    lemma_bit_len_bound(p, 64);
    lemma_bit_len_bound(p, 65);
    assert forall|k: nat| k + 1 < 64 implies #[trigger] table(k + 1) == mulx(
        mulx(table(k), p),
        p,
    ) by {
        let c = squares_64(k as u128);
        lemma_words_64(0, k as u128);
        lemma_mulx_word(c, 64, h, low);
        let d = mulx_word(c, h, low);
        lemma_bit_len_bound(c as nat, 64);
        lemma_mulx_reduced(c as nat, p);
        lemma_bit_len_bound(d as nat, 64);
        lemma_mulx_word(d, 64, h, low);
    }
    assert forall|i: nat| i < 64 implies #[trigger] table(i) == square(pow2(i), p) by {
        lemma_square_table(table, 64, p, i);
    }
    assert forall|v: nat| bit_len(v) <= 64 implies (#[trigger] square(v, p) == v ==> v == 0 || v
        == 1) && (square(v, p) == 0 ==> v == 0) by {
        lemma_bit_len_bound(v, 64);
        let w = v as u128;
        lemma_small_mod(v, pow2(64));
        lemma_square_as_sum(v, 64, 64, p, table);
        lemma_sum_64(w, 64);
        lemma_words_64(w, 0);
    }
    lemma_irreducible_by_squares(p, 64);
}

/// The squares of the powers of `x` below degree 128, modulo the
/// polynomial of degree 128: entry `k` is `x^(2k)`, reduced.
pub open spec fn squares_128(k: u128) -> u128 {
    if k == 0 {
        0x1
    } else if k == 1 {
        0x4
    } else if k == 2 {
        0x10
    } else if k == 3 {
        0x40
    } else if k == 4 {
        0x100
    } else if k == 5 {
        0x400
    } else if k == 6 {
        0x1000
    } else if k == 7 {
        0x4000
    } else if k == 8 {
        0x1_0000
    } else if k == 9 {
        0x4_0000
    } else if k == 10 {
        0x10_0000
    } else if k == 11 {
        0x40_0000
    } else if k == 12 {
        0x100_0000
    } else if k == 13 {
        0x400_0000
    } else if k == 14 {
        0x1000_0000
    } else if k == 15 {
        0x4000_0000
    } else if k == 16 {
        0x1_0000_0000
    } else if k == 17 {
        0x4_0000_0000
    } else if k == 18 {
        0x10_0000_0000
    } else if k == 19 {
        0x40_0000_0000
    } else if k == 20 {
        0x100_0000_0000
    } else if k == 21 {
        0x400_0000_0000
    } else if k == 22 {
        0x1000_0000_0000
    } else if k == 23 {
        0x4000_0000_0000
    } else if k == 24 {
        0x1_0000_0000_0000
    } else if k == 25 {
        0x4_0000_0000_0000
    } else if k == 26 {
        0x10_0000_0000_0000
    } else if k == 27 {
        0x40_0000_0000_0000
    } else if k == 28 {
        0x100_0000_0000_0000
    } else if k == 29 {
        0x400_0000_0000_0000
    } else if k == 30 {
        0x1000_0000_0000_0000
    } else if k == 31 {
        0x4000_0000_0000_0000
    } else if k == 32 {
        0x1_0000_0000_0000_0000
    } else if k == 33 {
        0x4_0000_0000_0000_0000
    } else if k == 34 {
        0x10_0000_0000_0000_0000
    } else if k == 35 {
        0x40_0000_0000_0000_0000
    } else if k == 36 {
        0x100_0000_0000_0000_0000
    } else if k == 37 {
        0x400_0000_0000_0000_0000
    } else if k == 38 {
        0x1000_0000_0000_0000_0000
    } else if k == 39 {
        0x4000_0000_0000_0000_0000
    } else if k == 40 {
        0x1_0000_0000_0000_0000_0000
    } else if k == 41 {
        0x4_0000_0000_0000_0000_0000
    } else if k == 42 {
        0x10_0000_0000_0000_0000_0000
    } else if k == 43 {
        0x40_0000_0000_0000_0000_0000
    } else if k == 44 {
        0x100_0000_0000_0000_0000_0000
    } else if k == 45 {
        0x400_0000_0000_0000_0000_0000
    } else if k == 46 {
        0x1000_0000_0000_0000_0000_0000
    } else if k == 47 {
        0x4000_0000_0000_0000_0000_0000
    } else if k == 48 {
        0x1_0000_0000_0000_0000_0000_0000
    } else if k == 49 {
        0x4_0000_0000_0000_0000_0000_0000
    } else if k == 50 {
        0x10_0000_0000_0000_0000_0000_0000
    } else if k == 51 {
        0x40_0000_0000_0000_0000_0000_0000
    } else if k == 52 {
        0x100_0000_0000_0000_0000_0000_0000
    } else if k == 53 {
        0x400_0000_0000_0000_0000_0000_0000
    } else if k == 54 {
        0x1000_0000_0000_0000_0000_0000_0000
    } else if k == 55 {
        0x4000_0000_0000_0000_0000_0000_0000
    } else if k == 56 {
        0x1_0000_0000_0000_0000_0000_0000_0000
    } else if k == 57 {
        0x4_0000_0000_0000_0000_0000_0000_0000
    } else if k == 58 {
        0x10_0000_0000_0000_0000_0000_0000_0000
    } else if k == 59 {
        0x40_0000_0000_0000_0000_0000_0000_0000
    } else if k == 60 {
        0x100_0000_0000_0000_0000_0000_0000_0000
    } else if k == 61 {
        0x400_0000_0000_0000_0000_0000_0000_0000
    } else if k == 62 {
        0x1000_0000_0000_0000_0000_0000_0000_0000
    } else if k == 63 {
        0x4000_0000_0000_0000_0000_0000_0000_0000
    } else if k == 64 {
        0x87
    } else if k == 65 {
        0x21c
    } else if k == 66 {
        0x870
    } else if k == 67 {
        0x21c0
    } else if k == 68 {
        0x8700
    } else if k == 69 {
        0x2_1c00
    } else if k == 70 {
        0x8_7000
    } else if k == 71 {
        0x21_c000
    } else if k == 72 {
        0x87_0000
    } else if k == 73 {
        0x21c_0000
    } else if k == 74 {
        0x870_0000
    } else if k == 75 {
        0x21c0_0000
    } else if k == 76 {
        0x8700_0000
    } else if k == 77 {
        0x2_1c00_0000
    } else if k == 78 {
        0x8_7000_0000
    } else if k == 79 {
        0x21_c000_0000
    } else if k == 80 {
        0x87_0000_0000
    } else if k == 81 {
        0x21c_0000_0000
    } else if k == 82 {
        0x870_0000_0000
    } else if k == 83 {
        0x21c0_0000_0000
    } else if k == 84 {
        0x8700_0000_0000
    } else if k == 85 {
        0x2_1c00_0000_0000
    } else if k == 86 {
        0x8_7000_0000_0000
    } else if k == 87 {
        0x21_c000_0000_0000
    } else if k == 88 {
        0x87_0000_0000_0000
    } else if k == 89 {
        0x21c_0000_0000_0000
    } else if k == 90 {
        0x870_0000_0000_0000
    } else if k == 91 {
        0x21c0_0000_0000_0000
    } else if k == 92 {
        0x8700_0000_0000_0000
    } else if k == 93 {
        0x2_1c00_0000_0000_0000
    } else if k == 94 {
        0x8_7000_0000_0000_0000
    } else if k == 95 {
        0x21_c000_0000_0000_0000
    } else if k == 96 {
        0x87_0000_0000_0000_0000
    } else if k == 97 {
        0x21c_0000_0000_0000_0000
    } else if k == 98 {
        0x870_0000_0000_0000_0000
    } else if k == 99 {
        0x21c0_0000_0000_0000_0000
    } else if k == 100 {
        0x8700_0000_0000_0000_0000
    } else if k == 101 {
        0x2_1c00_0000_0000_0000_0000
    } else if k == 102 {
        0x8_7000_0000_0000_0000_0000
    } else if k == 103 {
        0x21_c000_0000_0000_0000_0000
    } else if k == 104 {
        0x87_0000_0000_0000_0000_0000
    } else if k == 105 {
        0x21c_0000_0000_0000_0000_0000
    } else if k == 106 {
        0x870_0000_0000_0000_0000_0000
    } else if k == 107 {
        0x21c0_0000_0000_0000_0000_0000
    } else if k == 108 {
        0x8700_0000_0000_0000_0000_0000
    } else if k == 109 {
        0x2_1c00_0000_0000_0000_0000_0000
    } else if k == 110 {
        0x8_7000_0000_0000_0000_0000_0000
    } else if k == 111 {
        0x21_c000_0000_0000_0000_0000_0000
    } else if k == 112 {
        0x87_0000_0000_0000_0000_0000_0000
    } else if k == 113 {
        0x21c_0000_0000_0000_0000_0000_0000
    } else if k == 114 {
        0x870_0000_0000_0000_0000_0000_0000
    } else if k == 115 {
        0x21c0_0000_0000_0000_0000_0000_0000
    } else if k == 116 {
        0x8700_0000_0000_0000_0000_0000_0000
    } else if k == 117 {
        0x2_1c00_0000_0000_0000_0000_0000_0000
    } else if k == 118 {
        0x8_7000_0000_0000_0000_0000_0000_0000
    } else if k == 119 {
        0x21_c000_0000_0000_0000_0000_0000_0000
    } else if k == 120 {
        0x87_0000_0000_0000_0000_0000_0000_0000
    } else if k == 121 {
        0x21c_0000_0000_0000_0000_0000_0000_0000
    } else if k == 122 {
        0x870_0000_0000_0000_0000_0000_0000_0000
    } else if k == 123 {
        0x21c0_0000_0000_0000_0000_0000_0000_0000
    } else if k == 124 {
        0x8700_0000_0000_0000_0000_0000_0000_0000
    } else if k == 125 {
        0x1c00_0000_0000_0000_0000_0000_0000_010e
    } else if k == 126 {
        0x7000_0000_0000_0000_0000_0000_0000_0438
    } else if k == 127 {
        0xc000_0000_0000_0000_0000_0000_0000_1067
    } else {
        0
    }
}

/// The sum of the entries of that table at the bits of `v` below bit `k`.
pub open spec fn square_128(v: u128, k: u128) -> u128
    decreases k,
{
    if k == 0 {
        0
    } else {
        square_128(v, (k - 1) as u128) ^ (if (v >> ((k - 1) as u128)) & 1 == 1 {
            squares_128((k - 1) as u128)
        } else {
            0
        })
    }
}

/// The table of degree 128 as numbers.
pub open spec fn table_128() -> spec_fn(nat) -> nat {
    |i: nat| squares_128(i as u128) as nat
}

/// On machine words, for degree 128: every entry of the table is `x` times
/// `x` times the entry before; no word but zero and one is its own square,
/// and none but zero has the square zero.
#[verifier::rlimit(100)]
proof fn lemma_words_128(v: u128, k: u128)
    by (bit_vector)
    ensures
        k < 127 ==> mulx_word(mulx_word(squares_128(k), 0x8000_0000_0000_0000_0000_0000_0000_0000, 0x87), 0x8000_0000_0000_0000_0000_0000_0000_0000, 0x87)
            == squares_128((k + 1) as u128),
        square_128(v, 128) == v ==> v == 0 || v == 1,
        square_128(v, 128) == 0 ==> v == 0,
        0x8000_0000_0000_0000_0000_0000_0000_0000u128 & ((0x8000_0000_0000_0000_0000_0000_0000_0000u128 - 1) as u128) == 0,
{
}

/// The sum over the table is the same on numbers and on machine words.
proof fn lemma_sum_128(v: u128, k: u128)
    requires
        k <= 128,
    ensures
        bit_sum(v as nat, k as nat, table_128()) == square_128(v, k) as nat,
    decreases k,
{
    if k > 0 {
        let j = (k - 1) as u128;
        lemma_sum_128(v, j);
        lemma_bit_word(v, j);
        lemma_xor_u128(square_128(v, j), if (v >> j) & 1 == 1 { squares_128(j) } else { 0 });
    }
}

/// The polynomial of degree 128 of the table is irreducible.
pub proof fn lemma_irreducible_128()
    ensures
        irreducible(modulus_poly(128)),
{
    let p = modulus_poly(128);
    let table = table_128();
    let h: u128 = 0x8000_0000_0000_0000_0000_0000_0000_0000;
    let low: u128 = 0x87;
    assert(pow2(128) + low == p && h as nat == pow2(127) && pow2(128) == 2 * h && pow2(128)
        == 0xffff_ffff_ffff_ffff_ffff_ffff_ffff_ffff + 1 && pow2(128) <= pow2(128) && pow2(129)
        == 2 * pow2(128)) by {
        lemma2_to64();
        lemma2_to64_rest();
        lemma_pow2_adds(63, 64);
        lemma_pow2_adds(64, 64);
        lemma_pow2_adds(64, 64);
        lemma_pow2_unfold(129);
        if 128 < 128 {
            lemma_pow2_strictly_increases(128, 128);
        }
    }
    lemma_words_128(0, 0);
    lemma_bit_len_bound(p, 128);
    lemma_bit_len_bound(p, 129);
    assert forall|k: nat| k + 1 < 128 implies #[trigger] table(k + 1) == mulx(
        mulx(table(k), p),
        p,
    ) by {
        let c = squares_128(k as u128);
        lemma_words_128(0, k as u128);
        lemma_mulx_word(c, 128, h, low);
        let d = mulx_word(c, h, low);
        lemma_bit_len_bound(c as nat, 128);
        lemma_mulx_reduced(c as nat, p);
        lemma_bit_len_bound(d as nat, 128);
        lemma_mulx_word(d, 128, h, low);
    }
    assert forall|i: nat| i < 128 implies #[trigger] table(i) == square(pow2(i), p) by {
        lemma_square_table(table, 128, p, i);
    }
    assert forall|v: nat| bit_len(v) <= 128 implies (#[trigger] square(v, p) == v ==> v == 0 || v
        == 1) && (square(v, p) == 0 ==> v == 0) by {
        lemma_bit_len_bound(v, 128);
        let w = v as u128;
        lemma_small_mod(v, pow2(128));
        lemma_square_as_sum(v, 128, 128, p, table);
        lemma_sum_128(w, 128);
        lemma_words_128(w, 0);
    }
    lemma_irreducible_by_squares(p, 128);
}

/// Every polynomial of the table is irreducible.
pub proof fn lemma_table_irreducible(exp: u32)
    requires
        low_terms(exp).is_some(),
    ensures
        irreducible(modulus_poly(exp)),
{
    if exp == 2 {
        lemma_irreducible_2();
    } else if exp == 3 {
        lemma_irreducible_3();
    } else if exp == 4 {
        lemma_irreducible_4();
    } else if exp == 5 {
        lemma_irreducible_5();
    } else if exp == 6 {
        lemma_irreducible_6();
    } else if exp == 7 {
        lemma_irreducible_7();
    } else if exp == 8 {
        lemma_irreducible_8();
    } else if exp == 9 {
        lemma_irreducible_9();
    } else if exp == 10 {
        lemma_irreducible_10();
    } else if exp == 11 {
        lemma_irreducible_11();
    } else if exp == 12 {
        lemma_irreducible_12();
    } else if exp == 13 {
        lemma_irreducible_13();
    } else if exp == 14 {
        lemma_irreducible_14();
    } else if exp == 15 {
        lemma_irreducible_15();
    } else if exp == 16 {
        lemma_irreducible_16();
    } else if exp == 32 {
        lemma_irreducible_32();
    } else if exp == 64 {
        lemma_irreducible_64();
    } else if exp == 128 {
        lemma_irreducible_128();
    }
}

} // verus!
