//! What follows from the laws of a field, on the numbers of its elements:
//! negatives, cancellation, and sums over ranges of indices.

use crate::math::galois::FiniteField;
use vstd::prelude::*;

verus! {

/// The number of the negative of the element with the number `a`.
pub open spec fn neg<F: FiniteField>(field: nat, a: nat) -> nat {
    F::sub_in(field, 0, a)
}

/// The number of the inverse of the element with the number `a`, which is
/// not zero.
pub open spec fn inv<F: FiniteField>(field: nat, a: nat) -> nat {
    match F::inv_in(field, a) {
        Some(i) => i,
        None => 0,
    }
}

/// Zero and one are numbers of elements, and neutral on either side.
pub proof fn lemma_zero_one<F: FiniteField>(field: nat, a: nat)
    requires
        F::is_field(field),
        a < F::size_of(field),
    ensures
        1 < F::size_of(field),
        F::add_in(field, a, 0) == a,
        F::add_in(field, 0, a) == a,
        F::mul_in(field, a, 1) == a,
        F::mul_in(field, 1, a) == a,
{
    F::lemma_field_size(field);
    F::lemma_field_laws(field, a, 0, 0);
    F::lemma_field_laws(field, a, 1, 0);
}

/// An element and its negative add up to zero.
pub proof fn lemma_neg<F: FiniteField>(field: nat, a: nat)
    requires
        F::is_field(field),
        a < F::size_of(field),
    ensures
        neg::<F>(field, a) < F::size_of(field),
        F::add_in(field, a, neg::<F>(field, a)) == 0,
        F::add_in(field, neg::<F>(field, a), a) == 0,
{
    lemma_zero_one::<F>(field, a);
    F::lemma_field_laws(field, 0, a, 0);
    F::lemma_field_laws(field, a, neg::<F>(field, a), 0);
}

/// What is added on both sides can be taken away.
pub proof fn lemma_add_cancel<F: FiniteField>(field: nat, x: nat, y: nat, b: nat)
    requires
        F::is_field(field),
        x < F::size_of(field),
        y < F::size_of(field),
        b < F::size_of(field),
        F::add_in(field, x, b) == F::add_in(field, y, b),
    ensures
        x == y,
{
    let n = neg::<F>(field, b);
    lemma_neg::<F>(field, b);
    F::lemma_field_laws(field, x, b, n);
    F::lemma_field_laws(field, y, b, n);
    lemma_zero_one::<F>(field, x);
    lemma_zero_one::<F>(field, y);
}

/// A difference is the sum with the negative.
pub proof fn lemma_sub<F: FiniteField>(field: nat, a: nat, b: nat)
    requires
        F::is_field(field),
        a < F::size_of(field),
        b < F::size_of(field),
    ensures
        F::sub_in(field, a, b) < F::size_of(field),
        F::sub_in(field, a, b) == F::add_in(field, a, neg::<F>(field, b)),
        F::sub_in(field, a, a) == 0,
        a != b ==> F::sub_in(field, a, b) != 0,
{
    let n = neg::<F>(field, b);
    lemma_neg::<F>(field, b);
    lemma_neg::<F>(field, a);
    F::lemma_field_laws(field, a, b, 0);
    F::lemma_field_laws(field, a, n, b);
    lemma_zero_one::<F>(field, a);
    lemma_zero_one::<F>(field, b);
    // (a - b) + b == a == (a + n) + b
    lemma_add_cancel::<F>(field, F::sub_in(field, a, b), F::add_in(field, a, n), b);
    F::lemma_field_laws(field, a, a, 0);
    lemma_add_cancel::<F>(field, F::sub_in(field, a, a), 0, a);
}

/// A product with zero is zero.
pub proof fn lemma_mul_zero<F: FiniteField>(field: nat, a: nat)
    requires
        F::is_field(field),
        a < F::size_of(field),
    ensures
        F::mul_in(field, a, 0) == 0,
        F::mul_in(field, 0, a) == 0,
{
    lemma_zero_one::<F>(field, 0);
    F::lemma_field_laws(field, a, 0, 0);
    let z = F::mul_in(field, a, 0);
    // z + z == z == 0 + z
    lemma_zero_one::<F>(field, z);
    lemma_add_cancel::<F>(field, z, 0, z);
}

/// The product with a negative is the negative of the product.
pub proof fn lemma_mul_neg<F: FiniteField>(field: nat, a: nat, b: nat)
    requires
        F::is_field(field),
        a < F::size_of(field),
        b < F::size_of(field),
    ensures
        F::mul_in(field, a, neg::<F>(field, b)) == neg::<F>(field, F::mul_in(field, a, b)),
        F::mul_in(field, neg::<F>(field, b), a) == neg::<F>(field, F::mul_in(field, a, b)),
{
    let n = neg::<F>(field, b);
    let p = F::mul_in(field, a, b);
    lemma_neg::<F>(field, b);
    F::lemma_field_laws(field, a, b, n);
    F::lemma_field_laws(field, a, n, 0);
    lemma_mul_zero::<F>(field, a);
    lemma_neg::<F>(field, p);
    // p + a n == 0 == p + neg p
    F::lemma_field_laws(field, p, F::mul_in(field, a, n), 0);
    F::lemma_field_laws(field, p, neg::<F>(field, p), 0);
    lemma_add_cancel::<F>(field, F::mul_in(field, a, n), neg::<F>(field, p), p);
}

/// The negative of a difference is the difference the other way round.
pub proof fn lemma_neg_sub<F: FiniteField>(field: nat, a: nat, b: nat)
    requires
        F::is_field(field),
        a < F::size_of(field),
        b < F::size_of(field),
    ensures
        neg::<F>(field, F::sub_in(field, a, b)) == F::sub_in(field, b, a),
{
    let d = F::sub_in(field, a, b);
    let e = F::sub_in(field, b, a);
    lemma_sub::<F>(field, a, b);
    lemma_sub::<F>(field, b, a);
    lemma_neg::<F>(field, d);
    // (e + d) + b == e + (d + b) == e + a == b, so e + d == 0
    F::lemma_field_laws(field, e, d, b);
    F::lemma_field_laws(field, a, b, 0);
    F::lemma_field_laws(field, b, a, 0);
    lemma_zero_one::<F>(field, b);
    F::lemma_field_laws(field, e, d, 0);
    lemma_add_cancel::<F>(field, F::add_in(field, e, d), 0, b);
    F::lemma_field_laws(field, neg::<F>(field, d), d, 0);
    lemma_add_cancel::<F>(field, neg::<F>(field, d), e, d);
}

/// An element other than zero and its inverse multiply to one.
pub proof fn lemma_inv<F: FiniteField>(field: nat, a: nat)
    requires
        F::is_field(field),
        a < F::size_of(field),
        a != 0,
    ensures
        F::inv_in(field, a) == Some(inv::<F>(field, a)),
        inv::<F>(field, a) < F::size_of(field),
        F::mul_in(field, a, inv::<F>(field, a)) == 1,
        F::mul_in(field, inv::<F>(field, a), a) == 1,
{
    F::lemma_field_laws(field, a, 0, 0);
    F::lemma_field_laws(field, a, inv::<F>(field, a), 0);
}

/// A factor other than zero on both sides can be taken away.
pub proof fn lemma_mul_cancel<F: FiniteField>(field: nat, d: nat, x: nat, y: nat)
    requires
        F::is_field(field),
        d < F::size_of(field),
        x < F::size_of(field),
        y < F::size_of(field),
        d != 0,
        F::mul_in(field, d, x) == F::mul_in(field, d, y),
    ensures
        x == y,
{
    let i = inv::<F>(field, d);
    lemma_inv::<F>(field, d);
    F::lemma_field_laws(field, i, d, x);
    F::lemma_field_laws(field, i, d, y);
    lemma_zero_one::<F>(field, x);
    lemma_zero_one::<F>(field, y);
}

/// The sum of `term(j)` over the indices `j` from `lo` up to `hi`.
pub open spec fn sum<F: FiniteField>(field: nat, lo: int, hi: int, term: spec_fn(int) -> nat) -> nat
    decreases hi - lo,
{
    if hi <= lo {
        0
    } else {
        F::add_in(field, sum::<F>(field, lo, hi - 1, term), term(hi - 1))
    }
}

/// Whether the terms from `lo` up to `hi` are numbers of elements.
pub open spec fn terms_within<F: FiniteField>(
    field: nat,
    lo: int,
    hi: int,
    term: spec_fn(int) -> nat,
) -> bool {
    forall|j: int| lo <= j < hi ==> #[trigger] term(j) < F::size_of(field)
}

/// A sum of numbers of elements is one.
pub proof fn lemma_sum_within<F: FiniteField>(
    field: nat,
    lo: int,
    hi: int,
    term: spec_fn(int) -> nat,
)
    requires
        F::is_field(field),
        terms_within::<F>(field, lo, hi, term),
    ensures
        sum::<F>(field, lo, hi, term) < F::size_of(field),
    decreases hi - lo,
{
    F::lemma_field_size(field);
    if hi > lo {
        lemma_sum_within::<F>(field, lo, hi - 1, term);
        assert(term(hi - 1) < F::size_of(field));
        F::lemma_field_laws(field, sum::<F>(field, lo, hi - 1, term), term(hi - 1), 0);
    }
}

/// Sums of equal terms are equal.
pub proof fn lemma_sum_same<F: FiniteField>(
    field: nat,
    lo: int,
    hi: int,
    s: spec_fn(int) -> nat,
    t: spec_fn(int) -> nat,
)
    requires
        forall|j: int| lo <= j < hi ==> #[trigger] s(j) == t(j),
    ensures
        sum::<F>(field, lo, hi, s) == sum::<F>(field, lo, hi, t),
    decreases hi - lo,
{
    if hi > lo {
        lemma_sum_same::<F>(field, lo, hi - 1, s, t);
        assert(s(hi - 1) == t(hi - 1));
    }
}

/// A sum begins with its first term.
pub proof fn lemma_sum_first<F: FiniteField>(
    field: nat,
    lo: int,
    hi: int,
    term: spec_fn(int) -> nat,
)
    requires
        F::is_field(field),
        lo < hi,
        terms_within::<F>(field, lo, hi, term),
    ensures
        sum::<F>(field, lo, hi, term) == F::add_in(
            field,
            term(lo),
            sum::<F>(field, lo + 1, hi, term),
        ),
    decreases hi - lo,
{
    assert(term(lo) < F::size_of(field));
    assert(term(hi - 1) < F::size_of(field));
    lemma_zero_one::<F>(field, term(lo));
    if hi == lo + 1 {
        assert(sum::<F>(field, lo, lo, term) == 0);
        assert(sum::<F>(field, lo + 1, hi, term) == 0);
    } else {
        lemma_sum_first::<F>(field, lo, hi - 1, term);
        lemma_sum_within::<F>(field, lo + 1, hi - 1, term);
        F::lemma_field_laws(
            field,
            term(lo),
            sum::<F>(field, lo + 1, hi - 1, term),
            term(hi - 1),
        );
    }
}

/// A factor common to all terms can be taken out of a sum.
pub proof fn lemma_sum_scaled<F: FiniteField>(
    field: nat,
    lo: int,
    hi: int,
    c: nat,
    term: spec_fn(int) -> nat,
)
    requires
        F::is_field(field),
        c < F::size_of(field),
        terms_within::<F>(field, lo, hi, term),
    ensures
        sum::<F>(field, lo, hi, |j: int| F::mul_in(field, c, term(j))) == F::mul_in(
            field,
            c,
            sum::<F>(field, lo, hi, term),
        ),
    decreases hi - lo,
{
    if hi <= lo {
        lemma_mul_zero::<F>(field, c);
    } else {
        lemma_sum_scaled::<F>(field, lo, hi - 1, c, term);
        lemma_sum_within::<F>(field, lo, hi - 1, term);
        assert(term(hi - 1) < F::size_of(field));
        F::lemma_field_laws(field, c, sum::<F>(field, lo, hi - 1, term), term(hi - 1));
    }
}

/// The sum of sums of two terms is the sum of the two sums.
pub proof fn lemma_sum_added<F: FiniteField>(
    field: nat,
    lo: int,
    hi: int,
    s: spec_fn(int) -> nat,
    t: spec_fn(int) -> nat,
)
    requires
        F::is_field(field),
        terms_within::<F>(field, lo, hi, s),
        terms_within::<F>(field, lo, hi, t),
    ensures
        sum::<F>(field, lo, hi, |j: int| F::add_in(field, s(j), t(j))) == F::add_in(
            field,
            sum::<F>(field, lo, hi, s),
            sum::<F>(field, lo, hi, t),
        ),
    decreases hi - lo,
{
    if hi <= lo {
        F::lemma_field_size(field);
        lemma_zero_one::<F>(field, 0);
    } else {
        lemma_sum_added::<F>(field, lo, hi - 1, s, t);
        lemma_sum_within::<F>(field, lo, hi - 1, s);
        lemma_sum_within::<F>(field, lo, hi - 1, t);
        let a = sum::<F>(field, lo, hi - 1, s);
        let b = sum::<F>(field, lo, hi - 1, t);
        let x = s(hi - 1);
        let y = t(hi - 1);
        assert(x < F::size_of(field) && y < F::size_of(field));
        lemma_add4::<F>(field, a, b, x, y);
    }
}

/// Four summands regrouped: `(a + b) + (x + y) == (a + x) + (b + y)`.
pub proof fn lemma_add4<F: FiniteField>(field: nat, a: nat, b: nat, x: nat, y: nat)
    requires
        F::is_field(field),
        a < F::size_of(field),
        b < F::size_of(field),
        x < F::size_of(field),
        y < F::size_of(field),
    ensures
        F::add_in(field, F::add_in(field, a, b), F::add_in(field, x, y)) == F::add_in(
            field,
            F::add_in(field, a, x),
            F::add_in(field, b, y),
        ),
{
    let xy = F::add_in(field, x, y);
    let by = F::add_in(field, b, y);
    F::lemma_field_laws(field, x, y, 0);
    F::lemma_field_laws(field, b, y, 0);
    F::lemma_field_laws(field, a, b, xy);
    F::lemma_field_laws(field, b, x, y);
    F::lemma_field_laws(field, x, b, y);
    F::lemma_field_laws(field, a, x, by);
}

} // verus!
