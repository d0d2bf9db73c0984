//! Why Shamir's scheme recovers the secret: Lagrange's formula gives the
//! value at zero of the polynomial through the points.

use crate::math::galois::laws::{
    inv, lemma_add4, lemma_add_cancel, lemma_inv, lemma_mul_cancel, lemma_mul_neg, lemma_mul_zero,
    lemma_neg, lemma_neg_sub, lemma_sub, lemma_sum_added, lemma_sum_first, lemma_sum_same,
    lemma_sum_scaled, lemma_sum_within, lemma_zero_one, neg, sum, terms_within,
};
use crate::math::galois::FiniteField;
use crate::protocol::shamir::polynomial::{
    chosen, evaluate, interpolate, lemma_chosen, weight, Point,
};
use vstd::prelude::*;

verus! {

/// Whether the points lie at different elements of the field.
pub open spec fn distinct_points<F: FiniteField>(field: nat, points: Seq<Point>) -> bool {
    &&& forall|k: int| 0 <= k < points.len() ==> (#[trigger] points[k]).x < F::size_of(field)
    &&& forall|k: int, l: int|
        0 <= k < l < points.len() ==> (#[trigger] points[k]).x != (#[trigger] points[l]).x
}

/// The factor of point `m` in the weight of point `j`: `x_m / (x_m - x_j)`.
pub open spec fn ratio<F: FiniteField>(field: nat, points: Seq<Point>, m: int, j: int) -> nat {
    F::mul_in(field, points[m].x, inv::<F>(field, F::sub_in(field, points[m].x, points[j].x)))
}

/// The weight of point `j` among the points from `lo` up to `hi`: the
/// product of the factors of the points other than `j`.
pub open spec fn span_weight<F: FiniteField>(
    field: nat,
    points: Seq<Point>,
    j: int,
    lo: int,
    hi: int,
) -> nat
    decreases hi - lo,
{
    if hi <= lo {
        1
    } else if hi - 1 == j {
        span_weight::<F>(field, points, j, lo, hi - 1)
    } else {
        F::mul_in(
            field,
            span_weight::<F>(field, points, j, lo, hi - 1),
            ratio::<F>(field, points, hi - 1, j),
        )
    }
}

/// The factor of a point in the weight of another is the number of an
/// element, and the difference that it divides by has an inverse.
pub proof fn lemma_ratio<F: FiniteField>(field: nat, points: Seq<Point>, m: int, j: int)
    requires
        F::is_field(field),
        distinct_points::<F>(field, points),
        0 <= m < points.len(),
        0 <= j < points.len(),
        m != j,
    ensures
        ratio::<F>(field, points, m, j) < F::size_of(field),
        F::sub_in(field, points[m].x, points[j].x) != 0,
        F::sub_in(field, points[m].x, points[j].x) < F::size_of(field),
        F::inv_in(field, F::sub_in(field, points[m].x, points[j].x)) == Some(
            inv::<F>(field, F::sub_in(field, points[m].x, points[j].x)),
        ),
{
    let a = points[m].x;
    let b = points[j].x;
    assert(a != b) by {
        if m < j {
            assert(points[m].x != points[j].x);
        } else {
            assert(points[j].x != points[m].x);
        }
    }
    lemma_sub::<F>(field, a, b);
    let d = F::sub_in(field, a, b);
    lemma_inv::<F>(field, d);
    F::lemma_field_laws(field, a, inv::<F>(field, d), 0);
}

/// A weight is the number of an element.
pub proof fn lemma_weight_within<F: FiniteField>(
    field: nat,
    points: Seq<Point>,
    j: int,
    lo: int,
    hi: int,
)
    requires
        F::is_field(field),
        distinct_points::<F>(field, points),
        0 <= lo <= hi <= points.len(),
        0 <= j < points.len(),
    ensures
        span_weight::<F>(field, points, j, lo, hi) < F::size_of(field),
    decreases hi - lo,
{
    F::lemma_field_size(field);
    if hi > lo {
        lemma_weight_within::<F>(field, points, j, lo, hi - 1);
        if hi - 1 != j {
            lemma_ratio::<F>(field, points, hi - 1, j);
            F::lemma_field_laws(
                field,
                span_weight::<F>(field, points, j, lo, hi - 1),
                ratio::<F>(field, points, hi - 1, j),
                0,
            );
        }
    }
}

/// A weight begins with the factor of the first point.
pub proof fn lemma_weight_first<F: FiniteField>(
    field: nat,
    points: Seq<Point>,
    j: int,
    lo: int,
    hi: int,
)
    requires
        F::is_field(field),
        distinct_points::<F>(field, points),
        0 <= lo < hi <= points.len(),
        0 <= j < points.len(),
    ensures
        span_weight::<F>(field, points, j, lo, hi) == if lo == j {
            span_weight::<F>(field, points, j, lo + 1, hi)
        } else {
            F::mul_in(
                field,
                ratio::<F>(field, points, lo, j),
                span_weight::<F>(field, points, j, lo + 1, hi),
            )
        },
    decreases hi - lo,
{
    F::lemma_field_size(field);
    if hi == lo + 1 {
        assert(span_weight::<F>(field, points, j, lo, lo) == 1);
        assert(span_weight::<F>(field, points, j, lo + 1, hi) == 1);
        if lo != j {
            lemma_ratio::<F>(field, points, lo, j);
            lemma_zero_one::<F>(field, ratio::<F>(field, points, lo, j));
        }
    } else {
        lemma_weight_first::<F>(field, points, j, lo, hi - 1);
        lemma_weight_within::<F>(field, points, j, lo + 1, hi - 1);
        let rest = span_weight::<F>(field, points, j, lo + 1, hi - 1);
        if hi - 1 != j && lo != j {
            lemma_ratio::<F>(field, points, lo, j);
            lemma_ratio::<F>(field, points, hi - 1, j);
            F::lemma_field_laws(
                field,
                ratio::<F>(field, points, lo, j),
                rest,
                ratio::<F>(field, points, hi - 1, j),
            );
        }
    }
}

/// The weight of Lagrange's formula is the weight among all points.
pub proof fn lemma_weight_total<F: FiniteField>(
    field: nat,
    points: Seq<Point>,
    j: int,
    upto: int,
)
    requires
        F::is_field(field),
        distinct_points::<F>(field, points),
        0 <= upto <= points.len(),
        0 <= j < points.len(),
    ensures
        weight::<F>(field, points, j, upto) == Some(span_weight::<F>(field, points, j, 0, upto)),
    decreases upto,
{
    if upto > 0 {
        lemma_weight_total::<F>(field, points, j, upto - 1);
        if upto - 1 != j {
            lemma_ratio::<F>(field, points, upto - 1, j);
        }
    }
}

/// Two products regrouped: `(a b)(c d) == (a c)(b d)`, and
/// `a (b c) == b (a c)`.
pub proof fn lemma_mul4<F: FiniteField>(field: nat, a: nat, b: nat, c: nat, d: nat)
    requires
        F::is_field(field),
        a < F::size_of(field),
        b < F::size_of(field),
        c < F::size_of(field),
        d < F::size_of(field),
    ensures
        F::mul_in(field, F::mul_in(field, a, b), F::mul_in(field, c, d)) == F::mul_in(
            field,
            F::mul_in(field, a, c),
            F::mul_in(field, b, d),
        ),
        F::mul_in(field, a, F::mul_in(field, b, c)) == F::mul_in(
            field,
            b,
            F::mul_in(field, a, c),
        ),
{
    let cd = F::mul_in(field, c, d);
    let bd = F::mul_in(field, b, d);
    F::lemma_field_laws(field, c, d, 0);
    F::lemma_field_laws(field, b, d, 0);
    F::lemma_field_laws(field, a, b, cd);
    F::lemma_field_laws(field, b, c, d);
    F::lemma_field_laws(field, c, b, d);
    F::lemma_field_laws(field, a, c, bd);
    F::lemma_field_laws(field, a, b, c);
    F::lemma_field_laws(field, b, a, c);
}

/// The identity behind Neville's scheme: for three different elements
/// `a`, `b` and `x`,
/// `(b - a) (a / (a - x)) (b / (b - x)) == b (a / (a - x)) - a (b / (b - x))`.
pub proof fn lemma_neville<F: FiniteField>(field: nat, a: nat, b: nat, x: nat)
    requires
        F::is_field(field),
        a < F::size_of(field),
        b < F::size_of(field),
        x < F::size_of(field),
        a != b,
        a != x,
        b != x,
    ensures
        ({
            let qa = F::mul_in(field, a, inv::<F>(field, F::sub_in(field, a, x)));
            let qb = F::mul_in(field, b, inv::<F>(field, F::sub_in(field, b, x)));
            F::mul_in(field, F::sub_in(field, b, a), F::mul_in(field, qa, qb)) == F::add_in(
                field,
                F::mul_in(field, b, qa),
                F::mul_in(field, neg::<F>(field, a), qb),
            )
        }),
{
    let da = F::sub_in(field, a, x);
    let db = F::sub_in(field, b, x);
    let d = F::sub_in(field, b, a);
    lemma_sub::<F>(field, a, x);
    lemma_sub::<F>(field, b, x);
    lemma_sub::<F>(field, b, a);
    let u = inv::<F>(field, da);
    let v = inv::<F>(field, db);
    lemma_inv::<F>(field, da);
    lemma_inv::<F>(field, db);
    let qa = F::mul_in(field, a, u);
    let qb = F::mul_in(field, b, v);
    let uv = F::mul_in(field, u, v);
    let ab = F::mul_in(field, a, b);
    let nda = neg::<F>(field, da);
    let nv = neg::<F>(field, v);
    let na = neg::<F>(field, a);
    lemma_neg::<F>(field, da);
    lemma_neg::<F>(field, v);
    lemma_neg::<F>(field, a);
    F::lemma_field_laws(field, a, u, 0);
    F::lemma_field_laws(field, b, v, 0);
    F::lemma_field_laws(field, u, v, 0);
    F::lemma_field_laws(field, a, b, 0);
    // d == db + (-da): both give b when a is added
    assert(d == F::add_in(field, db, nda)) by {
        F::lemma_field_laws(field, db, nda, 0);
        F::lemma_field_laws(field, a, x, 0);
        F::lemma_field_laws(field, b, x, 0);
        F::lemma_field_laws(field, b, a, 0);
        lemma_add4::<F>(field, db, nda, x, da);
        F::lemma_field_laws(field, da, x, 0);
        F::lemma_field_laws(field, x, da, 0);
        lemma_zero_one::<F>(field, b);
        F::lemma_field_laws(field, db, x, 0);
        lemma_add_cancel::<F>(field, d, F::add_in(field, db, nda), a);
    }
    // d (u v) == u + (-v)
    assert(F::mul_in(field, d, uv) == F::add_in(field, u, nv)) by {
        // (db + nda) uv == uv db + uv nda
        F::lemma_field_laws(field, uv, db, nda);
        F::lemma_field_laws(field, uv, F::add_in(field, db, nda), 0);
        F::lemma_field_laws(field, db, nda, 0);
        // uv db == u (v db) == u
        F::lemma_field_laws(field, u, v, db);
        lemma_zero_one::<F>(field, u);
        // uv nda == -(uv da) == -(v (u da)) == -v
        lemma_mul_neg::<F>(field, uv, da);
        F::lemma_field_laws(field, v, u, da);
        F::lemma_field_laws(field, v, u, 0);
        lemma_zero_one::<F>(field, v);
    }
    // d (qa qb) == ab (d uv)
    F::lemma_field_laws(field, d, uv, 0);
    lemma_mul4::<F>(field, a, u, b, v);
    lemma_mul4::<F>(field, d, ab, uv, 0);
    // ab (u + (-v)) == ab u + ab (-v)
    F::lemma_field_laws(field, ab, u, nv);
    // ab u == b qa
    lemma_mul4::<F>(field, b, a, u, 0);
    F::lemma_field_laws(field, b, a, u);
    // ab (-v) == -(ab v) == -(a qb) == (-a) qb
    lemma_mul_neg::<F>(field, ab, v);
    F::lemma_field_laws(field, a, b, v);
    lemma_mul_neg::<F>(field, qb, a);
    F::lemma_field_laws(field, a, qb, 0);
    F::lemma_field_laws(field, qb, a, 0);
}

/// The part of point `j` in the weights among the points from `lo` up to
/// the one before the last, times the last element.
pub open spec fn upper_part<F: FiniteField>(
    field: nat,
    points: Seq<Point>,
    lo: int,
    hi: int,
) -> spec_fn(int) -> nat {
    |j: int|
        if j < hi - 1 {
            F::mul_in(field, points[hi - 1].x, span_weight::<F>(field, points, j, lo, hi - 1))
        } else {
            0
        }
}

/// The part of point `j` in the weights among the points after the first
/// up to `hi`, times the negative of the first element.
pub open spec fn lower_part<F: FiniteField>(
    field: nat,
    points: Seq<Point>,
    lo: int,
    hi: int,
) -> spec_fn(int) -> nat {
    |j: int|
        if j > lo {
            F::mul_in(
                field,
                neg::<F>(field, points[lo].x),
                span_weight::<F>(field, points, j, lo + 1, hi),
            )
        } else {
            0
        }
}

/// Neville's scheme for one weight: the weight among the points from `lo`
/// up to `hi`, times the difference of the last and the first element, is
/// made up of the weights among the points without the last and without
/// the first.
pub proof fn lemma_neville_term<F: FiniteField>(
    field: nat,
    points: Seq<Point>,
    lo: int,
    hi: int,
    j: int,
)
    requires
        F::is_field(field),
        distinct_points::<F>(field, points),
        0 <= lo,
        lo + 2 <= hi <= points.len(),
        lo <= j < hi,
    ensures
        F::mul_in(
            field,
            F::sub_in(field, points[hi - 1].x, points[lo].x),
            span_weight::<F>(field, points, j, lo, hi),
        ) == F::add_in(
            field,
            upper_part::<F>(field, points, lo, hi)(j),
            lower_part::<F>(field, points, lo, hi)(j),
        ),
        upper_part::<F>(field, points, lo, hi)(j) < F::size_of(field),
        lower_part::<F>(field, points, lo, hi)(j) < F::size_of(field),
{
    let a = points[lo].x;
    let b = points[hi - 1].x;
    let x = points[j].x;
    let d = F::sub_in(field, b, a);
    let na = neg::<F>(field, a);
    assert(a != b) by {
        assert(points[lo].x != points[hi - 1].x);
    }
    lemma_sub::<F>(field, b, a);
    lemma_sub::<F>(field, a, b);
    lemma_neg::<F>(field, a);
    lemma_inv::<F>(field, d);
    F::lemma_field_size(field);
    let w = span_weight::<F>(field, points, j, lo, hi);
    lemma_weight_within::<F>(field, points, j, lo, hi);
    lemma_weight_within::<F>(field, points, j, lo, hi - 1);
    lemma_weight_within::<F>(field, points, j, lo + 1, hi);
    lemma_weight_within::<F>(field, points, j, lo + 1, hi - 1);
    let w1 = span_weight::<F>(field, points, j, lo, hi - 1);
    let w2 = span_weight::<F>(field, points, j, lo + 1, hi);
    let wm = span_weight::<F>(field, points, j, lo + 1, hi - 1);
    F::lemma_field_laws(field, b, w1, 0);
    F::lemma_field_laws(field, na, w2, 0);
    if j == lo {
        // w == w1 (b / d), so d w == b w1
        let i = inv::<F>(field, d);
        F::lemma_field_laws(field, b, i, 0);
        let q = F::mul_in(field, b, i);
        assert(w == F::mul_in(field, w1, q));
        F::lemma_field_laws(field, w1, q, 0);
        // d (w1 (b i)) == (d i) (w1 b) == w1 b == b w1
        lemma_mul4::<F>(field, w1, b, i, 0);
        lemma_mul4::<F>(field, d, w1, q, 0);
        lemma_mul4::<F>(field, d, b, i, 0);
        F::lemma_field_laws(field, d, q, 0);
        F::lemma_field_laws(field, w1, F::mul_in(field, d, q), 0);
        F::lemma_field_laws(field, b, F::mul_in(field, d, i), 0);
        lemma_zero_one::<F>(field, b);
        lemma_zero_one::<F>(field, F::mul_in(field, b, w1));
    } else if j == hi - 1 {
        // w == (a / (a - b)) w2 and d == -(a - b), so d w == (-a) w2
        let e = F::sub_in(field, a, b);
        let i = inv::<F>(field, e);
        lemma_inv::<F>(field, e);
        lemma_neg_sub::<F>(field, a, b);
        lemma_weight_first::<F>(field, points, j, lo, hi);
        F::lemma_field_laws(field, a, i, 0);
        let q = F::mul_in(field, a, i);
        assert(w == F::mul_in(field, q, w2));
        // d i == -(e i) == -1
        lemma_mul_neg::<F>(field, i, e);
        let n1 = neg::<F>(field, 1);
        lemma_neg::<F>(field, 1);
        assert(F::mul_in(field, d, i) == n1);
        // d ((a i) w2) == (d i) (a w2) == -(a w2) == (-a) w2
        F::lemma_field_laws(field, a, w2, 0);
        let aw = F::mul_in(field, a, w2);
        lemma_mul4::<F>(field, a, i, w2, 0);
        F::lemma_field_laws(field, a, i, w2);
        F::lemma_field_laws(field, i, w2, 0);
        F::lemma_field_laws(field, a, F::mul_in(field, i, w2), 0);
        lemma_mul4::<F>(field, d, i, aw, 0);
        F::lemma_field_laws(field, i, aw, 0);
        F::lemma_field_laws(field, d, i, aw);
        lemma_mul_neg::<F>(field, aw, 1);
        lemma_zero_one::<F>(field, aw);
        lemma_mul_neg::<F>(field, w2, a);
        F::lemma_field_laws(field, w2, a, 0);
        lemma_zero_one::<F>(field, F::mul_in(field, na, w2));
    } else {
        // w == (qa wm) qb, w1 == qa wm, w2 == wm qb
        lemma_ratio::<F>(field, points, lo, j);
        lemma_ratio::<F>(field, points, hi - 1, j);
        let qa = ratio::<F>(field, points, lo, j);
        let qb = ratio::<F>(field, points, hi - 1, j);
        lemma_weight_first::<F>(field, points, j, lo, hi - 1);
        assert(w1 == F::mul_in(field, qa, wm));
        assert(w == F::mul_in(field, w1, qb));
        assert(w2 == F::mul_in(field, wm, qb));
        assert(a != x && b != x) by {
            assert(points[lo].x != points[j].x);
            assert(points[j].x != points[hi - 1].x);
        }
        lemma_neville::<F>(field, a, b, x);
        let qq = F::mul_in(field, qa, qb);
        let bq = F::mul_in(field, b, qa);
        let nq = F::mul_in(field, na, qb);
        F::lemma_field_laws(field, qa, qb, 0);
        F::lemma_field_laws(field, b, qa, 0);
        F::lemma_field_laws(field, na, qb, 0);
        F::lemma_field_laws(field, d, qq, 0);
        // wm (d qq) == wm (b qa) + wm (na qb)
        F::lemma_field_laws(field, wm, bq, nq);
        // d ((qa wm) qb) == wm (d (qa qb))
        F::lemma_field_laws(field, qa, wm, qb);
        F::lemma_field_laws(field, wm, qb, 0);
        lemma_mul4::<F>(field, qa, wm, qb, 0);
        lemma_mul4::<F>(field, d, wm, qq, 0);
        // b (qa wm) == wm (b qa)
        lemma_mul4::<F>(field, b, qa, wm, 0);
        F::lemma_field_laws(field, qa, wm, 0);
        lemma_mul4::<F>(field, b, wm, qa, 0);
        F::lemma_field_laws(field, wm, qa, 0);
        // na (wm qb) == wm (na qb)
        lemma_mul4::<F>(field, na, wm, qb, 0);
    }
}

/// The weights of Lagrange's formula add up to one.
pub proof fn lemma_weights_sum<F: FiniteField>(field: nat, points: Seq<Point>, lo: int, hi: int)
    requires
        F::is_field(field),
        distinct_points::<F>(field, points),
        0 <= lo < hi <= points.len(),
    ensures
        sum::<F>(field, lo, hi, |j: int| span_weight::<F>(field, points, j, lo, hi)) == 1,
    decreases hi - lo,
{
    let w = |j: int| span_weight::<F>(field, points, j, lo, hi);
    F::lemma_field_size(field);
    if hi == lo + 1 {
        assert(sum::<F>(field, lo, lo, w) == 0);
        assert(span_weight::<F>(field, points, lo, lo, lo) == 1);
        lemma_zero_one::<F>(field, 1);
    } else {
        let a = points[lo].x;
        let b = points[hi - 1].x;
        let d = F::sub_in(field, b, a);
        let na = neg::<F>(field, a);
        assert(a != b) by {
            assert(points[lo].x != points[hi - 1].x);
        }
        lemma_sub::<F>(field, b, a);
        lemma_neg::<F>(field, a);
        let w1 = |j: int| span_weight::<F>(field, points, j, lo, hi - 1);
        let w2 = |j: int| span_weight::<F>(field, points, j, lo + 1, hi);
        lemma_weights_sum::<F>(field, points, lo, hi - 1);
        lemma_weights_sum::<F>(field, points, lo + 1, hi);
        let up = upper_part::<F>(field, points, lo, hi);
        let low = lower_part::<F>(field, points, lo, hi);
        assert forall|j: int| lo <= j < hi implies #[trigger] w(j) < F::size_of(field) && up(j)
            < F::size_of(field) && low(j) < F::size_of(field) && F::mul_in(field, d, w(j))
            == F::add_in(field, up(j), low(j)) by {
            lemma_weight_within::<F>(field, points, j, lo, hi);
            lemma_neville_term::<F>(field, points, lo, hi, j);
        }
        assert(terms_within::<F>(field, lo, hi, w));
        assert(terms_within::<F>(field, lo, hi, up)) by {
            assert forall|j: int| lo <= j < hi implies #[trigger] up(j) < F::size_of(field) by {
                assert(w(j) < F::size_of(field));
            }
        }
        assert(terms_within::<F>(field, lo, hi, low)) by {
            assert forall|j: int| lo <= j < hi implies #[trigger] low(j) < F::size_of(field) by {
                assert(w(j) < F::size_of(field));
            }
        }
        // d times the sum of the weights is the sum of the two parts
        lemma_sum_scaled::<F>(field, lo, hi, d, w);
        lemma_sum_added::<F>(field, lo, hi, up, low);
        lemma_sum_same::<F>(
            field,
            lo,
            hi,
            |j: int| F::mul_in(field, d, w(j)),
            |j: int| F::add_in(field, up(j), low(j)),
        );
        // the upper parts add up to b
        assert(terms_within::<F>(field, lo, hi - 1, w1)) by {
            assert forall|j: int| lo <= j < hi - 1 implies #[trigger] w1(j) < F::size_of(field) by {
                lemma_weight_within::<F>(field, points, j, lo, hi - 1);
            }
        }
        lemma_sum_scaled::<F>(field, lo, hi - 1, b, w1);
        lemma_sum_same::<F>(field, lo, hi - 1, up, |j: int| F::mul_in(field, b, w1(j)));
        lemma_sum_within::<F>(field, lo, hi - 1, up);
        lemma_zero_one::<F>(field, sum::<F>(field, lo, hi - 1, up));
        lemma_zero_one::<F>(field, b);
        assert(up(hi - 1) == 0);
        assert(sum::<F>(field, lo, hi, up) == b);
        // the lower parts add up to -a
        assert(terms_within::<F>(field, lo + 1, hi, w2)) by {
            assert forall|j: int| lo + 1 <= j < hi implies #[trigger] w2(j) < F::size_of(field) by {
                lemma_weight_within::<F>(field, points, j, lo + 1, hi);
            }
        }
        lemma_sum_scaled::<F>(field, lo + 1, hi, na, w2);
        lemma_sum_same::<F>(field, lo + 1, hi, low, |j: int| F::mul_in(field, na, w2(j)));
        lemma_sum_first::<F>(field, lo, hi, low);
        lemma_sum_within::<F>(field, lo + 1, hi, low);
        lemma_zero_one::<F>(field, sum::<F>(field, lo + 1, hi, low));
        lemma_zero_one::<F>(field, na);
        assert(low(lo) == 0);
        assert(sum::<F>(field, lo, hi, low) == na);
        // so d times the sum is b - a, which is d
        lemma_sum_within::<F>(field, lo, hi, w);
        lemma_zero_one::<F>(field, d);
        lemma_mul_cancel::<F>(field, d, sum::<F>(field, lo, hi, w), 1);
    }
}

/// Whether the coefficients are numbers of elements.
pub open spec fn all_within<F: FiniteField>(field: nat, c: Seq<nat>) -> bool {
    forall|k: int| 0 <= k < c.len() ==> #[trigger] c[k] < F::size_of(field)
}

/// The value of a polynomial is the number of an element, and its value
/// at zero is its constant term.
pub proof fn lemma_evaluate<F: FiniteField>(field: nat, c: Seq<nat>, x: nat)
    requires
        F::is_field(field),
        all_within::<F>(field, c),
        x < F::size_of(field),
    ensures
        evaluate::<F>(field, c, x) < F::size_of(field),
        c.len() > 0 ==> evaluate::<F>(field, c, 0) == c[0],
    decreases c.len(),
{
    F::lemma_field_size(field);
    if c.len() > 0 {
        let rest = c.drop_first();
        assert(all_within::<F>(field, rest)) by {
            assert forall|k: int| 0 <= k < rest.len() implies #[trigger] rest[k] < F::size_of(
                field,
            ) by {
                assert(rest[k] == c[k + 1]);
            }
        }
        lemma_evaluate::<F>(field, rest, x);
        lemma_evaluate::<F>(field, rest, 0);
        assert(c[0] < F::size_of(field));
        F::lemma_field_laws(field, x, evaluate::<F>(field, rest, x), 0);
        F::lemma_field_laws(field, c[0], F::mul_in(field, x, evaluate::<F>(field, rest, x)), 0);
        lemma_mul_zero::<F>(field, evaluate::<F>(field, rest, 0));
        lemma_zero_one::<F>(field, c[0]);
    }
}

/// The quotient of the polynomial with the coefficients `c` on division
/// by `x - r`.
pub open spec fn quotient<F: FiniteField>(field: nat, c: Seq<nat>, r: nat) -> Seq<nat>
    decreases c.len(),
{
    if c.len() <= 1 {
        Seq::empty()
    } else {
        seq![evaluate::<F>(field, c.drop_first(), r)] + quotient::<F>(field, c.drop_first(), r)
    }
}

/// Division of a polynomial by `x - r`: the value at `x` is the value at
/// `r` plus `x - r` times the value of the quotient at `x`.
pub proof fn lemma_quotient<F: FiniteField>(field: nat, c: Seq<nat>, r: nat, x: nat)
    requires
        F::is_field(field),
        all_within::<F>(field, c),
        r < F::size_of(field),
        x < F::size_of(field),
    ensures
        quotient::<F>(field, c, r).len() + 1 == c.len() || (c.len() == 0 && quotient::<F>(
            field,
            c,
            r,
        ).len() == 0),
        all_within::<F>(field, quotient::<F>(field, c, r)),
        evaluate::<F>(field, c, x) == F::add_in(
            field,
            evaluate::<F>(field, c, r),
            F::mul_in(
                field,
                F::sub_in(field, x, r),
                evaluate::<F>(field, quotient::<F>(field, c, r), x),
            ),
        ),
    decreases c.len(),
{
    F::lemma_field_size(field);
    let s = F::sub_in(field, x, r);
    lemma_sub::<F>(field, x, r);
    lemma_mul_zero::<F>(field, s);
    lemma_mul_zero::<F>(field, x);
    lemma_mul_zero::<F>(field, r);
    lemma_zero_one::<F>(field, 0);
    if c.len() == 0 {
        assert(evaluate::<F>(field, c, x) == 0);
        assert(evaluate::<F>(field, c, r) == 0);
        assert(quotient::<F>(field, c, r).len() == 0);
        assert(evaluate::<F>(field, quotient::<F>(field, c, r), x) == 0);
    } else if c.len() == 1 {
        assert(c.drop_first().len() == 0);
        assert(c[0] < F::size_of(field));
        lemma_zero_one::<F>(field, c[0]);
        assert(evaluate::<F>(field, c.drop_first(), x) == 0);
        assert(evaluate::<F>(field, c.drop_first(), r) == 0);
        assert(evaluate::<F>(field, c, x) == c[0]);
        assert(evaluate::<F>(field, c, r) == c[0]);
        assert(quotient::<F>(field, c, r).len() == 0);
        assert(evaluate::<F>(field, quotient::<F>(field, c, r), x) == 0);
    } else {
        let rest = c.drop_first();
        assert(all_within::<F>(field, rest)) by {
            assert forall|k: int| 0 <= k < rest.len() implies #[trigger] rest[k] < F::size_of(
                field,
            ) by {
                assert(rest[k] == c[k + 1]);
            }
        }
        lemma_quotient::<F>(field, rest, r, x);
        lemma_evaluate::<F>(field, rest, r);
        lemma_evaluate::<F>(field, rest, x);
        let h = quotient::<F>(field, c, r);
        let hr = quotient::<F>(field, rest, r);
        assert(h.drop_first() =~= hr);
        assert(h[0] == evaluate::<F>(field, rest, r));
        assert(all_within::<F>(field, h)) by {
            assert forall|k: int| 0 <= k < h.len() implies #[trigger] h[k] < F::size_of(field) by {
                if k > 0 {
                    assert(h[k] == hr[k - 1]);
                }
            }
        }
        lemma_evaluate::<F>(field, hr, x);
        let c0 = c[0];
        assert(c0 < F::size_of(field));
        let er = evaluate::<F>(field, rest, r);
        let ex = evaluate::<F>(field, rest, x);
        let hx = evaluate::<F>(field, hr, x);
        let sh = F::mul_in(field, s, hx);
        let xsh = F::mul_in(field, x, sh);
        let rer = F::mul_in(field, r, er);
        let ser = F::mul_in(field, s, er);
        let xer = F::mul_in(field, x, er);
        F::lemma_field_laws(field, s, hx, 0);
        F::lemma_field_laws(field, x, sh, 0);
        F::lemma_field_laws(field, r, er, 0);
        F::lemma_field_laws(field, s, er, 0);
        F::lemma_field_laws(field, x, er, 0);
        F::lemma_field_laws(field, x, hx, 0);
        let xhx = F::mul_in(field, x, hx);
        // the value of the quotient at x is er + x hx
        assert(evaluate::<F>(field, h, x) == F::add_in(field, er, xhx));
        assert(evaluate::<F>(field, c, x) == F::add_in(field, c0, F::mul_in(field, x, ex)));
        assert(evaluate::<F>(field, c, r) == F::add_in(field, c0, rer));
        assert(ex == F::add_in(field, er, sh));
        // s (er + x hx) == s er + x (s hx)
        F::lemma_field_laws(field, s, er, xhx);
        lemma_mul4::<F>(field, s, x, hx, 0);
        assert(F::mul_in(field, s, evaluate::<F>(field, h, x)) == F::add_in(field, ser, xsh));
        // r er + s er == (r + s) er == x er
        F::lemma_field_laws(field, r, s, 0);
        F::lemma_field_laws(field, s, r, 0);
        F::lemma_field_laws(field, er, r, s);
        F::lemma_field_laws(field, er, F::add_in(field, r, s), 0);
        F::lemma_field_laws(field, er, r, 0);
        F::lemma_field_laws(field, er, s, 0);
        F::lemma_field_laws(field, er, x, 0);
        F::lemma_field_laws(field, x, r, 0);
        assert(F::add_in(field, r, s) == x);
        assert(F::add_in(field, rer, ser) == xer);
        // x er + x (s hx) == x (er + s hx) == x ex
        F::lemma_field_laws(field, x, er, sh);
        assert(F::add_in(field, xer, xsh) == F::mul_in(field, x, ex));
        // (c0 + r er) + (s er + x s hx) == c0 + ((r er + s er) + x s hx)
        F::lemma_field_laws(field, ser, xsh, 0);
        F::lemma_field_laws(field, c0, rer, F::add_in(field, ser, xsh));
        F::lemma_field_laws(field, rer, ser, xsh);
        F::lemma_field_laws(field, c0, F::add_in(field, rer, ser), xsh);
        assert(F::add_in(field, F::add_in(field, c0, rer), F::add_in(field, ser, xsh))
            == F::add_in(field, c0, F::add_in(field, xer, xsh)));
    }
}

/// Lagrange's formula for a polynomial: over as many points as the
/// polynomial has coefficients, or more, the values of the polynomial
/// at the points, each times the weight of its point, add up to the value
/// of the polynomial at zero.
pub proof fn lemma_lagrange<F: FiniteField>(
    field: nat,
    points: Seq<Point>,
    c: Seq<nat>,
    lo: int,
    hi: int,
)
    requires
        F::is_field(field),
        distinct_points::<F>(field, points),
        0 <= lo <= hi <= points.len(),
        all_within::<F>(field, c),
        c.len() <= hi - lo,
    ensures
        sum::<F>(
            field,
            lo,
            hi,
            |j: int|
                F::mul_in(
                    field,
                    evaluate::<F>(field, c, points[j].x),
                    span_weight::<F>(field, points, j, lo, hi),
                ),
        ) == evaluate::<F>(field, c, 0),
    decreases hi - lo,
{
    F::lemma_field_size(field);
    if hi > lo {
        let r = points[hi - 1].x;
        let nr = neg::<F>(field, r);
        lemma_neg::<F>(field, r);
        let h = quotient::<F>(field, c, r);
        lemma_quotient::<F>(field, c, r, 0);
        lemma_evaluate::<F>(field, c, r);
        lemma_evaluate::<F>(field, h, 0);
        let f0 = evaluate::<F>(field, c, r);
        let w = |j: int| span_weight::<F>(field, points, j, lo, hi);
        let w1 = |j: int| span_weight::<F>(field, points, j, lo, hi - 1);
        let term = |j: int|
            F::mul_in(
                field,
                evaluate::<F>(field, c, points[j].x),
                span_weight::<F>(field, points, j, lo, hi),
            );
        let inner = |j: int|
            F::mul_in(
                field,
                evaluate::<F>(field, h, points[j].x),
                span_weight::<F>(field, points, j, lo, hi - 1),
            );
        let rest = |j: int|
            if j < hi - 1 {
                F::mul_in(field, nr, inner(j))
            } else {
                0
            };
        let head = |j: int| F::mul_in(field, f0, w(j));
        lemma_lagrange::<F>(field, points, h, lo, hi - 1);
        lemma_weights_sum::<F>(field, points, lo, hi);
        assert forall|j: int| lo <= j < hi implies #[trigger] w(j) < F::size_of(field) && head(j)
            < F::size_of(field) && rest(j) < F::size_of(field) && term(j) == F::add_in(
            field,
            head(j),
            rest(j),
        ) by {
            lemma_lagrange_term::<F>(field, points, c, lo, hi, j);
        }
        assert(terms_within::<F>(field, lo, hi, w));
        assert(terms_within::<F>(field, lo, hi, head)) by {
            assert forall|j: int| lo <= j < hi implies #[trigger] head(j) < F::size_of(field) by {
                assert(w(j) < F::size_of(field));
            }
        }
        assert(terms_within::<F>(field, lo, hi, rest)) by {
            assert forall|j: int| lo <= j < hi implies #[trigger] rest(j) < F::size_of(field) by {
                assert(w(j) < F::size_of(field));
            }
        }
        assert(terms_within::<F>(field, lo, hi - 1, inner)) by {
            assert forall|j: int| lo <= j < hi - 1 implies #[trigger] inner(j) < F::size_of(
                field,
            ) by {
                lemma_evaluate::<F>(field, h, points[j].x);
                lemma_weight_within::<F>(field, points, j, lo, hi - 1);
                F::lemma_field_laws(
                    field,
                    evaluate::<F>(field, h, points[j].x),
                    span_weight::<F>(field, points, j, lo, hi - 1),
                    0,
                );
            }
        }
        // the terms add up to the heads plus the rests
        lemma_sum_added::<F>(field, lo, hi, head, rest);
        lemma_sum_same::<F>(field, lo, hi, term, |j: int| F::add_in(field, head(j), rest(j)));
        // the heads add up to f0
        lemma_sum_scaled::<F>(field, lo, hi, f0, w);
        lemma_zero_one::<F>(field, f0);
        assert(sum::<F>(field, lo, hi, head) == f0);
        // the rests add up to -r times the value of the quotient at zero
        lemma_sum_scaled::<F>(field, lo, hi - 1, nr, inner);
        lemma_sum_same::<F>(field, lo, hi - 1, rest, |j: int| F::mul_in(field, nr, inner(j)));
        lemma_sum_within::<F>(field, lo, hi - 1, rest);
        lemma_zero_one::<F>(field, sum::<F>(field, lo, hi - 1, rest));
        assert(rest(hi - 1) == 0);
        assert(sum::<F>(field, lo, hi, rest) == F::mul_in(field, nr, evaluate::<F>(field, h, 0)));
    } else {
        assert(c.len() == 0);
    }
}

/// One term of Lagrange's formula, split at the last point `r`: the value
/// of the polynomial at point `j` is its value at `r` plus `x_j - r` times
/// the value of the quotient, and `x_j - r` times the factor of the last
/// point in the weight of point `j` is `-r`.
proof fn lemma_lagrange_term<F: FiniteField>(
    field: nat,
    points: Seq<Point>,
    c: Seq<nat>,
    lo: int,
    hi: int,
    j: int,
)
    requires
        F::is_field(field),
        distinct_points::<F>(field, points),
        0 <= lo <= j < hi <= points.len(),
        all_within::<F>(field, c),
    ensures
        ({
            let r = points[hi - 1].x;
            let h = quotient::<F>(field, c, r);
            let w = span_weight::<F>(field, points, j, lo, hi);
            let head = F::mul_in(field, evaluate::<F>(field, c, r), w);
            let rest = if j < hi - 1 {
                F::mul_in(
                    field,
                    neg::<F>(field, r),
                    F::mul_in(
                        field,
                        evaluate::<F>(field, h, points[j].x),
                        span_weight::<F>(field, points, j, lo, hi - 1),
                    ),
                )
            } else {
                0
            };
            &&& w < F::size_of(field)
            &&& head < F::size_of(field)
            &&& rest < F::size_of(field)
            &&& F::mul_in(field, evaluate::<F>(field, c, points[j].x), w) == F::add_in(
                field,
                head,
                rest,
            )
        }),
{
    let r = points[hi - 1].x;
    let x = points[j].x;
    let nr = neg::<F>(field, r);
    let h = quotient::<F>(field, c, r);
    let w = span_weight::<F>(field, points, j, lo, hi);
    let f0 = evaluate::<F>(field, c, r);
    F::lemma_field_size(field);
    lemma_neg::<F>(field, r);
    lemma_weight_within::<F>(field, points, j, lo, hi);
    lemma_evaluate::<F>(field, c, r);
    F::lemma_field_laws(field, f0, w, 0);
    let head = F::mul_in(field, f0, w);
    lemma_zero_one::<F>(field, head);
    if j < hi - 1 {
        let w1 = span_weight::<F>(field, points, j, lo, hi - 1);
        lemma_weight_within::<F>(field, points, j, lo, hi - 1);
        lemma_quotient::<F>(field, c, r, x);
        lemma_evaluate::<F>(field, h, x);
        let hx = evaluate::<F>(field, h, x);
        let s = F::sub_in(field, x, r);
        let e = F::sub_in(field, r, x);
        let i = inv::<F>(field, e);
        lemma_ratio::<F>(field, points, hi - 1, j);
        lemma_sub::<F>(field, x, r);
        lemma_inv::<F>(field, e);
        lemma_neg_sub::<F>(field, r, x);
        let q = F::mul_in(field, r, i);
        assert(q == ratio::<F>(field, points, hi - 1, j));
        assert(w == F::mul_in(field, w1, q));
        let hw = F::mul_in(field, hx, w1);
        let sh = F::mul_in(field, s, hx);
        F::lemma_field_laws(field, hx, w1, 0);
        F::lemma_field_laws(field, s, hx, 0);
        F::lemma_field_laws(field, nr, hw, 0);
        // s q == s (r i) == r (s i) == r (-1) == -r
        let n1 = neg::<F>(field, 1);
        lemma_neg::<F>(field, 1);
        lemma_mul_neg::<F>(field, i, e);
        assert(F::mul_in(field, s, i) == n1);
        lemma_mul4::<F>(field, s, r, i, 0);
        lemma_mul_neg::<F>(field, r, 1);
        lemma_zero_one::<F>(field, r);
        assert(F::mul_in(field, s, q) == nr);
        // (s hx) (w1 q) == (s q) (hx w1)
        F::lemma_field_laws(field, w1, q, 0);
        lemma_mul4::<F>(field, s, hx, q, w1);
        // (f0 + s hx) w == f0 w + (s hx) w
        F::lemma_field_laws(field, f0, sh, 0);
        F::lemma_field_laws(field, w, f0, sh);
        F::lemma_field_laws(field, w, F::add_in(field, f0, sh), 0);
        F::lemma_field_laws(field, w, sh, 0);
    }
}

/// Lagrange's formula as it is computed is the sum of the values, each
/// times the weight of its point.
pub proof fn lemma_interpolate_total<F: FiniteField>(field: nat, points: Seq<Point>, upto: int)
    requires
        F::is_field(field),
        distinct_points::<F>(field, points),
        0 <= upto <= points.len(),
    ensures
        interpolate::<F>(field, points, upto) == Some(
            sum::<F>(
                field,
                0,
                upto,
                |j: int|
                    F::mul_in(
                        field,
                        points[j].y,
                        span_weight::<F>(field, points, j, 0, points.len() as int),
                    ),
            ),
        ),
    decreases upto,
{
    if upto > 0 {
        lemma_interpolate_total::<F>(field, points, upto - 1);
        lemma_weight_total::<F>(field, points, upto - 1, points.len() as int);
    }
}

/// Lagrange's formula recovers the constant term: over as many points of
/// a polynomial, at different elements of a field, as the polynomial has
/// coefficients, the formula gives the polynomial's constant term.
pub proof fn law_interpolation<F: FiniteField>(field: nat, points: Seq<Point>, c: Seq<nat>)
    requires
        F::is_field(field),
        distinct_points::<F>(field, points),
        all_within::<F>(field, c),
        1 <= c.len() <= points.len(),
        forall|j: int|
            0 <= j < points.len() ==> (#[trigger] points[j]).y == evaluate::<F>(
                field,
                c,
                points[j].x,
            ),
    ensures
        interpolate::<F>(field, points, points.len() as int) == Some(c[0]),
{
    let n = points.len() as int;
    lemma_interpolate_total::<F>(field, points, n);
    lemma_lagrange::<F>(field, points, c, 0, n);
    F::lemma_field_size(field);
    lemma_evaluate::<F>(field, c, 0);
    lemma_sum_same::<F>(
        field,
        0,
        n,
        |j: int| F::mul_in(field, points[j].y, span_weight::<F>(field, points, j, 0, n)),
        |j: int|
            F::mul_in(
                field,
                evaluate::<F>(field, c, points[j].x),
                span_weight::<F>(field, points, j, 0, n),
            ),
    );
}

/// Any `t` shares of a secret recover it: where the shares that are
/// present are the values, at the elements with their numbers, of a
/// polynomial of `t` coefficients over a field, Lagrange's formula over
/// the first `t` of them gives the constant term, the secret.
pub proof fn law_shares_recover<F: FiniteField>(
    shares: Seq<Option<F>>,
    c: Seq<nat>,
    t: nat,
    field: nat,
)
    requires
        F::is_field(field),
        1 <= t,
        shares.len() < F::size_of(field),
        c.len() == t,
        all_within::<F>(field, c),
        forall|i: int|
            0 <= i < shares.len() ==> (#[trigger] shares[i]).is_some() ==> shares[i].unwrap().number()
                == evaluate::<F>(field, c, (i + 1) as nat),
        chosen(shares, shares.len() as int, t).len() == t,
    ensures
        interpolate::<F>(field, chosen(shares, shares.len() as int, t), t as int) == Some(c[0]),
{
    let points = chosen(shares, shares.len() as int, t);
    lemma_chosen(shares, shares.len() as int, t);
    assert forall|j: int| 0 <= j < points.len() implies (#[trigger] points[j]).y == evaluate::<F>(
        field,
        c,
        points[j].x,
    ) by {
        let i = points[j].x - 1;
        assert(shares[i].is_some());
    }
    law_interpolation::<F>(field, points, c);
}

/// What is recovered from any `t` shares of a secret is the secret itself:
/// an element of the secret's field with the secret's number.
pub proof fn law_recovers_the_secret<F: FiniteField>(
    shares: Seq<Option<F>>,
    c: Seq<nat>,
    t: nat,
    secret: F,
    found: F,
)
    requires
        F::is_field(secret.structure()),
        1 <= t,
        shares.len() < F::size_of(secret.structure()),
        c.len() == t,
        all_within::<F>(secret.structure(), c),
        c[0] == secret.number(),
        forall|i: int|
            0 <= i < shares.len() ==> (#[trigger] shares[i]).is_some() ==> shares[i].unwrap().number()
                == evaluate::<F>(secret.structure(), c, (i + 1) as nat),
        chosen(shares, shares.len() as int, t).len() == t,
        secret.wf(),
        found.wf(),
        found.structure() == secret.structure(),
        interpolate::<F>(
            secret.structure(),
            chosen(shares, shares.len() as int, t),
            t as int,
        ) == Some(found.number()),
    ensures
        found == secret,
{
    law_shares_recover::<F>(shares, c, t, secret.structure());
    F::lemma_same_element(found, secret);
}

} // verus!
