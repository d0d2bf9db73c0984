//! Shamir's secret sharing over a finite field.
//!
//! The secret is the constant term of a polynomial of degree `T - 1` whose
//! other coefficients are drawn at random. Share `i`, counted from zero, is
//! the value of the polynomial at the element with the number `i + 1`. Any
//! `T` shares determine the polynomial; the secret is recovered from the
//! first `T` shares that are present, as the value at zero of the
//! polynomial through them, by Lagrange's formula.

use crate::math::galois::FiniteField;
use crate::protocol::error::{Error, MPCErrorKind, Result};
use crate::protocol::shamir::{shares_field, shares_wf, SSServer};
use vstd::array::array_fill_for_copy_types;
use vstd::prelude::*;

verus! {

/// A point of a polynomial: the numbers of an element and of the value at
/// that element.
pub struct Point {
    pub x: nat,
    pub y: nat,
}

/// The value at `x` of the polynomial with the coefficients `c`, constant
/// term first, in the field `field`.
pub open spec fn evaluate<F: FiniteField>(field: nat, c: Seq<nat>, x: nat) -> nat
    decreases c.len(),
{
    if c.len() == 0 {
        0
    } else {
        F::add_in(field, c[0], F::mul_in(field, x, evaluate::<F>(field, c.drop_first(), x)))
    }
}

/// The weight of point `j` in Lagrange's formula for the value at zero, as
/// far as the first `upto` points go into it: the product of
/// `x_m / (x_m - x_j)` over the points `m` other than `j`. `None` where
/// one of the differences has no inverse.
pub open spec fn weight<F: FiniteField>(field: nat, points: Seq<Point>, j: int, upto: int) -> Option<
    nat,
>
    decreases upto,
{
    if upto <= 0 {
        Some(1)
    } else {
        match weight::<F>(field, points, j, upto - 1) {
            Some(w) => if upto - 1 == j {
                Some(w)
            } else {
                match F::inv_in(field, F::sub_in(field, points[upto - 1].x, points[j].x)) {
                    Some(i) => Some(
                        F::mul_in(field, w, F::mul_in(field, points[upto - 1].x, i)),
                    ),
                    None => None,
                }
            },
            None => None,
        }
    }
}

/// The value at zero of the polynomial through `points`, by Lagrange's
/// formula, as far as the first `upto` points go into it: the sum of
/// `y_j` times the weight of point `j`.
pub open spec fn interpolate<F: FiniteField>(field: nat, points: Seq<Point>, upto: int) -> Option<
    nat,
>
    decreases upto,
{
    if upto <= 0 {
        Some(0)
    } else {
        match (
            interpolate::<F>(field, points, upto - 1),
            weight::<F>(field, points, upto - 1, points.len() as int),
        ) {
            (Some(sum), Some(w)) => Some(
                F::add_in(field, sum, F::mul_in(field, points[upto - 1].y, w)),
            ),
            _ => None,
        }
    }
}

/// The points of the first `t` shares that are present among the first
/// `upto`: share `i` is the value at the element with the number `i + 1`.
pub open spec fn chosen<F: FiniteField>(shares: Seq<Option<F>>, upto: int, t: nat) -> Seq<Point>
    decreases upto,
{
    if upto <= 0 {
        Seq::empty()
    } else {
        let before = chosen(shares, upto - 1, t);
        if shares[upto - 1].is_some() && before.len() < t {
            before.push(Point { x: upto as nat, y: shares[upto - 1].unwrap().number() })
        } else {
            before
        }
    }
}

/// Whether `t` of `n` shares can be asked for in the field `field`: the
/// threshold is one or more and at most `n`, and the field has an element
/// other than zero for each share.
pub open spec fn valid_parameters<F: FiniteField>(t: nat, n: nat, field: nat) -> bool {
    1 <= t <= n && n < F::size_of(field)
}

/// The server of Shamir's scheme.
pub struct Server<const T: usize, const N: usize>;

/// The points chosen lie at the numbers of shares, in rising order.
pub proof fn lemma_chosen<F: FiniteField>(shares: Seq<Option<F>>, upto: int, t: nat)
    requires
        0 <= upto <= shares.len(),
    ensures
        chosen(shares, upto, t).len() <= t,
        chosen(shares, upto, t).len() <= upto,
        forall|k: int|
            0 <= k < chosen(shares, upto, t).len() ==> 1 <= (#[trigger] chosen(shares, upto, t)[k]).x
                <= upto,
        forall|k: int, l: int|
            0 <= k < l < chosen(shares, upto, t).len() ==> (#[trigger] chosen(shares, upto, t)[k]).x
                < (#[trigger] chosen(shares, upto, t)[l]).x,
        forall|k: int|
            0 <= k < chosen(shares, upto, t).len() ==> shares[(#[trigger] chosen(
                shares,
                upto,
                t,
            )[k]).x - 1].is_some() && shares[chosen(shares, upto, t)[k].x - 1].unwrap().number()
                == chosen(shares, upto, t)[k].y,
    decreases upto,
{
    if upto > 0 {
        lemma_chosen(shares, upto - 1, t);
    }
}

/// The numbers of the elements of `s`.
pub open spec fn numbers<F: FiniteField>(s: Seq<F>) -> Seq<nat> {
    s.map_values(|c: F| c.number())
}

/// Whether the elements of `s` are valid elements of the field `field`.
pub open spec fn all_in<F: FiniteField>(s: Seq<F>, field: nat) -> bool {
    forall|i: int| 0 <= i < s.len() ==> (#[trigger] s[i]).wf() && s[i].structure() == field
}

/// The value at `x` of the polynomial with the coefficients `c`, constant
/// term first.
fn horner<F: FiniteField>(c: &Vec<F>, x: &F) -> (r: F)
    requires
        x.wf(),
        all_in(c@, x.structure()),
    ensures
        r.wf(),
        r.structure() == x.structure(),
        r.number() == evaluate::<F>(x.structure(), numbers(c@), x.number()),
{
    let ghost nums = numbers(c@);
    let mut acc = x.zero();
    let mut k: usize = c.len();
    proof {
        assert(nums.skip(k as int) =~= Seq::<nat>::empty());
    }
    while k > 0
        invariant
            k <= c@.len(),
            x.wf(),
            all_in(c@, x.structure()),
            nums == numbers(c@),
            acc.wf(),
            acc.structure() == x.structure(),
            acc.number() == evaluate::<F>(x.structure(), nums.skip(k as int), x.number()),
        decreases k,
    {
        k = k - 1;
        proof {
            assert(nums.skip(k as int).drop_first() =~= nums.skip(k + 1));
            assert(nums.skip(k as int)[0] == c@[k as int].number());
        }
        let term = x.times(&acc);
        acc = c[k].plus(&term);
    }
    proof {
        assert(nums.skip(0) =~= nums);
    }
    acc
}

/// The points that the elements `xs` and the values `ys` stand for.
pub open spec fn points_of<F: FiniteField>(xs: Seq<F>, ys: Seq<F>) -> Seq<Point> {
    Seq::new(xs.len(), |k: int| Point { x: xs[k].number(), y: ys[k].number() })
}

/// The weight of point `j` among the points at `xs`, or `None` where a
/// difference of two of them has no inverse.
fn lagrange_weight<F: FiniteField>(xs: &Vec<F>, ys: &Vec<F>, j: usize) -> (r: Option<F>)
    requires
        j < xs@.len(),
        xs@.len() == ys@.len(),
        all_in(xs@, xs@[0].structure()),
    ensures
        r matches Some(w) ==> w.wf() && w.structure() == xs@[0].structure(),
        F::is_field(xs@[0].structure()) ==> match r {
            Some(w) => weight::<F>(
                xs@[0].structure(),
                points_of(xs@, ys@),
                j as int,
                xs@.len() as int,
            ) == Some(w.number()),
            None => weight::<F>(
                xs@[0].structure(),
                points_of(xs@, ys@),
                j as int,
                xs@.len() as int,
            ).is_none(),
        },
{
    let ghost field = xs@[0].structure();
    let ghost points = points_of(xs@, ys@);
    let mut w = xs[j].one();
    let mut m: usize = 0;
    while m < xs.len()
        invariant
            m <= xs@.len(),
            j < xs@.len(),
            xs@.len() == ys@.len(),
            field == xs@[0].structure(),
            points == points_of(xs@, ys@),
            all_in(xs@, field),
            w.wf(),
            w.structure() == field,
            F::is_field(field) ==> weight::<F>(field, points, j as int, m as int) == Some(
                w.number(),
            ),
        decreases xs@.len() - m,
    {
        if m != j {
            let difference = xs[m].minus(&xs[j]);
            match difference.reciprocal() {
                Some(inverse) => {
                    let factor = xs[m].times(&inverse);
                    w = w.times(&factor);
                },
                None => {
                    proof {
                        if F::is_field(field) {
                            lemma_weight_fails::<F>(field, points, j as int, m + 1, xs@.len() as int);
                        }
                    }
                    return None;
                },
            }
        }
        m += 1;
    }
    Some(w)
}

/// Once a weight cannot be computed over some of the points, it cannot
/// be computed over more of them.
proof fn lemma_weight_fails<F: FiniteField>(
    field: nat,
    points: Seq<Point>,
    j: int,
    upto: int,
    all: int,
)
    requires
        0 <= upto <= all,
        weight::<F>(field, points, j, upto).is_none(),
    ensures
        weight::<F>(field, points, j, all).is_none(),
    decreases all,
{
    if upto < all {
        lemma_weight_fails::<F>(field, points, j, upto, all - 1);
    }
}

/// Where the points lie at different elements of a field, every weight
/// can be computed.
proof fn lemma_weight_exists<F: FiniteField>(field: nat, points: Seq<Point>, j: int, upto: int)
    requires
        F::is_field(field),
        0 <= j < points.len(),
        0 <= upto <= points.len(),
        forall|k: int| 0 <= k < points.len() ==> (#[trigger] points[k]).x < F::size_of(field),
        forall|k: int, l: int|
            0 <= k < l < points.len() ==> (#[trigger] points[k]).x != (#[trigger] points[l]).x,
    ensures
        weight::<F>(field, points, j, upto).is_some(),
    decreases upto,
{
    if upto > 0 {
        lemma_weight_exists::<F>(field, points, j, upto - 1);
        if upto - 1 != j {
            F::lemma_difference_invertible(field, points[upto - 1].x, points[j].x);
        }
    }
}

impl<const T: usize, const N: usize, F: FiniteField> SSServer<T, N, F> for Server<T, N> {
    /// The shares of `secret`: the values of a polynomial of degree
    /// `T - 1`, with `secret` for its constant term and random other
    /// coefficients, at the elements with the numbers from one to `N`.
    fn split(&self, secret: F) -> (r: Result<[F; N]>)
        ensures
            match r {
                Ok(shares) => {
                    &&& valid_parameters::<F>(T as nat, N as nat, secret.structure())
                    &&& exists|c: Seq<nat>|
                        {
                            &&& c.len() == T
                            &&& c[0] == secret.number()
                            &&& forall|k: int|
                                0 <= k < T ==> #[trigger] c[k] < F::size_of(secret.structure())
                            &&& forall|i: int|
                                0 <= i < N ==> (#[trigger] shares@[i]).number() == evaluate::<F>(
                                    secret.structure(),
                                    c,
                                    (i + 1) as nat,
                                ) && shares@[i].structure() == secret.structure()
                        }
                },
                Err(e) => e == Error::MPCError(MPCErrorKind::InvalidParameters)
                    && !valid_parameters::<F>(T as nat, N as nat, secret.structure()),
            },
    {
        if T == 0 || T > N || secret.element(N as u64).is_none() {
            return Err(Error::MPCError(MPCErrorKind::InvalidParameters));
        }
        let ghost field = secret.structure();
        let mut coefficients: Vec<F> = Vec::new();
        coefficients.push(secret);
        while coefficients.len() < T
            invariant
                1 <= coefficients@.len() <= T,
                secret.wf(),
                field == secret.structure(),
                coefficients@[0] == secret,
                all_in(coefficients@, field),
            decreases T - coefficients@.len(),
        {
            coefficients.push(secret.random());
        }
        let ghost c = numbers(coefficients@);
        let mut shares: [F; N] = array_fill_for_copy_types(secret);
        let mut i: usize = 0;
        while i < N
            invariant
                i <= N,
                N < F::size_of(field),
                secret.wf(),
                field == secret.structure(),
                all_in(coefficients@, field),
                c == numbers(coefficients@),
                forall|k: int|
                    0 <= k < i ==> (#[trigger] shares@[k]).number() == evaluate::<F>(
                        field,
                        c,
                        (k + 1) as nat,
                    ) && shares@[k].structure() == field && shares@[k].wf(),
                forall|k: int| i <= k < N ==> (#[trigger] shares@[k]).wf(),
            decreases N - i,
        {
            match secret.element((i + 1) as u64) {
                Some(x) => {
                    shares[i] = horner(&coefficients, &x);
                },
                None => {},
            }
            i += 1;
        }
        proof {
            assert(c.len() == T && c[0] == secret.number());
            assert forall|k: int| 0 <= k < T implies #[trigger] c[k] < F::size_of(
                secret.structure(),
            ) by {
                F::lemma_number_within(coefficients@[k]);
            }
            assert(forall|i: int|
                0 <= i < N ==> (#[trigger] shares@[i]).number() == evaluate::<F>(
                    secret.structure(),
                    c,
                    (i + 1) as nat,
                ) && shares@[i].structure() == secret.structure());
        }
        Ok(shares)
    }

    /// The secret that the first `T` shares that are present stand for:
    /// the value at zero of the polynomial through them. Recovery fails
    /// with `InsufficientShares` exactly where the threshold is one or
    /// more and at most `N`, and fewer than `T` shares are present, be it
    /// none; and with `InvalidParameters` where the threshold, the number
    /// of shares and the field do not go together.
    fn recover(&self, shares: &[Option<F>; N]) -> (r: Result<F>)
        ensures
            match r {
                Ok(secret) => {
                    &&& 1 <= T <= N
                    &&& chosen(shares@, N as int, T as nat).len() == T
                    &&& secret.structure() == shares_field(shares@)
                    &&& F::is_field(shares_field(shares@)) ==> interpolate::<F>(
                        shares_field(shares@),
                        chosen(shares@, N as int, T as nat),
                        T as int,
                    ) == Some(secret.number())
                },
                Err(e) => if 1 <= T <= N && chosen(shares@, N as int, T as nat).len() < T {
                    e == Error::MPCError(MPCErrorKind::InsufficientShares)
                } else {
                    &&& e == Error::MPCError(MPCErrorKind::InvalidParameters)
                    &&& !(valid_parameters::<F>(T as nat, N as nat, shares_field(shares@))
                        && F::is_field(shares_field(shares@)))
                },
            },
    {
        if T == 0 || T > N {
            return Err(Error::MPCError(MPCErrorKind::InvalidParameters));
        }
        // are there shares enough?
        let mut present: usize = 0;
        let mut k: usize = 0;
        while k < N
            invariant
                k <= N,
                present <= T,
                present == chosen(shares@, k as int, T as nat).len(),
            decreases N - k,
        {
            if shares[k].is_some() && present < T {
                present += 1;
            }
            k += 1;
        }
        if present < T {
            return Err(Error::MPCError(MPCErrorKind::InsufficientShares));
        }
        let ghost field = shares_field(shares@);
        let mut xs: Vec<F> = Vec::new();
        let mut ys: Vec<F> = Vec::new();
        let mut i: usize = 0;
        while i < N
            invariant
                i <= N,
                1 <= T <= N,
                shares_wf(shares@),
                field == shares_field(shares@),
                xs@.len() == ys@.len(),
                all_in(xs@, field),
                all_in(ys@, field),
                points_of(xs@, ys@) == chosen(shares@, i as int, T as nat),
                chosen(shares@, N as int, T as nat).len() >= T,
            decreases N - i,
        {
            let ghost before = points_of(xs@, ys@);
            if let Some(y) = shares[i] {
                if ys.len() < T {
                    match y.element((i + 1) as u64) {
                        Some(x) => {
                            xs.push(x);
                            ys.push(y);
                        },
                        None => {
                            return Err(Error::MPCError(MPCErrorKind::InvalidParameters));
                        },
                    }
                }
            }
            proof {
                assert(points_of(xs@, ys@) =~= chosen(shares@, i + 1, T as nat));
            }
            i += 1;
        }
        proof {
            lemma_chosen(shares@, N as int, T as nat);
            assert(ys@.len() == points_of(xs@, ys@).len());
        }
        let ghost points = points_of(xs@, ys@);
        let mut sum = ys[0].zero();
        let mut j: usize = 0;
        while j < T
            invariant
                j <= T,
                xs@.len() == T,
                ys@.len() == T,
                field == shares_field(shares@),
                all_in(xs@, field),
                all_in(ys@, field),
                points == points_of(xs@, ys@),
                points == chosen(shares@, N as int, T as nat),
                1 <= T <= N,
                sum.wf(),
                sum.structure() == field,
                F::is_field(field) ==> interpolate::<F>(field, points, j as int) == Some(
                    sum.number(),
                ),
            decreases T - j,
        {
            match lagrange_weight(&xs, &ys, j) {
                Some(w) => {
                    let term = ys[j].times(&w);
                    sum = sum.plus(&term);
                },
                None => {
                    proof {
                        if F::is_field(field) && N < F::size_of(field) {
                            lemma_chosen(shares@, N as int, T as nat);
                            lemma_weight_exists::<F>(field, points, j as int, T as int);
                        }
                    }
                    return Err(Error::MPCError(MPCErrorKind::InvalidParameters));
                },
            }
            j += 1;
        }
        Ok(sum)
    }
}

} // verus!
