//! Finite commutative groups on natural numbers: the power of a member by
//! the number of members is the unit.

use vstd::prelude::*;
use vstd::seq_lib::seq_to_set_is_finite;
use vstd::set_lib::lemma_subset_equality;

verus! {

/// Whether `op` keeps within the numbers that `g` holds.
#[verifier::opaque]
pub open spec fn closed(g: spec_fn(nat) -> bool, op: spec_fn(nat, nat) -> nat) -> bool {
    forall|x: nat, y: nat| g(x) && g(y) ==> g(#[trigger] op(x, y))
}

/// Whether `op` does not depend on the order of its arguments.
#[verifier::opaque]
pub open spec fn commutative(g: spec_fn(nat) -> bool, op: spec_fn(nat, nat) -> nat) -> bool {
    forall|x: nat, y: nat| g(x) && g(y) ==> #[trigger] op(x, y) == op(y, x)
}

/// Whether `op` does not depend on how its arguments are grouped.
#[verifier::opaque]
pub open spec fn associative(g: spec_fn(nat) -> bool, op: spec_fn(nat, nat) -> nat) -> bool {
    forall|x: nat, y: nat, z: nat|
        g(x) && g(y) && g(z) ==> #[trigger] op(op(x, y), z) == op(x, op(y, z))
}

/// Whether `e` is neutral for `op`.
#[verifier::opaque]
pub open spec fn neutral(g: spec_fn(nat) -> bool, op: spec_fn(nat, nat) -> nat, e: nat) -> bool {
    g(e) && forall|x: nat| g(x) ==> #[trigger] op(e, x) == x
}

/// Whether every number that `g` holds has an inverse under `op`.
#[verifier::opaque]
pub open spec fn invertible(g: spec_fn(nat) -> bool, op: spec_fn(nat, nat) -> nat, e: nat) -> bool {
    forall|x: nat| #[trigger] g(x) ==> exists|y: nat| g(y) && #[trigger] op(x, y) == e
}

/// Whether the numbers that `g` holds form a commutative group under `op`
/// with the unit `e`.
pub open spec fn is_group(g: spec_fn(nat) -> bool, op: spec_fn(nat, nat) -> nat, e: nat) -> bool {
    &&& closed(g, op)
    &&& commutative(g, op)
    &&& associative(g, op)
    &&& neutral(g, op, e)
    &&& invertible(g, op, e)
}

/// The combination of two members is a member and does not depend on
/// their order.
pub proof fn lemma_op(
    x: nat,
    y: nat,
    g: spec_fn(nat) -> bool,
    op: spec_fn(nat, nat) -> nat,
    e: nat,
)
    requires
        is_group(g, op, e),
        g(x),
        g(y),
    ensures
        g(op(x, y)),
        op(x, y) == op(y, x),
{
    assert(g(op(x, y))) by {
        reveal(closed);
    }
    assert(op(x, y) == op(y, x)) by {
        reveal(commutative);
    }
}

/// The combination of three members does not depend on their grouping.
pub proof fn lemma_assoc(
    x: nat,
    y: nat,
    z: nat,
    g: spec_fn(nat) -> bool,
    op: spec_fn(nat, nat) -> nat,
    e: nat,
)
    requires
        is_group(g, op, e),
        g(x),
        g(y),
        g(z),
    ensures
        op(op(x, y), z) == op(x, op(y, z)),
{
    reveal(associative);
}

/// The unit is a member and neutral on either side.
pub proof fn lemma_unit(x: nat, g: spec_fn(nat) -> bool, op: spec_fn(nat, nat) -> nat, e: nat)
    requires
        is_group(g, op, e),
        g(x),
    ensures
        g(e),
        op(e, x) == x,
        op(x, e) == x,
{
    assert(g(e) && op(e, x) == x) by {
        reveal(neutral);
    }
    lemma_op(x, e, g, op, e);
}

/// Every member has an inverse.
pub proof fn lemma_inverse(x: nat, g: spec_fn(nat) -> bool, op: spec_fn(nat, nat) -> nat, e: nat)
    -> (y: nat)
    requires
        is_group(g, op, e),
        g(x),
    ensures
        g(y),
        op(x, y) == e,
        op(y, x) == e,
{
    reveal(invertible);
    let y = choose|y: nat| g(y) && #[trigger] op(x, y) == e;
    lemma_op(x, y, g, op, e);
    y
}

/// Whether `s` lists the members of `g`, each once.
pub open spec fn lists(s: Seq<nat>, g: spec_fn(nat) -> bool) -> bool {
    s.no_duplicates() && forall|x: nat| g(x) <==> s.contains(x)
}

/// Whether every entry of `s` is a member of `g`.
pub open spec fn members(s: Seq<nat>, g: spec_fn(nat) -> bool) -> bool {
    forall|i: int| 0 <= i < s.len() ==> g(#[trigger] s[i])
}

/// The entries of `s` combined by `op`, from the unit `e` on.
pub open spec fn product(s: Seq<nat>, op: spec_fn(nat, nat) -> nat, e: nat) -> nat
    decreases s.len(),
{
    if s.len() == 0 {
        e
    } else {
        op(product(s.drop_last(), op, e), s.last())
    }
}

/// `a` combined with itself `k` times by `op`, from the unit `e` on.
pub open spec fn power(a: nat, k: nat, op: spec_fn(nat, nat) -> nat, e: nat) -> nat
    decreases k,
{
    if k == 0 {
        e
    } else {
        op(a, power(a, (k - 1) as nat, op, e))
    }
}

/// Products and powers of members are members.
pub proof fn lemma_closed(
    s: Seq<nat>,
    a: nat,
    k: nat,
    g: spec_fn(nat) -> bool,
    op: spec_fn(nat, nat) -> nat,
    e: nat,
)
    requires
        is_group(g, op, e),
        members(s, g),
        g(a),
    ensures
        g(product(s, op, e)),
        g(power(a, k, op, e)),
    decreases s.len() + k,
{
    if s.len() > 0 {
        assert(members(s.drop_last(), g)) by {
            assert forall|i: int| 0 <= i < s.drop_last().len() implies g(
                #[trigger] s.drop_last()[i],
            ) by {
                assert(s.drop_last()[i] == s[i]);
            }
        }
        lemma_closed(s.drop_last(), a, 0, g, op, e);
        assert(g(s[s.len() - 1]));
        lemma_op(product(s.drop_last(), op, e), s.last(), g, op, e);
    } else {
        lemma_unit(a, g, op, e);
    }
    if k > 0 {
        lemma_closed(Seq::empty(), a, (k - 1) as nat, g, op, e);
        lemma_op(a, power(a, (k - 1) as nat, op, e), g, op, e);
    } else {
        lemma_unit(a, g, op, e);
    }
}

/// In a group, a member can be cancelled.
pub proof fn lemma_cancel(
    a: nat,
    x: nat,
    y: nat,
    g: spec_fn(nat) -> bool,
    op: spec_fn(nat, nat) -> nat,
    e: nat,
)
    requires
        is_group(g, op, e),
        g(a),
        g(x),
        g(y),
        op(a, x) == op(a, y),
    ensures
        x == y,
{
    let i = lemma_inverse(a, g, op, e);
    lemma_assoc(i, a, x, g, op, e);
    lemma_assoc(i, a, y, g, op, e);
    lemma_unit(x, g, op, e);
    lemma_unit(y, g, op, e);
}

/// A product does not change when one entry is taken out and combined
/// with the rest.
pub proof fn lemma_product_remove(
    s: Seq<nat>,
    i: int,
    g: spec_fn(nat) -> bool,
    op: spec_fn(nat, nat) -> nat,
    e: nat,
)
    requires
        is_group(g, op, e),
        members(s, g),
        0 <= i < s.len(),
    ensures
        product(s, op, e) == op(product(s.remove(i), op, e), s[i]),
        members(s.remove(i), g),
    decreases s.len(),
{
    s.remove_ensures(i);
    assert(members(s.remove(i), g)) by {
        assert forall|j: int| 0 <= j < s.remove(i).len() implies g(#[trigger] s.remove(i)[j]) by {
            if j < i {
                assert(s.remove(i)[j] == s[j]);
            } else {
                assert(s.remove(i)[j] == s[j + 1]);
            }
        }
    }
    if i == s.len() - 1 {
        assert(s.remove(i) =~= s.drop_last());
    } else {
        let rest = s.drop_last();
        let last = s.last();
        assert(members(rest, g)) by {
            assert forall|j: int| 0 <= j < rest.len() implies g(#[trigger] rest[j]) by {
                assert(rest[j] == s[j]);
            }
        }
        lemma_product_remove(rest, i, g, op, e);
        assert(s.remove(i).drop_last() =~= rest.remove(i));
        assert(s.remove(i).last() == last);
        let p = product(rest.remove(i), op, e);
        assert(g(s[i]) && g(s[s.len() - 1]));
        lemma_unit(s[i], g, op, e);
        lemma_closed(rest.remove(i), e, 0, g, op, e);
        assert(g(s[i]) && g(s[s.len() - 1]) && g(p));
        // (p * s[i]) * last == (p * last) * s[i]
        lemma_assoc(p, s[i], last, g, op, e);
        lemma_op(s[i], last, g, op, e);
        lemma_assoc(p, last, s[i], g, op, e);
        assert(rest[i] == s[i]);
    }
}

/// Two lists of the same members, each once, have the same product.
pub proof fn lemma_product_rearranged(
    s: Seq<nat>,
    t: Seq<nat>,
    g: spec_fn(nat) -> bool,
    op: spec_fn(nat, nat) -> nat,
    e: nat,
)
    requires
        is_group(g, op, e),
        members(s, g),
        s.no_duplicates(),
        t.no_duplicates(),
        s.len() == t.len(),
        forall|i: int| 0 <= i < t.len() ==> s.contains(#[trigger] t[i]),
    ensures
        product(t, op, e) == product(s, op, e),
    decreases s.len(),
{
    if s.len() > 0 {
        // the entries of the two lists are the same
        seq_to_set_is_finite(s);
        seq_to_set_is_finite(t);
        s.unique_seq_to_set();
        t.unique_seq_to_set();
        assert(t.to_set().subset_of(s.to_set())) by {
            assert forall|x: nat| t.to_set().contains(x) implies s.to_set().contains(x) by {
                let i = choose|i: int| 0 <= i < t.len() && t[i] == x;
                assert(s.contains(t[i]));
            }
        }
        lemma_subset_equality(t.to_set(), s.to_set());
        assert(members(t, g)) by {
            assert forall|i: int| 0 <= i < t.len() implies g(#[trigger] t[i]) by {
                assert(s.contains(t[i]));
                let j = choose|j: int| 0 <= j < s.len() && s[j] == t[i];
                assert(g(s[j]));
            }
        }
        let x = s.last();
        assert(s.to_set().contains(x)) by {
            assert(s[s.len() - 1] == x);
        }
        assert(t.to_set().contains(x));
        let i = choose|i: int| 0 <= i < t.len() && t[i] == x;
        let rest = s.drop_last();
        let others = t.remove(i);
        t.remove_ensures(i);
        lemma_product_remove(t, i, g, op, e);
        assert(members(rest, g)) by {
            assert forall|j: int| 0 <= j < rest.len() implies g(#[trigger] rest[j]) by {
                assert(rest[j] == s[j]);
            }
        }
        assert(others.no_duplicates()) by {
            assert forall|j: int, k: int|
                0 <= j < others.len() && 0 <= k < others.len() && j != k implies others[j]
                != others[k] by {
                let jj = if j < i { j } else { j + 1 };
                let kk = if k < i { k } else { k + 1 };
                assert(others[j] == t[jj] && others[k] == t[kk]);
            }
        }
        assert forall|j: int| 0 <= j < others.len() implies rest.contains(#[trigger] others[j]) by {
            let jj = if j < i { j } else { j + 1 };
            assert(others[j] == t[jj]);
            assert(s.contains(t[jj]));
            let k = choose|k: int| 0 <= k < s.len() && s[k] == t[jj];
            assert(k != s.len() - 1);
            assert(rest[k] == s[k]);
        }
        lemma_product_rearranged(rest, others, g, op, e);
    } else {
        assert(t =~= s);
    }
}

/// Where every entry of a list is combined with `a`, the product is
/// combined with the power of `a` by the length of the list.
pub proof fn lemma_product_scaled(
    s: Seq<nat>,
    a: nat,
    g: spec_fn(nat) -> bool,
    op: spec_fn(nat, nat) -> nat,
    e: nat,
)
    requires
        is_group(g, op, e),
        members(s, g),
        g(a),
    ensures
        product(s.map_values(|x: nat| op(a, x)), op, e) == op(
            power(a, s.len(), op, e),
            product(s, op, e),
        ),
    decreases s.len(),
{
    let t = s.map_values(|x: nat| op(a, x));
    if s.len() == 0 {
        assert(t =~= Seq::<nat>::empty());
        lemma_unit(a, g, op, e);
        lemma_unit(e, g, op, e);
    } else {
        let rest = s.drop_last();
        let last = s.last();
        assert(members(rest, g)) by {
            assert forall|j: int| 0 <= j < rest.len() implies g(#[trigger] rest[j]) by {
                assert(rest[j] == s[j]);
            }
        }
        lemma_product_scaled(rest, a, g, op, e);
        assert(t.drop_last() =~= rest.map_values(|x: nat| op(a, x)));
        assert(t.last() == op(a, last));
        let n = rest.len();
        let w = power(a, n, op, e);
        let p = product(rest, op, e);
        lemma_closed(rest, a, n, g, op, e);
        assert(g(s[s.len() - 1]));
        assert(g(w) && g(p) && g(last) && g(a));
        // (w p)(a last) == (a w)(p last)
        lemma_op(a, last, g, op, e);
        lemma_op(p, last, g, op, e);
        lemma_op(p, a, g, op, e);
        lemma_op(w, a, g, op, e);
        lemma_assoc(w, p, op(a, last), g, op, e);
        lemma_assoc(p, a, last, g, op, e);
        lemma_assoc(a, p, last, g, op, e);
        lemma_assoc(w, a, op(p, last), g, op, e);
        assert(power(a, s.len(), op, e) == op(a, w));
    }
}

/// In a finite commutative group, the power of a member by the number of
/// members is the unit.
pub proof fn lemma_power_by_order(
    s: Seq<nat>,
    a: nat,
    g: spec_fn(nat) -> bool,
    op: spec_fn(nat, nat) -> nat,
    e: nat,
)
    requires
        is_group(g, op, e),
        lists(s, g),
        g(a),
    ensures
        power(a, s.len(), op, e) == e,
{
    let t = s.map_values(|x: nat| op(a, x));
    assert(members(s, g)) by {
        assert forall|i: int| 0 <= i < s.len() implies g(#[trigger] s[i]) by {
            assert(s.contains(s[i]));
        }
    }
    assert(t.no_duplicates()) by {
        assert forall|j: int, k: int| 0 <= j < t.len() && 0 <= k < t.len() && j != k implies t[j]
            != t[k] by {
            if t[j] == t[k] {
                lemma_cancel(a, s[j], s[k], g, op, e);
            }
        }
    }
    assert forall|i: int| 0 <= i < t.len() implies s.contains(#[trigger] t[i]) by {
        lemma_op(a, s[i], g, op, e);
    }
    lemma_product_rearranged(s, t, g, op, e);
    lemma_product_scaled(s, a, g, op, e);
    let w = power(a, s.len(), op, e);
    let p = product(s, op, e);
    lemma_closed(s, a, s.len(), g, op, e);
    // w p == p == e p, so w == e
    lemma_unit(p, g, op, e);
    lemma_op(w, p, g, op, e);
    lemma_cancel(p, w, e, g, op, e);
}

} // verus!
