//! Arithmetic on residues modulo `p`, the mathematical model of both the field
//! of scalars and the group of commitments.

use vstd::arithmetic::div_mod::*;
use vstd::arithmetic::mul::*;
use vstd::prelude::*;

verus! {

/// The residue of an integer modulo `p`.
pub open spec fn reduce(p: nat, x: int) -> nat {
    (x % (p as int)) as nat
}

pub open spec fn add_mod(p: nat, a: nat, b: nat) -> nat {
    reduce(p, (a + b) as int)
}

pub open spec fn sub_mod(p: nat, a: nat, b: nat) -> nat {
    reduce(p, a - b)
}

pub open spec fn neg_mod(p: nat, a: nat) -> nat {
    reduce(p, -(a as int))
}

pub open spec fn mul_mod(p: nat, a: nat, b: nat) -> nat {
    reduce(p, (a * b) as int)
}

/// `x` to the power `n`, reduced.
pub open spec fn pow_mod(p: nat, x: nat, n: nat) -> nat
    decreases n,
{
    if n == 0 {
        reduce(p, 1)
    } else {
        mul_mod(p, pow_mod(p, x, (n - 1) as nat), x)
    }
}

/// `b` is the multiplicative inverse of `a` modulo `p`.
pub open spec fn is_inverse(p: nat, a: nat, b: nat) -> bool {
    b < p && mul_mod(p, a, b) == 1
}

/// `a` has a multiplicative inverse modulo `p`.
pub open spec fn has_inverse(p: nat, a: nat) -> bool {
    exists|b: nat| is_inverse(p, a, b)
}

/// The multiplicative inverse of `a`, where it has one.
pub open spec fn inv_mod(p: nat, a: nat) -> nat {
    choose|b: nat| is_inverse(p, a, b)
}

/// The residues modulo `p` form a field: every residue but zero has an inverse.
pub open spec fn is_field_order(p: nat) -> bool {
    &&& p > 1
    &&& forall|a: nat| 0 < a < p ==> #[trigger] has_inverse(p, a)
}

pub proof fn lemma_reduce_bound(p: nat, x: int)
    requires
        p > 0,
    ensures
        reduce(p, x) < p,
        reduce(p, x) as int == x % (p as int),
{
    lemma_mod_bound(x, p as int);
}

pub proof fn lemma_reduce_small(p: nat, a: nat)
    requires
        a < p,
    ensures
        reduce(p, a as int) == a,
{
    lemma_small_mod(a, p);
}

/// Reducing an operand first does not change a reduced sum or product.
pub proof fn lemma_reduce_absorb(p: nat, x: int, y: int)
    requires
        p > 0,
    ensures
        reduce(p, reduce(p, x) + y) == reduce(p, x + y),
        reduce(p, y + reduce(p, x)) == reduce(p, y + x),
        reduce(p, reduce(p, x) * y) == reduce(p, x * y),
        reduce(p, y * reduce(p, x)) == reduce(p, y * x),
        reduce(p, y - reduce(p, x)) == reduce(p, y - x),
        reduce(p, -(reduce(p, x) as int)) == reduce(p, -x),
{
    let m = p as int;
    lemma_mod_bound(x, m);
    lemma_add_mod_noop(x, y, m);
    lemma_add_mod_noop(x % m, y, m);
    lemma_mod_twice(x, m);
    lemma_add_mod_noop(y, x, m);
    lemma_add_mod_noop(y, x % m, m);
    lemma_mul_mod_noop_general(x, y, m);
    lemma_mul_mod_noop_general(y, x, m);
    lemma_sub_mod_noop(y, x, m);
    lemma_sub_mod_noop(y, x % m, m);
    lemma_sub_mod_noop(0, x, m);
    lemma_sub_mod_noop(0, x % m, m);
}

pub proof fn lemma_mul_mod_commutes(p: nat, a: nat, b: nat)
    ensures
        mul_mod(p, a, b) == mul_mod(p, b, a),
{
    lemma_mul_is_commutative(a as int, b as int);
}

pub proof fn lemma_mul_mod_associates(p: nat, a: nat, b: nat, c: nat)
    requires
        p > 0,
    ensures
        mul_mod(p, mul_mod(p, a, b), c) == mul_mod(p, a, mul_mod(p, b, c)),
{
    lemma_reduce_absorb(p, (a * b) as int, c as int);
    lemma_reduce_absorb(p, (b * c) as int, a as int);
    lemma_mul_is_associative(a as int, b as int, c as int);
}

/// A residue has at most one inverse.
pub proof fn lemma_inverse_unique(p: nat, a: nat, b: nat, c: nat)
    requires
        p > 1,
        is_inverse(p, a, b),
        is_inverse(p, a, c),
    ensures
        b == c,
{
    // b = b * (a * c) = (b * a) * c = c
    lemma_mul_mod_associates(p, b, a, c);
    lemma_mul_mod_commutes(p, b, a);
    assert(mul_mod(p, b, 1) == b) by {
        lemma_reduce_small(p, b);
    }
    assert(mul_mod(p, 1, c) == c) by {
        lemma_mul_mod_commutes(p, 1, c);
        lemma_reduce_small(p, c);
    }
}

/// The inverse that `inv_mod` picks is the one that a residue has.
pub proof fn lemma_inverse_is_inv_mod(p: nat, a: nat, b: nat)
    requires
        p > 1,
        is_inverse(p, a, b),
    ensures
        inv_mod(p, a) == b,
{
    lemma_inverse_unique(p, a, b, inv_mod(p, a));
}

/// Two different residues have a difference other than zero.
pub proof fn lemma_sub_mod_distinct(p: nat, a: nat, b: nat)
    requires
        a < p,
        b < p,
        a != b,
    ensures
        sub_mod(p, a, b) != 0,
{
    let d = a - b;
    if d > 0 {
        lemma_small_mod(d as nat, p);
    } else {
        lemma_mod_add_multiples_vanish(d, p as int);
        lemma_small_mod((d + p) as nat, p);
    }
}

/// Adding a negation is subtracting.
pub proof fn lemma_add_neg_is_sub(p: nat, a: nat, b: nat)
    requires
        p > 0,
    ensures
        add_mod(p, neg_mod(p, a), b) == sub_mod(p, b, a),
        add_mod(p, b, neg_mod(p, a)) == sub_mod(p, b, a),
{
    lemma_reduce_absorb(p, -(a as int), b as int);
}

/// A difference of residues is zero exactly when they are the same.
pub proof fn lemma_sub_mod_zero_iff(p: nat, a: nat, b: nat)
    requires
        a < p,
        b < p,
    ensures
        sub_mod(p, a, b) == 0 <==> a == b,
{
    if a != b {
        lemma_sub_mod_distinct(p, a, b);
    } else {
        lemma_small_mod(0, p);
    }
}

/// The negation of a factor is the negation of the product.
pub proof fn lemma_mul_neg(p: nat, a: nat, b: nat)
    requires
        p > 0,
    ensures
        mul_mod(p, neg_mod(p, a), b) == neg_mod(p, mul_mod(p, a, b)),
{
    lemma_reduce_absorb(p, -(a as int), b as int);
    lemma_reduce_absorb(p, (a * b) as int, 0);
    lemma_mul_unary_negation(a as int, b as int);
}

/// Subtracting twice is subtracting the sum.
pub proof fn lemma_sub_twice(p: nat, r: nat, a: nat, b: nat)
    requires
        p > 0,
    ensures
        sub_mod(p, sub_mod(p, r, a), b) == sub_mod(p, r, add_mod(p, a, b)),
{
    lemma_reduce_absorb(p, r - a, -(b as int));
    lemma_reduce_absorb(p, (a + b) as int, r as int);
}

pub proof fn lemma_add_mod_commutes(p: nat, a: nat, b: nat)
    ensures
        add_mod(p, a, b) == add_mod(p, b, a),
{
}

/// Sums of sums may be regrouped.
pub proof fn lemma_add_mod_interchange(p: nat, a: nat, b: nat, c: nat, d: nat)
    requires
        p > 0,
    ensures
        add_mod(p, add_mod(p, a, b), add_mod(p, c, d)) == add_mod(
            p,
            add_mod(p, a, c),
            add_mod(p, b, d),
        ),
{
    lemma_reduce_absorb(p, (a + b) as int, add_mod(p, c, d) as int);
    lemma_reduce_absorb(p, (c + d) as int, (a + b) as int);
    lemma_reduce_absorb(p, (a + c) as int, add_mod(p, b, d) as int);
    lemma_reduce_absorb(p, (b + d) as int, (a + c) as int);
}

/// Multiplication distributes over addition, on either side.
pub proof fn lemma_mul_mod_distributes(p: nat, g: nat, a: nat, b: nat)
    requires
        p > 0,
    ensures
        mul_mod(p, g, add_mod(p, a, b)) == add_mod(p, mul_mod(p, g, a), mul_mod(p, g, b)),
        mul_mod(p, add_mod(p, a, b), g) == add_mod(p, mul_mod(p, a, g), mul_mod(p, b, g)),
{
    lemma_reduce_absorb(p, (a + b) as int, g as int);
    lemma_reduce_absorb(p, (g * a) as int, mul_mod(p, g, b) as int);
    lemma_reduce_absorb(p, (g * b) as int, (g * a) as int);
    lemma_mul_is_distributive_add(g as int, a as int, b as int);
    lemma_mul_mod_commutes(p, add_mod(p, a, b), g);
    lemma_mul_mod_commutes(p, a, g);
    lemma_mul_mod_commutes(p, b, g);
}

/// A common summand may be cancelled.
pub proof fn lemma_add_mod_cancels(p: nat, a: nat, b: nat, c: nat)
    requires
        a < p,
        b < p,
        add_mod(p, a, c) == add_mod(p, b, c),
    ensures
        a == b,
{
    lemma_reduce_absorb(p, (a + c) as int, -(c as int));
    lemma_reduce_absorb(p, (b + c) as int, -(c as int));
    lemma_reduce_small(p, a);
    lemma_reduce_small(p, b);
    assert(reduce(p, -(c as int) + reduce(p, (a + c) as int)) == reduce(p, -(c as int) + (a + c)));
    assert(reduce(p, -(c as int) + reduce(p, (b + c) as int)) == reduce(p, -(c as int) + (b + c)));
    assert(-(c as int) + (a + c) == a as int);
    assert(-(c as int) + (b + c) == b as int);
}

/// A factor that has an inverse may be cancelled.
pub proof fn lemma_mul_mod_cancels(p: nat, g: nat, a: nat, b: nat)
    requires
        p > 1,
        has_inverse(p, g),
        a < p,
        b < p,
        mul_mod(p, g, a) == mul_mod(p, g, b),
    ensures
        a == b,
{
    let i = inv_mod(p, g);
    assert(is_inverse(p, g, i));
    lemma_mul_mod_commutes(p, g, i);
    lemma_mul_mod_associates(p, i, g, a);
    lemma_mul_mod_associates(p, i, g, b);
    lemma_mul_mod_commutes(p, 1, a);
    lemma_mul_mod_commutes(p, 1, b);
    lemma_reduce_small(p, a);
    lemma_reduce_small(p, b);
}

/// The residue `x` stands for the integer `i`: it is what `i` reduces to.
pub open spec fn stands_for(p: nat, x: nat, i: int) -> bool {
    x == reduce(p, i)
}

/// A residue stands for itself.
pub proof fn lemma_stands_for_itself(p: nat, x: nat)
    requires
        x < p,
    ensures
        stands_for(p, x, x as int),
{
    lemma_reduce_small(p, x);
}

/// What sums, differences, negations and products of residues stand for.
pub proof fn lemma_stands_for_results(p: nat, x: nat, i: int, y: nat, j: int)
    requires
        p > 0,
        stands_for(p, x, i),
        stands_for(p, y, j),
    ensures
        stands_for(p, add_mod(p, x, y), i + j),
        stands_for(p, sub_mod(p, x, y), i - j),
        stands_for(p, mul_mod(p, x, y), i * j),
        stands_for(p, neg_mod(p, x), -i),
{
    lemma_reduce_absorb(p, i, y as int);
    lemma_reduce_absorb(p, j, i);
    lemma_reduce_absorb(p, i, -(y as int));
    lemma_reduce_absorb(p, j, i);
    assert(reduce(p, x - y) == reduce(p, i - j)) by {
        assert(reduce(p, -(y as int) + reduce(p, i)) == reduce(p, -(y as int) + i));
        assert(-(y as int) + x == x - y);
        assert(reduce(p, i - reduce(p, j)) == reduce(p, i - j));
    }
    assert(reduce(p, (x * y) as int) == reduce(p, i * j)) by {
        lemma_reduce_absorb(p, i, y as int);
        lemma_reduce_absorb(p, j, i);
        assert(reduce(p, (reduce(p, i) * y) as int) == reduce(p, i * y));
        assert(reduce(p, i * reduce(p, j)) == reduce(p, i * j));
    }
}

/// Integers that differ by multiples of integers that reduce to zero reduce
/// to the same residue.
pub proof fn lemma_reduce_congruent(p: nat, i: int, j: int, k1: int, e1: int, k2: int, e2: int)
    requires
        p > 0,
        i - j == k1 * e1 + k2 * e2,
        reduce(p, e1) == 0,
        reduce(p, e2) == 0,
    ensures
        reduce(p, i) == reduce(p, j),
{
    lemma_reduce_absorb(p, e1, k1);
    lemma_reduce_absorb(p, e2, k2);
    assert(k1 * 0 == 0 && k2 * 0 == 0) by (nonlinear_arith);
    lemma_reduce_small(p, 0);
    assert(reduce(p, k1 * e1) == 0);
    assert(reduce(p, k2 * e2) == 0);
    lemma_reduce_absorb(p, k1 * e1, j + k2 * e2);
    lemma_reduce_absorb(p, k2 * e2, j);
    assert(i == (j + k2 * e2) + k1 * e1);
    assert(reduce(p, (j + k2 * e2) + reduce(p, k1 * e1)) == reduce(p, (j + k2 * e2) + k1 * e1));
    assert(reduce(p, j + reduce(p, k2 * e2)) == reduce(p, j + k2 * e2));
}

/// The inverse of a residue other than zero, times that residue, leaves one:
/// the product less one reduces to zero.
pub proof fn lemma_inverse_relation(p: nat, x: nat, i: int)
    requires
        is_field_order(p),
        0 < x < p,
        stands_for(p, x, i),
    ensures
        is_inverse(p, x, inv_mod(p, x)),
        reduce(p, i * inv_mod(p, x) - 1) == 0,
{
    assert(has_inverse(p, x));
    let u = inv_mod(p, x);
    lemma_stands_for_itself(p, u);
    lemma_stands_for_results(p, x, i, u, u as int);
    lemma_reduce_absorb(p, i * u, -1);
    assert(reduce(p, -1 + reduce(p, i * u)) == reduce(p, -1 + i * u));
    lemma_reduce_small(p, 0);
}

/// Integers that reduce to the same residue still do so after scaling.
pub proof fn lemma_reduce_scaled(p: nat, k: int, i: int, j: int)
    requires
        p > 0,
        reduce(p, i) == reduce(p, j),
    ensures
        reduce(p, k * i) == reduce(p, k * j),
{
    lemma_reduce_absorb(p, i, k);
    lemma_reduce_absorb(p, j, k);
}

} // verus!
