//! Why Lagrange's weights recover a polynomial: the weights of any nodes add
//! up to one, they annihilate the higher powers of the nodes, and so the
//! weighted sum of a polynomial's values is its constant term.

use crate::modular::{
    add_mod, has_inverse, inv_mod, is_field_order, lemma_add_mod_interchange,
    lemma_add_neg_is_sub, lemma_inverse_relation, lemma_mul_mod_associates,
    lemma_mul_mod_cancels, lemma_mul_mod_commutes, lemma_mul_mod_distributes,
    lemma_reduce_bound, lemma_reduce_congruent, lemma_reduce_scaled, lemma_reduce_small,
    lemma_stands_for_itself,
    lemma_stands_for_results, lemma_sub_mod_distinct, mul_mod, neg_mod, pow_mod, reduce,
    stands_for, sub_mod,
};
use crate::polynomial::{eval_poly, poly_terms};
use crate::shamir::{
    interpolate, interpolate_upto, lagrange_weight, pairwise_distinct, weight_factor,
    weight_upto,
};
use vstd::prelude::*;

verus! {

/// The nodes are residues, no two of them the same.
pub open spec fn nodes_valid(p: nat, xs: Seq<nat>) -> bool {
    &&& forall|i: int| 0 <= i < xs.len() ==> #[trigger] xs[i] < p
    &&& pairwise_distinct(xs)
}

/// The sum of the first `m` entries of a sequence of residues.
pub open spec fn sum_mod(p: nat, s: Seq<nat>, m: nat) -> nat
    decreases m,
{
    if m == 0 {
        0
    } else {
        add_mod(p, sum_mod(p, s, (m - 1) as nat), s[m - 1])
    }
}

/// The weights of all nodes.
pub open spec fn weights(p: nat, xs: Seq<nat>) -> Seq<nat> {
    Seq::new(xs.len(), |j: int| lagrange_weight(p, xs, j))
}

/// The ordinates, each times the weight of its node.
pub open spec fn weighted(p: nat, xs: Seq<nat>, ys: Seq<nat>) -> Seq<nat> {
    Seq::new(xs.len(), |j: int| mul_mod(p, ys[j], lagrange_weight(p, xs, j)))
}

proof fn lemma_sum_agrees(p: nat, s: Seq<nat>, t: Seq<nat>, m: nat)
    requires
        forall|j: int| 0 <= j < m ==> s[j] == t[j],
    ensures
        sum_mod(p, s, m) == sum_mod(p, t, m),
    decreases m,
{
    if m > 0 {
        lemma_sum_agrees(p, s, t, (m - 1) as nat);
    }
}

proof fn lemma_sum_bound(p: nat, s: Seq<nat>, m: nat)
    requires
        p > 0,
    ensures
        sum_mod(p, s, m) < p,
{
    if m > 0 {
        lemma_reduce_bound(p, (sum_mod(p, s, (m - 1) as nat) + s[m - 1]) as int);
    }
}

/// Where each entry of `s`, times `d`, is a combination of the entries of `u`
/// and `v` at its place, the sum of `s`, times `d`, is that combination of
/// the sums of `u` and `v`.
proof fn lemma_sum_combination(
    p: nat,
    s: Seq<nat>,
    u: Seq<nat>,
    v: Seq<nat>,
    d: nat,
    c1: nat,
    c2: nat,
    m: nat,
)
    requires
        p > 0,
        forall|j: int|
            0 <= j < m ==> mul_mod(p, d, #[trigger] s[j]) == add_mod(
                p,
                mul_mod(p, c1, u[j]),
                mul_mod(p, c2, v[j]),
            ),
    ensures
        mul_mod(p, d, sum_mod(p, s, m)) == add_mod(
            p,
            mul_mod(p, c1, sum_mod(p, u, m)),
            mul_mod(p, c2, sum_mod(p, v, m)),
        ),
    decreases m,
{
    if m == 0 {
        assert(d * 0 == 0 && c1 * 0 == 0 && c2 * 0 == 0) by (nonlinear_arith);
        lemma_reduce_small(p, 0);
    } else {
        let k = (m - 1) as nat;
        lemma_sum_combination(p, s, u, v, d, c1, c2, k);
        assert(mul_mod(p, d, s[k as int]) == add_mod(
            p,
            mul_mod(p, c1, u[k as int]),
            mul_mod(p, c2, v[k as int]),
        ));
        lemma_mul_mod_distributes(p, d, sum_mod(p, s, k), s[k as int]);
        lemma_mul_mod_distributes(p, c1, sum_mod(p, u, k), u[k as int]);
        lemma_mul_mod_distributes(p, c2, sum_mod(p, v, k), v[k as int]);
        lemma_add_mod_interchange(
            p,
            mul_mod(p, c1, sum_mod(p, u, k)),
            mul_mod(p, c2, sum_mod(p, v, k)),
            mul_mod(p, c1, u[k as int]),
            mul_mod(p, c2, v[k as int]),
        );
    }
}

/// The weighted sum of the ordinates is the sum of the weighted ordinates.
proof fn lemma_interpolate_is_sum(p: nat, xs: Seq<nat>, ys: Seq<nat>, m: nat)
    requires
        m <= xs.len(),
    ensures
        interpolate_upto(p, xs, ys, m) == sum_mod(p, weighted(p, xs, ys), m),
    decreases m,
{
    if m > 0 {
        lemma_interpolate_is_sum(p, xs, ys, (m - 1) as nat);
    }
}

/// The product of factors for a node depends on its own value and on the
/// nodes before the bound alone.
proof fn lemma_weight_depends(p: nat, xs: Seq<nat>, j: int, zs: Seq<nat>, i: int, m: nat)
    requires
        xs[j] == zs[i],
        forall|k: int| 0 <= k < m ==> xs[k] == zs[k],
        j == i || (j >= m && i >= m),
    ensures
        weight_upto(p, xs, j, m) == weight_upto(p, zs, i, m),
    decreases m,
{
    if m > 0 {
        lemma_weight_depends(p, xs, j, zs, i, (m - 1) as nat);
        assert(xs[m - 1] == zs[m - 1]);
    }
}

/// The product of factors is a residue.
proof fn lemma_weight_bound(p: nat, xs: Seq<nat>, j: int, m: nat)
    requires
        p > 0,
    ensures
        weight_upto(p, xs, j, m) < p,
    decreases m,
{
    if m == 0 {
        lemma_reduce_bound(p, 1);
    } else if m - 1 == j {
        lemma_weight_bound(p, xs, j, (m - 1) as nat);
    } else {
        lemma_reduce_bound(
            p,
            (weight_upto(p, xs, j, (m - 1) as nat) * weight_factor(p, xs, j, m - 1)) as int,
        );
    }
}

/// What the factor of a node `k` for a node `c` stands for, and the relation
/// that its inverse obeys.
proof fn lemma_factor_stands(p: nat, c: nat, k: nat)
    requires
        is_field_order(p),
        c < p,
        k < p,
        c != k,
    ensures
        inv_mod(p, sub_mod(p, c, k)) < p,
        stands_for(
            p,
            mul_mod(p, neg_mod(p, k), inv_mod(p, sub_mod(p, c, k))),
            (-(k as int)) * (inv_mod(p, sub_mod(p, c, k)) as int),
        ),
        reduce(p, (c - k) * (inv_mod(p, sub_mod(p, c, k)) as int) - 1) == 0,
{
    let d = sub_mod(p, c, k);
    let u = inv_mod(p, d);
    lemma_stands_for_itself(p, c);
    lemma_stands_for_itself(p, k);
    lemma_stands_for_results(p, c, c as int, k, k as int);
    lemma_sub_mod_distinct(p, c, k);
    lemma_reduce_bound(p, c - k);
    lemma_inverse_relation(p, d, c - k);
    lemma_stands_for_itself(p, u);
    lemma_stands_for_results(p, k, k as int, k, k as int);
    lemma_stands_for_results(p, neg_mod(p, k), -(k as int), u, u as int);
}

/// The weight of a node among nodes that end in `a`, `b` is a combination of
/// its weights among the same nodes without `a` and without `b`.
proof fn lemma_two_node_identity(p: nat, a: nat, b: nat, c: nat, m: nat)
    requires
        is_field_order(p),
        a < p,
        b < p,
        c < p,
        m < p,
        c != a,
        c != b,
    ensures
        ({
            let fa = mul_mod(p, neg_mod(p, a), inv_mod(p, sub_mod(p, c, a)));
            let fb = mul_mod(p, neg_mod(p, b), inv_mod(p, sub_mod(p, c, b)));
            mul_mod(p, sub_mod(p, b, a), mul_mod(p, mul_mod(p, m, fa), fb)) == add_mod(
                p,
                mul_mod(p, neg_mod(p, a), mul_mod(p, m, fb)),
                mul_mod(p, b, mul_mod(p, m, fa)),
            )
        }),
{
    let u = inv_mod(p, sub_mod(p, c, a));
    let v = inv_mod(p, sub_mod(p, c, b));
    let fa = mul_mod(p, neg_mod(p, a), u);
    let fb = mul_mod(p, neg_mod(p, b), v);
    let (ai, bi, ci, mi, ui, vi) = (a as int, b as int, c as int, m as int, u as int, v as int);
    lemma_factor_stands(p, c, a);
    lemma_factor_stands(p, c, b);
    lemma_stands_for_itself(p, a);
    lemma_stands_for_itself(p, b);
    lemma_stands_for_itself(p, m);
    let fai = (-ai) * ui;
    let fbi = (-bi) * vi;
    lemma_stands_for_results(p, m, mi, fa, fai);
    lemma_stands_for_results(p, m, mi, fb, fbi);
    let mfa = mul_mod(p, m, fa);
    let mfb = mul_mod(p, m, fb);
    lemma_stands_for_results(p, mfa, mi * fai, fb, fbi);
    lemma_stands_for_results(p, b, bi, a, ai);
    lemma_stands_for_results(p, sub_mod(p, b, a), bi - ai, mul_mod(p, mfa, fb), (mi * fai) * fbi);
    lemma_stands_for_results(p, a, ai, a, ai);
    lemma_stands_for_results(p, neg_mod(p, a), -ai, mfb, mi * fbi);
    lemma_stands_for_results(p, b, bi, mfa, mi * fai);
    lemma_stands_for_results(
        p,
        mul_mod(p, neg_mod(p, a), mfb),
        (-ai) * (mi * fbi),
        mul_mod(p, b, mfa),
        bi * (mi * fai),
    );
    let left = (bi - ai) * ((mi * fai) * fbi);
    let right = (-ai) * (mi * fbi) + bi * (mi * fai);
    let e1 = (ci - ai) * ui - 1;
    let e2 = (ci - bi) * vi - 1;
    let pr = ui * vi;
    let y = mi * ai;
    let q = y * bi;
    // the difference of the two inverses
    assert((bi - ai) * pr - (vi - ui) == vi * e1 + (-ui) * e2) by (nonlinear_arith)
        requires
            pr == ui * vi,
            e1 == (ci - ai) * ui - 1,
            e2 == (ci - bi) * vi - 1,
    ;
    lemma_reduce_congruent(p, (bi - ai) * pr, vi - ui, vi, e1, -ui, e2);
    lemma_reduce_scaled(p, q, (bi - ai) * pr, vi - ui);
    // the left side is q * ((b - a) * u * v)
    let x1 = mi * fai;
    assert(x1 == -(y * ui)) by (nonlinear_arith)
        requires
            x1 == mi * ((-ai) * ui),
            y == mi * ai,
    ;
    let x2 = x1 * fbi;
    assert(x2 == q * pr) by (nonlinear_arith)
        requires
            x2 == (-(y * ui)) * ((-bi) * vi),
            q == y * bi,
            pr == ui * vi,
    ;
    assert(left == q * ((bi - ai) * pr)) by (nonlinear_arith)
        requires
            left == (bi - ai) * x2,
            x2 == q * pr,
    ;
    // the right side is q * (v - u)
    let r1 = (-ai) * (mi * fbi);
    assert(r1 == q * vi) by (nonlinear_arith)
        requires
            r1 == (-ai) * (mi * ((-bi) * vi)),
            y == mi * ai,
            q == y * bi,
    ;
    let r2 = bi * x1;
    assert(r2 == -(q * ui)) by (nonlinear_arith)
        requires
            r2 == bi * x1,
            x1 == -(y * ui),
            q == y * bi,
    ;
    assert(right == q * (vi - ui)) by (nonlinear_arith)
        requires
            right == r1 + r2,
            r1 == q * vi,
            r2 == -(q * ui),
    ;
}

/// The weight of the node `c` among nodes that end in `c`, `b`, and among
/// the same nodes without `b`.
proof fn lemma_end_node_identity(p: nat, c: nat, b: nat, m: nat, d: nat, k: nat)
    requires
        is_field_order(p),
        b < p,
        c < p,
        m < p,
        c != b,
        (d == sub_mod(p, b, c) && k == b) || (d == sub_mod(p, c, b) && k == neg_mod(p, b)),
    ensures
        mul_mod(
            p,
            d,
            mul_mod(p, m, mul_mod(p, neg_mod(p, b), inv_mod(p, sub_mod(p, c, b)))),
        ) == mul_mod(p, k, m),
{
    let v = inv_mod(p, sub_mod(p, c, b));
    let fb = mul_mod(p, neg_mod(p, b), v);
    let (bi, ci, mi, vi) = (b as int, c as int, m as int, v as int);
    lemma_factor_stands(p, c, b);
    lemma_stands_for_itself(p, b);
    lemma_stands_for_itself(p, c);
    lemma_stands_for_itself(p, m);
    let fbi = (-bi) * vi;
    lemma_stands_for_results(p, m, mi, fb, fbi);
    let mfb = mul_mod(p, m, fb);
    lemma_stands_for_results(p, b, bi, c, ci);
    lemma_stands_for_results(p, c, ci, b, bi);
    lemma_stands_for_results(p, b, bi, b, bi);
    let w = (ci - bi) * vi;
    assert(reduce(p, w) == reduce(p, 1)) by {
        lemma_reduce_congruent(p, w, 1, 1, w - 1, 0, w - 1);
    }
    let x1 = mi * fbi;
    if d == sub_mod(p, b, c) && k == b {
        lemma_stands_for_results(p, d, bi - ci, mfb, mi * fbi);
        lemma_stands_for_results(p, b, bi, m, mi);
        let left = (bi - ci) * x1;
        let y = bi * mi;
        assert(left == y * w) by (nonlinear_arith)
            requires
                left == (bi - ci) * (mi * ((-bi) * vi)),
                w == (ci - bi) * vi,
                y == bi * mi,
        ;
        lemma_reduce_scaled(p, y, w, 1);
    } else {
        lemma_stands_for_results(p, d, ci - bi, mfb, mi * fbi);
        lemma_stands_for_results(p, neg_mod(p, b), -bi, m, mi);
        let left = (ci - bi) * x1;
        let y = (-bi) * mi;
        assert(left == y * w) by (nonlinear_arith)
            requires
                left == (ci - bi) * (mi * ((-bi) * vi)),
                w == (ci - bi) * vi,
                y == (-bi) * mi,
        ;
        lemma_reduce_scaled(p, y, w, 1);
    }
}

/// The weight of a node `c`, times `c` and an ordinate, in terms of the
/// weight among the same nodes without the last node `b`.
proof fn lemma_last_node_identity(p: nat, b: nat, c: nat, g: nat, m: nat)
    requires
        is_field_order(p),
        b < p,
        c < p,
        g < p,
        m < p,
        c != b,
    ensures
        ({
            let fb = mul_mod(p, neg_mod(p, b), inv_mod(p, sub_mod(p, c, b)));
            mul_mod(p, mul_mod(p, c, g), mul_mod(p, m, fb)) == add_mod(
                p,
                mul_mod(p, neg_mod(p, b), mul_mod(p, g, m)),
                mul_mod(p, b, mul_mod(p, g, mul_mod(p, m, fb))),
            )
        }),
{
    let v = inv_mod(p, sub_mod(p, c, b));
    let fb = mul_mod(p, neg_mod(p, b), v);
    let (bi, ci, gi, mi, vi) = (b as int, c as int, g as int, m as int, v as int);
    lemma_factor_stands(p, c, b);
    lemma_stands_for_itself(p, b);
    lemma_stands_for_itself(p, c);
    lemma_stands_for_itself(p, g);
    lemma_stands_for_itself(p, m);
    let fbi = (-bi) * vi;
    lemma_stands_for_results(p, m, mi, fb, fbi);
    let mfb = mul_mod(p, m, fb);
    let x1 = mi * fbi;
    lemma_stands_for_results(p, c, ci, g, gi);
    lemma_stands_for_results(p, mul_mod(p, c, g), ci * gi, mfb, x1);
    lemma_stands_for_results(p, g, gi, m, mi);
    lemma_stands_for_results(p, b, bi, b, bi);
    lemma_stands_for_results(p, neg_mod(p, b), -bi, mul_mod(p, g, m), gi * mi);
    lemma_stands_for_results(p, g, gi, mfb, x1);
    lemma_stands_for_results(p, b, bi, mul_mod(p, g, mfb), gi * x1);
    lemma_stands_for_results(
        p,
        mul_mod(p, neg_mod(p, b), mul_mod(p, g, m)),
        (-bi) * (gi * mi),
        mul_mod(p, b, mul_mod(p, g, mfb)),
        bi * (gi * x1),
    );
    let left = (ci * gi) * x1;
    let right = (-bi) * (gi * mi) + bi * (gi * x1);
    let t = mi * bi;
    let y = gi * t;
    let cv = ci * vi;
    let bv = bi * vi;
    let w = (ci - bi) * vi;
    assert(x1 == -(t * vi)) by (nonlinear_arith)
        requires
            x1 == mi * ((-bi) * vi),
            t == mi * bi,
    ;
    assert(left == -(y * cv)) by (nonlinear_arith)
        requires
            left == (ci * gi) * x1,
            x1 == -(t * vi),
            y == gi * t,
            cv == ci * vi,
    ;
    let r1 = (-bi) * (gi * mi);
    assert(r1 == -y) by (nonlinear_arith)
        requires
            r1 == (-bi) * (gi * mi),
            y == gi * t,
            t == mi * bi,
    ;
    let r2 = bi * (gi * x1);
    assert(r2 == -(y * bv)) by (nonlinear_arith)
        requires
            r2 == bi * (gi * x1),
            x1 == -(t * vi),
            y == gi * t,
            bv == bi * vi,
    ;
    assert(w == cv - bv) by (nonlinear_arith)
        requires
            w == (ci - bi) * vi,
            cv == ci * vi,
            bv == bi * vi,
    ;
    assert(left - right == (-y) * (w - 1) + 0 * (w - 1)) by (nonlinear_arith)
        requires
            left == -(y * cv),
            right == r1 + r2,
            r1 == -y,
            r2 == -(y * bv),
            w == cv - bv,
    ;
    lemma_reduce_congruent(p, left, right, -y, w - 1, 0, w - 1);
}

/// How the weight of each node changes when the two last nodes `a` and `b`
/// are left out in turn.
proof fn lemma_weight_term(p: nat, xs: Seq<nat>, j: int)
    requires
        is_field_order(p),
        nodes_valid(p, xs),
        xs.len() >= 2,
        0 <= j < xs.len(),
    ensures
        ({
            let n = xs.len() as int;
            let a = xs[n - 2];
            let b = xs[n - 1];
            let head = xs.drop_last();
            let other = head.drop_last().push(b);
            let without_a = if j < n - 2 {
                lagrange_weight(p, other, j)
            } else if j == n - 2 {
                0
            } else {
                lagrange_weight(p, other, n - 2)
            };
            let without_b = if j < n - 1 {
                lagrange_weight(p, head, j)
            } else {
                0
            };
            mul_mod(p, sub_mod(p, b, a), lagrange_weight(p, xs, j)) == add_mod(
                p,
                mul_mod(p, neg_mod(p, a), without_a),
                mul_mod(p, b, without_b),
            )
        }),
{
    let n = xs.len() as int;
    let a = xs[n - 2];
    let b = xs[n - 1];
    let head = xs.drop_last();
    let other = head.drop_last().push(b);
    let d = sub_mod(p, b, a);
    let c = xs[j];
    assert(a != b);
    lemma_reduce_small(p, 0);
    assert(neg_mod(p, a) * 0 == 0 && b * 0 == 0) by (nonlinear_arith);
    if j < n - 2 {
        let m = weight_upto(p, xs, j, (n - 2) as nat);
        lemma_weight_bound(p, xs, j, (n - 2) as nat);
        assert(c != a && c != b);
        lemma_weight_depends(p, head, j, xs, j, (n - 2) as nat);
        lemma_weight_depends(p, other, j, xs, j, (n - 2) as nat);
        assert(weight_upto(p, xs, j, (n - 1) as nat) == mul_mod(
            p,
            m,
            weight_factor(p, xs, j, n - 2),
        ));
        assert(weight_upto(p, head, j, (n - 1) as nat) == mul_mod(
            p,
            weight_upto(p, head, j, (n - 2) as nat),
            weight_factor(p, head, j, n - 2),
        ));
        assert(weight_upto(p, other, j, (n - 1) as nat) == mul_mod(
            p,
            weight_upto(p, other, j, (n - 2) as nat),
            weight_factor(p, other, j, n - 2),
        ));
        lemma_two_node_identity(p, a, b, c, m);
    } else if j == n - 2 {
        let m = weight_upto(p, xs, j, (n - 2) as nat);
        lemma_weight_bound(p, xs, j, (n - 2) as nat);
        lemma_weight_depends(p, head, j, xs, j, (n - 2) as nat);
        assert(weight_upto(p, xs, j, (n - 1) as nat) == m);
        assert(weight_upto(p, head, j, (n - 1) as nat) == weight_upto(
            p,
            head,
            j,
            (n - 2) as nat,
        ));
        lemma_end_node_identity(p, a, b, m, d, b);
        lemma_reduce_bound(p, (b * m) as int);
        lemma_reduce_small(p, mul_mod(p, b, m));
    } else {
        let m = weight_upto(p, xs, j, (n - 2) as nat);
        lemma_weight_bound(p, xs, j, (n - 2) as nat);
        lemma_weight_depends(p, other, n - 2, xs, j, (n - 2) as nat);
        assert(weight_upto(p, xs, j, n as nat) == weight_upto(p, xs, j, (n - 1) as nat));
        assert(weight_upto(p, xs, j, (n - 1) as nat) == mul_mod(
            p,
            m,
            weight_factor(p, xs, j, n - 2),
        ));
        assert(weight_upto(p, other, n - 2, (n - 1) as nat) == weight_upto(
            p,
            other,
            n - 2,
            (n - 2) as nat,
        ));
        lemma_end_node_identity(p, b, a, m, d, neg_mod(p, a));
        lemma_reduce_bound(p, (neg_mod(p, a) * m) as int);
        lemma_reduce_small(p, mul_mod(p, neg_mod(p, a), m));
    }
}

/// The weights of any nodes add up to one: the polynomial that is one at
/// every node is one at zero.
pub proof fn theorem_weights_sum_to_one(p: nat, xs: Seq<nat>)
    requires
        is_field_order(p),
        nodes_valid(p, xs),
        xs.len() >= 1,
    ensures
        sum_mod(p, weights(p, xs), xs.len()) == 1,
    decreases xs.len(),
{
    let n = xs.len() as int;
    let full = weights(p, xs);
    lemma_reduce_small(p, 1);
    lemma_reduce_small(p, 0);
    if n == 1 {
        assert(weight_upto(p, xs, 0, 0) == 1);
        assert(weight_upto(p, xs, 0, 1) == 1);
        assert(full[0] == 1);
        assert(sum_mod(p, full, 0) == 0);
    } else {
        let a = xs[n - 2];
        let b = xs[n - 1];
        let head = xs.drop_last();
        let other = head.drop_last().push(b);
        let d = sub_mod(p, b, a);
        let na = neg_mod(p, a);
        assert(nodes_valid(p, head));
        assert(nodes_valid(p, other)) by {
            assert forall|i: int, k: int| 0 <= i < k < other.len() implies #[trigger] other[i]
                != #[trigger] other[k] by {
                if k == n - 2 {
                    assert(xs[i] != xs[n - 1]);
                } else {
                    assert(xs[i] != xs[k]);
                }
            }
        }
        theorem_weights_sum_to_one(p, head);
        theorem_weights_sum_to_one(p, other);
        let wh = weights(p, head);
        let wo = weights(p, other);
        let u = Seq::new(
            n as nat,
            |j: int|
                if j < n - 2 {
                    wo[j]
                } else if j == n - 2 {
                    0nat
                } else {
                    wo[n - 2]
                },
        );
        let v = Seq::new(
            n as nat,
            |j: int|
                if j < n - 1 {
                    wh[j]
                } else {
                    0nat
                },
        );
        assert forall|j: int| 0 <= j < n implies mul_mod(p, d, #[trigger] full[j]) == add_mod(
            p,
            mul_mod(p, na, u[j]),
            mul_mod(p, b, v[j]),
        ) by {
            lemma_weight_term(p, xs, j);
        }
        lemma_sum_combination(p, full, u, v, d, na, b, n as nat);
        // the sum of v is the sum of the weights without b
        lemma_sum_agrees(p, v, wh, (n - 1) as nat);
        lemma_sum_bound(p, v, (n - 1) as nat);
        lemma_reduce_small(p, sum_mod(p, v, (n - 1) as nat));
        assert(sum_mod(p, v, n as nat) == 1);
        // the sum of u is the sum of the weights without a
        lemma_sum_agrees(p, u, wo, (n - 2) as nat);
        lemma_sum_bound(p, u, (n - 2) as nat);
        lemma_reduce_small(p, sum_mod(p, u, (n - 2) as nat));
        assert(sum_mod(p, u, (n - 1) as nat) == sum_mod(p, wo, (n - 2) as nat));
        assert(sum_mod(p, u, n as nat) == sum_mod(p, wo, (n - 1) as nat));
        assert(sum_mod(p, u, n as nat) == 1);
        // so d times the sum is d
        lemma_reduce_bound(p, -(a as int));
        lemma_mul_mod_commutes(p, na, 1);
        lemma_mul_mod_commutes(p, b, 1);
        lemma_reduce_small(p, na);
        lemma_reduce_small(p, b);
        assert((1 * na) as int == na as int && (1 * b) as int == b as int);
        lemma_add_neg_is_sub(p, a, b);
        lemma_sub_mod_distinct(p, b, a);
        lemma_reduce_bound(p, b - a);
        lemma_reduce_small(p, d);
        lemma_mul_mod_commutes(p, d, 1);
        assert((1 * d) as int == d as int);
        assert(has_inverse(p, d));
        lemma_sum_bound(p, full, n as nat);
        lemma_mul_mod_cancels(p, d, sum_mod(p, full, n as nat), 1);
    }
}

/// The powers `i` of the nodes.
pub open spec fn powers(p: nat, xs: Seq<nat>, i: nat) -> Seq<nat> {
    Seq::new(xs.len(), |j: int| pow_mod(p, xs[j], i))
}

/// Interpolation looks at the ordinates of its nodes alone.
proof fn lemma_interpolate_agrees(p: nat, xs: Seq<nat>, ys: Seq<nat>, zs: Seq<nat>, m: nat)
    requires
        forall|j: int| 0 <= j < m ==> ys[j] == zs[j],
    ensures
        interpolate_upto(p, xs, ys, m) == interpolate_upto(p, xs, zs, m),
    decreases m,
{
    if m > 0 {
        lemma_interpolate_agrees(p, xs, ys, zs, (m - 1) as nat);
    }
}

/// Interpolating ordinates that are each multiplied by their node, in terms
/// of interpolating the ordinates themselves with and without the last node.
proof fn lemma_degree_step(p: nat, xs: Seq<nat>, g: Seq<nat>, xg: Seq<nat>)
    requires
        is_field_order(p),
        nodes_valid(p, xs),
        xs.len() >= 2,
        g.len() == xs.len(),
        xg.len() == xs.len(),
        forall|j: int| 0 <= j < g.len() ==> #[trigger] g[j] < p,
        forall|j: int| 0 <= j < xs.len() ==> #[trigger] xg[j] == mul_mod(p, xs[j], g[j]),
    ensures
        interpolate(p, xs, xg) == add_mod(
            p,
            mul_mod(p, neg_mod(p, xs.last()), interpolate(p, xs.drop_last(), g)),
            mul_mod(p, xs.last(), interpolate(p, xs, g)),
        ),
{
    let n = xs.len() as int;
    let b = xs[n - 1];
    let head = xs.drop_last();
    let nb = neg_mod(p, b);
    let s = weighted(p, xs, xg);
    let v = weighted(p, xs, g);
    let wh = weighted(p, head, g);
    let u = Seq::new(
        n as nat,
        |j: int|
            if j < n - 1 {
                wh[j]
            } else {
                0nat
            },
    );
    lemma_reduce_small(p, 0);
    assert forall|j: int| 0 <= j < n implies mul_mod(p, 1, #[trigger] s[j]) == add_mod(
        p,
        mul_mod(p, nb, u[j]),
        mul_mod(p, b, v[j]),
    ) by {
        let c = xs[j];
        lemma_reduce_bound(p, (xg[j] * lagrange_weight(p, xs, j)) as int);
        lemma_mul_mod_commutes(p, 1, s[j]);
        lemma_reduce_small(p, s[j]);
        assert((s[j] * 1) as int == s[j] as int);
        assert(xg[j] == mul_mod(p, c, g[j]));
        if j < n - 1 {
            let m = weight_upto(p, xs, j, (n - 1) as nat);
            lemma_weight_bound(p, xs, j, (n - 1) as nat);
            lemma_weight_depends(p, head, j, xs, j, (n - 1) as nat);
            assert(c != b);
            assert(weight_upto(p, xs, j, n as nat) == mul_mod(
                p,
                m,
                weight_factor(p, xs, j, n - 1),
            ));
            lemma_last_node_identity(p, b, c, g[j], m);
        } else {
            let w = lagrange_weight(p, xs, j);
            lemma_mul_mod_associates(p, b, g[j], w);
            assert(nb * 0 == 0) by (nonlinear_arith);
            lemma_reduce_bound(p, (b * mul_mod(p, g[j], w)) as int);
            lemma_reduce_small(p, mul_mod(p, b, mul_mod(p, g[j], w)));
        }
    }
    lemma_sum_combination(p, s, u, v, 1, nb, b, n as nat);
    lemma_sum_bound(p, s, n as nat);
    lemma_mul_mod_commutes(p, 1, sum_mod(p, s, n as nat));
    lemma_reduce_small(p, sum_mod(p, s, n as nat));
    assert((sum_mod(p, s, n as nat) * 1) as int == sum_mod(p, s, n as nat) as int);
    lemma_sum_agrees(p, u, wh, (n - 1) as nat);
    lemma_sum_bound(p, u, (n - 1) as nat);
    lemma_reduce_small(p, sum_mod(p, u, (n - 1) as nat));
    lemma_interpolate_is_sum(p, xs, xg, n as nat);
    lemma_interpolate_is_sum(p, xs, g, n as nat);
    lemma_interpolate_is_sum(p, head, g, (n - 1) as nat);
}

/// Lagrange's weights recover the constant and annihilate the higher powers:
/// interpolating the power `i` of the nodes, with more than `i` nodes, gives
/// one for `i = 0` and zero else.
pub proof fn theorem_powers_interpolate(p: nat, xs: Seq<nat>, i: nat)
    requires
        is_field_order(p),
        nodes_valid(p, xs),
        xs.len() > i,
    ensures
        interpolate(p, xs, powers(p, xs, i)) == (if i == 0 {
            1nat
        } else {
            0nat
        }),
    decreases i,
{
    let n = xs.len();
    lemma_reduce_small(p, 1);
    lemma_reduce_small(p, 0);
    if i == 0 {
        let ones = powers(p, xs, 0);
        theorem_weights_sum_to_one(p, xs);
        lemma_interpolate_is_sum(p, xs, ones, n);
        assert forall|j: int| 0 <= j < n implies weighted(p, xs, ones)[j] == weights(p, xs)[j] by {
            let w = lagrange_weight(p, xs, j);
            lemma_weight_bound(p, xs, j, n);
            lemma_mul_mod_commutes(p, 1, w);
            lemma_reduce_small(p, w);
            assert((w * 1) as int == w as int);
        }
        lemma_sum_agrees(p, weighted(p, xs, ones), weights(p, xs), n);
    } else {
        let k = (i - 1) as nat;
        let g = powers(p, xs, k);
        let xg = powers(p, xs, i);
        let head = xs.drop_last();
        let b = xs.last();
        assert(nodes_valid(p, head));
        theorem_powers_interpolate(p, xs, k);
        theorem_powers_interpolate(p, head, k);
        lemma_interpolate_agrees(p, head, g, powers(p, head, k), head.len());
        assert forall|j: int| 0 <= j < n implies #[trigger] g[j] < p by {
            if k == 0 {
            } else {
                lemma_reduce_bound(p, (pow_mod(p, xs[j], (k - 1) as nat) * xs[j]) as int);
            }
        }
        assert forall|j: int| 0 <= j < n implies #[trigger] xg[j] == mul_mod(p, xs[j], g[j]) by {
            lemma_mul_mod_commutes(p, xs[j], g[j]);
        }
        lemma_degree_step(p, xs, g, xg);
        let dd = interpolate(p, xs, g);
        // (-b) * dd + b * dd = 0
        lemma_stands_for_itself(p, b);
        lemma_stands_for_itself(p, dd);
        lemma_stands_for_results(p, b, b as int, b, b as int);
        lemma_stands_for_results(p, neg_mod(p, b), -(b as int), dd, dd as int);
        lemma_stands_for_results(p, b, b as int, dd, dd as int);
        lemma_stands_for_results(
            p,
            mul_mod(p, neg_mod(p, b), dd),
            (-(b as int)) * dd,
            mul_mod(p, b, dd),
            (b as int) * (dd as int),
        );
        assert((-(b as int)) * (dd as int) + (b as int) * (dd as int) == 0) by (nonlinear_arith);
    }
}

/// The values of a polynomial at the nodes.
pub open spec fn values_at(p: nat, c: Seq<nat>, xs: Seq<nat>) -> Seq<nat> {
    Seq::new(xs.len(), |j: int| eval_poly(p, c, xs[j]))
}

/// The first `k` terms of a polynomial at the nodes.
pub open spec fn partial_values(p: nat, c: Seq<nat>, xs: Seq<nat>, k: nat) -> Seq<nat> {
    Seq::new(xs.len(), |j: int| poly_terms(p, c, xs[j], k))
}

/// Interpolating ordinates that are all multiplied by `k` multiplies the
/// result by `k`.
proof fn lemma_interpolation_scales(p: nat, xs: Seq<nat>, ys: Seq<nat>, zs: Seq<nat>, k: nat, m: nat)
    requires
        p > 0,
        forall|j: int| 0 <= j < m ==> #[trigger] zs[j] == mul_mod(p, k, ys[j]),
    ensures
        interpolate_upto(p, xs, zs, m) == mul_mod(p, k, interpolate_upto(p, xs, ys, m)),
    decreases m,
{
    if m == 0 {
        assert(k * 0 == 0) by (nonlinear_arith);
        lemma_reduce_small(p, 0);
    } else {
        let i = (m - 1) as nat;
        lemma_interpolation_scales(p, xs, ys, zs, k, i);
        let w = lagrange_weight(p, xs, i as int);
        assert(zs[i as int] == mul_mod(p, k, ys[i as int]));
        lemma_mul_mod_associates(p, k, ys[i as int], w);
        lemma_mul_mod_distributes(
            p,
            k,
            interpolate_upto(p, xs, ys, i),
            mul_mod(p, ys[i as int], w),
        );
    }
}

/// Interpolation is linear in the ordinates.
pub proof fn theorem_interpolation_is_linear(
    p: nat,
    xs: Seq<nat>,
    ya: Seq<nat>,
    yb: Seq<nat>,
    yc: Seq<nat>,
    n: nat,
)
    requires
        p > 0,
        n <= ya.len(),
        n <= yb.len(),
        n <= yc.len(),
        forall|i: int| 0 <= i < n ==> #[trigger] yc[i] == add_mod(p, ya[i], yb[i]),
    ensures
        interpolate_upto(p, xs, yc, n) == add_mod(
            p,
            interpolate_upto(p, xs, ya, n),
            interpolate_upto(p, xs, yb, n),
        ),
    decreases n,
{
    if n == 0 {
        lemma_reduce_small(p, 0);
    } else {
        let m = (n - 1) as nat;
        theorem_interpolation_is_linear(p, xs, ya, yb, yc, m);
        let w = lagrange_weight(p, xs, m as int);
        assert(yc[m as int] == add_mod(p, ya[m as int], yb[m as int]));
        lemma_mul_mod_distributes(p, w, ya[m as int], yb[m as int]);
        lemma_add_mod_interchange(
            p,
            interpolate_upto(p, xs, ya, m),
            interpolate_upto(p, xs, yb, m),
            mul_mod(p, ya[m as int], w),
            mul_mod(p, yb[m as int], w),
        );
    }
}

/// Interpolating the first `k` terms of a polynomial at the nodes gives its
/// constant term, where there are at least as many nodes as coefficients.
proof fn lemma_partial_values_interpolate(p: nat, c: Seq<nat>, xs: Seq<nat>, k: nat)
    requires
        is_field_order(p),
        nodes_valid(p, xs),
        1 <= k <= c.len(),
        c.len() <= xs.len(),
    ensures
        interpolate(p, xs, partial_values(p, c, xs, k)) == reduce(p, c[0] as int),
    decreases k,
{
    let n = xs.len();
    let c0 = reduce(p, c[0] as int);
    lemma_reduce_small(p, 1);
    lemma_reduce_small(p, 0);
    lemma_reduce_bound(p, c[0] as int);
    lemma_reduce_small(p, c0);
    if k == 1 {
        let ones = powers(p, xs, 0);
        let zs = partial_values(p, c, xs, 1);
        assert forall|j: int| 0 <= j < n implies #[trigger] zs[j] == mul_mod(p, c0, ones[j]) by {
            assert(poly_terms(p, c, xs[j], 0) == 0);
            assert(zs[j] == add_mod(p, 0, mul_mod(p, c[0], 1)));
            assert((c[0] * 1) as int == c[0] as int);
            assert((c0 * 1) as int == c0 as int);
        }
        lemma_interpolation_scales(p, xs, ones, zs, c0, n);
        theorem_powers_interpolate(p, xs, 0);
        assert((c0 * 1) as int == c0 as int);
    } else {
        let i = (k - 1) as nat;
        lemma_partial_values_interpolate(p, c, xs, i);
        let ya = partial_values(p, c, xs, i);
        let mono = powers(p, xs, i);
        let yb = Seq::new(n, |j: int| mul_mod(p, c[i as int], mono[j]));
        let yc = partial_values(p, c, xs, k);
        theorem_interpolation_is_linear(p, xs, ya, yb, yc, n);
        lemma_interpolation_scales(p, xs, mono, yb, c[i as int], n);
        theorem_powers_interpolate(p, xs, i);
        assert(c[i as int] * 0 == 0) by (nonlinear_arith);
    }
}

/// Interpolation recovers the constant term: the weighted sum of the values
/// of a polynomial at the nodes is its value at zero, where there are at
/// least as many nodes as coefficients.
pub proof fn theorem_interpolation_recovers_constant(p: nat, c: Seq<nat>, xs: Seq<nat>)
    requires
        is_field_order(p),
        nodes_valid(p, xs),
        1 <= c.len() <= xs.len(),
    ensures
        interpolate(p, xs, values_at(p, c, xs)) == reduce(p, c[0] as int),
{
    lemma_partial_values_interpolate(p, c, xs, c.len());
    assert(values_at(p, c, xs) =~= partial_values(p, c, xs, c.len()));
}

} // verus!
