//! What holds of the schemes as a whole: statements that relate dealing,
//! checking and recovering to each other.

use crate::backend::{lemma_decoding_is_canonical, lemma_encoding_is_canonical, lemma_order};
use crate::backend::{Element, FieldElement};
use crate::error::Error;
use crate::feldman::{feldman_accepts, feldman_commitments, FeldmanVerifierView};
use crate::modular::{
    add_mod, has_inverse, lemma_add_mod_cancels, lemma_add_mod_commutes, lemma_add_mod_interchange,
    lemma_mul_mod_associates, lemma_mul_mod_cancels, lemma_mul_mod_distributes, lemma_reduce_bound,
    lemma_reduce_small, mul_mod, pow_mod,
};
use crate::pedersen::{dealt_bundle, pedersen_accepts, pedersen_commitments, PedersenVerifierView};
use crate::polynomial::{eval_poly, poly_terms};
use crate::interpolation::{
    nodes_valid, theorem_interpolation_is_linear, theorem_interpolation_recovers_constant,
    values_at,
};
use crate::shamir::{
    combined, dealt_share, first_fault, lemma_fault_persists, nodes, ordinates, seen_before,
    share_fault,
};
use crate::share::ShareView;
use vstd::prelude::*;

verus! {

/// Committing commutes with evaluating: the commitments to a polynomial,
/// summed with the powers of `x`, are the generator times the polynomial's
/// value at `x`.
pub proof fn lemma_commitments_evaluate(p: nat, g: nat, a: Seq<nat>, x: nat, k: nat)
    requires
        p > 1,
        k <= a.len(),
    ensures
        poly_terms(p, feldman_commitments(p, g, a), x, k) == mul_mod(
            p,
            g,
            poly_terms(p, a, x, k),
        ),
    decreases k,
{
    if k == 0 {
        lemma_reduce_small(p, 0);
        assert(g * 0 == 0) by (nonlinear_arith);
    } else {
        let j = (k - 1) as nat;
        lemma_commitments_evaluate(p, g, a, x, j);
        let w = pow_mod(p, x, j);
        lemma_mul_mod_associates(p, g, a[j as int], w);
        lemma_mul_mod_distributes(p, g, poly_terms(p, a, x, j), mul_mod(p, a[j as int], w));
    }
}

/// The blinded commitments, summed with the powers of `x`, are the two
/// generators times the values of the two polynomials at `x`, added up.
pub proof fn lemma_blinded_commitments_evaluate(
    p: nat,
    g: nat,
    h: nat,
    a: Seq<nat>,
    b: Seq<nat>,
    x: nat,
    k: nat,
)
    requires
        p > 1,
        k <= a.len(),
        a.len() == b.len(),
    ensures
        poly_terms(p, pedersen_commitments(p, g, h, a, b), x, k) == add_mod(
            p,
            mul_mod(p, g, poly_terms(p, a, x, k)),
            mul_mod(p, h, poly_terms(p, b, x, k)),
        ),
    decreases k,
{
    if k == 0 {
        lemma_reduce_small(p, 0);
        assert(g * 0 == 0) by (nonlinear_arith);
        assert(h * 0 == 0) by (nonlinear_arith);
    } else {
        let j = (k - 1) as nat;
        lemma_blinded_commitments_evaluate(p, g, h, a, b, x, j);
        let w = pow_mod(p, x, j);
        let ga = mul_mod(p, g, a[j as int]);
        let hb = mul_mod(p, h, b[j as int]);
        let pa = poly_terms(p, a, x, j);
        let pb = poly_terms(p, b, x, j);
        lemma_mul_mod_distributes(p, w, ga, hb);
        lemma_mul_mod_associates(p, g, a[j as int], w);
        lemma_mul_mod_associates(p, h, b[j as int], w);
        lemma_add_mod_interchange(
            p,
            mul_mod(p, g, pa),
            mul_mod(p, h, pb),
            mul_mod(p, g, mul_mod(p, a[j as int], w)),
            mul_mod(p, h, mul_mod(p, b[j as int], w)),
        );
        lemma_mul_mod_distributes(p, g, pa, mul_mod(p, a[j as int], w));
        lemma_mul_mod_distributes(p, h, pb, mul_mod(p, b[j as int], w));
    }
}

/// Every share that a dealer hands out passes the checks: the `k`-th share of
/// the secret passes Feldman's check against the dealer's commitments, and
/// together with the `k`-th share of the blinding factor it passes Pedersen's.
pub proof fn theorem_dealt_shares_verify<F: FieldElement>(
    g: nat,
    h: nat,
    a: Seq<nat>,
    b: Seq<nat>,
    n: nat,
    k: int,
)
    requires
        a.len() == b.len(),
        n <= 255,
        0 <= k < n,
    ensures
        feldman_accepts::<F>(
            dealt_bundle::<F>(g, h, a, b, n).verifier.feldman_verifier,
            dealt_bundle::<F>(g, h, a, b, n).secret_shares[k],
        ),
        pedersen_accepts::<F>(
            dealt_bundle::<F>(g, h, a, b, n).verifier,
            dealt_bundle::<F>(g, h, a, b, n).secret_shares[k],
            dealt_bundle::<F>(g, h, a, b, n).blind_shares[k],
        ),
{
    let p = F::order();
    let x = (k + 1) as nat;
    lemma_order::<F>();
    lemma_value_of_polynomial_is_residue(p, a, x);
    lemma_value_of_polynomial_is_residue(p, b, x);
    lemma_encoding_is_canonical::<F>(eval_poly(p, a, x));
    lemma_encoding_is_canonical::<F>(eval_poly(p, b, x));
    lemma_commitments_evaluate(p, g, a, x, a.len());
    lemma_blinded_commitments_evaluate(p, g, h, a, b, x, a.len());
}

/// The value of a polynomial is a residue.
pub proof fn lemma_value_of_polynomial_is_residue(p: nat, c: Seq<nat>, x: nat)
    requires
        p > 0,
    ensures
        eval_poly(p, c, x) < p,
{
    if c.len() > 0 {
        let j = (c.len() - 1) as nat;
        lemma_reduce_bound(
            p,
            (poly_terms(p, c, x, j) + mul_mod(p, c[j as int], pow_mod(p, x, j))) as int,
        );
    }
}

/// Feldman's commitments bind: under a generator other than the identity, a
/// share that passes the check passes it with that value alone. Whatever is
/// changed in the value, the check fails.
pub proof fn theorem_feldman_rejects_tampering<F: FieldElement>(
    v: FeldmanVerifierView,
    share: ShareView,
    tampered: ShareView,
)
    requires
        0 < v.generator < F::order(),
        feldman_accepts::<F>(v, share),
        tampered.identifier == share.identifier,
        tampered.value != share.value,
    ensures
        !feldman_accepts::<F>(v, tampered),
{
    let p = F::order();
    lemma_order::<F>();
    if F::decoding(tampered.value) is Some {
        let y = F::decoding(share.value).unwrap();
        let z = F::decoding(tampered.value).unwrap();
        lemma_decoding_is_canonical::<F>(share.value);
        lemma_decoding_is_canonical::<F>(tampered.value);
        assert(has_inverse(p, v.generator));
        if mul_mod(p, v.generator, z) == mul_mod(p, v.generator, y) {
            lemma_mul_mod_cancels(p, v.generator, z, y);
        }
    }
}

/// Pedersen's commitments bind the share of the secret: under a share
/// generator other than the identity, a pair that passes the check fails it
/// once the value of the secret's share is changed.
pub proof fn theorem_pedersen_rejects_tampered_secret<F: FieldElement>(
    v: PedersenVerifierView,
    secret_share: ShareView,
    blinding_share: ShareView,
    tampered: ShareView,
)
    requires
        0 < v.feldman_verifier.generator < F::order(),
        pedersen_accepts::<F>(v, secret_share, blinding_share),
        tampered.identifier == secret_share.identifier,
        tampered.value != secret_share.value,
    ensures
        !pedersen_accepts::<F>(v, tampered, blinding_share),
{
    let p = F::order();
    let g = v.feldman_verifier.generator;
    lemma_order::<F>();
    if F::decoding(tampered.value) is Some {
        let y = F::decoding(secret_share.value).unwrap();
        let z = F::decoding(tampered.value).unwrap();
        let hb = mul_mod(p, v.generator, F::decoding(blinding_share.value).unwrap());
        lemma_decoding_is_canonical::<F>(secret_share.value);
        lemma_decoding_is_canonical::<F>(tampered.value);
        assert(has_inverse(p, g));
        if add_mod(p, mul_mod(p, g, z), hb) == add_mod(p, mul_mod(p, g, y), hb) {
            lemma_reduce_bound(p, (g * z) as int);
            lemma_reduce_bound(p, (g * y) as int);
            lemma_add_mod_cancels(p, mul_mod(p, g, z), mul_mod(p, g, y), hb);
            lemma_mul_mod_cancels(p, g, z, y);
        }
    }
}

/// Pedersen's commitments bind the share of the blinding factor: under a
/// blinding generator other than the identity, a pair that passes the check
/// fails it once the value of the blinding share is changed.
pub proof fn theorem_pedersen_rejects_tampered_blinding<F: FieldElement>(
    v: PedersenVerifierView,
    secret_share: ShareView,
    blinding_share: ShareView,
    tampered: ShareView,
)
    requires
        0 < v.generator < F::order(),
        pedersen_accepts::<F>(v, secret_share, blinding_share),
        tampered.identifier == blinding_share.identifier,
        tampered.value != blinding_share.value,
    ensures
        !pedersen_accepts::<F>(v, secret_share, tampered),
{
    let p = F::order();
    let h = v.generator;
    lemma_order::<F>();
    if F::decoding(tampered.value) is Some {
        let y = F::decoding(blinding_share.value).unwrap();
        let z = F::decoding(tampered.value).unwrap();
        let gs = mul_mod(
            p,
            v.feldman_verifier.generator,
            F::decoding(secret_share.value).unwrap(),
        );
        lemma_decoding_is_canonical::<F>(blinding_share.value);
        lemma_decoding_is_canonical::<F>(tampered.value);
        assert(has_inverse(p, h));
        if add_mod(p, gs, mul_mod(p, h, z)) == add_mod(p, gs, mul_mod(p, h, y)) {
            lemma_reduce_bound(p, (h * z) as int);
            lemma_reduce_bound(p, (h * y) as int);
            lemma_add_mod_commutes(p, gs, mul_mod(p, h, z));
            lemma_add_mod_commutes(p, gs, mul_mod(p, h, y));
            lemma_add_mod_cancels(p, mul_mod(p, h, z), mul_mod(p, h, y), gs);
            lemma_mul_mod_cancels(p, h, z, y);
        }
    }
}

/// Among shares that are sound each by itself, the only fault is a repeated
/// identifier.
proof fn lemma_sound_shares_fault<E: Element>(shares: Seq<ShareView>, t: nat, k: nat)
    requires
        k <= t <= shares.len(),
        forall|m: int|
            0 <= m < t ==> (#[trigger] shares[m]).identifier != 0 && E::decoding(
                shares[m].value,
            ) is Some,
    ensures
        first_fault::<E>(shares, k) is None || first_fault::<E>(shares, k) == Some(
            Error::DuplicateShare,
        ),
    decreases k,
{
    if k > 0 {
        lemma_sound_shares_fault::<E>(shares, t, (k - 1) as nat);
        assert(shares[k - 1].identifier != 0);
    }
}

/// Reconstruction from shares of which two among the first `t` carry one
/// identifier, and which are sound otherwise, reports the duplicate.
pub proof fn theorem_duplicate_is_reported<E: Element>(
    shares: Seq<ShareView>,
    t: nat,
    i: int,
    j: int,
)
    requires
        t <= shares.len(),
        0 <= i < j < t,
        shares[i].identifier == shares[j].identifier,
        forall|m: int|
            0 <= m < t ==> (#[trigger] shares[m]).identifier != 0 && E::decoding(
                shares[m].value,
            ) is Some,
    ensures
        combined::<E>(shares, t) == Err::<nat, Error>(Error::DuplicateShare),
{
    lemma_sound_shares_fault::<E>(shares, t, j as nat);
    lemma_sound_shares_fault::<E>(shares, t, (j + 1) as nat);
    assert(shares[j].identifier != 0);
    assert(seen_before(shares, j, shares[j].identifier as int)) by {
        assert(shares[i].identifier == shares[j].identifier);
    }
    assert(first_fault::<E>(shares, (j + 1) as nat) is Some);
    lemma_fault_persists::<E>(shares, (j + 1) as nat, t);
}

/// Shares without a fault among the first `k` have none at any place before `k`.
proof fn lemma_no_fault_anywhere<E: Element>(shares: Seq<ShareView>, k: nat, i: int)
    requires
        first_fault::<E>(shares, k) is None,
        0 <= i < k,
    ensures
        share_fault::<E>(shares, i) is None,
    decreases k,
{
    if i < k - 1 {
        lemma_no_fault_anywhere::<E>(shares, (k - 1) as nat, i);
    }
}

proof fn lemma_sum_has_no_fault<E: Element>(
    a: Seq<ShareView>,
    c: Seq<ShareView>,
    t: nat,
    k: nat,
)
    requires
        k <= t,
        first_fault::<E>(a, t) is None,
        forall|i: int| 0 <= i < t ==> (#[trigger] a[i]).identifier == c[i].identifier,
        forall|i: int| 0 <= i < t ==> E::decoding((#[trigger] c[i]).value) is Some,
    ensures
        first_fault::<E>(c, k) is None,
    decreases k,
{
    if k > 0 {
        let m = k - 1;
        lemma_sum_has_no_fault::<E>(a, c, t, m as nat);
        lemma_no_fault_anywhere::<E>(a, t, m);
        assert(a[m].identifier == c[m].identifier);
        assert(E::decoding(c[m].value) is Some);
        if seen_before(c, m, c[m].identifier as int) {
            let j = choose|j: int| 0 <= j < m && (#[trigger] c[j]).identifier == c[m].identifier;
            assert(a[j].identifier == c[j].identifier);
            assert(seen_before(a, m, a[m].identifier as int));
        }
    }
}

/// Shamir's sharing is linear: where two sets of shares can be combined and a
/// third set carries, under the same identifiers, the sums of their values,
/// the third combines to the sum of what the two combine to. This holds for
/// values in the field and for values in the group alike.
pub proof fn theorem_combining_is_linear<E: Element>(
    a: Seq<ShareView>,
    b: Seq<ShareView>,
    c: Seq<ShareView>,
    t: nat,
)
    requires
        t <= c.len(),
        combined::<E>(a, t) is Ok,
        combined::<E>(b, t) is Ok,
        forall|i: int|
            0 <= i < t ==> (#[trigger] a[i]).identifier == c[i].identifier && b[i].identifier
                == c[i].identifier,
        forall|i: int|
            0 <= i < t ==> E::decoding((#[trigger] c[i]).value) == Some(
                add_mod(
                    E::order(),
                    E::decoding(a[i].value).unwrap(),
                    E::decoding(b[i].value).unwrap(),
                ),
            ),
    ensures
        combined::<E>(c, t) == Ok::<nat, Error>(
            add_mod(E::order(), combined::<E>(a, t).unwrap(), combined::<E>(b, t).unwrap()),
        ),
{
    let p = E::order();
    lemma_order::<E>();
    lemma_sum_has_no_fault::<E>(a, c, t, t);
    assert(nodes(a, t) =~= nodes(c, t)) by {
        assert forall|i: int| 0 <= i < t implies nodes(a, t)[i] == nodes(c, t)[i] by {
            assert(a[i].identifier == c[i].identifier);
        }
    }
    assert(nodes(b, t) =~= nodes(c, t)) by {
        assert forall|i: int| 0 <= i < t implies nodes(b, t)[i] == nodes(c, t)[i] by {
            assert(a[i].identifier == c[i].identifier);
        }
    }
    let ya = ordinates::<E>(a, t);
    let yb = ordinates::<E>(b, t);
    let yc = ordinates::<E>(c, t);
    assert forall|i: int| 0 <= i < t implies #[trigger] yc[i] == add_mod(p, ya[i], yb[i]) by {
        assert(E::decoding(c[i].value) is Some);
    }
    theorem_interpolation_is_linear(p, nodes(c, t), ya, yb, yc, t);
}

/// Shares of which none is faulty by itself have no first fault.
proof fn lemma_no_faults<E: Element>(shares: Seq<ShareView>, k: nat)
    requires
        forall|i: int| 0 <= i < k ==> share_fault::<E>(shares, i) is None,
    ensures
        first_fault::<E>(shares, k) is None,
    decreases k,
{
    if k > 0 {
        lemma_no_faults::<E>(shares, (k - 1) as nat);
    }
}

/// Reconstruction undoes dealing: any `t` shares that a dealer has dealt from
/// a polynomial with `t` coefficients, under different identifiers and in any
/// order, combine to the polynomial's constant term, the secret.
pub proof fn theorem_dealt_shares_combine<F: FieldElement>(
    c: Seq<nat>,
    shares: Seq<ShareView>,
    t: nat,
)
    requires
        t >= 1,
        c.len() == t,
        c[0] < F::order(),
        shares.len() >= t,
        forall|i: int|
            0 <= i < t ==> (#[trigger] shares[i]).identifier != 0 && shares[i] == dealt_share::<F>(
                c,
                shares[i].identifier as nat,
            ),
        forall|i: int, j: int|
            0 <= i < j < t ==> (#[trigger] shares[i]).identifier != (#[trigger] shares[j]).identifier,
    ensures
        combined::<F>(shares, t) == Ok::<nat, Error>(c[0]),
{
    let p = F::order();
    lemma_order::<F>();
    let xs = nodes(shares, t);
    let ys = ordinates::<F>(shares, t);
    assert forall|i: int| 0 <= i < t implies (#[trigger] share_fault::<F>(shares, i)) is None
        && ys[i] == eval_poly(p, c, xs[i]) by {
        let x = shares[i].identifier as nat;
        assert(shares[i] == dealt_share::<F>(c, x));
        lemma_value_of_polynomial_is_residue(p, c, x);
        lemma_encoding_is_canonical::<F>(eval_poly(p, c, x));
        if seen_before(shares, i, shares[i].identifier as int) {
            let j = choose|j: int| 0 <= j < i && (#[trigger] shares[j]).identifier == shares[i].identifier;
            assert(shares[j].identifier != shares[i].identifier);
        }
    }
    lemma_no_faults::<F>(shares, t);
    assert(nodes_valid(p, xs)) by {
        assert forall|i: int, j: int| 0 <= i < j < xs.len() implies #[trigger] xs[i]
            != #[trigger] xs[j] by {
            assert(shares[i].identifier != shares[j].identifier);
        }
    }
    assert forall|i: int| 0 <= i < t implies ys[i] == values_at(p, c, xs)[i] by {
        assert(share_fault::<F>(shares, i) is None);
    }
    assert(ys =~= values_at(p, c, xs));
    theorem_interpolation_recovers_constant(p, c, xs);
    lemma_reduce_small(p, c[0]);
}

/// What a dealer hands out is laid out as holders expect: as many shares of
/// each kind as there are holders, the `k`-th of each kind under the
/// identifier `k + 1`; the first commitment to the secret alone, the first
/// blinded commitment to the secret and the blinding factor together.
pub proof fn theorem_dealt_bundle_layout<F: FieldElement>(
    g: nat,
    h: nat,
    a: Seq<nat>,
    b: Seq<nat>,
    n: nat,
    k: int,
)
    requires
        a.len() >= 1,
        a.len() == b.len(),
        n <= 255,
        0 <= k < n,
    ensures
        dealt_bundle::<F>(g, h, a, b, n).blinding == b[0],
        dealt_bundle::<F>(g, h, a, b, n).secret_shares.len() == n,
        dealt_bundle::<F>(g, h, a, b, n).blind_shares.len() == n,
        dealt_bundle::<F>(g, h, a, b, n).secret_shares[k].identifier == k + 1,
        dealt_bundle::<F>(g, h, a, b, n).blind_shares[k].identifier == k + 1,
        dealt_bundle::<F>(g, h, a, b, n).verifier.feldman_verifier.commitments[0] == mul_mod(
            F::order(),
            g,
            a[0],
        ),
        dealt_bundle::<F>(g, h, a, b, n).verifier.commitments[0] == add_mod(
            F::order(),
            mul_mod(F::order(), g, a[0]),
            mul_mod(F::order(), h, b[0]),
        ),
{
}

} // verus!
