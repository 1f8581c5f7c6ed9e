//! Shamir's scheme: dealing shares of a polynomial and recovering its constant
//! term from any `T` of them.

use crate::backend::{lemma_encoding_is_canonical, lemma_order, lemma_value_in_range};
use crate::backend::{values_of, Element, FieldElement, GroupElement};
use crate::error::Error;
use crate::modular::{
    add_mod, inv_mod, lemma_inverse_is_inv_mod, lemma_reduce_small, lemma_sub_mod_distinct,
    mul_mod, neg_mod, reduce, sub_mod,
};
use crate::polynomial::{eval_poly, Polynomial};
use crate::share::{share_views, Share, ShareView};
use crate::stream::seeded_stream;
use rand_chacha::ChaCha20Rng;
use vstd::prelude::*;

verus! {

/// The threshold, the number of shares and the element width fit the scheme.
pub open spec fn params_valid(t: nat, n: nat, s: nat) -> bool {
    2 <= t && t <= n && n <= 255 && s >= 1
}

/// The share that the holder with the given identifier receives from the
/// polynomial with coefficients `c`.
pub open spec fn dealt_share<F: FieldElement>(c: Seq<nat>, identifier: nat) -> ShareView {
    ShareView {
        identifier: identifier as u8,
        value: F::encoding(eval_poly(F::order(), c, identifier)),
    }
}

/// The `n` shares of the polynomial with coefficients `c`: the `k`-th has the
/// identifier `k + 1`.
pub open spec fn dealt_shares<F: FieldElement>(c: Seq<nat>, n: nat) -> Seq<ShareView> {
    Seq::new(n, |k: int| dealt_share::<F>(c, (k + 1) as nat))
}

/// The factor that node `k` contributes to the weight of node `j`.
pub open spec fn weight_factor(p: nat, xs: Seq<nat>, j: int, k: int) -> nat {
    mul_mod(p, neg_mod(p, xs[k]), inv_mod(p, sub_mod(p, xs[j], xs[k])))
}

/// The product of the factors that the nodes before `n`, but for `j` itself,
/// contribute to the weight of node `j`.
pub open spec fn weight_upto(p: nat, xs: Seq<nat>, j: int, n: nat) -> nat
    decreases n,
{
    if n == 0 {
        reduce(p, 1)
    } else if n - 1 == j {
        weight_upto(p, xs, j, (n - 1) as nat)
    } else {
        mul_mod(p, weight_upto(p, xs, j, (n - 1) as nat), weight_factor(p, xs, j, n - 1))
    }
}

/// The value at zero of the Lagrange basis polynomial of node `j`.
pub open spec fn lagrange_weight(p: nat, xs: Seq<nat>, j: int) -> nat {
    weight_upto(p, xs, j, xs.len())
}

/// The sum of the first `n` ordinates, each times the weight of its node.
pub open spec fn interpolate_upto(p: nat, xs: Seq<nat>, ys: Seq<nat>, n: nat) -> nat
    decreases n,
{
    if n == 0 {
        0
    } else {
        add_mod(
            p,
            interpolate_upto(p, xs, ys, (n - 1) as nat),
            mul_mod(p, ys[n - 1], lagrange_weight(p, xs, n - 1)),
        )
    }
}

/// The value at zero of the polynomial of lowest degree through the points
/// `(xs[j], ys[j])`.
pub open spec fn interpolate(p: nat, xs: Seq<nat>, ys: Seq<nat>) -> nat {
    interpolate_upto(p, xs, ys, xs.len())
}

/// No two nodes are the same.
pub open spec fn pairwise_distinct(xs: Seq<nat>) -> bool {
    forall|a: int, b: int| 0 <= a < b < xs.len() ==> #[trigger] xs[a] != #[trigger] xs[b]
}

/// An earlier share than the `i`-th has the identifier `v`.
pub open spec fn seen_before(shares: Seq<ShareView>, i: int, v: int) -> bool {
    exists|j: int| 0 <= j < i && (#[trigger] shares[j]).identifier == v
}

/// What is wrong with the `i`-th share of a reconstruction set, if anything:
/// the reserved identifier, an identifier that an earlier share has, or a
/// value that is no canonical element, looked for in that order.
pub open spec fn share_fault<E: Element>(shares: Seq<ShareView>, i: int) -> Option<Error> {
    if shares[i].identifier == 0 {
        Some(Error::InvalidShare)
    } else if seen_before(shares, i, shares[i].identifier as int) {
        Some(Error::DuplicateShare)
    } else if E::decoding(shares[i].value) is None {
        Some(Error::InvalidShare)
    } else {
        None
    }
}

/// The fault of the first faulty share among the first `k`.
pub open spec fn first_fault<E: Element>(shares: Seq<ShareView>, k: nat) -> Option<Error>
    decreases k,
{
    if k == 0 {
        None
    } else {
        match first_fault::<E>(shares, (k - 1) as nat) {
            Some(e) => Some(e),
            None => share_fault::<E>(shares, k - 1),
        }
    }
}

/// The identifiers of the first `t` shares, as residues.
pub open spec fn nodes(shares: Seq<ShareView>, t: nat) -> Seq<nat> {
    Seq::new(t, |i: int| shares[i].identifier as nat)
}

/// The values that the first `t` shares encode.
pub open spec fn ordinates<E: Element>(shares: Seq<ShareView>, t: nat) -> Seq<nat> {
    Seq::new(t, |i: int| E::decoding(shares[i].value).unwrap())
}

/// What reconstruction from a set of shares gives with threshold `t`: an error
/// for too few shares or for the first faulty share among the first `t`, else
/// the value at zero of the polynomial through those `t` shares.
pub open spec fn combined<E: Element>(shares: Seq<ShareView>, t: nat) -> Result<nat, Error> {
    if shares.len() < t {
        Err(Error::SharingMinThreshold)
    } else {
        match first_fault::<E>(shares, t) {
            Some(e) => Err(e),
            None => Ok(interpolate(E::order(), nodes(shares, t), ordinates::<E>(shares, t))),
        }
    }
}

/// Once a fault is found, looking at more shares does not change it.
pub proof fn lemma_fault_persists<E: Element>(shares: Seq<ShareView>, i: nat, k: nat)
    requires
        i <= k,
        first_fault::<E>(shares, i) is Some,
    ensures
        first_fault::<E>(shares, k) == first_fault::<E>(shares, i),
    decreases k,
{
    if i < k {
        lemma_fault_persists::<E>(shares, i, (k - 1) as nat);
    }
}

/// The scalars that stand for a list of identifiers.
fn lift_nodes<F: FieldElement>(ids: &Vec<u8>) -> (xs: Vec<F>)
    ensures
        xs@.len() == ids@.len(),
        forall|i: int| 0 <= i < ids@.len() ==> (#[trigger] xs@[i]).value() == ids@[i] as nat,
{
    let mut xs: Vec<F> = Vec::new();
    let mut i: usize = 0;
    proof {
        lemma_order::<F>();
    }
    while i < ids.len()
        invariant
            i <= ids@.len(),
            F::order() > 255,
            xs@.len() == i,
            forall|k: int| 0 <= k < i ==> (#[trigger] xs@[k]).value() == ids@[k] as nat,
        decreases ids@.len() - i,
    {
        let x = F::from_u64(ids[i] as u64);
        proof {
            lemma_reduce_small(F::order(), ids@[i as int] as nat);
        }
        xs.push(x);
        i += 1;
    }
    xs
}

/// The weight of node `j` among pairwise different nodes.
fn weight_at_zero<F: FieldElement>(xs: &Vec<F>, j: usize) -> (w: F)
    requires
        j < xs@.len(),
        pairwise_distinct(values_of(xs@)),
    ensures
        w.value() == lagrange_weight(F::order(), values_of(xs@), j as int),
{
    let mut w = F::one();
    let mut k: usize = 0;
    proof {
        lemma_order::<F>();
        lemma_reduce_small(F::order(), 1);
    }
    while k < xs.len()
        invariant
            k <= xs@.len(),
            j < xs@.len(),
            F::order() > 255,
            pairwise_distinct(values_of(xs@)),
            w.value() == weight_upto(F::order(), values_of(xs@), j as int, k as nat),
        decreases xs@.len() - k,
    {
        if k != j {
            let d = xs[j].minus(xs[k]);
            proof {
                lemma_value_in_range(xs@[j as int]);
                lemma_value_in_range(xs@[k as int]);
                let vs = values_of(xs@);
                if j < k {
                    assert(vs[j as int] != vs[k as int]);
                } else {
                    assert(vs[k as int] != vs[j as int]);
                }
                lemma_sub_mod_distinct(
                    F::order(),
                    xs@[j as int].value(),
                    xs@[k as int].value(),
                );
            }
            match d.inverted() {
                Some(inverse) => {
                    proof {
                        lemma_inverse_is_inv_mod(F::order(), d.value(), inverse.value());
                    }
                    let factor = xs[k].negated().times(inverse);
                    w = w.times(factor);
                },
                None => {
                    proof {
                        assert(false);
                    }
                },
            }
        }
        k += 1;
    }
    w
}

/// Shamir's scheme with threshold `T` and `N` shares.
#[derive(Clone, Copy, Debug)]
pub struct Shamir<const T: usize, const N: usize>;

impl<const T: usize, const N: usize> Shamir<T, N> {
    /// Accepts a threshold of at least two, a share count from the threshold up
    /// to 255, and an element width of at least one byte.
    pub fn check_params(s: usize) -> (r: Result<(), Error>)
        ensures
            r is Ok <==> params_valid(T as nat, N as nat, s as nat),
            r matches Err(e) ==> e == Error::InvalidParameters,
    {
        if T < 2 || N < T || N > 255 || s == 0 {
            Err(Error::InvalidParameters)
        } else {
            Ok(())
        }
    }

    /// The `N` shares of a polynomial: its values at 1, 2, ..., `N`, each in
    /// canonical bytes. The share width `S` must be that of the field.
    pub fn shares_of<F: FieldElement, const S: usize>(polynomial: &Polynomial<F, T>) -> (r: Result<
        Vec<Share<S>>,
        Error,
    >)
        ensures
            r is Ok <==> params_valid(T as nat, N as nat, S as nat) && S == F::width(),
            r matches Err(e) ==> e == Error::InvalidParameters,
            r matches Ok(shares) ==> share_views(shares@) == dealt_shares::<F>(
                polynomial@,
                N as nat,
            ),
    {
        if Self::check_params(S).is_err() || F::encoded_len() != S {
            return Err(Error::InvalidParameters);
        }
        let mut shares: Vec<Share<S>> = Vec::new();
        let mut k: usize = 0;
        proof {
            lemma_order::<F>();
        }
        while k < N
            invariant
                k <= N <= 255,
                S == F::width(),
                F::order() > 255,
                shares@.len() == k,
                forall|i: int|
                    0 <= i < k ==> (#[trigger] shares@[i])@ == dealt_share::<F>(
                        polynomial@,
                        (i + 1) as nat,
                    ),
            decreases N - k,
        {
            let x = F::from_u64((k + 1) as u64);
            let y = polynomial.evaluate(x);
            let bytes = y.to_bytes();
            proof {
                lemma_reduce_small(F::order(), (k + 1) as nat);
                lemma_value_in_range(y);
                lemma_encoding_is_canonical::<F>(y.value());
            }
            match Share::<S>::new((k + 1) as u8, bytes.as_slice()) {
                Ok(share) => {
                    shares.push(share);
                },
                Err(_) => {
                    proof {
                        assert(false);
                    }
                },
            }
            k += 1;
        }
        assert(share_views(shares@) =~= dealt_shares::<F>(polynomial@, N as nat));
        Ok(shares)
    }

    /// Builds a polynomial with constant term `secret` from the stream and
    /// deals its shares.
    pub fn get_shares_and_polynomial<F: FieldElement, const S: usize>(
        secret: F,
        rng: &mut ChaCha20Rng,
    ) -> (r: Result<(Vec<Share<S>>, Polynomial<F, T>), Error>)
        ensures
            r is Ok <==> params_valid(T as nat, N as nat, S as nat) && S == F::width(),
            r matches Err(e) ==> e == Error::InvalidParameters,
            r matches Ok(dealt) ==> {
                &&& dealt.1@.len() == T
                &&& dealt.1@[0] == secret.value()
                &&& share_views(dealt.0@) == dealt_shares::<F>(dealt.1@, N as nat)
            },
    {
        if Self::check_params(S).is_err() || F::encoded_len() != S {
            return Err(Error::InvalidParameters);
        }
        match Polynomial::<F, T>::build(secret, rng) {
            Ok(polynomial) => match Self::shares_of::<F, S>(&polynomial) {
                Ok(shares) => Ok((shares, polynomial)),
                Err(e) => Err(e),
            },
            Err(e) => Err(e),
        }
    }

    /// Splits `secret` into `N` shares, any `T` of which recover it. The seed
    /// is the 32 bytes drawn from the caller's random source.
    pub fn split_secret<F: FieldElement, const S: usize>(secret: F, seed: &[u8]) -> (r: Result<
        Vec<Share<S>>,
        Error,
    >)
        ensures
            r is Ok <==> params_valid(T as nat, N as nat, S as nat) && S == F::width()
                && seed@.len() == 32,
            r matches Err(e) ==> e == (if params_valid(T as nat, N as nat, S as nat) && S
                == F::width() {
                Error::InvalidRng
            } else {
                Error::InvalidParameters
            }),
            r matches Ok(shares) ==> exists|c: Seq<nat>|
                {
                    &&& c.len() == T
                    &&& c[0] == secret.value()
                    &&& share_views(shares@) == #[trigger] dealt_shares::<F>(c, N as nat)
                },
    {
        if Self::check_params(S).is_err() || F::encoded_len() != S {
            return Err(Error::InvalidParameters);
        }
        let mut rng = match seeded_stream(seed) {
            Ok(rng) => rng,
            Err(e) => {
                return Err(e);
            },
        };
        match Self::get_shares_and_polynomial::<F, S>(secret, &mut rng) {
            Ok((shares, polynomial)) => Ok(shares),
            Err(e) => Err(e),
        }
    }

    /// Checks the first `T` shares in order and decodes them: their
    /// identifiers, and the elements that their values encode.
    fn collect_points<E: Element, const S: usize>(shares: &[Share<S>]) -> (r: Result<
        (Vec<u8>, Vec<E>),
        Error,
    >)
        requires
            shares@.len() >= T,
        ensures
            match first_fault::<E>(share_views(shares@), T as nat) {
                Some(e) => r matches Err(x) && x == e,
                None => r matches Ok(points) && {
                    &&& points.0@.len() == T
                    &&& points.1@.len() == T
                    &&& forall|i: int|
                        0 <= i < T ==> #[trigger] points.0@[i] == share_views(
                            shares@,
                        )[i].identifier
                    &&& values_of(points.1@) == ordinates::<E>(share_views(shares@), T as nat)
                    &&& pairwise_distinct(nodes(share_views(shares@), T as nat))
                },
            },
    {
        let ghost views = share_views(shares@);
        let mut seen: Vec<bool> = Vec::new();
        let mut v: usize = 0;
        while v < 256
            invariant
                v <= 256,
                seen@.len() == v,
                forall|u: int| 0 <= u < v ==> !seen@[u],
            decreases 256 - v,
        {
            seen.push(false);
            v += 1;
        }
        let mut ids: Vec<u8> = Vec::new();
        let mut ys: Vec<E> = Vec::new();
        let mut i: usize = 0;
        while i < T
            invariant
                i <= T <= shares@.len(),
                views == share_views(shares@),
                seen@.len() == 256,
                first_fault::<E>(views, i as nat) is None,
                forall|u: int| 0 <= u < 256 ==> (#[trigger] seen@[u] <==> seen_before(views, i as int, u)),
                ids@.len() == i,
                ys@.len() == i,
                forall|j: int| 0 <= j < i ==> #[trigger] ids@[j] == views[j].identifier,
                forall|j: int|
                    0 <= j < i ==> E::decoding(views[j].value) == Some((#[trigger] ys@[j]).value()),
                forall|a: int, b: int|
                    0 <= a < b < i ==> (#[trigger] views[a]).identifier != (#[trigger] views[b]).identifier,
            decreases T - i,
        {
            let share = &shares[i];
            let id = share.identifier();
            assert(views[i as int] == shares@[i as int]@);
            if id == 0 {
                proof {
                    lemma_fault_persists::<E>(views, (i + 1) as nat, T as nat);
                }
                return Err(Error::InvalidShare);
            }
            if seen[id as usize] {
                proof {
                    lemma_fault_persists::<E>(views, (i + 1) as nat, T as nat);
                }
                return Err(Error::DuplicateShare);
            }
            match E::from_bytes(share.value()) {
                None => {
                    proof {
                        lemma_fault_persists::<E>(views, (i + 1) as nat, T as nat);
                    }
                    return Err(Error::InvalidShare);
                },
                Some(y) => {
                    ys.push(y);
                },
            }
            ids.push(id);
            seen.set(id as usize, true);
            proof {
                assert forall|u: int| 0 <= u < 256 implies (#[trigger] seen@[u] <==> seen_before(
                    views,
                    i + 1,
                    u,
                )) by {
                    if seen_before(views, i + 1, u) {
                        let j = choose|j: int| 0 <= j < i + 1 && (#[trigger] views[j]).identifier == u;
                        if j < i {
                            assert(seen_before(views, i as int, u));
                        }
                    }
                    if u == id {
                        assert(views[i as int].identifier == u);
                    } else if seen_before(views, i as int, u) {
                        let j = choose|j: int| 0 <= j < i && (#[trigger] views[j]).identifier == u;
                        assert(0 <= j < i + 1 && views[j].identifier == u);
                    }
                }
                assert forall|a: int, b: int| 0 <= a < b < i + 1 implies (#[trigger] views[a]).identifier
                    != (#[trigger] views[b]).identifier by {
                    if b == i && views[a].identifier == views[b].identifier {
                        assert(seen_before(views, i as int, id as int));
                    }
                }
            }
            i += 1;
        }
        proof {
            assert(values_of(ys@) =~= ordinates::<E>(views, T as nat));
            let xs = nodes(views, T as nat);
            assert forall|a: int, b: int| 0 <= a < b < xs.len() implies #[trigger] xs[a]
                != #[trigger] xs[b] by {
                assert(views[a].identifier != views[b].identifier);
            }
        }
        Ok((ids, ys))
    }

    /// Recovers the secret scalar from shares. The first `T` shares are used.
    /// They are checked in order, and the first faulty one decides the error.
    pub fn combine_shares<F: FieldElement, const S: usize>(shares: &[Share<S>]) -> (r: Result<
        F,
        Error,
    >)
        ensures
            shares@.len() < T ==> (r matches Err(e) && e == Error::SharingMinThreshold),
            match combined::<F>(share_views(shares@), T as nat) {
                Ok(v) => r matches Ok(secret) && secret.value() == v,
                Err(e) => r matches Err(x) && x == e,
            },
    {
        if shares.len() < T {
            return Err(Error::SharingMinThreshold);
        }
        let (ids, ys) = match Self::collect_points::<F, S>(shares) {
            Ok(points) => points,
            Err(e) => {
                return Err(e);
            },
        };
        let xs = lift_nodes::<F>(&ids);
        let ghost p = F::order();
        let ghost nodes = nodes(share_views(shares@), T as nat);
        let ghost ords = ordinates::<F>(share_views(shares@), T as nat);
        assert(values_of(xs@) =~= nodes);
        let mut acc = F::zero();
        let mut j: usize = 0;
        while j < xs.len()
            invariant
                j <= xs@.len(),
                xs@.len() == T,
                ys@.len() == T,
                p == F::order(),
                values_of(xs@) == nodes,
                values_of(ys@) == ords,
                pairwise_distinct(nodes),
                acc.value() == interpolate_upto(p, nodes, ords, j as nat),
            decreases xs@.len() - j,
        {
            let w = weight_at_zero::<F>(&xs, j);
            assert(values_of(ys@)[j as int] == ys@[j as int].value());
            acc = acc.plus(ys[j].times(w));
            j += 1;
        }
        Ok(acc)
    }

    /// Recovers a group element from shares whose values are group elements,
    /// as partial signatures of a threshold scheme are. The weights are the
    /// same scalars as for a secret in the field.
    pub fn combine_shares_group<F: FieldElement, G: GroupElement<F>, const S: usize>(
        shares: &[Share<S>],
    ) -> (r: Result<G, Error>)
        ensures
            shares@.len() < T ==> (r matches Err(e) && e == Error::SharingMinThreshold),
            match combined::<G>(share_views(shares@), T as nat) {
                Ok(v) => r matches Ok(element) && element.value() == v,
                Err(e) => r matches Err(x) && x == e,
            },
    {
        if shares.len() < T {
            return Err(Error::SharingMinThreshold);
        }
        let (ids, ys) = match Self::collect_points::<G, S>(shares) {
            Ok(points) => points,
            Err(e) => {
                return Err(e);
            },
        };
        let xs = lift_nodes::<F>(&ids);
        let ghost p = F::order();
        let ghost nodes = nodes(share_views(shares@), T as nat);
        let ghost ords = ordinates::<G>(share_views(shares@), T as nat);
        assert(values_of(xs@) =~= nodes);
        proof {
            G::scalars_match();
        }
        let mut acc = G::identity();
        let mut j: usize = 0;
        while j < xs.len()
            invariant
                j <= xs@.len(),
                xs@.len() == T,
                ys@.len() == T,
                p == F::order(),
                p == G::order(),
                values_of(xs@) == nodes,
                values_of(ys@) == ords,
                pairwise_distinct(nodes),
                acc.value() == interpolate_upto(p, nodes, ords, j as nat),
            decreases xs@.len() - j,
        {
            let w = weight_at_zero::<F>(&xs, j);
            assert(values_of(ys@)[j as int] == ys@[j as int].value());
            acc = acc.plus(ys[j].scaled(w));
            j += 1;
        }
        Ok(acc)
    }
}

} // verus!
