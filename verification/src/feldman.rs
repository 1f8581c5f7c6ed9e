//! Feldman's scheme: Shamir's shares together with commitments to the
//! polynomial, against which each holder checks its own share.

use crate::backend::{lemma_order, lemma_value_in_range};
use crate::backend::{values_of, Element, FieldElement, GroupElement};
use crate::error::Error;
use crate::modular::{
    add_mod, lemma_add_neg_is_sub, lemma_mul_neg, lemma_reduce_small, lemma_sub_mod_zero_iff,
    mul_mod, pow_mod,
};
use crate::polynomial::{eval_poly, poly_terms, Polynomial};
use crate::shamir::{combined, dealt_shares, params_valid, Shamir};
use crate::share::{share_views, texts_of, Share, ShareView};
use crate::stream::seeded_stream;
use crate::wire::{
    all_in_range, element_from_hex, element_text, element_to_hex, elements_from_hex,
    elements_text, elements_to_hex, encode_elements, lemma_parse_element_of_encoding,
    parse_element, parse_element_text, parse_elements_text, parse_vector, read_element,
    read_vector, theorem_element_round_trip, theorem_elements_text_round_trip,
    theorem_vector_round_trip, vector_bytes,
};
use std::marker::PhantomData;
use vstd::prelude::*;
use vstd::slice::slice_to_vec;

verus! {

/// What a Feldman verifier holds: the index of its generator and those of its
/// commitments.
pub struct FeldmanVerifierView {
    pub generator: nat,
    pub commitments: Seq<nat>,
}

/// The commitments to the polynomial with coefficients `c` under the
/// generator `g`: the multiple of `g` by each coefficient.
pub open spec fn feldman_commitments(p: nat, g: nat, c: Seq<nat>) -> Seq<nat> {
    Seq::new(c.len(), |i: int| mul_mod(p, g, c[i]))
}

/// The index of the generator that a dealer uses: the one supplied, or else
/// the canonical generator.
pub open spec fn chosen_generator<E: Element>(supplied: Option<E>) -> nat {
    match supplied {
        Some(g) => g.value(),
        None => 1,
    }
}

/// Feldman's check of a share against commitments: the value must decode, and
/// the generator times the value must be the sum of the commitments, each
/// times the matching power of the identifier.
pub open spec fn feldman_accepts<F: FieldElement>(v: FeldmanVerifierView, share: ShareView) -> bool {
    match F::decoding(share.value) {
        None => false,
        Some(y) => mul_mod(F::order(), v.generator, y) == eval_poly(
            F::order(),
            v.commitments,
            share.identifier as nat,
        ),
    }
}

/// A verifier that a dealer hands out: a generator and `t` commitments, all of
/// them elements of the group.
pub open spec fn feldman_is_sound<G: Element>(v: FeldmanVerifierView, t: nat) -> bool {
    &&& v.generator < G::order()
    &&& all_in_range::<G>(v.commitments)
    &&& v.commitments.len() == t
    &&& t >= 2
}

/// The binary form of a verifier: the generator, then the commitments as a
/// sequence with its length prefix.
pub open spec fn feldman_bytes<G: Element>(v: FeldmanVerifierView) -> Seq<u8> {
    G::encoding(v.generator) + vector_bytes::<G>(v.commitments)
}

/// The verifier with `t` commitments whose binary form `bytes` start with,
/// and the number of bytes that the form takes.
pub open spec fn parse_feldman<G: Element>(bytes: Seq<u8>, t: nat) -> Option<
    (FeldmanVerifierView, nat),
> {
    match parse_element::<G>(bytes) {
        None => None,
        Some(g) => match parse_vector::<G>(bytes.skip(G::width() as int)) {
            None => None,
            Some((cs, k)) => if cs.len() == t && t >= 2 {
                Some((FeldmanVerifierView { generator: g, commitments: cs }, G::width() + k))
            } else {
                None
            },
        },
    }
}

/// The verifier of which `bytes` are the whole binary form.
pub open spec fn parse_whole_feldman<G: Element>(bytes: Seq<u8>, t: nat) -> Option<
    FeldmanVerifierView,
> {
    match parse_feldman::<G>(bytes, t) {
        Some((v, k)) => if k == bytes.len() {
            Some(v)
        } else {
            None
        },
        None => None,
    }
}

/// A verifier as text: each element in hexadecimal form.
#[derive(Debug)]
pub struct FeldmanVerifierText {
    pub generator: String,
    pub commitments: Vec<String>,
}

/// What the text form of a verifier holds.
pub struct FeldmanVerifierTextView {
    pub generator: Seq<char>,
    pub commitments: Seq<Seq<char>>,
}

impl View for FeldmanVerifierText {
    type V = FeldmanVerifierTextView;

    open spec fn view(&self) -> FeldmanVerifierTextView {
        FeldmanVerifierTextView {
            generator: self.generator@,
            commitments: texts_of(self.commitments@),
        }
    }
}

/// The text form of a verifier.
pub open spec fn feldman_text<G: Element>(v: FeldmanVerifierView) -> FeldmanVerifierTextView {
    FeldmanVerifierTextView {
        generator: element_text::<G>(v.generator),
        commitments: elements_text::<G>(v.commitments),
    }
}

/// The verifier with `t` commitments of which `text` is the text form.
pub open spec fn parse_feldman_text<G: Element>(text: FeldmanVerifierTextView, t: nat) -> Option<
    FeldmanVerifierView,
> {
    match (parse_element_text::<G>(text.generator), parse_elements_text::<G>(text.commitments)) {
        (Some(g), Some(cs)) => if cs.len() == t && t >= 2 {
            Some(FeldmanVerifierView { generator: g, commitments: cs })
        } else {
            None
        },
        _ => None,
    }
}

/// A verifier is read back from its text form as it was.
pub proof fn theorem_feldman_text_round_trip<G: Element>(v: FeldmanVerifierView, t: nat)
    requires
        feldman_is_sound::<G>(v, t),
    ensures
        parse_feldman_text::<G>(feldman_text::<G>(v), t) == Some(v),
{
    theorem_element_round_trip::<G>(v.generator);
    theorem_elements_text_round_trip::<G>(v.commitments);
}

/// A verifier is read back from its binary form as it was, whatever follows
/// the form.
pub proof fn theorem_feldman_round_trip<G: Element>(v: FeldmanVerifierView, t: nat, rest: Seq<u8>)
    requires
        feldman_is_sound::<G>(v, t),
        t <= usize::MAX,
        G::width() >= 1,
    ensures
        parse_feldman::<G>(feldman_bytes::<G>(v) + rest, t) == Some(
            (v, feldman_bytes::<G>(v).len()),
        ),
{
    let g = G::encoding(v.generator);
    let cs = vector_bytes::<G>(v.commitments);
    let bytes = feldman_bytes::<G>(v) + rest;
    assert(g + (cs + rest) =~= bytes);
    lemma_parse_element_of_encoding::<G>(v.generator, cs + rest);
    assert(bytes.skip(G::width() as int) =~= cs + rest);
    theorem_vector_round_trip::<G>(v.commitments, rest);
}

/// The commitments of a dealer to its polynomial, with their generator.
#[derive(Debug)]
pub struct FeldmanVerifier<F: FieldElement, G: GroupElement<F>, const T: usize> {
    generator: G,
    commitments: Vec<G>,
    marker: PhantomData<F>,
}

impl<F: FieldElement, G: GroupElement<F>, const T: usize> View for FeldmanVerifier<F, G, T> {
    type V = FeldmanVerifierView;

    closed spec fn view(&self) -> FeldmanVerifierView {
        FeldmanVerifierView {
            generator: self.generator.value(),
            commitments: values_of(self.commitments@),
        }
    }
}

impl<F: FieldElement, G: GroupElement<F>, const T: usize> Clone for FeldmanVerifier<F, G, T> {
    fn clone(&self) -> (r: Self)
        ensures
            r@ == self@,
    {
        proof {
            use_type_invariant(self);
        }
        FeldmanVerifier {
            generator: self.generator,
            commitments: slice_to_vec(self.commitments.as_slice()),
            marker: PhantomData,
        }
    }
}

/// The sum of the commitments, each times the matching power of `x`.
pub(crate) fn commitment_sum<F: FieldElement, G: GroupElement<F>>(commitments: &Vec<G>, x: F) -> (rhs:
    G)
    requires
        commitments@.len() >= 1,
    ensures
        rhs.value() == eval_poly(F::order(), values_of(commitments@), x.value()),
{
    let ghost p = F::order();
    let ghost cs = values_of(commitments@);
    let mut power = F::one();
    let mut rhs = commitments[0];
    proof {
        lemma_order::<F>();
        G::scalars_match();
        lemma_reduce_small(p, 1);
        lemma_value_in_range(commitments@[0]);
        assert(cs[0] == commitments@[0].value());
        assert(mul_mod(p, cs[0], 1) == cs[0]) by {
            lemma_reduce_small(p, cs[0]);
        }
        assert(add_mod(p, 0, cs[0]) == cs[0]) by {
            lemma_reduce_small(p, cs[0]);
        }
        assert(poly_terms(p, cs, x.value(), 0) == 0);
        assert(poly_terms(p, cs, x.value(), 1) == cs[0]);
    }
    let mut k: usize = 1;
    while k < commitments.len()
        invariant
            1 <= k <= commitments@.len(),
            p == F::order(),
            p == G::order(),
            cs == values_of(commitments@),
            power.value() == pow_mod(p, x.value(), (k - 1) as nat),
            rhs.value() == poly_terms(p, cs, x.value(), k as nat),
        decreases commitments@.len() - k,
    {
        power = power.times(x);
        assert(cs[k as int] == commitments@[k as int].value());
        rhs = rhs.plus(commitments[k].scaled(power));
        k += 1;
    }
    rhs
}

impl<F: FieldElement, G: GroupElement<F>, const T: usize> FeldmanVerifier<F, G, T> {
    #[verifier::type_invariant]
    spec fn well_formed(self) -> bool {
        self.commitments@.len() == T && T >= 2
    }

    /// A verifier from its parts. There must be `T` commitments, and at
    /// least two.
    pub fn new(generator: G, commitments: Vec<G>) -> (r: Result<Self, Error>)
        ensures
            r is Ok <==> T >= 2 && commitments@.len() == T,
            r matches Err(e) ==> e == Error::InvalidParameters,
            r matches Ok(v) ==> v@ == (FeldmanVerifierView {
                generator: generator.value(),
                commitments: values_of(commitments@),
            }),
    {
        if T < 2 || commitments.len() != T {
            return Err(Error::InvalidParameters);
        }
        Ok(FeldmanVerifier { generator, commitments, marker: PhantomData })
    }

    /// The generator under which the coefficients are committed.
    pub fn generator(&self) -> (g: G)
        ensures
            g.value() == self@.generator,
    {
        self.generator
    }

    /// The commitments, that to the constant term first.
    pub fn commitments(&self) -> (c: &[G])
        ensures
            values_of(c@) == self@.commitments,
            c@.len() == T,
            T >= 2,
    {
        proof {
            use_type_invariant(self);
        }
        self.commitments.as_slice()
    }

    /// The binary form of the verifier, from which `from_bytes` reads it back.
    pub fn to_bytes(&self) -> (bytes: Vec<u8>)
        ensures
            bytes@ == feldman_bytes::<G>(self@),
            feldman_is_sound::<G>(self@, T as nat),
            G::width() >= 1 ==> parse_whole_feldman::<G>(bytes@, T as nat) == Some(self@),
    {
        proof {
            use_type_invariant(self);
            lemma_value_in_range(self.generator);
            let values = values_of(self.commitments@);
            assert forall|i: int| 0 <= i < values.len() implies #[trigger] values[i]
                < G::order() by {
                lemma_value_in_range(self.commitments@[i]);
            }
            if G::width() >= 1 {
                theorem_feldman_round_trip::<G>(self@, T as nat, Seq::empty());
                assert(feldman_bytes::<G>(self@) + Seq::<u8>::empty() =~= feldman_bytes::<G>(
                    self@,
                ));
            }
        }
        let mut bytes = self.generator.to_bytes();
        let commitments = encode_elements::<G>(self.commitments.as_slice());
        bytes.extend_from_slice(commitments.as_slice());
        bytes
    }

    /// The verifier at place `at` of `bytes`, and the place where it ends.
    pub(crate) fn read(bytes: &[u8], at: usize) -> (r: Option<(Self, usize)>)
        requires
            at <= bytes@.len(),
        ensures
            match parse_feldman::<G>(bytes@.skip(at as int), T as nat) {
                Some((v, k)) => r matches Some((x, end)) && x@ == v && end == at + k && end
                    <= bytes@.len(),
                None => r is None,
            },
    {
        let total = bytes.len();
        let generator = match read_element::<G>(bytes, at) {
            Some(g) => g,
            None => {
                return None;
            },
        };
        let w = G::encoded_len();
        assert(bytes@.skip(at as int).skip(w as int) =~= bytes@.skip((at + w) as int));
        let (commitments, end) = match read_vector::<G>(bytes, at + w) {
            Some(found) => found,
            None => {
                return None;
            },
        };
        if T < 2 || commitments.len() != T {
            return None;
        }
        Some((FeldmanVerifier { generator, commitments, marker: PhantomData }, end))
    }

    /// The verifier of which `bytes` are the whole binary form.
    pub fn from_bytes(bytes: &[u8]) -> (r: Result<Self, Error>)
        ensures
            match parse_whole_feldman::<G>(bytes@, T as nat) {
                Some(v) => r matches Ok(x) && x@ == v,
                None => r matches Err(e) && e == Error::InvalidEncoding,
            },
    {
        assert(bytes@.skip(0) =~= bytes@);
        match Self::read(bytes, 0) {
            Some((verifier, end)) => {
                if end == bytes.len() {
                    Ok(verifier)
                } else {
                    Err(Error::InvalidEncoding)
                }
            },
            None => Err(Error::InvalidEncoding),
        }
    }

    /// The text form of the verifier, from which `from_text` reads it back.
    pub fn to_text(&self) -> (text: FeldmanVerifierText)
        ensures
            text@ == feldman_text::<G>(self@),
            feldman_is_sound::<G>(self@, T as nat),
            parse_feldman_text::<G>(text@, T as nat) == Some(self@),
    {
        proof {
            use_type_invariant(self);
            lemma_value_in_range(self.generator);
            let values = values_of(self.commitments@);
            assert forall|i: int| 0 <= i < values.len() implies #[trigger] values[i]
                < G::order() by {
                lemma_value_in_range(self.commitments@[i]);
            }
            theorem_feldman_text_round_trip::<G>(self@, T as nat);
        }
        FeldmanVerifierText {
            generator: element_to_hex::<G>(self.generator),
            commitments: elements_to_hex::<G>(self.commitments.as_slice()),
        }
    }

    /// The verifier of which `text` is the text form.
    pub fn from_text(text: &FeldmanVerifierText) -> (r: Result<Self, Error>)
        ensures
            match parse_feldman_text::<G>(text@, T as nat) {
                Some(v) => r matches Ok(x) && x@ == v,
                None => r matches Err(e) && e == Error::InvalidEncoding,
            },
    {
        let generator = match element_from_hex::<G>(text.generator.as_str()) {
            Ok(g) => g,
            Err(e) => {
                return Err(e);
            },
        };
        let commitments = match elements_from_hex::<G>(text.commitments.as_slice()) {
            Ok(cs) => cs,
            Err(e) => {
                return Err(e);
            },
        };
        if T < 2 || commitments.len() != T {
            return Err(Error::InvalidEncoding);
        }
        Ok(FeldmanVerifier { generator, commitments, marker: PhantomData })
    }

    /// Whether the share lies on the committed polynomial. A value that is no
    /// canonical scalar is not accepted.
    pub fn verify<const S: usize>(&self, share: &Share<S>) -> (ok: bool)
        ensures
            ok == feldman_accepts::<F>(self@, share@),
    {
        proof {
            use_type_invariant(self);
            lemma_order::<F>();
            G::scalars_match();
        }
        let y = match F::from_bytes(share.value()) {
            Some(y) => y,
            None => {
                return false;
            },
        };
        let x = F::from_u64(share.identifier() as u64);
        let rhs = commitment_sum::<F, G>(&self.commitments, x);
        let lhs = self.generator.negated().scaled(y);
        let res = lhs.plus(rhs);
        proof {
            let p = F::order();
            let g = self.generator.value();
            lemma_reduce_small(p, share@.identifier as nat);
            lemma_mul_neg(p, g, y.value());
            lemma_add_neg_is_sub(p, mul_mod(p, g, y.value()), rhs.value());
            lemma_value_in_range(rhs);
            vstd::arithmetic::div_mod::lemma_mod_bound((g * y.value()) as int, p as int);
            lemma_sub_mod_zero_iff(p, rhs.value(), mul_mod(p, g, y.value()));
        }
        res.is_identity()
    }
}

/// Feldman's scheme with threshold `T` and `N` shares.
#[derive(Clone, Copy, Debug)]
pub struct Feldman<const T: usize, const N: usize>;

impl<const T: usize, const N: usize> Feldman<T, N> {
    /// Commits to each coefficient of a polynomial under a generator.
    pub fn commit<F: FieldElement, G: GroupElement<F>>(
        generator: G,
        polynomial: &Polynomial<F, T>,
    ) -> (v: FeldmanVerifier<F, G, T>)
        ensures
            v@ == (FeldmanVerifierView {
                generator: generator.value(),
                commitments: feldman_commitments(F::order(), generator.value(), polynomial@),
            }),
    {
        let coefficients = polynomial.coefficients();
        let mut commitments: Vec<G> = Vec::new();
        let mut i: usize = 0;
        proof {
            G::scalars_match();
        }
        while i < coefficients.len()
            invariant
                i <= coefficients@.len(),
                F::order() == G::order(),
                commitments@.len() == i,
                forall|k: int|
                    0 <= k < i ==> (#[trigger] commitments@[k]).value() == mul_mod(
                        F::order(),
                        generator.value(),
                        coefficients@[k].value(),
                    ),
            decreases coefficients@.len() - i,
        {
            commitments.push(generator.scaled(coefficients[i]));
            i += 1;
        }
        proof {
            let c = values_of(coefficients@);
            assert forall|k: int| 0 <= k < c.len() implies values_of(commitments@)[k] == mul_mod(
                F::order(),
                generator.value(),
                #[trigger] c[k],
            ) by {
                assert(commitments@[k].value() == mul_mod(
                    F::order(),
                    generator.value(),
                    coefficients@[k].value(),
                ));
            }
            assert(values_of(commitments@) =~= feldman_commitments(
                F::order(),
                generator.value(),
                polynomial@,
            ));
        }
        FeldmanVerifier { generator, commitments, marker: PhantomData }
    }

    /// Splits `secret` into `N` shares and commits to the polynomial that
    /// dealt them, under the given generator or else the canonical one. The
    /// seed is the 32 bytes drawn from the caller's random source.
    pub fn split_secret<F: FieldElement, G: GroupElement<F>, const S: usize>(
        secret: F,
        generator: Option<G>,
        seed: &[u8],
    ) -> (r: Result<(Vec<Share<S>>, FeldmanVerifier<F, G, T>), Error>)
        ensures
            r is Ok <==> params_valid(T as nat, N as nat, S as nat) && S == F::width()
                && seed@.len() == 32,
            r matches Err(e) ==> e == (if params_valid(T as nat, N as nat, S as nat) && S
                == F::width() {
                Error::InvalidRng
            } else {
                Error::InvalidParameters
            }),
            r matches Ok(dealt) ==> exists|c: Seq<nat>|
                {
                    &&& c.len() == T
                    &&& c[0] == secret.value()
                    &&& share_views(dealt.0@) == #[trigger] dealt_shares::<F>(c, N as nat)
                    &&& dealt.1@ == (FeldmanVerifierView {
                        generator: chosen_generator(generator),
                        commitments: feldman_commitments(
                            F::order(),
                            chosen_generator(generator),
                            c,
                        ),
                    })
                },
    {
        if Shamir::<T, N>::check_params(S).is_err() || F::encoded_len() != S {
            return Err(Error::InvalidParameters);
        }
        let mut rng = match seeded_stream(seed) {
            Ok(rng) => rng,
            Err(e) => {
                return Err(e);
            },
        };
        let g = match generator {
            Some(g) => g,
            None => G::generator(),
        };
        match Shamir::<T, N>::get_shares_and_polynomial::<F, S>(secret, &mut rng) {
            Ok((shares, polynomial)) => {
                let verifier = Self::commit::<F, G>(g, &polynomial);
                proof {
                    assert(share_views(shares@) == dealt_shares::<F>(polynomial@, N as nat));
                }
                Ok((shares, verifier))
            },
            Err(e) => Err(e),
        }
    }

    /// Recovers the secret scalar from shares, as `Shamir` does.
    pub fn combine_shares<F: FieldElement, const S: usize>(shares: &[Share<S>]) -> (r: Result<
        F,
        Error,
    >)
        ensures
            match combined::<F>(share_views(shares@), T as nat) {
                Ok(v) => r matches Ok(secret) && secret.value() == v,
                Err(e) => r matches Err(x) && x == e,
            },
    {
        Shamir::<T, N>::combine_shares::<F, S>(shares)
    }

    /// Recovers a group element from shares, as `Shamir` does.
    pub fn combine_shares_group<F: FieldElement, G: GroupElement<F>, const S: usize>(
        shares: &[Share<S>],
    ) -> (r: Result<G, Error>)
        ensures
            match combined::<G>(share_views(shares@), T as nat) {
                Ok(v) => r matches Ok(element) && element.value() == v,
                Err(e) => r matches Err(x) && x == e,
            },
    {
        Shamir::<T, N>::combine_shares_group::<F, G, S>(shares)
    }
}

} // verus!
