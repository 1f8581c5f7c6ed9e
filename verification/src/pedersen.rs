//! Pedersen's scheme: the secret and a blinding factor are shared by two
//! polynomials, and each commitment hides a coefficient of the first behind
//! the matching coefficient of the second.

use crate::backend::{lemma_order, lemma_value_in_range};
use crate::backend::{values_of, Element, FieldElement, GroupElement};
use crate::error::Error;
use crate::feldman::{
    chosen_generator, commitment_sum, feldman_bytes, feldman_commitments, feldman_is_sound,
    feldman_text, parse_feldman, parse_feldman_text, theorem_feldman_round_trip,
    theorem_feldman_text_round_trip, Feldman,
    FeldmanVerifier, FeldmanVerifierText, FeldmanVerifierTextView, FeldmanVerifierView,
};
use crate::modular::{
    add_mod, lemma_add_neg_is_sub, lemma_mul_neg, lemma_reduce_bound, lemma_reduce_small,
    lemma_sub_mod_zero_iff, lemma_sub_twice, mul_mod, sub_mod,
};
use crate::polynomial::{eval_poly, Polynomial};
use crate::shamir::{combined, dealt_shares, params_valid, Shamir};
use crate::share::{
    all_identified, all_of_width, clone_shares, lemma_parse_shares_of_bytes, lemma_shares_bytes_len, parse_shares,
    parse_shares_text, read_shares, share_is_sound, share_views, shares_bytes, shares_from_hex, shares_to_bytes,
    shares_text, shares_to_hex, texts_of, theorem_shares_text_round_trip, Share, ShareView,
};
use crate::stream::seeded_stream;
use crate::wire::{
    all_in_range, element_from_hex, element_text, element_to_hex, elements_from_hex,
    elements_text, elements_to_hex, encode_elements, lemma_parse_element_of_encoding,
    parse_element, parse_element_text, parse_elements_text, parse_vector, read_element,
    read_vector, theorem_element_round_trip, theorem_elements_text_round_trip,
    theorem_vector_round_trip, vector_bytes,
};
use vstd::prelude::*;
use vstd::slice::slice_to_vec;

verus! {

/// What a Pedersen verifier holds: the index of the blinding generator, those
/// of the blinded commitments, and the Feldman verifier of the same dealing.
pub struct PedersenVerifierView {
    pub generator: nat,
    pub commitments: Seq<nat>,
    pub feldman_verifier: FeldmanVerifierView,
}

/// What the result of a dealing holds.
pub struct PedersenResultView {
    pub blinding: nat,
    pub blind_shares: Seq<ShareView>,
    pub secret_shares: Seq<ShareView>,
    pub verifier: PedersenVerifierView,
}

/// The blinded commitments to the polynomials with coefficients `a` (the
/// secret's) and `b` (the blinding's) under the generators `g` and `h`.
pub open spec fn pedersen_commitments(p: nat, g: nat, h: nat, a: Seq<nat>, b: Seq<nat>) -> Seq<
    nat,
> {
    Seq::new(a.len(), |i: int| add_mod(p, mul_mod(p, g, a[i]), mul_mod(p, h, b[i])))
}

/// Pedersen's check of a pair of shares: both carry one identifier, both
/// values decode, and the two generators times the two values add up to the
/// sum of the commitments, each times the matching power of the identifier.
pub open spec fn pedersen_accepts<F: FieldElement>(
    v: PedersenVerifierView,
    secret_share: ShareView,
    blinding_share: ShareView,
) -> bool {
    &&& secret_share.identifier == blinding_share.identifier
    &&& match (F::decoding(secret_share.value), F::decoding(blinding_share.value)) {
        (Some(ys), Some(yb)) => add_mod(
            F::order(),
            mul_mod(F::order(), v.feldman_verifier.generator, ys),
            mul_mod(F::order(), v.generator, yb),
        ) == eval_poly(F::order(), v.commitments, secret_share.identifier as nat),
        _ => false,
    }
}

/// Everything that a dealer with the generators `g` and `h` hands out for the
/// polynomials with coefficients `a` and `b`, to `n` holders.
pub open spec fn dealt_bundle<F: FieldElement>(
    g: nat,
    h: nat,
    a: Seq<nat>,
    b: Seq<nat>,
    n: nat,
) -> PedersenResultView {
    PedersenResultView {
        blinding: b[0],
        blind_shares: dealt_shares::<F>(b, n),
        secret_shares: dealt_shares::<F>(a, n),
        verifier: PedersenVerifierView {
            generator: h,
            commitments: pedersen_commitments(F::order(), g, h, a, b),
            feldman_verifier: FeldmanVerifierView {
                generator: g,
                commitments: feldman_commitments(F::order(), g, a),
            },
        },
    }
}

/// A verifier that a dealer hands out: a blinding generator and `t` blinded
/// commitments, all of them elements of the group, and a sound Feldman
/// verifier.
pub open spec fn pedersen_verifier_is_sound<G: Element>(v: PedersenVerifierView, t: nat) -> bool {
    &&& v.generator < G::order()
    &&& all_in_range::<G>(v.commitments)
    &&& v.commitments.len() == t
    &&& feldman_is_sound::<G>(v.feldman_verifier, t)
}

/// The binary form of a verifier: the blinding generator, the blinded
/// commitments as a sequence with its length prefix, then the Feldman
/// verifier.
pub open spec fn pedersen_verifier_bytes<G: Element>(v: PedersenVerifierView) -> Seq<u8> {
    G::encoding(v.generator) + vector_bytes::<G>(v.commitments) + feldman_bytes::<G>(
        v.feldman_verifier,
    )
}

/// The verifier with `t` commitments whose binary form `bytes` start with,
/// and the number of bytes that the form takes.
pub open spec fn parse_pedersen_verifier<G: Element>(bytes: Seq<u8>, t: nat) -> Option<
    (PedersenVerifierView, nat),
> {
    match parse_element::<G>(bytes) {
        None => None,
        Some(h) => match parse_vector::<G>(bytes.skip(G::width() as int)) {
            None => None,
            Some((cs, k)) => if cs.len() != t {
                None
            } else {
                match parse_feldman::<G>(bytes.skip((G::width() + k) as int), t) {
                    None => None,
                    Some((feldman, m)) => Some(
                        (
                            PedersenVerifierView {
                                generator: h,
                                commitments: cs,
                                feldman_verifier: feldman,
                            },
                            G::width() + k + m,
                        ),
                    ),
                }
            },
        },
    }
}

/// The verifier of which `bytes` are the whole binary form.
pub open spec fn parse_whole_pedersen_verifier<G: Element>(bytes: Seq<u8>, t: nat) -> Option<
    PedersenVerifierView,
> {
    match parse_pedersen_verifier::<G>(bytes, t) {
        Some((v, k)) => if k == bytes.len() {
            Some(v)
        } else {
            None
        },
        None => None,
    }
}

/// A verifier as text: each element in hexadecimal form.
#[derive(Debug)]
pub struct PedersenVerifierText {
    pub generator: String,
    pub commitments: Vec<String>,
    pub feldman_verifier: FeldmanVerifierText,
}

/// What the text form of a verifier holds.
pub struct PedersenVerifierTextView {
    pub generator: Seq<char>,
    pub commitments: Seq<Seq<char>>,
    pub feldman_verifier: FeldmanVerifierTextView,
}

impl View for PedersenVerifierText {
    type V = PedersenVerifierTextView;

    open spec fn view(&self) -> PedersenVerifierTextView {
        PedersenVerifierTextView {
            generator: self.generator@,
            commitments: texts_of(self.commitments@),
            feldman_verifier: self.feldman_verifier@,
        }
    }
}

/// The text form of a verifier.
pub open spec fn pedersen_verifier_text<G: Element>(
    v: PedersenVerifierView,
) -> PedersenVerifierTextView {
    PedersenVerifierTextView {
        generator: element_text::<G>(v.generator),
        commitments: elements_text::<G>(v.commitments),
        feldman_verifier: feldman_text::<G>(v.feldman_verifier),
    }
}

/// The verifier with `t` commitments of which `text` is the text form.
pub open spec fn parse_pedersen_verifier_text<G: Element>(
    text: PedersenVerifierTextView,
    t: nat,
) -> Option<PedersenVerifierView> {
    match (
        parse_element_text::<G>(text.generator),
        parse_elements_text::<G>(text.commitments),
        parse_feldman_text::<G>(text.feldman_verifier, t),
    ) {
        (Some(h), Some(cs), Some(feldman)) => if cs.len() == t {
            Some(
                PedersenVerifierView { generator: h, commitments: cs, feldman_verifier: feldman },
            )
        } else {
            None
        },
        _ => None,
    }
}

/// A verifier is read back from its text form as it was.
pub proof fn theorem_pedersen_verifier_text_round_trip<G: Element>(v: PedersenVerifierView, t: nat)
    requires
        pedersen_verifier_is_sound::<G>(v, t),
    ensures
        parse_pedersen_verifier_text::<G>(pedersen_verifier_text::<G>(v), t) == Some(v),
{
    theorem_feldman_text_round_trip::<G>(v.feldman_verifier, t);
    theorem_element_round_trip::<G>(v.generator);
    theorem_elements_text_round_trip::<G>(v.commitments);
}

/// A verifier is read back from its binary form as it was, whatever follows
/// the form.
pub proof fn theorem_pedersen_verifier_round_trip<G: Element>(
    v: PedersenVerifierView,
    t: nat,
    rest: Seq<u8>,
)
    requires
        pedersen_verifier_is_sound::<G>(v, t),
        t <= usize::MAX,
        G::width() >= 1,
    ensures
        parse_pedersen_verifier::<G>(pedersen_verifier_bytes::<G>(v) + rest, t) == Some(
            (v, pedersen_verifier_bytes::<G>(v).len()),
        ),
{
    let h = G::encoding(v.generator);
    let cs = vector_bytes::<G>(v.commitments);
    let f = feldman_bytes::<G>(v.feldman_verifier);
    let bytes = pedersen_verifier_bytes::<G>(v) + rest;
    assert(h + (cs + (f + rest)) =~= bytes);
    lemma_parse_element_of_encoding::<G>(v.generator, cs + (f + rest));
    assert(bytes.skip(G::width() as int) =~= cs + (f + rest));
    theorem_vector_round_trip::<G>(v.commitments, f + rest);
    assert(bytes.skip((G::width() + cs.len()) as int) =~= f + rest);
    theorem_feldman_round_trip::<G>(v.feldman_verifier, t, rest);
}

/// The blinded commitments of a dealer, with the blinding generator and the
/// Feldman verifier of the same polynomial.
#[derive(Debug)]
pub struct PedersenVerifier<F: FieldElement, G: GroupElement<F>, const T: usize> {
    generator: G,
    commitments: Vec<G>,
    feldman_verifier: FeldmanVerifier<F, G, T>,
}

impl<F: FieldElement, G: GroupElement<F>, const T: usize> View for PedersenVerifier<F, G, T> {
    type V = PedersenVerifierView;

    closed spec fn view(&self) -> PedersenVerifierView {
        PedersenVerifierView {
            generator: self.generator.value(),
            commitments: values_of(self.commitments@),
            feldman_verifier: self.feldman_verifier@,
        }
    }
}

impl<F: FieldElement, G: GroupElement<F>, const T: usize> Clone for PedersenVerifier<F, G, T> {
    fn clone(&self) -> (r: Self)
        ensures
            r@ == self@,
    {
        proof {
            use_type_invariant(self);
        }
        PedersenVerifier {
            generator: self.generator,
            commitments: slice_to_vec(self.commitments.as_slice()),
            feldman_verifier: self.feldman_verifier.clone(),
        }
    }
}

impl<F: FieldElement, G: GroupElement<F>, const T: usize> PedersenVerifier<F, G, T> {
    #[verifier::type_invariant]
    spec fn well_formed(self) -> bool {
        self.commitments@.len() == T && T >= 2
    }

    /// A verifier from its parts. There must be `T` commitments, and at
    /// least two.
    pub fn new(generator: G, commitments: Vec<G>, feldman_verifier: FeldmanVerifier<F, G, T>) -> (r:
        Result<Self, Error>)
        ensures
            r is Ok <==> T >= 2 && commitments@.len() == T,
            r matches Err(e) ==> e == Error::InvalidParameters,
            r matches Ok(v) ==> v@ == (PedersenVerifierView {
                generator: generator.value(),
                commitments: values_of(commitments@),
                feldman_verifier: feldman_verifier@,
            }),
    {
        if T < 2 || commitments.len() != T {
            return Err(Error::InvalidParameters);
        }
        Ok(PedersenVerifier { generator, commitments, feldman_verifier })
    }

    /// The generator under which the blinding coefficients are committed.
    pub fn generator(&self) -> (h: G)
        ensures
            h.value() == self@.generator,
    {
        self.generator
    }

    /// The blinded commitments, that to the constant terms first.
    pub fn commitments(&self) -> (c: &[G])
        ensures
            values_of(c@) == self@.commitments,
            c@.len() == T,
            T >= 2,
    {
        proof {
            use_type_invariant(self);
        }
        self.commitments.as_slice()
    }

    /// The Feldman verifier of the secret's polynomial.
    pub fn feldman_verifier(&self) -> (v: &FeldmanVerifier<F, G, T>)
        ensures
            v@ == self@.feldman_verifier,
    {
        &self.feldman_verifier
    }

    /// The binary form of the verifier, from which `from_bytes` reads it back.
    pub fn to_bytes(&self) -> (bytes: Vec<u8>)
        ensures
            bytes@ == pedersen_verifier_bytes::<G>(self@),
            pedersen_verifier_is_sound::<G>(self@, T as nat),
            G::width() >= 1 ==> parse_whole_pedersen_verifier::<G>(bytes@, T as nat) == Some(
                self@,
            ),
    {
        let mut bytes = self.generator.to_bytes();
        let commitments = encode_elements::<G>(self.commitments.as_slice());
        bytes.extend_from_slice(commitments.as_slice());
        let feldman = self.feldman_verifier.to_bytes();
        bytes.extend_from_slice(feldman.as_slice());
        proof {
            use_type_invariant(self);
            lemma_value_in_range(self.generator);
            let values = values_of(self.commitments@);
            assert forall|i: int| 0 <= i < values.len() implies #[trigger] values[i]
                < G::order() by {
                lemma_value_in_range(self.commitments@[i]);
            }
            if G::width() >= 1 {
                theorem_pedersen_verifier_round_trip::<G>(self@, T as nat, Seq::empty());
                assert(pedersen_verifier_bytes::<G>(self@) + Seq::<u8>::empty()
                    =~= pedersen_verifier_bytes::<G>(self@));
            }
        }
        bytes
    }

    /// The verifier at place `at` of `bytes`, and the place where it ends.
    pub(crate) fn read(bytes: &[u8], at: usize) -> (r: Option<(Self, usize)>)
        requires
            at <= bytes@.len(),
        ensures
            match parse_pedersen_verifier::<G>(bytes@.skip(at as int), T as nat) {
                Some((v, k)) => r matches Some((x, end)) && x@ == v && end == at + k && end
                    <= bytes@.len(),
                None => r is None,
            },
    {
        let total = bytes.len();
        let generator = match read_element::<G>(bytes, at) {
            Some(h) => h,
            None => {
                return None;
            },
        };
        let w = G::encoded_len();
        assert(bytes@.skip(at as int).skip(w as int) =~= bytes@.skip((at + w) as int));
        let (commitments, middle) = match read_vector::<G>(bytes, at + w) {
            Some(found) => found,
            None => {
                return None;
            },
        };
        if T < 2 || commitments.len() != T {
            return None;
        }
        assert(bytes@.skip(at as int).skip((middle - at) as int) =~= bytes@.skip(middle as int));
        let (feldman_verifier, end) = match FeldmanVerifier::<F, G, T>::read(bytes, middle) {
            Some(found) => found,
            None => {
                return None;
            },
        };
        Some((PedersenVerifier { generator, commitments, feldman_verifier }, end))
    }

    /// The verifier of which `bytes` are the whole binary form.
    pub fn from_bytes(bytes: &[u8]) -> (r: Result<Self, Error>)
        ensures
            match parse_whole_pedersen_verifier::<G>(bytes@, T as nat) {
                Some(v) => r matches Ok(x) && x@ == v,
                None => r matches Err(e) && e == Error::InvalidEncoding,
            },
    {
        assert(bytes@.skip(0) =~= bytes@);
        match Self::read(bytes, 0) {
            Some((verifier, end)) => {
                if end == bytes.len() {
                    Ok(verifier)
                } else {
                    Err(Error::InvalidEncoding)
                }
            },
            None => Err(Error::InvalidEncoding),
        }
    }

    /// The text form of the verifier, from which `from_text` reads it back.
    pub fn to_text(&self) -> (text: PedersenVerifierText)
        ensures
            text@ == pedersen_verifier_text::<G>(self@),
            pedersen_verifier_is_sound::<G>(self@, T as nat),
            parse_pedersen_verifier_text::<G>(text@, T as nat) == Some(self@),
    {
        let feldman_verifier = self.feldman_verifier.to_text();
        proof {
            use_type_invariant(self);
            lemma_value_in_range(self.generator);
            let values = values_of(self.commitments@);
            assert forall|i: int| 0 <= i < values.len() implies #[trigger] values[i]
                < G::order() by {
                lemma_value_in_range(self.commitments@[i]);
            }
            theorem_pedersen_verifier_text_round_trip::<G>(self@, T as nat);
        }
        PedersenVerifierText {
            generator: element_to_hex::<G>(self.generator),
            commitments: elements_to_hex::<G>(self.commitments.as_slice()),
            feldman_verifier,
        }
    }

    /// The verifier of which `text` is the text form.
    pub fn from_text(text: &PedersenVerifierText) -> (r: Result<Self, Error>)
        ensures
            match parse_pedersen_verifier_text::<G>(text@, T as nat) {
                Some(v) => r matches Ok(x) && x@ == v,
                None => r matches Err(e) && e == Error::InvalidEncoding,
            },
    {
        let generator = match element_from_hex::<G>(text.generator.as_str()) {
            Ok(h) => h,
            Err(e) => {
                return Err(e);
            },
        };
        let commitments = match elements_from_hex::<G>(text.commitments.as_slice()) {
            Ok(cs) => cs,
            Err(e) => {
                return Err(e);
            },
        };
        let feldman_verifier = match FeldmanVerifier::<F, G, T>::from_text(
            &text.feldman_verifier,
        ) {
            Ok(v) => v,
            Err(e) => {
                return Err(e);
            },
        };
        if T < 2 || commitments.len() != T {
            return Err(Error::InvalidEncoding);
        }
        Ok(PedersenVerifier { generator, commitments, feldman_verifier })
    }

    /// Whether the two shares lie on the committed pair of polynomials. Shares
    /// with different identifiers, and values that are no canonical scalars,
    /// are not accepted.
    pub fn verify<const S: usize>(&self, share: &Share<S>, blind_share: &Share<S>) -> (ok: bool)
        ensures
            ok == pedersen_accepts::<F>(self@, share@, blind_share@),
    {
        proof {
            use_type_invariant(self);
            lemma_order::<F>();
            G::scalars_match();
        }
        if share.identifier() != blind_share.identifier() {
            return false;
        }
        let ys = match F::from_bytes(share.value()) {
            Some(y) => y,
            None => {
                return false;
            },
        };
        let yb = match F::from_bytes(blind_share.value()) {
            Some(y) => y,
            None => {
                return false;
            },
        };
        let x = F::from_u64(share.identifier() as u64);
        let rhs = commitment_sum::<F, G>(&self.commitments, x);
        let g = self.feldman_verifier.generator().negated().scaled(ys);
        let h = self.generator.negated().scaled(yb);
        let res = rhs.plus(g).plus(h);
        proof {
            let p = F::order();
            let gs = mul_mod(p, self@.feldman_verifier.generator, ys.value());
            let hb = mul_mod(p, self@.generator, yb.value());
            lemma_reduce_small(p, share@.identifier as nat);
            lemma_mul_neg(p, self@.feldman_verifier.generator, ys.value());
            lemma_mul_neg(p, self@.generator, yb.value());
            lemma_add_neg_is_sub(p, gs, rhs.value());
            lemma_add_neg_is_sub(p, hb, sub_mod(p, rhs.value(), gs));
            lemma_sub_twice(p, rhs.value(), gs, hb);
            lemma_value_in_range(rhs);
            lemma_reduce_bound(p, (gs + hb) as int);
            lemma_sub_mod_zero_iff(p, rhs.value(), add_mod(p, gs, hb));
        }
        res.is_identity()
    }
}

/// A result that a dealer hands out, with `n` sound shares of each kind.
pub open spec fn result_is_sound<F: Element, G: Element>(
    r: PedersenResultView,
    s: nat,
    t: nat,
    n: nat,
) -> bool {
    &&& r.blinding < F::order()
    &&& r.blind_shares.len() == n
    &&& r.secret_shares.len() == n
    &&& forall|i: int| 0 <= i < n ==> share_is_sound(#[trigger] r.blind_shares[i], s)
    &&& forall|i: int| 0 <= i < n ==> share_is_sound(#[trigger] r.secret_shares[i], s)
    &&& pedersen_verifier_is_sound::<G>(r.verifier, t)
}

/// The binary form of a result: the blinding factor, the shares of the
/// blinding factor and those of the secret without a length prefix, then the
/// verifier.
pub open spec fn result_bytes<F: Element, G: Element>(r: PedersenResultView) -> Seq<u8> {
    F::encoding(r.blinding) + shares_bytes(r.blind_shares) + shares_bytes(r.secret_shares)
        + pedersen_verifier_bytes::<G>(r.verifier)
}

/// The result of which `bytes` are the whole binary form, for shares of width
/// `s`, threshold `t` and `n` shares of each kind.
pub open spec fn parse_result<F: Element, G: Element>(
    bytes: Seq<u8>,
    s: nat,
    t: nat,
    n: nat,
) -> Option<PedersenResultView> {
    match parse_element::<F>(bytes) {
        None => None,
        Some(blinding) => {
            let first = F::width();
            match parse_shares(bytes.skip(first as int), s, n) {
                None => None,
                Some(blind_shares) => {
                    let second = first + n * (s + 1);
                    match parse_shares(bytes.skip(second as int), s, n) {
                        None => None,
                        Some(secret_shares) => {
                            let third = second + n * (s + 1);
                            match parse_pedersen_verifier::<G>(bytes.skip(third as int), t) {
                                None => None,
                                Some((verifier, k)) => if third + k == bytes.len() {
                                    Some(
                                        PedersenResultView {
                                            blinding,
                                            blind_shares,
                                            secret_shares,
                                            verifier,
                                        },
                                    )
                                } else {
                                    None
                                },
                            }
                        },
                    }
                },
            }
        },
    }
}

/// A result as text: each element and each share in hexadecimal form.
#[derive(Debug)]
pub struct PedersenResultText {
    pub blinding: String,
    pub blind_shares: Vec<String>,
    pub secret_shares: Vec<String>,
    pub verifier: PedersenVerifierText,
}

/// What the text form of a result holds.
pub struct PedersenResultTextView {
    pub blinding: Seq<char>,
    pub blind_shares: Seq<Seq<char>>,
    pub secret_shares: Seq<Seq<char>>,
    pub verifier: PedersenVerifierTextView,
}

impl View for PedersenResultText {
    type V = PedersenResultTextView;

    open spec fn view(&self) -> PedersenResultTextView {
        PedersenResultTextView {
            blinding: self.blinding@,
            blind_shares: texts_of(self.blind_shares@),
            secret_shares: texts_of(self.secret_shares@),
            verifier: self.verifier@,
        }
    }
}

/// The text form of a result.
pub open spec fn result_text<F: Element, G: Element>(
    r: PedersenResultView,
) -> PedersenResultTextView {
    PedersenResultTextView {
        blinding: element_text::<F>(r.blinding),
        blind_shares: shares_text(r.blind_shares),
        secret_shares: shares_text(r.secret_shares),
        verifier: pedersen_verifier_text::<G>(r.verifier),
    }
}

/// The result of which `text` is the text form.
pub open spec fn parse_result_text<F: Element, G: Element>(
    text: PedersenResultTextView,
    s: nat,
    t: nat,
    n: nat,
) -> Option<PedersenResultView> {
    match (
        parse_element_text::<F>(text.blinding),
        parse_shares_text(text.blind_shares, s),
        parse_shares_text(text.secret_shares, s),
        parse_pedersen_verifier_text::<G>(text.verifier, t),
    ) {
        (Some(blinding), Some(blind_shares), Some(secret_shares), Some(verifier)) => if blind_shares.len()
            == n && secret_shares.len() == n {
            Some(PedersenResultView { blinding, blind_shares, secret_shares, verifier })
        } else {
            None
        },
        _ => None,
    }
}

/// A result whose parts are sound is sound.
proof fn lemma_result_is_sound<F: Element, G: Element>(
    r: PedersenResultView,
    s: nat,
    t: nat,
    n: nat,
)
    requires
        r.blinding < F::order(),
        r.blind_shares.len() == n,
        r.secret_shares.len() == n,
        all_identified(r.blind_shares),
        all_identified(r.secret_shares),
        all_of_width(r.blind_shares, s),
        all_of_width(r.secret_shares, s),
        pedersen_verifier_is_sound::<G>(r.verifier, t),
    ensures
        result_is_sound::<F, G>(r, s, t, n),
{
    assert forall|i: int| 0 <= i < n implies share_is_sound(#[trigger] r.blind_shares[i], s) by {
        assert(r.blind_shares[i].identifier != 0);
        assert(r.blind_shares[i].value.len() == s);
    }
    assert forall|i: int| 0 <= i < n implies share_is_sound(#[trigger] r.secret_shares[i], s) by {
        assert(r.secret_shares[i].identifier != 0);
        assert(r.secret_shares[i].value.len() == s);
    }
}

/// A result is read back from its text form as it was.
pub proof fn theorem_result_text_round_trip<F: Element, G: Element>(
    r: PedersenResultView,
    s: nat,
    t: nat,
    n: nat,
)
    requires
        result_is_sound::<F, G>(r, s, t, n),
    ensures
        parse_result_text::<F, G>(result_text::<F, G>(r), s, t, n) == Some(r),
{
    theorem_pedersen_verifier_text_round_trip::<G>(r.verifier, t);
    theorem_element_round_trip::<F>(r.blinding);
    theorem_shares_text_round_trip(r.blind_shares, s);
    theorem_shares_text_round_trip(r.secret_shares, s);
}

/// A result is read back from its binary form as it was.
pub proof fn theorem_result_round_trip<F: Element, G: Element>(
    r: PedersenResultView,
    s: nat,
    t: nat,
    n: nat,
)
    requires
        result_is_sound::<F, G>(r, s, t, n),
        t <= usize::MAX,
        G::width() >= 1,
    ensures
        parse_result::<F, G>(result_bytes::<F, G>(r), s, t, n) == Some(r),
{
    let b = F::encoding(r.blinding);
    let bs = shares_bytes(r.blind_shares);
    let ss = shares_bytes(r.secret_shares);
    let v = pedersen_verifier_bytes::<G>(r.verifier);
    let bytes = result_bytes::<F, G>(r);
    assert(b + (bs + (ss + v)) =~= bytes);
    lemma_parse_element_of_encoding::<F>(r.blinding, bs + (ss + v));
    lemma_shares_bytes_len(r.blind_shares, s);
    lemma_shares_bytes_len(r.secret_shares, s);
    let first = F::width();
    assert(bytes.skip(first as int) =~= bs + (ss + v));
    lemma_parse_shares_of_bytes(r.blind_shares, s, ss + v);
    let second = first + n * (s + 1);
    assert(bytes.skip(second as int) =~= ss + v);
    lemma_parse_shares_of_bytes(r.secret_shares, s, v);
    let third = second + n * (s + 1);
    assert(bytes.skip(third as int) =~= v + Seq::<u8>::empty());
    assert(v + Seq::<u8>::empty() =~= v);
    theorem_pedersen_verifier_round_trip::<G>(r.verifier, t, Seq::empty());
}

/// What a dealer hands out: the blinding factor, the shares of the secret and
/// of the blinding factor, aligned by identifier, and the verifier.
#[derive(Debug)]
pub struct PedersenResult<
    F: FieldElement,
    G: GroupElement<F>,
    const S: usize,
    const T: usize,
    const N: usize,
> {
    blinding: F,
    blind_shares: Vec<Share<S>>,
    secret_shares: Vec<Share<S>>,
    verifier: PedersenVerifier<F, G, T>,
}

impl<F: FieldElement, G: GroupElement<F>, const S: usize, const T: usize, const N: usize> View for PedersenResult<
    F,
    G,
    S,
    T,
    N,
> {
    type V = PedersenResultView;

    closed spec fn view(&self) -> PedersenResultView {
        PedersenResultView {
            blinding: self.blinding.value(),
            blind_shares: share_views(self.blind_shares@),
            secret_shares: share_views(self.secret_shares@),
            verifier: self.verifier@,
        }
    }
}

impl<
    F: FieldElement,
    G: GroupElement<F>,
    const S: usize,
    const T: usize,
    const N: usize,
> Clone for PedersenResult<F, G, S, T, N> {
    fn clone(&self) -> (r: Self)
        ensures
            r@ == self@,
    {
        proof {
            use_type_invariant(self);
        }
        let blind_shares = clone_shares::<S>(self.blind_shares.as_slice());
        let secret_shares = clone_shares::<S>(self.secret_shares.as_slice());
        assert(share_views(blind_shares@).len() == N);
        assert(share_views(secret_shares@).len() == N);
        PedersenResult {
            blinding: self.blinding,
            blind_shares,
            secret_shares,
            verifier: self.verifier.clone(),
        }
    }
}

impl<
    F: FieldElement,
    G: GroupElement<F>,
    const S: usize,
    const T: usize,
    const N: usize,
> PedersenResult<F, G, S, T, N> {
    #[verifier::type_invariant]
    spec fn well_formed(self) -> bool {
        self.blind_shares@.len() == N && self.secret_shares@.len() == N
    }

    /// A result from its parts. There must be `N` shares of each kind.
    pub fn new(
        blinding: F,
        blind_shares: Vec<Share<S>>,
        secret_shares: Vec<Share<S>>,
        verifier: PedersenVerifier<F, G, T>,
    ) -> (r: Result<Self, Error>)
        ensures
            r is Ok <==> blind_shares@.len() == N && secret_shares@.len() == N,
            r matches Err(e) ==> e == Error::InvalidParameters,
            r matches Ok(bundle) ==> bundle@ == (PedersenResultView {
                blinding: blinding.value(),
                blind_shares: share_views(blind_shares@),
                secret_shares: share_views(secret_shares@),
                verifier: verifier@,
            }),
    {
        if blind_shares.len() != N || secret_shares.len() != N {
            return Err(Error::InvalidParameters);
        }
        Ok(PedersenResult { blinding, blind_shares, secret_shares, verifier })
    }

    /// The binary form of the result. `from_bytes` reads it back, unless a
    /// share is the sentinel with the identifier zero.
    pub fn to_bytes(&self) -> (bytes: Vec<u8>)
        ensures
            bytes@ == result_bytes::<F, G>(self@),
            G::width() >= 1 && all_identified(self@.blind_shares) && all_identified(
                self@.secret_shares,
            ) ==> parse_result::<F, G>(bytes@, S as nat, T as nat, N as nat) == Some(self@),
    {
        let bytes = self.assemble();
        proof {
            use_type_invariant(self);
            lemma_value_in_range(self.blinding);
            if G::width() >= 1 && all_identified(self@.blind_shares) && all_identified(
                self@.secret_shares,
            ) {
                lemma_result_is_sound::<F, G>(self@, S as nat, T as nat, N as nat);
                theorem_result_round_trip::<F, G>(self@, S as nat, T as nat, N as nat);
            }
        }
        bytes
    }

    /// The parts of the binary form, one after the other.
    fn assemble(&self) -> (bytes: Vec<u8>)
        ensures
            bytes@ == result_bytes::<F, G>(self@),
            all_of_width(self@.blind_shares, S as nat),
            all_of_width(self@.secret_shares, S as nat),
            pedersen_verifier_is_sound::<G>(self@.verifier, T as nat),
    {
        let mut bytes = self.blinding.to_bytes();
        let blind = shares_to_bytes::<S>(self.blind_shares.as_slice());
        bytes.extend_from_slice(blind.as_slice());
        let secret = shares_to_bytes::<S>(self.secret_shares.as_slice());
        bytes.extend_from_slice(secret.as_slice());
        let verifier = self.verifier.to_bytes();
        bytes.extend_from_slice(verifier.as_slice());
        bytes
    }

    /// The result of which `bytes` are the whole binary form. Bytes that are
    /// no canonical element, a share with the identifier zero, a malformed
    /// length prefix and a count or a length that does not fit are refused.
    pub fn from_bytes(bytes: &[u8]) -> (r: Result<Self, Error>)
        ensures
            match parse_result::<F, G>(bytes@, S as nat, T as nat, N as nat) {
                Some(v) => r matches Ok(x) && x@ == v,
                None => r matches Err(e) && e == Error::InvalidEncoding,
            },
    {
        let total = bytes.len();
        assert(bytes@.skip(0) =~= bytes@);
        let blinding = match read_element::<F>(bytes, 0) {
            Some(b) => b,
            None => {
                return Err(Error::InvalidEncoding);
            },
        };
        let first = F::encoded_len();
        let blind_shares = match read_shares::<S>(bytes, first, N) {
            Some(shares) => shares,
            None => {
                return Err(Error::InvalidEncoding);
            },
        };
        let second = Self::after_shares(first, total);
        let secret_shares = match read_shares::<S>(bytes, second, N) {
            Some(shares) => shares,
            None => {
                return Err(Error::InvalidEncoding);
            },
        };
        let third = Self::after_shares(second, total);
        let (verifier, end) = match PedersenVerifier::<F, G, T>::read(bytes, third) {
            Some(found) => found,
            None => {
                return Err(Error::InvalidEncoding);
            },
        };
        if end != bytes.len() {
            return Err(Error::InvalidEncoding);
        }
        Ok(PedersenResult { blinding, blind_shares, secret_shares, verifier })
    }

    /// The place where `N` shares that begin at `from` end.
    fn after_shares(from: usize, total: usize) -> (end: usize)
        requires
            from + N * (S + 1) <= total,
        ensures
            end == from + N * (S + 1),
    {
        let mut end = from;
        let mut i: usize = 0;
        assert(0 * (S + 1) == 0) by (nonlinear_arith);
        while i < N
            invariant
                i <= N,
                from + N * (S + 1) <= total,
                end == from + i * (S + 1),
            decreases N - i,
        {
            assert((i + 1) * (S + 1) == i * (S + 1) + (S + 1)) by (nonlinear_arith);
            assert((i + 1) * (S + 1) <= N * (S + 1)) by (nonlinear_arith)
                requires
                    i + 1 <= N,
            ;
            end = end + S + 1;
            i += 1;
        }
        end
    }

    /// The text form of the result. `from_text` reads it back, unless a
    /// share is the sentinel with the identifier zero.
    pub fn to_text(&self) -> (text: PedersenResultText)
        ensures
            text@ == result_text::<F, G>(self@),
            all_identified(self@.blind_shares) && all_identified(self@.secret_shares)
                ==> parse_result_text::<F, G>(text@, S as nat, T as nat, N as nat) == Some(self@),
    {
        let blind_shares = shares_to_hex::<S>(self.blind_shares.as_slice());
        let secret_shares = shares_to_hex::<S>(self.secret_shares.as_slice());
        let verifier = self.verifier.to_text();
        proof {
            use_type_invariant(self);
            lemma_value_in_range(self.blinding);
            if all_identified(self@.blind_shares) && all_identified(self@.secret_shares) {
                lemma_result_is_sound::<F, G>(self@, S as nat, T as nat, N as nat);
                theorem_result_text_round_trip::<F, G>(self@, S as nat, T as nat, N as nat);
            }
        }
        PedersenResultText {
            blinding: element_to_hex::<F>(self.blinding),
            blind_shares,
            secret_shares,
            verifier,
        }
    }

    /// The result of which `text` is the text form.
    pub fn from_text(text: &PedersenResultText) -> (r: Result<Self, Error>)
        ensures
            match parse_result_text::<F, G>(text@, S as nat, T as nat, N as nat) {
                Some(v) => r matches Ok(x) && x@ == v,
                None => r matches Err(e) && e == Error::InvalidEncoding,
            },
    {
        let blinding = match element_from_hex::<F>(text.blinding.as_str()) {
            Ok(b) => b,
            Err(e) => {
                return Err(e);
            },
        };
        let blind_shares = match shares_from_hex::<S>(text.blind_shares.as_slice()) {
            Ok(shares) => shares,
            Err(e) => {
                return Err(e);
            },
        };
        let secret_shares = match shares_from_hex::<S>(text.secret_shares.as_slice()) {
            Ok(shares) => shares,
            Err(e) => {
                return Err(e);
            },
        };
        let verifier = match PedersenVerifier::<F, G, T>::from_text(&text.verifier) {
            Ok(v) => v,
            Err(e) => {
                return Err(e);
            },
        };
        if blind_shares.len() != N || secret_shares.len() != N {
            return Err(Error::InvalidEncoding);
        }
        Ok(PedersenResult { blinding, blind_shares, secret_shares, verifier })
    }

    /// The blinding factor that was supplied or drawn.
    pub fn blinding(&self) -> (b: F)
        ensures
            b.value() == self@.blinding,
    {
        self.blinding
    }

    /// The shares of the blinding factor.
    pub fn blind_shares(&self) -> (shares: &[Share<S>])
        ensures
            share_views(shares@) == self@.blind_shares,
            shares@.len() == N,
    {
        proof {
            use_type_invariant(self);
        }
        self.blind_shares.as_slice()
    }

    /// The shares of the secret.
    pub fn secret_shares(&self) -> (shares: &[Share<S>])
        ensures
            share_views(shares@) == self@.secret_shares,
            shares@.len() == N,
    {
        proof {
            use_type_invariant(self);
        }
        self.secret_shares.as_slice()
    }

    /// The verifier against which the shares are checked.
    pub fn pedersen_verifier(&self) -> (v: &PedersenVerifier<F, G, T>)
        ensures
            v@ == self@.verifier,
    {
        &self.verifier
    }
}

/// Pedersen's scheme with threshold `T` and `N` shares.
#[derive(Clone, Copy, Debug)]
pub struct Pedersen<const T: usize, const N: usize>;

impl<const T: usize, const N: usize> Pedersen<T, N> {
    /// Deals the shares of two polynomials and commits to them: to the
    /// secret's alone under `g`, and to both together under `g` and `h`.
    pub fn deal<F: FieldElement, G: GroupElement<F>, const S: usize>(
        g: G,
        h: G,
        secret_polynomial: &Polynomial<F, T>,
        blinding_polynomial: &Polynomial<F, T>,
    ) -> (r: Result<PedersenResult<F, G, S, T, N>, Error>)
        ensures
            r is Ok <==> params_valid(T as nat, N as nat, S as nat) && S == F::width(),
            r matches Err(e) ==> e == Error::InvalidParameters,
            r matches Ok(bundle) ==> bundle@ == dealt_bundle::<F>(
                g.value(),
                h.value(),
                secret_polynomial@,
                blinding_polynomial@,
                N as nat,
            ),
    {
        let secret_shares = match Shamir::<T, N>::shares_of::<F, S>(secret_polynomial) {
            Ok(shares) => shares,
            Err(e) => {
                return Err(e);
            },
        };
        let blind_shares = match Shamir::<T, N>::shares_of::<F, S>(blinding_polynomial) {
            Ok(shares) => shares,
            Err(e) => {
                return Err(e);
            },
        };
        let feldman_verifier = Feldman::<T, N>::commit::<F, G>(g, secret_polynomial);
        let a = secret_polynomial.coefficients();
        let b = blinding_polynomial.coefficients();
        let feldman = feldman_verifier.commitments();
        let mut commitments: Vec<G> = Vec::new();
        let mut i: usize = 0;
        proof {
            G::scalars_match();
        }
        while i < T
            invariant
                i <= T,
                a@.len() == T,
                b@.len() == T,
                feldman@.len() == T,
                F::order() == G::order(),
                values_of(feldman@) == feldman_commitments(
                    F::order(),
                    g.value(),
                    values_of(a@),
                ),
                commitments@.len() == i,
                forall|k: int|
                    0 <= k < i ==> (#[trigger] commitments@[k]).value() == add_mod(
                        F::order(),
                        mul_mod(F::order(), g.value(), a@[k].value()),
                        mul_mod(F::order(), h.value(), b@[k].value()),
                    ),
            decreases T - i,
        {
            let g_i = feldman[i];
            let h_i = h.scaled(b[i]);
            proof {
                assert(values_of(feldman@)[i as int] == g_i.value());
                assert(values_of(a@)[i as int] == a@[i as int].value());
            }
            commitments.push(g_i.plus(h_i));
            i += 1;
        }
        proof {
            let av = values_of(a@);
            let bv = values_of(b@);
            assert forall|k: int| 0 <= k < T implies values_of(commitments@)[k]
                == #[trigger] pedersen_commitments(F::order(), g.value(), h.value(), av, bv)[k] by {
                assert(commitments@[k].value() == add_mod(
                    F::order(),
                    mul_mod(F::order(), g.value(), a@[k].value()),
                    mul_mod(F::order(), h.value(), b@[k].value()),
                ));
            }
            assert(values_of(commitments@) =~= pedersen_commitments(
                F::order(),
                g.value(),
                h.value(),
                av,
                bv,
            ));
            assert(bv[0] == b@[0].value());
            assert(share_views(secret_shares@).len() == N);
            assert(share_views(blind_shares@).len() == N);
        }
        let blinding = b[0];
        let verifier = PedersenVerifier { generator: h, commitments, feldman_verifier };
        Ok(PedersenResult { blinding, blind_shares, secret_shares, verifier })
    }

    /// Splits `secret` into `N` shares with blinded commitments.
    ///
    /// The seed is the 32 bytes drawn from the caller's random source; all
    /// further randomness comes from the stream that it starts. The shares are
    /// committed under `share_generator`, or else the canonical generator. The
    /// blinding generator is `blind_factor_generator`, or else the share
    /// generator times a scalar from the stream. The blinding factor is
    /// `blinding`, or else a scalar from the stream.
    pub fn split_secret<F: FieldElement, G: GroupElement<F>, const S: usize>(
        secret: F,
        blinding: Option<F>,
        share_generator: Option<G>,
        blind_factor_generator: Option<G>,
        seed: &[u8],
    ) -> (r: Result<PedersenResult<F, G, S, T, N>, Error>)
        ensures
            r is Ok <==> params_valid(T as nat, N as nat, S as nat) && S == F::width()
                && seed@.len() == 32,
            r matches Err(e) ==> e == (if params_valid(T as nat, N as nat, S as nat) && S
                == F::width() {
                Error::InvalidRng
            } else {
                Error::InvalidParameters
            }),
            r matches Ok(bundle) ==> exists|h: nat, a: Seq<nat>, b: Seq<nat>|
                {
                    &&& a.len() == T
                    &&& b.len() == T
                    &&& a[0] == secret.value()
                    &&& blinding matches Some(supplied) ==> b[0] == supplied.value()
                    &&& blind_factor_generator matches Some(supplied) ==> h == supplied.value()
                    &&& bundle@ == #[trigger] dealt_bundle::<F>(
                        chosen_generator(share_generator),
                        h,
                        a,
                        b,
                        N as nat,
                    )
                },
    {
        if Shamir::<T, N>::check_params(S).is_err() || F::encoded_len() != S {
            return Err(Error::InvalidParameters);
        }
        let mut rng = match seeded_stream(seed) {
            Ok(rng) => rng,
            Err(e) => {
                return Err(e);
            },
        };
        let g = match share_generator {
            Some(g) => g,
            None => G::generator(),
        };
        let t = F::random(&mut rng);
        let h = match blind_factor_generator {
            Some(h) => h,
            None => g.scaled(t),
        };
        let blinding = match blinding {
            Some(b) => b,
            None => F::random(&mut rng),
        };
        let secret_polynomial = match Polynomial::<F, T>::build(secret, &mut rng) {
            Ok(polynomial) => polynomial,
            Err(e) => {
                return Err(e);
            },
        };
        let blinding_polynomial = match Polynomial::<F, T>::build(blinding, &mut rng) {
            Ok(polynomial) => polynomial,
            Err(e) => {
                return Err(e);
            },
        };
        match Self::deal::<F, G, S>(g, h, &secret_polynomial, &blinding_polynomial) {
            Ok(bundle) => {
                proof {
                    assert(bundle@ == dealt_bundle::<F>(
                        chosen_generator(share_generator),
                        h.value(),
                        secret_polynomial@,
                        blinding_polynomial@,
                        N as nat,
                    ));
                }
                Ok(bundle)
            },
            Err(e) => Err(e),
        }
    }

    /// Recovers the secret scalar from shares, as `Shamir` does.
    pub fn combine_shares<F: FieldElement, const S: usize>(shares: &[Share<S>]) -> (r: Result<
        F,
        Error,
    >)
        ensures
            match combined::<F>(share_views(shares@), T as nat) {
                Ok(v) => r matches Ok(secret) && secret.value() == v,
                Err(e) => r matches Err(x) && x == e,
            },
    {
        Shamir::<T, N>::combine_shares::<F, S>(shares)
    }

    /// Recovers a group element from shares whose values are group elements,
    /// as `Shamir` does.
    pub fn combine_shares_group<F: FieldElement, G: GroupElement<F>, const S: usize>(
        shares: &[Share<S>],
    ) -> (r: Result<G, Error>)
        ensures
            match combined::<G>(share_views(shares@), T as nat) {
                Ok(v) => r matches Ok(element) && element.value() == v,
                Err(e) => r matches Err(x) && x == e,
            },
    {
        Shamir::<T, N>::combine_shares_group::<F, G, S>(shares)
    }
}

} // verus!
