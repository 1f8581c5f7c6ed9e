//! What the library asks of a backend: a prime field of scalars and a group of
//! the same prime order, each with one canonical byte encoding per element.
//!
//! Everything that the library proves, it proves from the contracts of these
//! traits. They are not proved here: an implementation that the verifier does
//! not read is taken at its word.

use crate::modular::{add_mod, is_field_order, is_inverse, mul_mod, neg_mod, reduce, sub_mod};
use rand_chacha::ChaCha20Rng;
use vstd::pervasive::arbitrary;
use vstd::prelude::*;

verus! {

/// An element of a structure with a prime number of elements, each of which
/// has exactly one encoding as bytes.
pub trait Element: Copy + Sized {
    /// The number of elements: the prime `p`.
    ///
    /// The five functions of the model are what an implementation is
    /// measured against. One that the verifier reads defines them, and proves
    /// `element_laws` of its definitions. One that the verifier does not read
    /// leaves them as they stand here, open, and answers for the laws itself.
    closed spec fn order() -> nat {
        arbitrary()
    }

    /// The residue modulo `p` that the element stands for.
    closed spec fn value(self) -> nat {
        arbitrary()
    }

    /// The length in bytes of every canonical encoding.
    closed spec fn width() -> nat {
        arbitrary()
    }

    /// The canonical encoding of the element with the given value.
    closed spec fn encoding(v: nat) -> Seq<u8> {
        arbitrary()
    }

    /// The value that a byte string encodes, if it is canonical.
    closed spec fn decoding(bytes: Seq<u8>) -> Option<nat> {
        arbitrary()
    }

    /// The laws of the model. The residues form a field, wide enough for
    /// every share identifier. Every element stands for a residue. Every
    /// residue has an encoding of the fixed width, which decodes to it, and
    /// nothing else decodes to it.
    proof fn element_laws()
        ensures
            is_field_order(Self::order()),
            Self::order() > 255,
            forall|e: Self| (#[trigger] e.value()) < Self::order(),
            forall|v: nat|
                v < Self::order() ==> (#[trigger] Self::encoding(v)).len() == Self::width()
                    && Self::decoding(Self::encoding(v)) == Some(v),
            forall|bytes: Seq<u8>|
                (#[trigger] Self::decoding(bytes)) is Some ==> Self::decoding(bytes).unwrap()
                    < Self::order() && Self::encoding(Self::decoding(bytes).unwrap()) == bytes,
    ;

    fn encoded_len() -> (n: usize)
        ensures
            n == Self::width(),
    ;

    fn to_bytes(self) -> (bytes: Vec<u8>)
        ensures
            bytes@ == Self::encoding(self.value()),
    ;

    fn from_bytes(bytes: &[u8]) -> (r: Option<Self>)
        ensures
            match r {
                Some(e) => Self::decoding(bytes@) == Some(e.value()),
                None => Self::decoding(bytes@) is None,
            },
    ;
}

/// The residues form a field, wide enough for every share identifier.
pub proof fn lemma_order<E: Element>()
    ensures
        is_field_order(E::order()),
        E::order() > 255,
{
    E::element_laws();
}

/// Every element stands for a residue.
pub proof fn lemma_value_in_range<E: Element>(e: E)
    ensures
        e.value() < E::order(),
{
    E::element_laws();
}

/// Every value has an encoding of the fixed width, which decodes to it.
pub proof fn lemma_encoding_is_canonical<E: Element>(v: nat)
    requires
        v < E::order(),
    ensures
        E::encoding(v).len() == E::width(),
        E::decoding(E::encoding(v)) == Some(v),
{
    E::element_laws();
}

/// Only the encoding of a value decodes to it.
pub proof fn lemma_decoding_is_canonical<E: Element>(bytes: Seq<u8>)
    requires
        E::decoding(bytes) is Some,
    ensures
        E::decoding(bytes).unwrap() < E::order(),
        E::encoding(E::decoding(bytes).unwrap()) == bytes,
{
    E::element_laws();
}

/// The values of a sequence of elements, in order.
pub open spec fn values_of<E: Element>(elements: Seq<E>) -> Seq<nat> {
    Seq::new(elements.len(), |i: int| elements[i].value())
}

/// A scalar: an element of the prime field with `order()` elements.
pub trait FieldElement: Element {
    fn zero() -> (r: Self)
        ensures
            r.value() == 0,
    ;

    fn one() -> (r: Self)
        ensures
            r.value() == 1,
    ;

    /// The image of an unsigned integer in the field.
    fn from_u64(x: u64) -> (r: Self)
        ensures
            r.value() == reduce(Self::order(), x as int),
    ;

    fn plus(self, rhs: Self) -> (r: Self)
        ensures
            r.value() == add_mod(Self::order(), self.value(), rhs.value()),
    ;

    fn minus(self, rhs: Self) -> (r: Self)
        ensures
            r.value() == sub_mod(Self::order(), self.value(), rhs.value()),
    ;

    fn times(self, rhs: Self) -> (r: Self)
        ensures
            r.value() == mul_mod(Self::order(), self.value(), rhs.value()),
    ;

    fn negated(self) -> (r: Self)
        ensures
            r.value() == neg_mod(Self::order(), self.value()),
    ;

    /// The multiplicative inverse; zero alone has none.
    fn inverted(self) -> (r: Option<Self>)
        ensures
            match r {
                Some(i) => self.value() != 0 && is_inverse(Self::order(), self.value(), i.value()),
                None => self.value() == 0,
            },
    ;

    /// A scalar drawn from the stream. Nothing is known of it beforehand.
    fn random(rng: &mut ChaCha20Rng) -> (r: Self);
}

/// An element of the group of prime order in which commitments live. Its
/// `value()` is its index: the group is cyclic, so each element is exactly one
/// multiple `k` of the canonical generator, `0 <= k < order()`.
pub trait GroupElement<F: FieldElement>: Element {
    /// The scalars of the group form the field `F`.
    proof fn scalars_match()
        ensures
            Self::order() == F::order(),
    ;

    fn identity() -> (r: Self)
        ensures
            r.value() == 0,
    ;

    fn generator() -> (r: Self)
        ensures
            r.value() == 1,
    ;

    fn plus(self, rhs: Self) -> (r: Self)
        ensures
            r.value() == add_mod(Self::order(), self.value(), rhs.value()),
    ;

    fn negated(self) -> (r: Self)
        ensures
            r.value() == neg_mod(Self::order(), self.value()),
    ;

    /// The multiple of the element by a scalar.
    fn scaled(self, s: F) -> (r: Self)
        ensures
            r.value() == mul_mod(Self::order(), self.value(), s.value()),
    ;

    fn is_identity(self) -> (b: bool)
        ensures
            b == (self.value() == 0),
    ;
}

} // verus!
