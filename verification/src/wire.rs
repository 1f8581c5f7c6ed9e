//! The binary form of elements and of sequences of elements: the canonical
//! bytes of each element, and before a sequence of variable length the number
//! of its elements as a length prefix.

use crate::backend::{lemma_encoding_is_canonical};
use crate::backend::{values_of, Element};
use crate::error::Error;
use crate::share::texts_of;
use crate::text::{decode_hex, encode_hex, hex_bytes, hex_text, theorem_hex_round_trip};
use crate::varint::{
    encode_prefix, prefix_len, prefix_value, read_prefix, theorem_prefix_round_trip, varint,
};
use vstd::prelude::*;
use vstd::slice::slice_subrange;

verus! {

/// All values are residues of the structure.
pub open spec fn all_in_range<E: Element>(values: Seq<nat>) -> bool {
    forall|i: int| 0 <= i < values.len() ==> #[trigger] values[i] < E::order()
}

/// The encodings of the values, one after the other.
pub open spec fn run_bytes<E: Element>(values: Seq<nat>) -> Seq<u8>
    decreases values.len(),
{
    if values.len() == 0 {
        Seq::empty()
    } else {
        run_bytes::<E>(values.drop_last()) + E::encoding(values.last())
    }
}

/// The binary form of a sequence of variable length: the prefix of its
/// length, then the encodings of its values.
pub open spec fn vector_bytes<E: Element>(values: Seq<nat>) -> Seq<u8> {
    varint(values.len()) + run_bytes::<E>(values)
}

/// The value of the element whose encoding `bytes` start with.
pub open spec fn parse_element<E: Element>(bytes: Seq<u8>) -> Option<nat> {
    if bytes.len() >= E::width() {
        E::decoding(bytes.take(E::width() as int))
    } else {
        None
    }
}

/// The values of the `count` elements whose encodings `bytes` start with.
pub open spec fn parse_run<E: Element>(bytes: Seq<u8>, count: nat) -> Option<Seq<nat>>
    decreases count,
{
    if count == 0 {
        Some(Seq::empty())
    } else if bytes.len() < count * E::width() {
        None
    } else {
        match parse_run::<E>(bytes, (count - 1) as nat) {
            None => None,
            Some(values) => match parse_element::<E>(bytes.skip((count - 1) * E::width())) {
                None => None,
                Some(v) => Some(values.push(v)),
            },
        }
    }
}

/// The values of the sequence whose binary form `bytes` start with, and the
/// number of bytes that the form takes. Elements without width are refused.
pub open spec fn parse_vector<E: Element>(bytes: Seq<u8>) -> Option<(Seq<nat>, nat)> {
    match prefix_value(bytes) {
        None => None,
        Some(count) => {
            let k = prefix_len(bytes).unwrap();
            if E::width() == 0 {
                None
            } else {
                match parse_run::<E>(bytes.skip(k as int), count) {
                    None => None,
                    Some(values) => Some((values, k + count * E::width())),
                }
            }
        },
    }
}

/// The values of the sequence of which `bytes` are the whole binary form.
pub open spec fn parse_whole_vector<E: Element>(bytes: Seq<u8>) -> Option<Seq<nat>> {
    match parse_vector::<E>(bytes) {
        Some((values, k)) => if k == bytes.len() {
            Some(values)
        } else {
            None
        },
        None => None,
    }
}

/// Where a shorter run cannot be read, a longer one cannot either.
pub proof fn lemma_run_failure_persists<E: Element>(bytes: Seq<u8>, i: nat, j: nat)
    requires
        i <= j,
        parse_run::<E>(bytes, i) is None,
    ensures
        parse_run::<E>(bytes, j) is None,
    decreases j,
{
    if i < j {
        lemma_run_failure_persists::<E>(bytes, i, (j - 1) as nat);
    }
}

/// The element at place `at` of `bytes`.
pub(crate) fn read_element<E: Element>(bytes: &[u8], at: usize) -> (r: Option<E>)
    requires
        at <= bytes@.len(),
    ensures
        match r {
            Some(e) => parse_element::<E>(bytes@.skip(at as int)) == Some(e.value()) && at
                + E::width() <= bytes@.len(),
            None => parse_element::<E>(bytes@.skip(at as int)) is None,
        },
{
    let w = E::encoded_len();
    if bytes.len() - at < w {
        return None;
    }
    let chunk = slice_subrange(bytes, at, at + w);
    assert(chunk@ =~= bytes@.skip(at as int).take(w as int));
    E::from_bytes(chunk)
}

/// The `count` elements from place `at` of `bytes` on.
pub(crate) fn read_run<E: Element>(bytes: &[u8], at: usize, count: usize) -> (r: Option<Vec<E>>)
    requires
        at <= bytes@.len(),
    ensures
        match r {
            Some(elements) => parse_run::<E>(bytes@.skip(at as int), count as nat) == Some(
                values_of(elements@),
            ) && elements@.len() == count && at + count * E::width() <= bytes@.len(),
            None => parse_run::<E>(bytes@.skip(at as int), count as nat) is None,
        },
{
    let w = E::encoded_len();
    let total = bytes.len();
    let ghost b = bytes@.skip(at as int);
    let mut elements: Vec<E> = Vec::new();
    let mut pos: usize = at;
    let mut i: usize = 0;
    assert(values_of(elements@) =~= Seq::<nat>::empty());
    assert(0 * E::width() == 0) by (nonlinear_arith);
    while i < count
        invariant
            i <= count,
            w == E::width(),
            total == bytes@.len(),
            b == bytes@.skip(at as int),
            at <= pos <= bytes@.len(),
            pos == at + i * w,
            elements@.len() == i,
            parse_run::<E>(b, i as nat) == Some(values_of(elements@)),
        decreases count - i,
    {
        assert((i + 1) * w == i * w + w) by (nonlinear_arith);
        assert(b.skip(i * w) =~= bytes@.skip(pos as int));
        match read_element::<E>(bytes, pos) {
            Some(e) => {
                proof {
                    assert(values_of(elements@.push(e)) =~= values_of(elements@).push(e.value()));
                    assert(bytes@.skip(pos as int).len() >= w);
                }
                elements.push(e);
                pos = pos + w;
            },
            None => {
                proof {
                    assert(parse_run::<E>(b, (i + 1) as nat) is None);
                    lemma_run_failure_persists::<E>(b, (i + 1) as nat, count as nat);
                }
                return None;
            },
        }
        i += 1;
    }
    Some(elements)
}

/// The sequence of variable length at place `at` of `bytes`, and the place
/// where its form ends.
pub(crate) fn read_vector<E: Element>(bytes: &[u8], at: usize) -> (r: Option<(Vec<E>, usize)>)
    requires
        at <= bytes@.len(),
    ensures
        match r {
            Some((elements, end)) => parse_vector::<E>(bytes@.skip(at as int)) == Some(
                (values_of(elements@), (end - at) as nat),
            ) && at <= end <= bytes@.len(),
            None => parse_vector::<E>(bytes@.skip(at as int)) is None,
        },
{
    let w = E::encoded_len();
    let rest = slice_subrange(bytes, at, bytes.len());
    assert(rest@ =~= bytes@.skip(at as int));
    let (n, k) = match read_prefix(rest) {
        Some(found) => found,
        None => {
            return None;
        },
    };
    if w == 0 {
        return None;
    }
    let remaining = bytes.len() - at - k;
    let ghost payload = rest@.skip(k as int);
    if n > (remaining / w) as u128 {
        proof {
            assert(n as nat * E::width() > remaining) by (nonlinear_arith)
                requires
                    n > remaining / w,
                    w >= 1,
                    w == E::width(),
            ;
        }
        return None;
    }
    let count = n as usize;
    proof {
        assert(count * w <= remaining) by (nonlinear_arith)
            requires
                count <= remaining / w,
                w >= 1,
        ;
        assert(payload =~= bytes@.skip((at + k) as int));
    }
    match read_run::<E>(bytes, at + k, count) {
        Some(elements) => Some((elements, at + k + count * w)),
        None => None,
    }
}

/// The encodings of the elements, one after the other.
pub(crate) fn encode_run<E: Element>(elements: &[E]) -> (bytes: Vec<u8>)
    ensures
        bytes@ == run_bytes::<E>(values_of(elements@)),
{
    let mut bytes: Vec<u8> = Vec::new();
    let mut i: usize = 0;
    let ghost values = values_of(elements@);
    while i < elements.len()
        invariant
            i <= elements@.len(),
            values == values_of(elements@),
            bytes@ == run_bytes::<E>(values.take(i as int)),
        decreases elements@.len() - i,
    {
        let chunk = elements[i].to_bytes();
        proof {
            let next = values.take(i + 1);
            assert(next.drop_last() =~= values.take(i as int));
            assert(next.last() == elements@[i as int].value());
        }
        bytes.extend_from_slice(chunk.as_slice());
        i += 1;
    }
    assert(values.take(elements@.len() as int) =~= values);
    bytes
}

/// The binary form of a sequence of elements of variable length.
pub fn encode_elements<E: Element>(elements: &[E]) -> (bytes: Vec<u8>)
    ensures
        bytes@ == vector_bytes::<E>(values_of(elements@)),
{
    let mut bytes = encode_prefix(elements.len());
    let run = encode_run::<E>(elements);
    bytes.extend_from_slice(run.as_slice());
    bytes
}

/// The sequence of elements of which `bytes` are the whole binary form. A
/// malformed prefix, a count that the payload does not match, and bytes that
/// are no canonical element are refused.
pub fn decode_elements<E: Element>(bytes: &[u8]) -> (r: Result<Vec<E>, Error>)
    ensures
        match parse_whole_vector::<E>(bytes@) {
            Some(values) => r matches Ok(elements) && values_of(elements@) == values,
            None => r matches Err(e) && e == Error::InvalidEncoding,
        },
{
    assert(bytes@.skip(0) =~= bytes@);
    match read_vector::<E>(bytes, 0) {
        Some((elements, end)) => {
            if end == bytes.len() {
                Ok(elements)
            } else {
                Err(Error::InvalidEncoding)
            }
        },
        None => Err(Error::InvalidEncoding),
    }
}

/// The element of which `bytes` are the canonical encoding.
pub fn decode_element<E: Element>(bytes: &[u8]) -> (r: Result<E, Error>)
    ensures
        match E::decoding(bytes@) {
            Some(v) => r matches Ok(e) && e.value() == v,
            None => r matches Err(e) && e == Error::InvalidEncoding,
        },
{
    match E::from_bytes(bytes) {
        Some(e) => Ok(e),
        None => Err(Error::InvalidEncoding),
    }
}

/// An encoding is read back as the value that it encodes, whatever follows.
pub proof fn lemma_parse_element_of_encoding<E: Element>(v: nat, rest: Seq<u8>)
    requires
        v < E::order(),
    ensures
        parse_element::<E>(E::encoding(v) + rest) == Some(v),
        E::encoding(v).len() == E::width(),
{
    lemma_encoding_is_canonical::<E>(v);
    assert((E::encoding(v) + rest).take(E::width() as int) =~= E::encoding(v));
}

/// A run of encodings is as long as its elements are wide.
pub proof fn lemma_run_bytes_len<E: Element>(values: Seq<nat>)
    requires
        all_in_range::<E>(values),
    ensures
        run_bytes::<E>(values).len() == values.len() * E::width(),
    decreases values.len(),
{
    if values.len() > 0 {
        lemma_run_bytes_len::<E>(values.drop_last());
        lemma_encoding_is_canonical::<E>(values.last());
        assert((values.len() - 1) * E::width() + E::width() == values.len() * E::width())
            by (nonlinear_arith);
    } else {
        assert(0 * E::width() == 0) by (nonlinear_arith);
    }
}

/// A run of encodings is read back as the values that it encodes, whatever
/// follows.
pub proof fn lemma_parse_run_of_run_bytes<E: Element>(values: Seq<nat>, rest: Seq<u8>)
    requires
        all_in_range::<E>(values),
    ensures
        parse_run::<E>(run_bytes::<E>(values) + rest, values.len()) == Some(values),
    decreases values.len(),
{
    let bytes = run_bytes::<E>(values) + rest;
    if values.len() > 0 {
        let front = values.drop_last();
        let last = E::encoding(values.last());
        lemma_run_bytes_len::<E>(values);
        lemma_run_bytes_len::<E>(front);
        assert(run_bytes::<E>(front) + (last + rest) =~= bytes);
        lemma_parse_run_of_run_bytes::<E>(front, last + rest);
        assert(bytes.skip((values.len() - 1) * E::width()) =~= last + rest);
        lemma_parse_element_of_encoding::<E>(values.last(), rest);
        assert(front.push(values.last()) =~= values);
    }
}

/// The binary form of a sequence is read back as that sequence, whatever
/// follows it.
pub proof fn theorem_vector_round_trip<E: Element>(values: Seq<nat>, rest: Seq<u8>)
    requires
        all_in_range::<E>(values),
        values.len() <= usize::MAX,
        E::width() >= 1,
    ensures
        parse_vector::<E>(vector_bytes::<E>(values) + rest) == Some(
            (values, vector_bytes::<E>(values).len()),
        ),
{
    let n = values.len();
    let bytes = vector_bytes::<E>(values) + rest;
    assert(varint(n) + (run_bytes::<E>(values) + rest) =~= bytes);
    theorem_prefix_round_trip(n, run_bytes::<E>(values) + rest);
    assert(bytes.skip(varint(n).len() as int) =~= run_bytes::<E>(values) + rest);
    lemma_parse_run_of_run_bytes::<E>(values, rest);
    lemma_run_bytes_len::<E>(values);
}

/// The text of the element with the given value: the hexadecimal form of its
/// canonical bytes.
pub open spec fn element_text<E: Element>(v: nat) -> Seq<char> {
    hex_text(E::encoding(v))
}

/// The value of the element of which `text` is the hexadecimal form.
pub open spec fn parse_element_text<E: Element>(text: Seq<char>) -> Option<nat> {
    match hex_bytes(text) {
        Some(bytes) => E::decoding(bytes),
        None => None,
    }
}

/// The texts of the elements with the given values, in order.
pub open spec fn elements_text<E: Element>(values: Seq<nat>) -> Seq<Seq<char>> {
    Seq::new(values.len(), |i: int| element_text::<E>(values[i]))
}

/// The values of the elements of which `texts` are the hexadecimal forms.
pub open spec fn parse_elements_text<E: Element>(texts: Seq<Seq<char>>) -> Option<Seq<nat>> {
    if forall|i: int| 0 <= i < texts.len() ==> parse_element_text::<E>(#[trigger] texts[i]) is Some {
        Some(Seq::new(texts.len(), |i: int| parse_element_text::<E>(texts[i]).unwrap()))
    } else {
        None
    }
}

/// The element as text.
pub fn element_to_hex<E: Element>(e: E) -> (text: String)
    ensures
        text@ == element_text::<E>(e.value()),
{
    let bytes = e.to_bytes();
    encode_hex(bytes.as_slice())
}

/// The element of which `text` is the hexadecimal form. Text that is not
/// hexadecimal, and bytes that are no canonical element, are refused.
pub fn element_from_hex<E: Element>(text: &str) -> (r: Result<E, Error>)
    ensures
        match parse_element_text::<E>(text@) {
            Some(v) => r matches Ok(e) && e.value() == v,
            None => r matches Err(e) && e == Error::InvalidEncoding,
        },
{
    match decode_hex(text) {
        Ok(bytes) => decode_element::<E>(bytes.as_slice()),
        Err(_) => Err(Error::InvalidEncoding),
    }
}

/// The elements as texts, in order.
pub fn elements_to_hex<E: Element>(elements: &[E]) -> (texts: Vec<String>)
    ensures
        texts_of(texts@) == elements_text::<E>(values_of(elements@)),
{
    let mut texts: Vec<String> = Vec::new();
    let mut i: usize = 0;
    while i < elements.len()
        invariant
            i <= elements@.len(),
            texts@.len() == i,
            forall|k: int|
                0 <= k < i ==> (#[trigger] texts@[k])@ == element_text::<E>(elements@[k].value()),
        decreases elements@.len() - i,
    {
        texts.push(element_to_hex::<E>(elements[i]));
        i += 1;
    }
    assert(texts_of(texts@) =~= elements_text::<E>(values_of(elements@)));
    texts
}

/// The elements of which `texts` are the hexadecimal forms, in order.
pub fn elements_from_hex<E: Element>(texts: &[String]) -> (r: Result<Vec<E>, Error>)
    ensures
        match parse_elements_text::<E>(texts_of(texts@)) {
            Some(values) => r matches Ok(elements) && values_of(elements@) == values,
            None => r matches Err(e) && e == Error::InvalidEncoding,
        },
{
    let ghost all = texts_of(texts@);
    let mut elements: Vec<E> = Vec::new();
    let mut i: usize = 0;
    while i < texts.len()
        invariant
            i <= texts@.len(),
            all == texts_of(texts@),
            elements@.len() == i,
            forall|k: int|
                0 <= k < i ==> parse_element_text::<E>(#[trigger] all[k]) == Some(
                    elements@[k].value(),
                ),
        decreases texts@.len() - i,
    {
        assert(all[i as int] == texts@[i as int]@);
        match element_from_hex::<E>(texts[i].as_str()) {
            Ok(e) => {
                elements.push(e);
            },
            Err(_) => {
                return Err(Error::InvalidEncoding);
            },
        }
        i += 1;
    }
    assert(values_of(elements@) =~= parse_elements_text::<E>(all).unwrap());
    Ok(elements)
}

/// An element is read back from its bytes, and from its text, as it was.
pub proof fn theorem_element_round_trip<E: Element>(v: nat)
    requires
        v < E::order(),
    ensures
        E::decoding(E::encoding(v)) == Some(v),
        parse_element_text::<E>(element_text::<E>(v)) == Some(v),
{
    lemma_encoding_is_canonical::<E>(v);
    theorem_hex_round_trip(E::encoding(v));
}

/// Elements are read back from their texts as they were.
pub proof fn theorem_elements_text_round_trip<E: Element>(values: Seq<nat>)
    requires
        all_in_range::<E>(values),
    ensures
        parse_elements_text::<E>(elements_text::<E>(values)) == Some(values),
{
    let texts = elements_text::<E>(values);
    assert forall|i: int| 0 <= i < texts.len() implies parse_element_text::<E>(
        #[trigger] texts[i],
    ) == Some(values[i]) by {
        theorem_element_round_trip::<E>(values[i]);
    }
    assert(parse_elements_text::<E>(texts).unwrap() =~= values);
}

} // verus!
