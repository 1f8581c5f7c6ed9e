//! A share: a one-byte identifier and the canonical bytes of one element.

use crate::error::Error;
use crate::text::{decode_hex, encode_hex, hex_bytes, hex_text, theorem_hex_round_trip};
use vstd::prelude::*;
use vstd::slice::{slice_subrange, slice_to_vec};

verus! {

/// What a share holds.
pub struct ShareView {
    /// The evaluation point; zero stands for the secret itself.
    pub identifier: u8,
    /// The canonical bytes of the value at that point.
    pub value: Seq<u8>,
}

/// A share whose value is `S` bytes long.
#[derive(Debug)]
pub struct Share<const S: usize> {
    identifier: u8,
    value: Vec<u8>,
}

impl<const S: usize> View for Share<S> {
    type V = ShareView;

    closed spec fn view(&self) -> ShareView {
        ShareView { identifier: self.identifier, value: self.value@ }
    }
}

/// What the shares of a slice hold, in order.
pub open spec fn share_views<const S: usize>(shares: Seq<Share<S>>) -> Seq<ShareView> {
    Seq::new(shares.len(), |i: int| shares[i]@)
}

/// The texts that a slice of strings holds, in order.
pub open spec fn texts_of(strings: Seq<String>) -> Seq<Seq<char>> {
    Seq::new(strings.len(), |i: int| strings[i]@)
}

/// The hexadecimal forms of the shares, in order.
pub open spec fn shares_text(shares: Seq<ShareView>) -> Seq<Seq<char>> {
    Seq::new(shares.len(), |i: int| hex_text(share_bytes(shares[i])))
}

/// The shares of which `texts` are the hexadecimal forms, in order.
pub open spec fn parse_shares_text(texts: Seq<Seq<char>>, s: nat) -> Option<Seq<ShareView>> {
    if forall|i: int| 0 <= i < texts.len() ==> parse_share_text(#[trigger] texts[i], s) is Some {
        Some(Seq::new(texts.len(), |i: int| parse_share_text(texts[i], s).unwrap()))
    } else {
        None
    }
}

/// The bytes of a share as it is stored and sent: the identifier, then the value.
pub open spec fn share_bytes(v: ShareView) -> Seq<u8> {
    seq![v.identifier] + v.value
}

/// The share whose bytes `bytes` start with, where its value is `s` bytes
/// long. The identifier zero is refused.
pub open spec fn parse_share(bytes: Seq<u8>, s: nat) -> Option<ShareView> {
    if bytes.len() >= s + 1 && bytes[0] != 0 {
        Some(ShareView { identifier: bytes[0], value: bytes.subrange(1, (s + 1) as int) })
    } else {
        None
    }
}

/// The share of which `bytes` are the whole.
pub open spec fn parse_whole_share(bytes: Seq<u8>, s: nat) -> Option<ShareView> {
    if bytes.len() == s + 1 {
        parse_share(bytes, s)
    } else {
        None
    }
}

/// The share of which `text` is the hexadecimal form.
pub open spec fn parse_share_text(text: Seq<char>, s: nat) -> Option<ShareView> {
    match hex_bytes(text) {
        Some(bytes) => parse_whole_share(bytes, s),
        None => None,
    }
}

/// The bytes of the shares, one share after the other.
pub open spec fn shares_bytes(shares: Seq<ShareView>) -> Seq<u8>
    decreases shares.len(),
{
    if shares.len() == 0 {
        Seq::empty()
    } else {
        shares_bytes(shares.drop_last()) + share_bytes(shares.last())
    }
}

/// The `count` shares whose bytes `bytes` start with.
pub open spec fn parse_shares(bytes: Seq<u8>, s: nat, count: nat) -> Option<Seq<ShareView>>
    decreases count,
{
    if count == 0 {
        Some(Seq::empty())
    } else if bytes.len() < count * (s + 1) {
        None
    } else {
        match parse_shares(bytes, s, (count - 1) as nat) {
            None => None,
            Some(shares) => match parse_share(bytes.skip((count - 1) * (s + 1)), s) {
                None => None,
                Some(share) => Some(shares.push(share)),
            },
        }
    }
}

/// None of the shares has the reserved identifier zero.
pub open spec fn all_identified(shares: Seq<ShareView>) -> bool {
    forall|i: int| 0 <= i < shares.len() ==> (#[trigger] shares[i]).identifier != 0
}

/// The values of all the shares have the given length.
pub open spec fn all_of_width(shares: Seq<ShareView>, s: nat) -> bool {
    forall|i: int| 0 <= i < shares.len() ==> (#[trigger] shares[i]).value.len() == s
}

/// A share that holders receive: its identifier is not the reserved zero, and
/// its value has the given length.
pub open spec fn share_is_sound(v: ShareView, s: nat) -> bool {
    v.identifier != 0 && v.value.len() == s
}

impl<const S: usize> Default for Share<S> {
    /// The sentinel: the reserved identifier zero and a value of zeros. It is
    /// never handed out.
    fn default() -> (r: Self)
        ensures
            r@.identifier == 0,
            r@.value == Seq::new(S as nat, |i: int| 0u8),
    {
        let mut value: Vec<u8> = Vec::new();
        let mut i: usize = 0;
        while i < S
            invariant
                i <= S,
                value@ == Seq::new(i as nat, |k: int| 0u8),
            decreases S - i,
        {
            value.push(0);
            assert(value@ =~= Seq::new((i + 1) as nat, |k: int| 0u8));
            i += 1;
        }
        Share { identifier: 0, value }
    }
}

impl<const S: usize> Clone for Share<S> {
    fn clone(&self) -> (r: Self)
        ensures
            r@ == self@,
    {
        proof {
            use_type_invariant(self);
        }
        Share { identifier: self.identifier, value: slice_to_vec(self.value.as_slice()) }
    }
}

impl<const S: usize> Share<S> {
    #[verifier::type_invariant]
    spec fn well_formed(self) -> bool {
        self.value@.len() == S
    }

    /// A share from its parts. The identifier zero and a value of any length
    /// but `S` are refused.
    pub fn new(identifier: u8, value: &[u8]) -> (r: Result<Self, Error>)
        ensures
            r is Ok <==> identifier != 0 && value@.len() == S,
            r matches Err(e) ==> e == Error::InvalidShare,
            r matches Ok(s) ==> s@ == (ShareView { identifier, value: value@ }),
    {
        if identifier == 0 || value.len() != S {
            return Err(Error::InvalidShare);
        }
        Ok(Share { identifier, value: slice_to_vec(value) })
    }

    pub fn identifier(&self) -> (id: u8)
        ensures
            id == self@.identifier,
    {
        self.identifier
    }

    pub fn value(&self) -> (bytes: &[u8])
        ensures
            bytes@ == self@.value,
            bytes@.len() == S,
    {
        proof {
            use_type_invariant(self);
        }
        self.value.as_slice()
    }

    /// Whether two shares hold the same bytes.
    pub fn equals(&self, other: &Self) -> (same: bool)
        ensures
            same == (self@ == other@),
    {
        proof {
            use_type_invariant(self);
            use_type_invariant(other);
        }
        if self.identifier != other.identifier {
            return false;
        }
        let mut i: usize = 0;
        while i < S
            invariant
                i <= S,
                self.value@.len() == S,
                other.value@.len() == S,
                forall|k: int| 0 <= k < i ==> self.value@[k] == other.value@[k],
            decreases S - i,
        {
            if self.value[i] != other.value[i] {
                return false;
            }
            i += 1;
        }
        assert(self.value@ =~= other.value@);
        true
    }

    /// The share as it is stored and sent: the identifier, then the value.
    /// `from_bytes` reads it back, unless it is the sentinel.
    pub fn to_bytes(&self) -> (bytes: Vec<u8>)
        ensures
            bytes@ == share_bytes(self@),
            bytes@.len() == S + 1,
            self@.value.len() == S,
            self@.identifier != 0 ==> parse_whole_share(bytes@, S as nat) == Some(self@),
    {
        proof {
            use_type_invariant(self);
            if self@.identifier != 0 {
                theorem_share_round_trip(self@, S as nat);
            }
        }
        let mut bytes: Vec<u8> = Vec::new();
        bytes.push(self.identifier);
        bytes.extend_from_slice(self.value.as_slice());
        assert(bytes@ =~= share_bytes(self@));
        bytes
    }

    /// The share of which `bytes` are the whole. Bytes of another length than
    /// `S + 1` and the identifier zero are refused.
    pub fn from_bytes(bytes: &[u8]) -> (r: Result<Self, Error>)
        ensures
            match parse_whole_share(bytes@, S as nat) {
                Some(v) => r matches Ok(share) && share@ == v,
                None => r matches Err(e) && e == Error::InvalidEncoding,
            },
    {
        if bytes.len() == 0 || bytes.len() - 1 != S {
            return Err(Error::InvalidEncoding);
        }
        assert(bytes@.skip(0) =~= bytes@);
        match Self::read(bytes, 0) {
            Some(share) => Ok(share),
            None => Err(Error::InvalidEncoding),
        }
    }

    /// The share at place `at` of `bytes`.
    pub(crate) fn read(bytes: &[u8], at: usize) -> (r: Option<Self>)
        requires
            at <= bytes@.len(),
        ensures
            match parse_share(bytes@.skip(at as int), S as nat) {
                Some(v) => r matches Some(share) && share@ == v && at + S + 1 <= bytes@.len(),
                None => r is None,
            },
    {
        let left = bytes.len() - at;
        if left == 0 || left - 1 < S {
            return None;
        }
        let identifier = bytes[at];
        if identifier == 0 {
            return None;
        }
        let value = slice_to_vec(slice_subrange(bytes, at + 1, at + 1 + S));
        assert(value@ =~= bytes@.skip(at as int).subrange(1, S + 1));
        Some(Share { identifier, value })
    }

    /// The share as text: the hexadecimal form of its bytes. `from_hex` reads
    /// it back, unless it is the sentinel.
    pub fn to_hex(&self) -> (text: String)
        ensures
            text@ == hex_text(share_bytes(self@)),
            self@.value.len() == S,
            self@.identifier != 0 ==> parse_share_text(text@, S as nat) == Some(self@),
    {
        proof {
            use_type_invariant(self);
            if self@.identifier != 0 {
                theorem_share_round_trip(self@, S as nat);
            }
        }
        let bytes = self.to_bytes();
        encode_hex(bytes.as_slice())
    }

    /// The share of which `text` is the hexadecimal form.
    pub fn from_hex(text: &str) -> (r: Result<Self, Error>)
        ensures
            match parse_share_text(text@, S as nat) {
                Some(v) => r matches Ok(share) && share@ == v,
                None => r matches Err(e) && e == Error::InvalidEncoding,
            },
    {
        match decode_hex(text) {
            Ok(bytes) => Self::from_bytes(bytes.as_slice()),
            Err(_) => Err(Error::InvalidEncoding),
        }
    }
}

/// Copies of the shares, in order.
pub fn clone_shares<const S: usize>(shares: &[Share<S>]) -> (copies: Vec<Share<S>>)
    ensures
        share_views(copies@) == share_views(shares@),
{
    let mut copies: Vec<Share<S>> = Vec::new();
    let mut i: usize = 0;
    while i < shares.len()
        invariant
            i <= shares@.len(),
            copies@.len() == i,
            forall|k: int| 0 <= k < i ==> (#[trigger] copies@[k])@ == shares@[k]@,
        decreases shares@.len() - i,
    {
        copies.push(shares[i].clone());
        i += 1;
    }
    assert(share_views(copies@) =~= share_views(shares@));
    copies
}

/// The `count` shares of which `bytes` are the whole.
pub open spec fn parse_whole_shares(bytes: Seq<u8>, s: nat, count: nat) -> Option<Seq<ShareView>> {
    if bytes.len() == count * (s + 1) {
        parse_shares(bytes, s, count)
    } else {
        None
    }
}

/// The shares of which `bytes` are the whole: `count` shares, one after the
/// other, without a length prefix. Bytes of another length and the
/// identifier zero are refused.
pub fn shares_from_bytes<const S: usize>(bytes: &[u8], count: usize) -> (r: Result<
    Vec<Share<S>>,
    Error,
>)
    ensures
        match parse_whole_shares(bytes@, S as nat, count as nat) {
            Some(views) => r matches Ok(shares) && share_views(shares@) == views,
            None => r matches Err(e) && e == Error::InvalidEncoding,
        },
{
    let total = bytes.len();
    assert(bytes@.skip(0) =~= bytes@);
    if count == 0 {
        assert(0 * (S + 1) == 0) by (nonlinear_arith);
        if total == 0 {
            assert(share_views(Seq::<Share<S>>::empty()) =~= Seq::<ShareView>::empty());
            return Ok(Vec::new());
        } else {
            return Err(Error::InvalidEncoding);
        }
    }
    match read_shares::<S>(bytes, 0, count) {
        Some(shares) => {
            assert(S + 1 <= count * (S + 1)) by (nonlinear_arith)
                requires
                    count >= 1,
            ;
            let width = S + 1;
            assert(count * width <= total);
            let used = count * width;
            if used == total {
                Ok(shares)
            } else {
                Err(Error::InvalidEncoding)
            }
        },
        None => Err(Error::InvalidEncoding),
    }
}

/// The bytes of the shares, one share after the other, without a length
/// prefix.
pub fn shares_to_bytes<const S: usize>(shares: &[Share<S>]) -> (bytes: Vec<u8>)
    ensures
        bytes@ == shares_bytes(share_views(shares@)),
        all_of_width(share_views(shares@), S as nat),
        all_identified(share_views(shares@)) ==> parse_whole_shares(bytes@, S as nat, shares@.len())
            == Some(share_views(shares@)),
{
    let ghost views = share_views(shares@);
    let mut bytes: Vec<u8> = Vec::new();
    let mut i: usize = 0;
    while i < shares.len()
        invariant
            i <= shares@.len(),
            views == share_views(shares@),
            bytes@ == shares_bytes(views.take(i as int)),
            forall|k: int| 0 <= k < i ==> (#[trigger] views[k]).value.len() == S,
        decreases shares@.len() - i,
    {
        let chunk = shares[i].to_bytes();
        proof {
            let next = views.take(i + 1);
            assert(next.drop_last() =~= views.take(i as int));
            assert(next.last() == shares@[i as int]@);
        }
        bytes.extend_from_slice(chunk.as_slice());
        i += 1;
    }
    assert(views.take(shares@.len() as int) =~= views);
    proof {
        if all_identified(views) {
            lemma_parse_shares_of_bytes(views, S as nat, Seq::empty());
            lemma_shares_bytes_len(views, S as nat);
            assert(shares_bytes(views) + Seq::<u8>::empty() =~= shares_bytes(views));
        }
    }
    bytes
}

/// Where fewer shares cannot be read, more cannot either.
pub proof fn lemma_shares_failure_persists(bytes: Seq<u8>, s: nat, i: nat, j: nat)
    requires
        i <= j,
        parse_shares(bytes, s, i) is None,
    ensures
        parse_shares(bytes, s, j) is None,
    decreases j,
{
    if i < j {
        lemma_shares_failure_persists(bytes, s, i, (j - 1) as nat);
    }
}

/// The `count` shares from place `at` of `bytes` on.
pub(crate) fn read_shares<const S: usize>(bytes: &[u8], at: usize, count: usize) -> (r: Option<
    Vec<Share<S>>,
>)
    requires
        at <= bytes@.len(),
    ensures
        match r {
            Some(shares) => parse_shares(bytes@.skip(at as int), S as nat, count as nat) == Some(
                share_views(shares@),
            ) && shares@.len() == count && at + count * (S + 1) <= bytes@.len(),
            None => parse_shares(bytes@.skip(at as int), S as nat, count as nat) is None,
        },
{
    let total = bytes.len();
    let ghost b = bytes@.skip(at as int);
    let mut shares: Vec<Share<S>> = Vec::new();
    let mut pos: usize = at;
    let mut i: usize = 0;
    assert(share_views(shares@) =~= Seq::<ShareView>::empty());
    assert(0 * (S + 1) == 0) by (nonlinear_arith);
    while i < count
        invariant
            i <= count,
            total == bytes@.len(),
            b == bytes@.skip(at as int),
            at <= pos <= bytes@.len(),
            pos == at + i * (S + 1),
            shares@.len() == i,
            parse_shares(b, S as nat, i as nat) == Some(
                share_views(shares@),
            ),
        decreases count - i,
    {
        assert((i + 1) * (S + 1) == i * (S + 1) + (S + 1)) by (nonlinear_arith);
        assert(b.skip(i * (S + 1)) =~= bytes@.skip(pos as int));
        let ghost before = share_views(shares@);
        match Share::<S>::read(bytes, pos) {
            Some(share) => {
                proof {
                    let longer = shares@.push(share);
                    assert(share_views(longer) =~= before.push(share@));
                }
                shares.push(share);
                pos = pos + S + 1;
            },
            None => {
                proof {
                    assert(parse_shares(b, S as nat, (i + 1) as nat) is None);
                    lemma_shares_failure_persists(b, S as nat, (i + 1) as nat, count as nat);
                }
                return None;
            },
        }
        i += 1;
    }
    Some(shares)
}

/// The bytes of a share are read back as that share, whatever follows.
pub proof fn lemma_parse_share_of_bytes(v: ShareView, s: nat, rest: Seq<u8>)
    requires
        share_is_sound(v, s),
    ensures
        parse_share(share_bytes(v) + rest, s) == Some(v),
        share_bytes(v).len() == s + 1,
{
    let bytes = share_bytes(v) + rest;
    assert(bytes[0] == v.identifier);
    assert(bytes.subrange(1, (s + 1) as int) =~= v.value);
}

/// A share is read back from its bytes, and from its text, as it was.
pub proof fn theorem_share_round_trip(v: ShareView, s: nat)
    requires
        share_is_sound(v, s),
    ensures
        parse_whole_share(share_bytes(v), s) == Some(v),
        parse_share_text(hex_text(share_bytes(v)), s) == Some(v),
{
    lemma_parse_share_of_bytes(v, s, Seq::empty());
    assert(share_bytes(v) + Seq::<u8>::empty() =~= share_bytes(v));
    theorem_hex_round_trip(share_bytes(v));
}

/// The bytes of shares are as long as the shares are wide.
pub proof fn lemma_shares_bytes_len(shares: Seq<ShareView>, s: nat)
    requires
        forall|i: int| 0 <= i < shares.len() ==> share_is_sound(#[trigger] shares[i], s),
    ensures
        shares_bytes(shares).len() == shares.len() * (s + 1),
    decreases shares.len(),
{
    if shares.len() > 0 {
        lemma_shares_bytes_len(shares.drop_last(), s);
        assert(share_is_sound(shares.last(), s));
        assert((shares.len() - 1) * (s + 1) + (s + 1) == shares.len() * (s + 1))
            by (nonlinear_arith);
    } else {
        assert(0 * (s + 1) == 0) by (nonlinear_arith);
    }
}

/// The bytes of shares are read back as those shares, whatever follows.
pub proof fn lemma_parse_shares_of_bytes(shares: Seq<ShareView>, s: nat, rest: Seq<u8>)
    requires
        forall|i: int| 0 <= i < shares.len() ==> share_is_sound(#[trigger] shares[i], s),
    ensures
        parse_shares(shares_bytes(shares) + rest, s, shares.len()) == Some(shares),
    decreases shares.len(),
{
    let bytes = shares_bytes(shares) + rest;
    if shares.len() > 0 {
        let front = shares.drop_last();
        let last = share_bytes(shares.last());
        lemma_shares_bytes_len(shares, s);
        lemma_shares_bytes_len(front, s);
        assert(shares_bytes(front) + (last + rest) =~= bytes);
        lemma_parse_shares_of_bytes(front, s, last + rest);
        assert(bytes.skip((shares.len() - 1) * (s + 1)) =~= last + rest);
        assert(share_is_sound(shares.last(), s));
        lemma_parse_share_of_bytes(shares.last(), s, rest);
        assert(front.push(shares.last()) =~= shares);
    }
}


/// The hexadecimal forms of the shares, in order.
pub fn shares_to_hex<const S: usize>(shares: &[Share<S>]) -> (texts: Vec<String>)
    ensures
        texts_of(texts@) == shares_text(share_views(shares@)),
        all_of_width(share_views(shares@), S as nat),
        all_identified(share_views(shares@)) ==> parse_shares_text(texts_of(texts@), S as nat)
            == Some(share_views(shares@)),
{
    let mut texts: Vec<String> = Vec::new();
    let mut i: usize = 0;
    while i < shares.len()
        invariant
            i <= shares@.len(),
            texts@.len() == i,
            forall|k: int| 0 <= k < i ==> (#[trigger] texts@[k])@ == hex_text(share_bytes(shares@[k]@)),
            forall|k: int| 0 <= k < i ==> (#[trigger] shares@[k])@.value.len() == S,
        decreases shares@.len() - i,
    {
        texts.push(shares[i].to_hex());
        i += 1;
    }
    assert(texts_of(texts@) =~= shares_text(share_views(shares@)));
    proof {
        let views = share_views(shares@);
        assert forall|k: int| 0 <= k < views.len() implies (#[trigger] views[k]).value.len()
            == S by {
            assert(shares@[k]@.value.len() == S);
        }
        if all_identified(views) {
            theorem_shares_text_round_trip(views, S as nat);
        }
    }
    texts
}

/// The shares of which `texts` are the hexadecimal forms, in order.
pub fn shares_from_hex<const S: usize>(texts: &[String]) -> (r: Result<Vec<Share<S>>, Error>)
    ensures
        match parse_shares_text(texts_of(texts@), S as nat) {
            Some(views) => r matches Ok(shares) && share_views(shares@) == views,
            None => r matches Err(e) && e == Error::InvalidEncoding,
        },
{
    let ghost all = texts_of(texts@);
    let mut shares: Vec<Share<S>> = Vec::new();
    let mut i: usize = 0;
    while i < texts.len()
        invariant
            i <= texts@.len(),
            all == texts_of(texts@),
            shares@.len() == i,
            forall|k: int|
                0 <= k < i ==> parse_share_text(#[trigger] all[k], S as nat) == Some(shares@[k]@),
        decreases texts@.len() - i,
    {
        assert(all[i as int] == texts@[i as int]@);
        match Share::<S>::from_hex(texts[i].as_str()) {
            Ok(share) => {
                shares.push(share);
            },
            Err(_) => {
                return Err(Error::InvalidEncoding);
            },
        }
        i += 1;
    }
    assert(share_views(shares@) =~= parse_shares_text(all, S as nat).unwrap());
    Ok(shares)
}

/// Shares are read back from their texts as they were.
pub proof fn theorem_shares_text_round_trip(shares: Seq<ShareView>, s: nat)
    requires
        forall|i: int| 0 <= i < shares.len() ==> share_is_sound(#[trigger] shares[i], s),
    ensures
        parse_shares_text(shares_text(shares), s) == Some(shares),
{
    let texts = shares_text(shares);
    assert forall|i: int| 0 <= i < texts.len() implies parse_share_text(#[trigger] texts[i], s)
        == Some(shares[i]) by {
        assert(share_is_sound(shares[i], s));
        theorem_share_round_trip(shares[i], s);
    }
    assert(parse_shares_text(texts, s).unwrap() =~= shares);
}

} // verus!
