//! The length prefix of a sequence: an unsigned integer in groups of seven
//! bits, lowest group first, each byte but the last with its top bit set.

use uint_zigzag::Uint;
use vstd::prelude::*;

verus! {

/// The most bytes that a length prefix takes.
pub const MAX_PREFIX_LEN: usize = 19;

/// The prefix that stands for `n`.
pub open spec fn varint(n: nat) -> Seq<u8>
    decreases n,
{
    if n < 128 {
        seq![n as u8]
    } else {
        seq![(n % 128 + 128) as u8] + varint(n / 128)
    }
}

/// The length of the prefix that `bytes` start with, looking from place `i`
/// on: one more than the place of the first byte below 128, if that comes
/// within the first 19 bytes.
pub open spec fn prefix_len_from(bytes: Seq<u8>, i: nat) -> Option<nat>
    decreases MAX_PREFIX_LEN - i,
{
    if i >= MAX_PREFIX_LEN || i >= bytes.len() {
        None
    } else if bytes[i as int] < 128 {
        Some(i + 1)
    } else {
        prefix_len_from(bytes, i + 1)
    }
}

/// The length of the prefix that `bytes` start with, if they start with one.
pub open spec fn prefix_len(bytes: Seq<u8>) -> Option<nat> {
    prefix_len_from(bytes, 0)
}

/// The number that the seven-bit groups of the first `k` bytes spell.
pub open spec fn groups_value(bytes: Seq<u8>, k: nat) -> nat
    decreases k,
{
    if k == 0 {
        0
    } else {
        (bytes[0] % 128) as nat + 128 * groups_value(bytes.skip(1), (k - 1) as nat)
    }
}

/// The number that a prefix stands for: what its groups spell, cut to 128 bits.
pub open spec fn prefix_value(bytes: Seq<u8>) -> Option<nat> {
    match prefix_len(bytes) {
        Some(k) => Some(groups_value(bytes, k) % (u128::MAX as nat + 1)),
        None => None,
    }
}

/// `Uint::from` on a `usize`, then `Uint::to_vec`: the groups of seven bits
/// of the number, lowest first, each byte but the last with its top bit set.
#[verifier::external_body]
pub(crate) fn encode_prefix(n: usize) -> (bytes: Vec<u8>)
    ensures
        bytes@ == varint(n as nat),
{
    Uint::from(n).to_vec()
}

/// `Uint::peek`: how many bytes the prefix at the start of `bytes` takes, or
/// nothing where none of the first 19 bytes is below 128.
#[verifier::external_body]
pub(crate) fn peek_prefix(bytes: &[u8]) -> (r: Option<usize>)
    ensures
        match r {
            Some(k) => prefix_len(bytes@) == Some(k as nat),
            None => prefix_len(bytes@) is None,
        },
{
    Uint::peek(bytes)
}

/// `Uint::try_from` on a byte slice: the number that the prefix at the start
/// of `bytes` stands for, or nothing where `Uint::peek` finds no prefix.
#[verifier::external_body]
pub(crate) fn decode_prefix(bytes: &[u8]) -> (r: Option<u128>)
    ensures
        match r {
            Some(n) => prefix_value(bytes@) == Some(n as nat),
            None => prefix_value(bytes@) is None,
        },
{
    Uint::try_from(bytes).ok().map(|u| u.0)
}

/// Reads the length prefix that `bytes` start with: the number that it stands
/// for, and how many bytes it takes.
pub fn read_prefix(bytes: &[u8]) -> (r: Option<(u128, usize)>)
    ensures
        match r {
            Some((n, k)) => prefix_value(bytes@) == Some(n as nat) && prefix_len(bytes@) == Some(
                k as nat,
            ) && 1 <= k <= bytes@.len(),
            None => prefix_value(bytes@) is None,
        },
{
    let k = match peek_prefix(bytes) {
        Some(k) => k,
        None => {
            return None;
        },
    };
    proof {
        lemma_prefix_len_bounds(bytes@, 0);
    }
    match decode_prefix(bytes) {
        Some(n) => Some((n, k)),
        None => None,
    }
}

/// A prefix that is found ends within the bytes.
pub proof fn lemma_prefix_len_bounds(bytes: Seq<u8>, i: nat)
    ensures
        prefix_len_from(bytes, i) matches Some(k) ==> i < k <= bytes.len() && k <= MAX_PREFIX_LEN,
    decreases MAX_PREFIX_LEN - i,
{
    if i >= MAX_PREFIX_LEN || i >= bytes.len() {
    } else if bytes[i as int] < 128 {
    } else {
        lemma_prefix_len_bounds(bytes, i + 1);
    }
}

/// The numbers below `group_limit(k)` fit in `k` groups of seven bits.
pub open spec fn group_limit(k: nat) -> nat
    decreases k,
{
    if k == 0 {
        1
    } else {
        128 * group_limit((k - 1) as nat)
    }
}

/// A number that fits in `k` groups has a prefix of at most `k` bytes.
pub proof fn lemma_varint_len(n: nat, k: nat)
    requires
        k >= 1,
        n < group_limit(k),
    ensures
        1 <= varint(n).len() <= k,
    decreases n,
{
    if n >= 128 {
        assert(k >= 2) by {
            reveal_with_fuel(group_limit, 2);
        }
        lemma_varint_len(n / 128, (k - 1) as nat);
    }
}

/// Every number that a `usize` holds has a prefix of at most ten bytes.
pub proof fn lemma_varint_len_of_usize(n: nat)
    requires
        n <= usize::MAX,
    ensures
        1 <= varint(n).len() <= 10,
{
    assert(group_limit(0) == 1);
    assert(group_limit(1) == 128);
    assert(group_limit(2) == 16384);
    assert(group_limit(3) == 2097152);
    assert(group_limit(4) == 268435456);
    assert(group_limit(5) == 34359738368);
    assert(group_limit(6) == 4398046511104);
    assert(group_limit(7) == 562949953421312);
    assert(group_limit(8) == 72057594037927936);
    assert(group_limit(9) == 9223372036854775808);
    assert(group_limit(10) == 1180591620717411303424);
    lemma_varint_len(n, 10);
}

/// After bytes that all have their top bit set, the prefix of `n` is found
/// where it ends, whatever follows it.
pub proof fn lemma_prefix_len_of_varint(before: Seq<u8>, n: nat, rest: Seq<u8>)
    requires
        forall|i: int| 0 <= i < before.len() ==> #[trigger] before[i] >= 128,
        before.len() + varint(n).len() <= MAX_PREFIX_LEN,
    ensures
        prefix_len_from(before + varint(n) + rest, before.len()) == Some(
            before.len() + varint(n).len(),
        ),
    decreases n,
{
    let bytes = before + varint(n) + rest;
    let i = before.len();
    assert(bytes[i as int] == varint(n)[0]);
    if n >= 128 {
        let b = (n % 128 + 128) as u8;
        let longer = before.push(b);
        assert(longer + varint(n / 128) + rest =~= bytes);
        lemma_prefix_len_of_varint(longer, n / 128, rest);
    }
}

/// The groups of the prefix of `n` spell `n`, whatever follows it.
pub proof fn lemma_groups_of_varint(n: nat, rest: Seq<u8>)
    ensures
        groups_value(varint(n) + rest, varint(n).len()) == n,
    decreases n,
{
    let bytes = varint(n) + rest;
    assert(bytes[0] == varint(n)[0]);
    if n < 128 {
        assert(groups_value(bytes.skip(1), 0) == 0);
    } else {
        assert(bytes.skip(1) =~= varint(n / 128) + rest);
        lemma_groups_of_varint(n / 128, rest);
    }
}

/// Reading back the prefix of a length gives that length, whatever follows.
pub proof fn theorem_prefix_round_trip(n: nat, rest: Seq<u8>)
    requires
        n <= usize::MAX,
    ensures
        prefix_value(varint(n) + rest) == Some(n),
        prefix_len(varint(n) + rest) == Some(varint(n).len()),
{
    lemma_varint_len_of_usize(n);
    assert(Seq::<u8>::empty() + varint(n) + rest =~= varint(n) + rest);
    lemma_prefix_len_of_varint(Seq::empty(), n, rest);
    lemma_groups_of_varint(n, rest);
    vstd::arithmetic::div_mod::lemma_small_mod(n, u128::MAX as nat + 1);
}

} // verus!
