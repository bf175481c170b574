//! The order of keys.
//!
//! Keys are compared as numbers: a key stands for the integer that its
//! bytes spell in little-endian order. This is not the lexicographic order
//! of byte strings: the last byte of a key weighs most, and a key is equal
//! to each key that differs from it in trailing zero bytes only.

use std::cmp::Ordering;
use vstd::prelude::*;

verus! {

/// The number that `bytes` spell when they are read as a little-endian
/// integer: the first byte weighs least.
pub open spec fn le_value(bytes: Seq<u8>) -> nat
    decreases bytes.len(),
{
    if bytes.len() == 0 {
        0
    } else {
        bytes[0] as nat + 256 * le_value(bytes.drop_first())
    }
}

/// How the number of `a` stands to the number of `b`.
pub open spec fn le_order(a: Seq<u8>, b: Seq<u8>) -> Ordering {
    if le_value(a) < le_value(b) {
        Ordering::Less
    } else if le_value(a) == le_value(b) {
        Ordering::Equal
    } else {
        Ordering::Greater
    }
}

/// The byte at `index`, or zero where `bytes` has no such byte.
pub open spec fn padded_byte(bytes: Seq<u8>, index: usize) -> u8 {
    if index < bytes.len() {
        bytes[index as int]
    } else {
        0
    }
}

/// The number that the bytes from `from` on spell.
pub open spec fn high_value(bytes: Seq<u8>, from: usize) -> nat {
    if from < bytes.len() {
        le_value(bytes.skip(from as int))
    } else {
        0
    }
}

/// The number of the bytes from `from` on is its first byte plus 256 times
/// the number of the bytes after it.
pub proof fn lemma_high_value_unfolds(bytes: Seq<u8>, from: usize)
    requires
        from < usize::MAX,
    ensures
        high_value(bytes, from) == padded_byte(bytes, from) + 256 * high_value(
            bytes,
            (from + 1) as usize,
        ),
{
    if from < bytes.len() {
        let rest = bytes.skip(from as int);
        assert(rest.drop_first() =~= bytes.skip(from + 1));
        if from + 1 == bytes.len() {
            assert(le_value(bytes.skip(from + 1)) == 0);
        }
    }
}

/// All the bytes of a key spell its number.
pub proof fn lemma_high_value_of_all(bytes: Seq<u8>)
    ensures
        high_value(bytes, 0) == le_value(bytes),
{
    if bytes.len() > 0 {
        assert(bytes.skip(0) =~= bytes);
    }
}

/// Where the high bytes of two keys spell different numbers, the keys
/// stand to each other as these numbers do, whatever their low bytes are.
pub proof fn lemma_high_bytes_decide(a: Seq<u8>, b: Seq<u8>, from: usize)
    requires
        high_value(a, from) < high_value(b, from),
    ensures
        le_value(a) < le_value(b),
    decreases from,
{
    if from == 0 {
        lemma_high_value_of_all(a);
        lemma_high_value_of_all(b);
    } else {
        let below = (from - 1) as usize;
        lemma_high_value_unfolds(a, below);
        lemma_high_value_unfolds(b, below);
        lemma_high_bytes_decide(a, b, below);
    }
}

/// The order of keys is the order of their numbers: two keys compare the
/// other way round when they change places, each key is equal to itself,
/// and the order carries over from one pair of keys to the next.
pub proof fn lemma_order_is_consistent(a: Seq<u8>, b: Seq<u8>, c: Seq<u8>)
    ensures
        le_order(a, a) == Ordering::Equal,
        le_order(a, b) == Ordering::Less <==> le_order(b, a) == Ordering::Greater,
        le_order(a, b) == Ordering::Equal <==> le_order(b, a) == Ordering::Equal,
        le_order(a, b) == Ordering::Less && le_order(b, c) == Ordering::Less ==> le_order(a, c)
            == Ordering::Less,
        le_order(a, b) == Ordering::Equal ==> le_order(a, c) == le_order(b, c),
{
}

/// Compares two keys by the numbers that they spell.
pub fn cmp_le_bytes(a: &[u8], b: &[u8]) -> (order: Ordering)
    ensures
        order == le_order(a@, b@),
{
    let max_len = if a.len() > b.len() {
        a.len()
    } else {
        b.len()
    };
    let mut i = max_len;
    while i > 0
        invariant
            i <= max_len,
            max_len >= a@.len(),
            max_len >= b@.len(),
            high_value(a@, i) == high_value(b@, i),
        decreases i,
    {
        i -= 1;
        let av = if i < a.len() {
            a[i]
        } else {
            0
        };
        let bv = if i < b.len() {
            b[i]
        } else {
            0
        };
        proof {
            lemma_high_value_unfolds(a@, i);
            lemma_high_value_unfolds(b@, i);
        }
        if av != bv {
            if av < bv {
                proof {
                    lemma_high_bytes_decide(a@, b@, i);
                }
                return Ordering::Less;
            } else {
                proof {
                    lemma_high_bytes_decide(b@, a@, i);
                }
                return Ordering::Greater;
            }
        }
    }
    proof {
        lemma_high_value_of_all(a@);
        lemma_high_value_of_all(b@);
    }
    Ordering::Equal
}

} // verus!
