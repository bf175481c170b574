//! Reading and writing byte ranges.

use vstd::prelude::*;

verus! {

/// The 16-bit number that the two bytes at `at` spell, low byte first.
pub open spec fn le16(bytes: Seq<u8>, at: int) -> int {
    bytes[at] as int + 256 * (bytes[at + 1] as int)
}

/// The two bytes that spell `value`, low byte first.
pub open spec fn le16_bytes(value: u16) -> Seq<u8> {
    seq![(value % 256) as u8, (value / 256) as u8]
}

/// `bytes` with the bytes from `at` on replaced by those of `src`.
pub open spec fn overwritten(bytes: Seq<u8>, at: int, src: Seq<u8>) -> Seq<u8> {
    bytes.subrange(0, at) + src + bytes.subrange(at + src.len(), bytes.len() as int)
}

/// `count` zero bytes.
pub open spec fn zeros(count: int) -> Seq<u8> {
    Seq::new(count as nat, |i: int| 0u8)
}

/// Whether two byte sequences are of one length and differ at most at the
/// places from `low` up to, but without, `high`.
pub open spec fn same_outside(a: Seq<u8>, b: Seq<u8>, low: int, high: int) -> bool {
    &&& a.len() == b.len()
    &&& forall|at: int| 0 <= at < a.len() && !(low <= at < high) ==> a[at] == b[at]
}

/// An overwritten sequence holds the new bytes in the range that was
/// written and the old ones everywhere else.
pub proof fn lemma_overwritten(bytes: Seq<u8>, at: int, src: Seq<u8>)
    requires
        0 <= at,
        at + src.len() <= bytes.len(),
    ensures
        overwritten(bytes, at, src).len() == bytes.len(),
        forall|i: int|
            0 <= i < bytes.len() ==> #[trigger] overwritten(bytes, at, src)[i] == if at <= i < at
                + src.len() {
                src[i - at]
            } else {
                bytes[i]
            },
        same_outside(bytes, overwritten(bytes, at, src), at, at + src.len()),
        overwritten(bytes, at, src).subrange(at, at + src.len()) == src,
{
    let result = overwritten(bytes, at, src);
    assert(result.subrange(at, at + src.len()) =~= src);
}

/// Two bytes that were written as a 16-bit number spell that number.
pub proof fn lemma_le16_written(bytes: Seq<u8>, at: int, value: u16)
    requires
        0 <= at,
        at + 2 <= bytes.len(),
    ensures
        le16(overwritten(bytes, at, le16_bytes(value)), at) == value,
{
    lemma_overwritten(bytes, at, le16_bytes(value));
    let result = overwritten(bytes, at, le16_bytes(value));
    assert(result[at] == le16_bytes(value)[0]);
    assert(result[at + 1] == le16_bytes(value)[1]);
}

/// The length of a slice is a machine number.
pub proof fn lemma_len_fits(data: &[u8])
    ensures
        data@.len() <= usize::MAX,
{
    vstd::slice::axiom_spec_len(data);
}

/// The 16-bit number at `at`.
pub fn read_u16(data: &[u8], at: usize) -> (value: u16)
    requires
        at + 2 <= data@.len(),
    ensures
        value == le16(data@, at as int),
{
    let low: u16 = data[at] as u16;
    let high: u16 = data[at + 1] as u16;
    low + high * 256
}

/// Writes `value` as a 16-bit number at `at`.
pub fn write_u16(data: &mut [u8], at: usize, value: u16)
    requires
        at + 2 <= old(data)@.len(),
    ensures
        final(data)@ == overwritten(old(data)@, at as int, le16_bytes(value)),
{
    data[at] = (value % 256) as u8;
    data[at + 1] = (value / 256) as u8;
    proof {
        lemma_overwritten(old(data)@, at as int, le16_bytes(value));
        assert(data@ =~= overwritten(old(data)@, at as int, le16_bytes(value)));
    }
}

/// Copies `src` over the bytes of `data` from `at` on.
pub fn copy_into(data: &mut [u8], at: usize, src: &[u8])
    requires
        at + src@.len() <= old(data)@.len(),
    ensures
        final(data)@ == overwritten(old(data)@, at as int, src@),
{
    let count = src.len();
    let limit = data.len();
    let mut done: usize = 0;
    while done < count
        invariant
            done <= count,
            count == src@.len(),
            at + count <= limit,
            data@.len() == limit,
            data@.len() == old(data)@.len(),
            forall|i: int|
                0 <= i < data@.len() ==> data@[i] == if at <= i < at + done {
                    src@[i - at]
                } else {
                    old(data)@[i]
                },
        decreases count - done,
    {
        data[at + done] = src[done];
        done += 1;
    }
    proof {
        lemma_overwritten(old(data)@, at as int, src@);
        assert(data@ =~= overwritten(old(data)@, at as int, src@));
    }
}

/// Sets the bytes from `from` up to, but without, `to` to zero.
pub fn fill_zero(data: &mut [u8], from: usize, to: usize)
    requires
        from <= to <= old(data)@.len(),
    ensures
        final(data)@ == overwritten(old(data)@, from as int, zeros(to - from)),
{
    let mut at: usize = from;
    while at < to
        invariant
            from <= at <= to,
            to <= data@.len(),
            data@.len() == old(data)@.len(),
            forall|i: int|
                0 <= i < data@.len() ==> data@[i] == if from <= i < at {
                    0u8
                } else {
                    old(data)@[i]
                },
        decreases to - at,
    {
        data[at] = 0;
        at += 1;
    }
    proof {
        lemma_overwritten(old(data)@, from as int, zeros(to - from));
        assert(data@ =~= overwritten(old(data)@, from as int, zeros(to - from)));
    }
}

} // verus!
