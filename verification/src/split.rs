//! Splitting a byte stream into blocks.

use crate::block::{marker, Block};
use crate::tape::{bodies, Tape};
use vstd::prelude::*;
use vstd::slice::slice_subrange;

verus! {

/// Whether the marker stands in `bytes` at offset `at`.
pub open spec fn marker_at(bytes: Seq<u8>, at: int) -> bool {
    0 <= at && at + 8 <= bytes.len() && bytes.subrange(at, at + 8) == marker()
}

/// The offsets of the first `count` strides of eight bytes.
pub open spec fn strides(count: nat) -> Seq<int> {
    Seq::new(count, |k: int| 8 * k)
}

/// The offsets among the first `count` strides at which the marker stands in
/// `bytes`, in ascending order.
pub open spec fn starts_within(bytes: Seq<u8>, count: nat) -> Seq<int> {
    strides(count).filter(|at: int| marker_at(bytes, at))
}

/// The offsets at which the blocks of `bytes` start, in ascending order: the
/// multiples of eight at which the marker stands. A marker that lies across
/// two strides starts no block.
pub open spec fn block_starts(bytes: Seq<u8>) -> Seq<int> {
    starts_within(bytes, bytes.len() / 8)
}

/// The bodies of the blocks of `bytes`: each reaches from behind its marker to
/// the start of the next block, the last one to the end of the bytes. What
/// lies before the first marker belongs to no block.
pub open spec fn split_blocks(bytes: Seq<u8>) -> Seq<Seq<u8>> {
    let starts = block_starts(bytes);
    Seq::new(
        starts.len(),
        |k: int|
            bytes.subrange(
                starts[k] + 8,
                if k + 1 < starts.len() {
                    starts[k + 1]
                } else {
                    bytes.len() as int
                },
            ),
    )
}

/// Whether the marker stands in `body` at no multiple of eight.
pub open spec fn marker_free(body: Seq<u8>) -> bool {
    forall|at: int| 0 <= at && at % 8 == 0 ==> !#[trigger] marker_at(body, at)
}

/// One more stride adds its offset to the starts found so far, or nothing.
pub proof fn lemma_starts_step(bytes: Seq<u8>, count: nat)
    ensures
        starts_within(bytes, 0) == Seq::<int>::empty(),
        starts_within(bytes, count + 1) == if marker_at(bytes, 8 * count as int) {
            starts_within(bytes, count).push(8 * count as int)
        } else {
            starts_within(bytes, count)
        },
{
    reveal(Seq::filter);
    assert(strides(count + 1).drop_last() == strides(count));
}

/// The starts are multiples of eight at which the marker stands, and each lies
/// at least eight bytes behind the one before it.
pub proof fn lemma_starts_ordered(bytes: Seq<u8>, count: nat)
    ensures
        forall|k: int|
            0 <= k < starts_within(bytes, count).len() ==> {
                let at = #[trigger] starts_within(bytes, count)[k];
                &&& 0 <= at
                &&& at + 8 <= 8 * count
                &&& at % 8 == 0
                &&& marker_at(bytes, at)
            },
        forall|a: int, b: int|
            0 <= a < b < starts_within(bytes, count).len() ==> #[trigger] starts_within(
                bytes,
                count,
            )[a] + 8 <= #[trigger] starts_within(bytes, count)[b],
    decreases count,
{
    if count > 0 {
        lemma_starts_ordered(bytes, (count - 1) as nat);
        lemma_starts_step(bytes, (count - 1) as nat);
    } else {
        lemma_starts_step(bytes, 0);
    }
}

/// Bytes that agree on where the marker stands have the same starts.
pub proof fn lemma_starts_agree(left: Seq<u8>, right: Seq<u8>, count: nat)
    requires
        forall|at: int|
            0 <= at < 8 * count && at % 8 == 0 ==> #[trigger] marker_at(left, at) == marker_at(
                right,
                at,
            ),
    ensures
        starts_within(left, count) == starts_within(right, count),
    decreases count,
{
    if count > 0 {
        lemma_starts_agree(left, right, (count - 1) as nat);
        lemma_starts_step(left, (count - 1) as nat);
        lemma_starts_step(right, (count - 1) as nat);
    } else {
        lemma_starts_step(left, 0);
        lemma_starts_step(right, 0);
    }
}

/// The starts of bytes written behind a whole number of strides: those of the
/// bytes before them, then their own, each moved by the length of what lies
/// before.
pub proof fn lemma_starts_of_suffix(head: Seq<u8>, tail: Seq<u8>, count: nat)
    requires
        head.len() % 8 == 0,
    ensures
        starts_within(head + tail, head.len() / 8 + count) == starts_within(
            head,
            head.len() / 8,
        ) + starts_within(tail, count).map_values(|at: int| at + head.len()),
    decreases count,
{
    let all = head + tail;
    let whole = head.len() / 8;
    let moved = |at: int| at + head.len();
    if count == 0 {
        assert forall|at: int| 0 <= at < 8 * whole && at % 8 == 0 implies #[trigger] marker_at(
            all,
            at,
        ) == marker_at(head, at) by {
            assert(all.subrange(at, at + 8) == head.subrange(at, at + 8));
        }
        lemma_starts_agree(all, head, whole);
        lemma_starts_step(tail, 0);
        assert(starts_within(tail, 0).map_values(moved) == Seq::<int>::empty());
    } else {
        let before = (count - 1) as nat;
        lemma_starts_of_suffix(head, tail, before);
        lemma_starts_step(all, whole + before);
        lemma_starts_step(tail, before);
        let at = 8 * before as int;
        assert(marker_at(all, head.len() + at) == marker_at(tail, at)) by {
            if at + 8 <= tail.len() {
                assert(all.subrange(head.len() + at, head.len() + at + 8) == tail.subrange(
                    at,
                    at + 8,
                ));
            }
        }
        if marker_at(tail, at) {
            assert(starts_within(tail, count).map_values(moved) == starts_within(
                tail,
                before,
            ).map_values(moved).push(head.len() + at));
        }
    }
}

/// A block on its own starts at its marker and nowhere else, where its body is
/// a whole number of strides without a marker.
pub proof fn lemma_starts_of_block(body: Seq<u8>, count: nat)
    requires
        marker_free(body),
        count >= 1,
    ensures
        starts_within(marker() + body, count) == seq![0int],
    decreases count,
{
    let block = marker() + body;
    let before = (count - 1) as nat;
    lemma_starts_step(block, before);
    if before == 0 {
        assert(block.subrange(0, 8) == marker());
    } else {
        lemma_starts_of_block(body, before);
        let at = 8 * before as int;
        if at + 8 <= block.len() {
            assert(block.subrange(at, at + 8) == body.subrange(at - 8, at));
            assert(!marker_at(body, at - 8));
        }
    }
}

/// Whether the marker stands in `bytes` at offset `at`.
fn is_marker(bytes: &[u8], at: usize) -> (result: bool)
    requires
        at + 8 <= bytes@.len(),
    ensures
        result == marker_at(bytes@, at as int),
{
    let found = bytes[at] == 0x1f && bytes[at + 1] == 0xa6 && bytes[at + 2] == 0xde && bytes[at
        + 3] == 0xba && bytes[at + 4] == 0xcc && bytes[at + 5] == 0x13 && bytes[at + 6] == 0x7d
        && bytes[at + 7] == 0x74;
    proof {
        let window = bytes@.subrange(at as int, at + 8);
        if found {
            assert(window == marker());
        } else {
            assert(window[0] == bytes@[at as int]);
            assert(window[1] == bytes@[at + 1]);
            assert(window[2] == bytes@[at + 2]);
            assert(window[3] == bytes@[at + 3]);
            assert(window[4] == bytes@[at + 4]);
            assert(window[5] == bytes@[at + 5]);
            assert(window[6] == bytes@[at + 6]);
            assert(window[7] == bytes@[at + 7]);
        }
    }
    found
}

impl Tape {
    /// Splits `bytes` into blocks.
    pub(crate) fn parse_blocks(bytes: &[u8]) -> (blocks: Vec<Block>)
        ensures
            bodies(blocks@) == split_blocks(bytes@),
    {
        let len = bytes.len();
        let mut hindex: Vec<usize> = Vec::new();
        let mut i: usize = 0;
        proof {
            lemma_starts_step(bytes@, 0);
        }
        // First, the offsets of all markers.
        while len - i >= 8
            invariant
                len == bytes@.len(),
                i <= len,
                i % 8 == 0,
                hindex@.map_values(|at: usize| at as int) == starts_within(bytes@, (i / 8) as nat),
                forall|k: int| 0 <= k < hindex@.len() ==> #[trigger] hindex@[k] + 8 <= i,
                forall|a: int, b: int|
                    0 <= a < b < hindex@.len() ==> #[trigger] hindex@[a] + 8 <= #[trigger] hindex@[b],
            decreases len - i,
        {
            proof {
                lemma_starts_step(bytes@, (i / 8) as nat);
            }
            if is_marker(bytes, i) {
                let ghost before = hindex@;
                hindex.push(i);
                assert(hindex@.map_values(|at: usize| at as int) == before.map_values(
                    |at: usize| at as int,
                ).push(i as int));
            }
            i = i + 8;
        }
        assert(i / 8 == len / 8);
        let ghost starts = block_starts(bytes@);
        // Then the blocks that lie between them.
        let mut blocks: Vec<Block> = Vec::new();
        let count = hindex.len();
        let mut k: usize = 0;
        while k < count
            invariant
                len == bytes@.len(),
                count == hindex@.len(),
                k <= count,
                starts == block_starts(bytes@),
                hindex@.map_values(|at: usize| at as int) == starts,
                forall|k: int| 0 <= k < hindex@.len() ==> #[trigger] hindex@[k] + 8 <= len,
                forall|a: int, b: int|
                    0 <= a < b < hindex@.len() ==> #[trigger] hindex@[a] + 8 <= #[trigger] hindex@[b],
                bodies(blocks@) == split_blocks(bytes@).take(k as int),
            decreases count - k,
        {
            let from = hindex[k] + 8;
            let to = if k == count - 1 {
                len
            } else {
                hindex[k + 1]
            };
            let ghost before = blocks@;
            let block = Block::from_data(slice_subrange(bytes, from, to));
            blocks.push(block);
            proof {
                assert(starts[k as int] == hindex@[k as int]);
                if k + 1 < count {
                    assert(starts[k + 1] == hindex@[k + 1]);
                }
                assert(bodies(blocks@) == bodies(before).push(block@));
                assert(split_blocks(bytes@).take(k + 1) == split_blocks(bytes@).take(k as int).push(
                    split_blocks(bytes@)[k as int],
                ));
            }
            k = k + 1;
        }
        assert(split_blocks(bytes@).take(count as int) == split_blocks(bytes@));
        blocks
    }
}

} // verus!
