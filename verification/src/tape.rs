//! Tapes: ordered lists of blocks, read from bytes and grown file by file.

use crate::block::{lemma_padding_len, marker, padded, Block};
use crate::split::split_blocks;
use vstd::prelude::*;
use vstd::slice::slice_subrange;

verus! {

/// The bodies of a list of blocks.
pub open spec fn bodies(blocks: Seq<Block>) -> Seq<Seq<u8>> {
    blocks.map_values(|block: Block| block@)
}

/// The body of a header: ten copies of `tag`, then the six bytes of the name.
pub open spec fn header_body(tag: u8, name: Seq<u8>) -> Seq<u8> {
    Seq::new(10, |i: int| tag) + name
}

/// The blocks of a binary file: its header, and its data filled up with
/// zeros to a multiple of eight bytes.
pub open spec fn bin_blocks(name: Seq<u8>, data: Seq<u8>) -> Seq<Seq<u8>> {
    seq![header_body(0xd0, name), padded(data, 8, 0)]
}

/// The blocks of a Basic file: its header, and its data filled up with zeros
/// to a multiple of eight bytes.
pub open spec fn basic_blocks(name: Seq<u8>, data: Seq<u8>) -> Seq<Seq<u8>> {
    seq![header_body(0xd3, name), padded(data, 8, 0)]
}

/// The number of text blocks of an ASCII file: one for every 256 bytes of
/// text or part of them, and one more where the text ends with a full block,
/// so that the last block always holds an end-of-text byte.
pub open spec fn text_chunk_count(text: Seq<u8>) -> int {
    text.len() as int / 256 + 1
}

/// The `k`-th text block of an ASCII file: 256 bytes of the text, or what is
/// left of the text followed by end-of-text bytes up to 256.
pub open spec fn text_chunk(text: Seq<u8>, k: int) -> Seq<u8> {
    if 256 * (k + 1) <= text.len() {
        text.subrange(256 * k, 256 * (k + 1))
    } else {
        let rest = text.subrange(256 * k, text.len() as int);
        rest + Seq::new((256 - rest.len()) as nat, |i: int| 0x1au8)
    }
}

/// The text blocks of an ASCII file.
pub open spec fn text_chunks(text: Seq<u8>) -> Seq<Seq<u8>> {
    Seq::new(text_chunk_count(text) as nat, |k: int| text_chunk(text, k))
}

/// The blocks of an ASCII file: its header, then its text blocks.
pub open spec fn ascii_blocks(name: Seq<u8>, text: Seq<u8>) -> Seq<Seq<u8>> {
    seq![header_body(0xea, name)] + text_chunks(text)
}

/// The one block of a custom file: its data filled up with zeros to a
/// multiple of eight bytes.
pub open spec fn custom_blocks(data: Seq<u8>) -> Seq<Seq<u8>> {
    seq![padded(data, 8, 0)]
}

/// Whether the body of every block is a multiple of eight bytes long.
pub open spec fn aligned(blocks: Seq<Seq<u8>>) -> bool {
    forall|k: int| 0 <= k < blocks.len() ==> (#[trigger] blocks[k]).len() % 8 == 0
}

/// The bytes of a tape: of each block in turn, the marker and the body.
pub open spec fn tape_bytes(blocks: Seq<Seq<u8>>) -> Seq<u8>
    decreases blocks.len(),
{
    if blocks.len() == 0 {
        Seq::empty()
    } else {
        tape_bytes(blocks.drop_last()) + marker() + blocks.last()
    }
}

/// A tape: its blocks, in the order in which they lie on it.
///
/// The view of a tape is the list of the bodies of its blocks.
#[derive(Debug)]
pub struct Tape {
    blocks: Vec<Block>,
}

impl View for Tape {
    type V = Seq<Seq<u8>>;

    closed spec fn view(&self) -> Seq<Seq<u8>> {
        bodies(self.blocks@)
    }
}

impl Tape {
    /// An empty tape.
    pub fn new() -> (tape: Tape)
        ensures
            tape@ == Seq::<Seq<u8>>::empty(),
            aligned(tape@),
    {
        Tape { blocks: Vec::new() }
    }

    /// The tape that `bytes` hold.
    pub fn from_bytes(bytes: &[u8]) -> (tape: Tape)
        ensures
            tape@ == split_blocks(bytes@),
    {
        Tape { blocks: Tape::parse_blocks(bytes) }
    }

    /// The blocks of this tape.
    pub fn blocks(&self) -> (blocks: &[Block])
        ensures
            bodies(blocks@) == self@,
    {
        self.blocks.as_slice()
    }

    /// The bytes of this tape.
    pub fn to_bytes(&self) -> (bytes: Vec<u8>)
        ensures
            bytes@ == tape_bytes(self@),
    {
        let mut bytes: Vec<u8> = Vec::new();
        let mut k: usize = 0;
        while k < self.blocks.len()
            invariant
                k <= self.blocks@.len(),
                bytes@ == tape_bytes(self@.take(k as int)),
            decreases self.blocks@.len() - k,
        {
            bytes.extend_from_slice(self.blocks[k].data());
            proof {
                assert(self@.take(k + 1).drop_last() == self@.take(k as int));
                assert(self@.take(k + 1).last() == self.blocks@[k as int]@);
                assert(bytes@ == tape_bytes(self@.take(k as int)) + marker()
                    + self.blocks@[k as int]@);
            }
            k = k + 1;
        }
        assert(self@.take(k as int) == self@);
        bytes
    }

    /// Appends a binary file: `name` is its name, as [`crate::file_name`]
    /// gives it, and `data` what its data block holds, the three addresses
    /// first.
    pub fn append_bin(&mut self, name: &[u8; 6], data: &[u8])
        ensures
            final(self)@ == old(self)@ + bin_blocks(name@, data@),
            aligned(old(self)@) ==> aligned(final(self)@),
    {
        let hblock = header_block(0xd0, name);
        let dblock = Block::from_data(data);
        self.append_block(hblock);
        self.append_block(dblock);
        proof {
            lemma_padding_len(16, 8);
            lemma_padding_len(data@.len() as int, 8);
            assert(padded(header_body(0xd0, name@), 8, 0) == header_body(0xd0, name@));
            assert(self@ == old(self)@ + bin_blocks(name@, data@));
        }
    }

    /// Appends a Basic file: `name` is its name, as [`crate::file_name`]
    /// gives it, and `data` the tokenized program.
    pub fn append_basic(&mut self, name: &[u8; 6], data: &[u8])
        ensures
            final(self)@ == old(self)@ + basic_blocks(name@, data@),
            aligned(old(self)@) ==> aligned(final(self)@),
    {
        let hblock = header_block(0xd3, name);
        let dblock = Block::from_data(data);
        self.append_block(hblock);
        self.append_block(dblock);
        proof {
            lemma_padding_len(16, 8);
            lemma_padding_len(data@.len() as int, 8);
            assert(padded(header_body(0xd3, name@), 8, 0) == header_body(0xd3, name@));
            assert(self@ == old(self)@ + basic_blocks(name@, data@));
        }
    }

    /// Appends an ASCII file: `name` is its name, as [`crate::file_name`]
    /// gives it, and `data` the text.
    ///
    /// The text is cut into blocks of 256 bytes. The last block is filled up
    /// with end-of-text bytes; where the text ends with a full block, a block
    /// of 256 end-of-text bytes follows it.
    pub fn append_ascii(&mut self, name: &[u8; 6], data: &[u8])
        ensures
            final(self)@ == old(self)@ + ascii_blocks(name@, data@),
            aligned(old(self)@) ==> aligned(final(self)@),
    {
        let hblock = header_block(0xea, name);
        self.append_block(hblock);
        proof {
            lemma_padding_len(16, 8);
            assert(padded(header_body(0xea, name@), 8, 0) == header_body(0xea, name@));
        }
        let ghost start = self@;
        let len = data.len();
        let full = len / 256;
        let mut k: usize = 0;
        while k < full
            invariant
                len == data@.len(),
                full == len / 256,
                k <= full,
                self@ == start + Seq::new(
                    k as nat,
                    |j: int| data@.subrange(256 * j, 256 * (j + 1)),
                ),
            decreases full - k,
        {
            let ghost before = self.blocks@;
            let chunk = Block::from_data(slice_subrange(data, 256 * k, 256 * k + 256));
            self.blocks.push(chunk);
            assert(bodies(self.blocks@) == bodies(before).push(chunk@));
            k = k + 1;
        }
        if len % 256 == 0 {
            // The text ends with a full block: the end-of-text bytes get one of their own.
            let eofs = end_of_text_block();
            self.append_block(eofs);
            proof {
                lemma_padding_len(256, 8);
                assert(padded(eofs@, 8, 0) == eofs@);
            }
        } else {
            let ghost before = self.blocks@;
            let rest = Block::from_data(slice_subrange(data, 256 * full, len));
            self.blocks.push(rest);
            assert(bodies(self.blocks@) == bodies(before).push(rest@));
            self.extend_last_block(256, 0x1a);
            proof {
                lemma_padding_len(rest@.len() as int, 256);
            }
        }
        proof {
            let chunks = text_chunks(data@);
            assert(self@.len() == old(self)@.len() + 1 + chunks.len());
            assert forall|j: int| 0 <= j < chunks.len() implies self@[old(self)@.len() + 1
                + j] == chunks[j] by {
                if j < full {
                } else {
                    assert(text_chunk(data@, j) == self@[old(self)@.len() + 1 + j]);
                }
            }
            assert(self@ == old(self)@ + ascii_blocks(name@, data@));
            assert forall|j: int| 0 <= j < chunks.len() implies (#[trigger] chunks[j]).len() % 8
                == 0 by {}
        }
    }

    /// Appends a custom file: one block that holds `data`.
    pub fn append_custom(&mut self, data: &[u8])
        ensures
            final(self)@ == old(self)@ + custom_blocks(data@),
            aligned(old(self)@) ==> aligned(final(self)@),
    {
        self.append_block(Block::from_data(data));
        proof {
            lemma_padding_len(data@.len() as int, 8);
            assert(self@ == old(self)@ + custom_blocks(data@));
        }
    }

    /// Appends `block`, filled up with zeros to a multiple of eight bytes.
    fn append_block(&mut self, block: Block)
        ensures
            final(self)@ == old(self)@.push(padded(block@, 8, 0)),
    {
        let ghost before = self.blocks@;
        self.blocks.push(block);
        assert(bodies(self.blocks@) == bodies(before).push(block@));
        self.extend_last_block(8, 0x00)
    }

    /// Fills the last block up with copies of `padding_byte` to a multiple of
    /// `align` bytes. An empty tape stays empty.
    fn extend_last_block(&mut self, align: usize, padding_byte: u8)
        requires
            align > 0,
        ensures
            old(self)@.len() == 0 ==> final(self)@ == old(self)@,
            old(self)@.len() > 0 ==> final(self)@ == old(self)@.drop_last().push(
                padded(old(self)@.last(), align as int, padding_byte),
            ),
    {
        let ghost before = self.blocks@;
        if let Some(last_block) = self.blocks.pop() {
            let ghost rest = self.blocks@;
            let extended = last_block.pad(align, padding_byte);
            self.blocks.push(extended);
            assert(bodies(rest) == bodies(before).drop_last());
            assert(bodies(self.blocks@) == bodies(rest).push(extended@));
        }
    }
}

/// The header block with the given tag and name.
fn header_block(tag: u8, name: &[u8; 6]) -> (block: Block)
    ensures
        block@ == header_body(tag, name@),
{
    let mut body: Vec<u8> = Vec::new();
    let mut i: usize = 0;
    while i < 10
        invariant
            i <= 10,
            body@ == Seq::new(i as nat, |k: int| tag),
        decreases 10 - i,
    {
        body.push(tag);
        i = i + 1;
    }
    body.extend_from_slice(name.as_slice());
    Block::from_data(body.as_slice())
}

/// A block of 256 end-of-text bytes.
fn end_of_text_block() -> (block: Block)
    ensures
        block@ == Seq::new(256, |k: int| 0x1au8),
{
    let mut body: Vec<u8> = Vec::new();
    let mut i: usize = 0;
    while i < 256
        invariant
            i <= 256,
            body@ == Seq::new(i as nat, |k: int| 0x1au8),
        decreases 256 - i,
    {
        body.push(0x1a);
        i = i + 1;
    }
    Block::from_data(body.as_slice())
}

} // verus!
