//! Blocks: the marker-delimited units of a tape image.

use crate::error::DecodeError;
use crate::name::{
    lemma_trim_padding_keeps_utf8, lemma_trim_padding_trims_text, trim_padding, trim_text,
};
use crate::trusted::str_from_utf8;
use vstd::arithmetic::div_mod::{
    lemma_fundamental_div_mod, lemma_fundamental_div_mod_converse, lemma_mod_bound,
    lemma_mod_self_0, lemma_small_mod,
};
use vstd::prelude::*;
use vstd::slice::slice_subrange;
use vstd::string::*;
use vstd::utf8::*;

verus! {

/// The eight bytes that open every block.
pub open spec fn marker() -> Seq<u8> {
    seq![0x1fu8, 0xa6u8, 0xdeu8, 0xbau8, 0xccu8, 0x13u8, 0x7du8, 0x74u8]
}

/// True when `body` opens with ten copies of `tag`.
pub open spec fn has_tag(body: Seq<u8>, tag: u8) -> bool {
    body.len() >= 10 && forall|i: int| 0 <= i < 10 ==> body[i] == tag
}

/// The body of the header of a binary file: ten times `d0`, then the name.
pub open spec fn bin_header(body: Seq<u8>) -> bool {
    has_tag(body, 0xd0)
}

/// The body of the header of a Basic file: ten times `d3`, then the name.
pub open spec fn basic_header(body: Seq<u8>) -> bool {
    has_tag(body, 0xd3)
}

/// The body of the header of an ASCII file: ten times `ea`, then the name.
pub open spec fn ascii_header(body: Seq<u8>) -> bool {
    has_tag(body, 0xea)
}

/// The body of a header of any of the three kinds.
pub open spec fn file_header(body: Seq<u8>) -> bool {
    bin_header(body) || basic_header(body) || ascii_header(body)
}

/// What a block is, judged by the first ten bytes of its body.
#[derive(Debug, Clone, Copy, PartialEq, Eq)]
pub enum BlockKind {
    BinHeader,
    BasicHeader,
    AsciiHeader,
    Data,
}

/// The kind of the block with the given body.
pub open spec fn kind_of(body: Seq<u8>) -> BlockKind {
    if bin_header(body) {
        BlockKind::BinHeader
    } else if basic_header(body) {
        BlockKind::BasicHeader
    } else if ascii_header(body) {
        BlockKind::AsciiHeader
    } else {
        BlockKind::Data
    }
}

/// The name field of a header: the bytes of the body from offset 10 up to
/// offset 16, or up to the end of a body that stops short of it.
pub open spec fn name_field(body: Seq<u8>) -> Seq<u8> {
    body.subrange(10, if body.len() < 16 { body.len() as int } else { 16 })
}

/// The name that a header carries: its name field read as UTF-8, without the
/// padding at its end. Blocks that are no headers have none, and neither has
/// a header whose name field is not UTF-8.
pub open spec fn header_name(body: Seq<u8>) -> Option<Seq<char>> {
    if file_header(body) && valid_utf8(name_field(body)) {
        Some(trim_text(decode_utf8(name_field(body))))
    } else {
        None
    }
}

/// The number of bytes that a body of `len` bytes lacks to a multiple of
/// `align`.
pub open spec fn padding_len(len: int, align: int) -> int
    recommends
        len >= 0,
        align > 0,
{
    (align - len % align) % align
}

/// `body` followed by as many copies of `fill` as bring its length to the next
/// multiple of `align`; a body that is aligned as it stands gets none.
pub open spec fn padded(body: Seq<u8>, align: int, fill: u8) -> Seq<u8>
    recommends
        align > 0,
{
    body + Seq::new(padding_len(body.len() as int, align) as nat, |i: int| fill)
}

/// What a body lacks to alignment: nothing where it is aligned, and one byte
/// less with each byte added where it is not.
pub proof fn lemma_padding_len(len: int, align: int)
    requires
        len >= 0,
        align > 0,
    ensures
        0 <= padding_len(len, align) < align,
        (len + padding_len(len, align)) % align == 0,
        len % align == 0 <==> padding_len(len, align) == 0,
        len % align != 0 ==> padding_len(len + 1, align) == padding_len(len, align) - 1,
{
    let r = len % align;
    let q = len / align;
    lemma_mod_bound(len, align);
    lemma_fundamental_div_mod(len, align);
    assert(len == q * align + r) by (nonlinear_arith)
        requires
            len == align * q + r,
    ;
    if r == 0 {
        lemma_mod_self_0(align);
    } else {
        lemma_small_mod((align - r) as nat, align as nat);
        assert(len + (align - r) == (q + 1) * align + 0) by (nonlinear_arith)
            requires
                len == q * align + r,
        ;
        lemma_fundamental_div_mod_converse(len + (align - r), align, q + 1, 0);
        if r + 1 == align {
            lemma_mod_self_0(align);
        } else {
            lemma_fundamental_div_mod_converse(len + 1, align, q, r + 1);
            lemma_small_mod((align - r - 1) as nat, align as nat);
        }
    }
}

/// A block of a tape: the marker followed by the block's body.
///
/// The view of a block is its body, the bytes after the marker.
#[derive(Debug)]
pub struct Block {
    data: Vec<u8>,
}

impl View for Block {
    type V = Seq<u8>;

    closed spec fn view(&self) -> Seq<u8> {
        self.data@.skip(8)
    }
}

impl Block {
    #[verifier::type_invariant]
    spec fn starts_with_marker(self) -> bool {
        self.data@.len() >= 8 && self.data@.take(8) == marker()
    }

    /// Builds the block whose body is `bytes`.
    pub fn from_data(bytes: &[u8]) -> (block: Block)
        ensures
            block@ == bytes@,
    {
        let mut data: Vec<u8> = Vec::new();
        data.push(0x1f);
        data.push(0xa6);
        data.push(0xde);
        data.push(0xba);
        data.push(0xcc);
        data.push(0x13);
        data.push(0x7d);
        data.push(0x74);
        assert(data@ == marker());
        data.extend_from_slice(bytes);
        assert(data@.take(8) == marker());
        assert(data@.skip(8) == bytes@);
        Block { data }
    }

    /// The whole block: marker, then body.
    pub fn data(&self) -> (bytes: &[u8])
        ensures
            bytes@ == marker() + self@,
    {
        proof {
            use_type_invariant(self);
            assert(self.data@ == self.data@.take(8) + self.data@.skip(8));
        }
        self.data.as_slice()
    }

    /// The body: the block without its marker.
    pub fn data_without_prefix(&self) -> (bytes: &[u8])
        ensures
            bytes@ == self@,
    {
        proof {
            use_type_invariant(self);
        }
        slice_subrange(self.data.as_slice(), 8, self.data.len())
    }

    /// This block with its body filled up with copies of `fill` to the next
    /// multiple of `align`.
    pub(crate) fn pad(self, align: usize, fill: u8) -> (block: Block)
        requires
            align > 0,
        ensures
            block@ == padded(self@, align as int, fill),
    {
        proof {
            use_type_invariant(&self);
            lemma_padding_len(self@.len() as int, align as int);
        }
        let ghost body = self@;
        let mut data = self.data;
        while (data.len() - 8) % align != 0
            invariant
                align > 0,
                data@.len() >= 8,
                data@.take(8) == marker(),
                body.len() <= data@.len() - 8 <= body.len() + padding_len(
                    body.len() as int,
                    align as int,
                ),
                data@.skip(8) == body + Seq::new(
                    (data@.len() - 8 - body.len()) as nat,
                    |i: int| fill,
                ),
                padding_len(data@.len() - 8, align as int) == body.len() + padding_len(
                    body.len() as int,
                    align as int,
                ) - (data@.len() - 8),
            decreases padding_len(data@.len() - 8, align as int),
        {
            proof {
                lemma_padding_len(data@.len() - 8, align as int);
            }
            let ghost before = data@;
            data.push(fill);
            assert(data@.take(8) == before.take(8));
            assert(data@.skip(8) == before.skip(8).push(fill));
        }
        proof {
            lemma_padding_len(data@.len() - 8, align as int);
        }
        Block { data }
    }

    /// The kind of this block, or `TruncatedHeader` for a body so short that
    /// it holds no room for a tag. Callers that read leniently take such a
    /// block for data, as `is_bin_header` and its siblings do.
    pub fn classify(&self) -> (result: Result<BlockKind, DecodeError>)
        ensures
            self@.len() < 10 ==> result == Err::<BlockKind, DecodeError>(
                DecodeError::TruncatedHeader,
            ),
            self@.len() >= 10 ==> result == Ok::<BlockKind, DecodeError>(kind_of(self@)),
    {
        let body = self.data_without_prefix();
        if body.len() < 10 {
            Err(DecodeError::TruncatedHeader)
        } else if starts_with_tag(body, 0xd0) {
            Ok(BlockKind::BinHeader)
        } else if starts_with_tag(body, 0xd3) {
            Ok(BlockKind::BasicHeader)
        } else if starts_with_tag(body, 0xea) {
            Ok(BlockKind::AsciiHeader)
        } else {
            Ok(BlockKind::Data)
        }
    }

    /// Whether this block is the header of a binary file.
    pub fn is_bin_header(&self) -> (result: bool)
        ensures
            result == bin_header(self@),
    {
        starts_with_tag(self.data_without_prefix(), 0xd0)
    }

    /// Whether this block is the header of a Basic file.
    pub fn is_basic_header(&self) -> (result: bool)
        ensures
            result == basic_header(self@),
    {
        starts_with_tag(self.data_without_prefix(), 0xd3)
    }

    /// Whether this block is the header of an ASCII file.
    pub fn is_ascii_header(&self) -> (result: bool)
        ensures
            result == ascii_header(self@),
    {
        starts_with_tag(self.data_without_prefix(), 0xea)
    }

    /// Whether this block is a header of any kind.
    pub fn is_file_header(&self) -> (result: bool)
        ensures
            result == file_header(self@),
    {
        self.is_bin_header() || self.is_basic_header() || self.is_ascii_header()
    }

    /// The name in this header, or `None` where there is none to give.
    pub fn file_name(&self) -> (result: Option<&str>)
        ensures
            match result {
                Some(name) => header_name(self@) == Some(name@),
                None => header_name(self@) is None,
            },
    {
        if !self.is_file_header() {
            return None;
        }
        let body = self.data_without_prefix();
        let stop: usize = if body.len() < 16 { body.len() } else { 16 };
        let field = slice_subrange(body, 10, stop);
        let mut end: usize = field.len();
        assert(field@.take(end as int) == field@);
        while end > 0 && (field[end - 1] == 0x20 || field[end - 1] == 0x00)
            invariant
                end <= field@.len(),
                trim_padding(field@) == trim_padding(field@.take(end as int)),
            decreases end,
        {
            assert(field@.take(end as int).drop_last() == field@.take(end as int - 1));
            end = end - 1;
        }
        let name = slice_subrange(field, 0, end);
        proof {
            assert(name@ == field@.take(end as int));
            assert(trim_padding(field@) == name@);
            lemma_trim_padding_keeps_utf8(field@);
            if valid_utf8(field@) {
                lemma_trim_padding_trims_text(field@);
            }
        }
        match str_from_utf8(name) {
            Ok(text) => {
                proof {
                    encode_utf8_decode_utf8(text@);
                }
                Some(text)
            },
            Err(_) => None,
        }
    }
}

/// Whether `body` opens with ten copies of `tag`.
fn starts_with_tag(body: &[u8], tag: u8) -> (result: bool)
    ensures
        result == has_tag(body@, tag),
{
    if body.len() < 10 {
        return false;
    }
    let mut i: usize = 0;
    while i < 10
        invariant
            i <= 10 <= body@.len(),
            forall|j: int| 0 <= j < i ==> body@[j] == tag,
        decreases 10 - i,
    {
        if body[i] != tag {
            return false;
        }
        i = i + 1;
    }
    true
}

} // verus!
