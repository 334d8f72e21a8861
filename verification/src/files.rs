//! Grouping the blocks of a tape into files.

use crate::block::{ascii_header, basic_header, bin_header, header_name, BlockKind};
use crate::error::DecodeError;
use crate::file::{slices_view, File, FileView};
use crate::split::split_blocks;
use crate::tape::{bodies, Tape};
use crate::trusted::{le_u16, read_u16_le};
use vstd::prelude::*;
use vstd::slice::slice_subrange;

verus! {

/// The byte that ends the text of an ASCII file.
pub open spec fn end_of_text() -> u8 {
    0x1a
}

/// The index after the last text block of an ASCII file whose text starts at
/// block `from`: after the first block from there on that holds an
/// end-of-text byte, or the end of the tape where none does.
pub open spec fn text_end(blocks: Seq<Seq<u8>>, from: int) -> int
    decreases blocks.len() - from,
{
    if from >= blocks.len() {
        blocks.len() as int
    } else if blocks[from].contains(end_of_text()) {
        from + 1
    } else {
        text_end(blocks, from + 1)
    }
}

/// The binary file called `name` whose data block has the body `data`: the
/// body opens with three little-endian 16-bit addresses, begin, end and start.
pub open spec fn bin_file(name: Seq<char>, data: Seq<u8>) -> Result<FileView, DecodeError> {
    if data.len() < 6 {
        Err(DecodeError::MissingAddresses)
    } else {
        Ok(
            FileView::Bin {
                name,
                begin: le_u16(data[0], data[1]),
                end: le_u16(data[2], data[3]),
                start: le_u16(data[4], data[5]),
                data,
            },
        )
    }
}

/// The file that starts at block `at`, or the reason why there is none.
///
/// * A binary or Basic header takes the next block as its data; without a
///   next block the header dangles.
/// * An ASCII header takes the blocks after it up to [`text_end`].
/// * Any other block is a custom file by itself.
pub open spec fn file_at(blocks: Seq<Seq<u8>>, at: int) -> Result<FileView, DecodeError>
    recommends
        0 <= at < blocks.len(),
{
    let head = blocks[at];
    if bin_header(head) {
        if at + 1 >= blocks.len() {
            Err(DecodeError::DanglingHeader)
        } else {
            match header_name(head) {
                None => Err(DecodeError::InvalidName),
                Some(name) => bin_file(name, blocks[at + 1]),
            }
        }
    } else if basic_header(head) {
        if at + 1 >= blocks.len() {
            Err(DecodeError::DanglingHeader)
        } else {
            match header_name(head) {
                None => Err(DecodeError::InvalidName),
                Some(name) => Ok(FileView::Basic { name, data: blocks[at + 1] }),
            }
        }
    } else if ascii_header(head) {
        match header_name(head) {
            None => Err(DecodeError::InvalidName),
            Some(name) => Ok(
                FileView::Ascii {
                    name,
                    chunks: blocks.subrange(at + 1, text_end(blocks, at + 1)),
                },
            ),
        }
    } else {
        Ok(FileView::Custom { data: head })
    }
}

/// The index of the block at which the file after the one at `at` starts:
/// every block belongs to one file, and the cursor never moves back.
pub open spec fn next_file(blocks: Seq<Seq<u8>>, at: int) -> int
    recommends
        0 <= at < blocks.len(),
{
    let head = blocks[at];
    if bin_header(head) || basic_header(head) {
        if at + 1 >= blocks.len() {
            at + 1
        } else {
            at + 2
        }
    } else if ascii_header(head) {
        text_end(blocks, at + 1)
    } else {
        at + 1
    }
}

/// What a cursor that stands at block `at` hands out until the tape is used
/// up: file after file, each starting where the one before it ended.
pub open spec fn files_from(blocks: Seq<Seq<u8>>, at: int) -> Seq<Result<FileView, DecodeError>>
    decreases blocks.len() - at,
{
    if 0 <= at < blocks.len() {
        proof {
            lemma_cursor_advances(blocks, at);
        }
        seq![file_at(blocks, at)] + files_from(blocks, next_file(blocks, at))
    } else {
        Seq::empty()
    }
}

/// The files of a tape with the given blocks, and the failures among them.
pub open spec fn files_of(blocks: Seq<Seq<u8>>) -> Seq<Result<FileView, DecodeError>> {
    files_from(blocks, 0)
}

/// The first failure in a list of files and failures, if there is one.
pub open spec fn first_failure(items: Seq<Result<FileView, DecodeError>>) -> Option<DecodeError>
    decreases items.len(),
{
    if items.len() == 0 {
        None
    } else {
        match items[0] {
            Err(error) => Some(error),
            Ok(_) => first_failure(items.drop_first()),
        }
    }
}

/// Whether the file that starts at block `at` has all its blocks: a binary or
/// Basic header its data block, an ASCII header a block with an end-of-text
/// byte.
pub open spec fn complete_at(blocks: Seq<Seq<u8>>, at: int) -> bool
    recommends
        0 <= at < blocks.len(),
{
    let head = blocks[at];
    if bin_header(head) || basic_header(head) {
        at + 1 < blocks.len()
    } else if ascii_header(head) {
        exists|k: int| at < k < blocks.len() && (#[trigger] blocks[k]).contains(end_of_text())
    } else {
        true
    }
}

/// Whether every file from block `at` on has all its blocks, so that nothing
/// written behind the last block could be taken for a part of them.
pub open spec fn complete_from(blocks: Seq<Seq<u8>>, at: int) -> bool
    decreases blocks.len() - at,
{
    if 0 <= at < blocks.len() {
        proof {
            lemma_cursor_advances(blocks, at);
        }
        complete_at(blocks, at) && complete_from(blocks, next_file(blocks, at))
    } else {
        true
    }
}

/// Whether every file of the tape has all its blocks.
pub open spec fn complete(blocks: Seq<Seq<u8>>) -> bool {
    complete_from(blocks, 0)
}

/// The text of an ASCII file ends behind where it starts, and on the tape.
pub proof fn lemma_text_end_bounds(blocks: Seq<Seq<u8>>, from: int)
    requires
        0 <= from <= blocks.len(),
    ensures
        from <= text_end(blocks, from) <= blocks.len(),
        from < blocks.len() ==> from < text_end(blocks, from),
    decreases blocks.len() - from,
{
    if from < blocks.len() && !blocks[from].contains(end_of_text()) {
        lemma_text_end_bounds(blocks, from + 1);
    }
}

/// The cursor only ever moves forward, and never off the tape: every block
/// belongs to one file.
pub proof fn lemma_cursor_advances(blocks: Seq<Seq<u8>>, at: int)
    requires
        0 <= at < blocks.len(),
    ensures
        at < next_file(blocks, at) <= blocks.len(),
{
    lemma_text_end_bounds(blocks, at + 1);
}

/// What a list of files and failures stands for.
pub open spec fn results_view(items: Seq<Result<File<'_>, DecodeError>>) -> Seq<
    Result<FileView, DecodeError>,
> {
    items.map_values(
        |item: Result<File<'_>, DecodeError>|
            match item {
                Ok(file) => Ok(file@),
                Err(error) => Err(error),
            },
    )
}

/// Whether `result` is what a cursor hands out for `expected`.
pub open spec fn yields(
    result: Option<Result<File<'_>, DecodeError>>,
    expected: Result<FileView, DecodeError>,
) -> bool {
    match result {
        Some(Ok(file)) => expected == Ok::<FileView, DecodeError>(file@),
        Some(Err(error)) => expected == Err::<FileView, DecodeError>(error),
        None => false,
    }
}

/// A forward-only cursor over the files of a tape.
pub struct Files<'a> {
    tape: &'a Tape,
    i: usize,
}

impl<'a> Files<'a> {
    #[verifier::type_invariant]
    spec fn within_tape(self) -> bool {
        self.i <= self.tape@.len()
    }

    /// The bodies of the blocks of the tape that this cursor walks.
    pub closed spec fn blocks(&self) -> Seq<Seq<u8>> {
        self.tape@
    }

    /// The index of the block at which the next file starts.
    pub closed spec fn cursor(&self) -> int {
        self.i as int
    }

    /// The index of the block at which the next file starts. Taken before a
    /// call of [`Files::next`], it tells where a failure lies.
    pub fn position(&self) -> (at: usize)
        ensures
            at == self.cursor(),
            at <= self.blocks().len(),
    {
        proof {
            use_type_invariant(self);
        }
        self.i
    }

    /// The next file, `None` once the tape is used up.
    ///
    /// A failure is handed out in place of the file that could not be read, and
    /// the cursor moves past the blocks of that file all the same.
    pub fn next(&mut self) -> (result: Option<Result<File<'a>, DecodeError>>)
        ensures
            final(self).blocks() == old(self).blocks(),
            old(self).cursor() >= old(self).blocks().len() ==> {
                &&& result is None
                &&& final(self).cursor() == old(self).cursor()
            },
            old(self).cursor() < old(self).blocks().len() ==> {
                &&& yields(result, file_at(old(self).blocks(), old(self).cursor()))
                &&& final(self).cursor() == next_file(old(self).blocks(), old(self).cursor())
            },
    {
        proof {
            use_type_invariant(&*self);
        }
        let tape: &'a Tape = self.tape;
        let blocks = tape.blocks();
        let n = blocks.len();
        let at = self.i;
        if at >= n {
            return None;
        }
        let ghost all = tape@;
        let head = &blocks[at];
        match head.classify() {
            Ok(BlockKind::BinHeader) => {
                if at + 1 >= n {
                    self.i = n;
                    return Some(Err(DecodeError::DanglingHeader));
                }
                self.i = at + 2;
                let name = match head.file_name() {
                    Some(name) => name,
                    None => {
                        return Some(Err(DecodeError::InvalidName));
                    },
                };
                let content = blocks[at + 1].data_without_prefix();
                if content.len() < 6 {
                    return Some(Err(DecodeError::MissingAddresses));
                }
                let begin = read_u16_le(slice_subrange(content, 0, 2)) as usize;
                let end = read_u16_le(slice_subrange(content, 2, 4)) as usize;
                let start = read_u16_le(slice_subrange(content, 4, 6)) as usize;
                Some(Ok(File::Bin(name.to_owned(), begin, end, start, content)))
            },
            Ok(BlockKind::BasicHeader) => {
                if at + 1 >= n {
                    self.i = n;
                    return Some(Err(DecodeError::DanglingHeader));
                }
                self.i = at + 2;
                let name = match head.file_name() {
                    Some(name) => name,
                    None => {
                        return Some(Err(DecodeError::InvalidName));
                    },
                };
                let content = blocks[at + 1].data_without_prefix();
                Some(Ok(File::Basic(name.to_owned(), content)))
            },
            Ok(BlockKind::AsciiHeader) => {
                let mut chunks: Vec<&'a [u8]> = Vec::new();
                let mut j: usize = at + 1;
                let mut ended = false;
                while j < n && !ended
                    invariant
                        at < j <= n,
                        n == blocks@.len(),
                        bodies(blocks@) == all,
                        slices_view(chunks@) == all.subrange(at + 1, j as int),
                        text_end(all, at + 1) == if ended {
                            j as int
                        } else {
                            text_end(all, j as int)
                        },
                    decreases n - j,
                {
                    let chunk = blocks[j].data_without_prefix();
                    let ghost before = chunks@;
                    chunks.push(chunk);
                    ended = holds_end_of_text(chunk);
                    assert(slices_view(chunks@) == slices_view(before).push(chunk@));
                    assert(all.subrange(at + 1, j + 1) == all.subrange(at + 1, j as int).push(
                        all[j as int],
                    ));
                    j = j + 1;
                }
                self.i = j;
                match head.file_name() {
                    Some(name) => Some(Ok(File::Ascii(name.to_owned(), chunks))),
                    None => Some(Err(DecodeError::InvalidName)),
                }
            },
            // A block too short to be classified is read as data, like any
            // block that is no header.
            Ok(BlockKind::Data) | Err(_) => {
                self.i = at + 1;
                Some(Ok(File::Custom(head.data_without_prefix())))
            },
        }
    }
}

impl<'a> Files<'a> {
    /// All that is left: the files from the cursor to the end of the tape, each
    /// as [`Files::next`] hands it out.
    pub fn collect(&mut self) -> (items: Vec<Result<File<'a>, DecodeError>>)
        ensures
            final(self).blocks() == old(self).blocks(),
            final(self).cursor() >= old(self).blocks().len(),
            results_view(items@) == files_from(old(self).blocks(), old(self).cursor()),
    {
        let mut items: Vec<Result<File<'a>, DecodeError>> = Vec::new();
        let ghost blocks = self.blocks();
        let ghost start = self.cursor();
        loop
            invariant
                self.blocks() == blocks,
                self.cursor() >= 0,
                files_from(blocks, start) == results_view(items@) + files_from(
                    blocks,
                    self.cursor(),
                ),
            ensures
                self.blocks() == blocks,
                self.cursor() >= blocks.len(),
                results_view(items@) == files_from(blocks, start),
            decreases blocks.len() - self.cursor(),
        {
            let ghost at = self.cursor();
            let ghost before = items@;
            match self.next() {
                Some(item) => {
                    items.push(item);
                    proof {
                        lemma_cursor_advances(blocks, at);
                        assert(results_view(items@) == results_view(before).push(
                            file_at(blocks, at),
                        ));
                    }
                },
                None => {
                    break ;
                },
            }
        }
        items
    }
}

/// Whether `chunk` holds an end-of-text byte.
fn holds_end_of_text(chunk: &[u8]) -> (result: bool)
    ensures
        result == chunk@.contains(end_of_text()),
{
    let mut i: usize = 0;
    while i < chunk.len()
        invariant
            i <= chunk@.len(),
            forall|k: int| 0 <= k < i ==> chunk@[k] != end_of_text(),
        decreases chunk@.len() - i,
    {
        if chunk[i] == 0x1a {
            return true;
        }
        i = i + 1;
    }
    false
}

impl Tape {
    /// The tape that `bytes` hold, where all its files can be read; else the
    /// first failure among them.
    pub fn parse(bytes: &[u8]) -> (result: Result<Tape, DecodeError>)
        ensures
            match result {
                Ok(tape) => tape@ == split_blocks(bytes@) && first_failure(files_of(tape@))
                    is None,
                Err(error) => first_failure(files_of(split_blocks(bytes@))) == Some(error),
            },
    {
        let tape = Tape::from_bytes(bytes);
        match tape.first_error() {
            Some(error) => Err(error),
            None => Ok(tape),
        }
    }

    /// The first failure among the files of this tape, `None` where all of
    /// them can be read.
    pub fn first_error(&self) -> (result: Option<DecodeError>)
        ensures
            result == first_failure(files_of(self@)),
    {
        let mut files = self.files();
        let ghost blocks = self@;
        loop
            invariant
                blocks == self@,
                files.blocks() == blocks,
                files.cursor() >= 0,
                first_failure(files_of(blocks)) == first_failure(
                    files_from(blocks, files.cursor()),
                ),
            decreases blocks.len() - files.cursor(),
        {
            let ghost at = files.cursor();
            proof {
                if at < blocks.len() {
                    lemma_cursor_advances(blocks, at);
                    assert(files_from(blocks, at).drop_first() == files_from(
                        blocks,
                        next_file(blocks, at),
                    ));
                }
            }
            match files.next() {
                Some(Err(error)) => {
                    return Some(error);
                },
                Some(Ok(_)) => {},
                None => {
                    return None;
                },
            }
        }
    }

    /// A cursor at the first file of this tape.
    pub fn files(&self) -> (files: Files<'_>)
        ensures
            files.blocks() == self@,
            files.cursor() == 0,
    {
        Files { tape: self, i: 0 }
    }
}

} // verus!
