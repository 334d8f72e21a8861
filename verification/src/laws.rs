//! What holds of the codec as a whole: reading gives back what was written.

use crate::block::{
    ascii_header, basic_header, bin_header, has_tag, lemma_padding_len, marker, name_field,
    padded,
};
use crate::error::DecodeError;
use crate::file::FileView;
use crate::files::{
    complete, complete_at, complete_from, end_of_text, file_at, files_from, files_of,
    lemma_cursor_advances, next_file, text_end,
};
use crate::name::trim_text;
use crate::split::{
    block_starts, lemma_starts_of_block, lemma_starts_of_suffix, lemma_starts_ordered,
    marker_free, split_blocks,
};
use crate::tape::{
    aligned, ascii_blocks, basic_blocks, bin_blocks, custom_blocks, header_body, tape_bytes,
    text_chunk, text_chunk_count, text_chunks,
};
use crate::trusted::le_u16;
use vstd::prelude::*;
use vstd::utf8::{decode_utf8, valid_utf8};

verus! {

/// A body is the header of at most one kind of file.
pub proof fn law_header_kinds_exclude_each_other(body: Seq<u8>)
    ensures
        !(bin_header(body) && basic_header(body)),
        !(bin_header(body) && ascii_header(body)),
        !(basic_header(body) && ascii_header(body)),
{
    if bin_header(body) {
        assert(body[0] == 0xd0);
    }
    if basic_header(body) {
        assert(body[0] == 0xd3);
    }
}

/// A header written for `name` is a header of its kind and of no other, and
/// carries `name`.
pub proof fn lemma_header_body(tag: u8, name: Seq<u8>)
    requires
        name.len() == 6,
        tag == 0xd0 || tag == 0xd3 || tag == 0xea,
    ensures
        bin_header(header_body(tag, name)) == (tag == 0xd0),
        basic_header(header_body(tag, name)) == (tag == 0xd3),
        ascii_header(header_body(tag, name)) == (tag == 0xea),
        name_field(header_body(tag, name)) == name,
        header_body(tag, name).len() == 16,
{
    let body = header_body(tag, name);
    assert(body[0] == tag);
    assert(name_field(body) == name);
}

/// A binary file that was written is read back as it was: one file, with the
/// name that the six bytes spell, the three addresses that the data opens
/// with, and the data itself, followed by the zeros that fill its block.
pub proof fn law_bin_round_trip(name: Seq<u8>, data: Seq<u8>)
    requires
        name.len() == 6,
        valid_utf8(name),
        data.len() >= 6,
    ensures
        files_of(bin_blocks(name, data)) == seq![
            Ok::<FileView, DecodeError>(
                FileView::Bin {
                    name: trim_text(decode_utf8(name)),
                    begin: le_u16(data[0], data[1]),
                    end: le_u16(data[2], data[3]),
                    start: le_u16(data[4], data[5]),
                    data: padded(data, 8, 0),
                },
            ),
        ],
        padded(data, 8, 0).len() % 8 == 0,
        padded(data, 8, 0).take(data.len() as int) == data,
{
    let blocks = bin_blocks(name, data);
    lemma_header_body(0xd0, name);
    lemma_padding_len(data.len() as int, 8);
    reveal_with_fuel(files_from, 2);
    assert(next_file(blocks, 0) == 2);
}

/// A Basic file that was written is read back as it was: one file, with the
/// name that the six bytes spell, and the data, followed by the zeros that
/// fill its block.
pub proof fn law_basic_round_trip(name: Seq<u8>, data: Seq<u8>)
    requires
        name.len() == 6,
        valid_utf8(name),
    ensures
        files_of(basic_blocks(name, data)) == seq![
            Ok::<FileView, DecodeError>(
                FileView::Basic { name: trim_text(decode_utf8(name)), data: padded(data, 8, 0) },
            ),
        ],
        padded(data, 8, 0).len() % 8 == 0,
        padded(data, 8, 0).take(data.len() as int) == data,
{
    let blocks = basic_blocks(name, data);
    lemma_header_body(0xd3, name);
    lemma_padding_len(data.len() as int, 8);
    reveal_with_fuel(files_from, 2);
    assert(next_file(blocks, 0) == 2);
}

/// The shape of the text blocks of an ASCII file: one block for every 256
/// bytes of text or part of them, and one more where the text ends with a
/// full block; each block but the last is the 256 bytes of text that fall to
/// it; the last is what is left of the text, followed by end-of-text bytes up
/// to 256.
pub proof fn law_text_chunks(text: Seq<u8>)
    ensures
        text_chunks(text).len() == text.len() / 256 + 1,
        text_chunks(text).len() == (text.len() + 1 + 255) / 256,
        forall|k: int|
            0 <= k < text_chunks(text).len() - 1 ==> #[trigger] text_chunks(text)[k]
                == text.subrange(256 * k, 256 * k + 256),
        forall|k: int|
            0 <= k < text_chunks(text).len() ==> (#[trigger] text_chunks(text)[k]).len() == 256,
        ({
            let last = text_chunks(text).last();
            let rest = text.subrange(256 * (text.len() as int / 256), text.len() as int);
            &&& rest.len() == text.len() % 256
            &&& last.take(rest.len() as int) == rest
            &&& forall|i: int| rest.len() <= i < 256 ==> last[i] == end_of_text()
        }),
{
    let count = text_chunk_count(text);
    assert forall|k: int| 0 <= k < count - 1 implies #[trigger] text_chunks(text)[k]
        == text.subrange(256 * k, 256 * k + 256) by {
        assert(text_chunks(text)[k] == text_chunk(text, k));
    }
    assert forall|k: int| 0 <= k < count implies (#[trigger] text_chunks(text)[k]).len()
        == 256 by {
        assert(text_chunks(text)[k] == text_chunk(text, k));
    }
    assert(text_chunks(text).last() == text_chunk(text, count - 1));
}

/// An ASCII file that was written is read back as it was: one file, with the
/// name that the six bytes spell, and the text blocks as [`law_text_chunks`]
/// describes them.
///
/// An end-of-text byte ends the file in the block in which it stands, so the
/// text must hold none before its last block.
pub proof fn law_ascii_round_trip(name: Seq<u8>, text: Seq<u8>)
    requires
        name.len() == 6,
        valid_utf8(name),
        forall|i: int| 0 <= i < 256 * (text.len() as int / 256) ==> text[i] != end_of_text(),
    ensures
        files_of(ascii_blocks(name, text)) == seq![
            Ok::<FileView, DecodeError>(
                FileView::Ascii {
                    name: trim_text(decode_utf8(name)),
                    chunks: text_chunks(text),
                },
            ),
        ],
{
    let blocks = ascii_blocks(name, text);
    let count = text_chunk_count(text);
    lemma_header_body(0xea, name);
    lemma_ascii_blocks(name, text);
    assert(blocks.subrange(1, count + 1) == text_chunks(text));
    reveal_with_fuel(files_from, 2);
    assert(next_file(blocks, 0) == count + 1);
}

/// In the blocks of an ASCII file whose text holds no end-of-text byte before
/// its last block, the text ends with the last block, which holds one.
pub proof fn lemma_ascii_blocks(name: Seq<u8>, text: Seq<u8>)
    requires
        forall|i: int| 0 <= i < 256 * (text.len() as int / 256) ==> text[i] != end_of_text(),
    ensures
        ascii_blocks(name, text).len() == text_chunk_count(text) + 1,
        ascii_blocks(name, text).last().contains(end_of_text()),
        text_end(ascii_blocks(name, text), 1) == text_chunk_count(text) + 1,
{
    let blocks = ascii_blocks(name, text);
    let count = text_chunk_count(text);
    law_text_chunks(text);
    assert(blocks.len() == count + 1);
    assert forall|k: int| 1 <= k < count implies !(#[trigger] blocks[k]).contains(
        end_of_text(),
    ) by {
        assert(blocks[k] == text_chunks(text)[k - 1]);
    }
    let last = blocks[count];
    assert(last == text_chunks(text).last());
    assert(last[255] == end_of_text());
    assert(last.contains(end_of_text()));
    lemma_text_end_skips(blocks, 1, count);
}

/// Where no block from `from` up to `stop` holds an end-of-text byte, the text
/// that starts at `from` ends where the text that starts at `stop` ends.
pub proof fn lemma_text_end_skips(blocks: Seq<Seq<u8>>, from: int, stop: int)
    requires
        0 <= from <= stop <= blocks.len(),
        forall|k: int| from <= k < stop ==> !(#[trigger] blocks[k]).contains(end_of_text()),
    ensures
        text_end(blocks, from) == text_end(blocks, stop),
    decreases stop - from,
{
    if from < stop {
        lemma_text_end_skips(blocks, from + 1, stop);
    }
}

/// A custom file that was written is read back as it was: one file that holds
/// the data, followed by the zeros that fill its block.
///
/// Data that opens like a header is read as one.
pub proof fn law_custom_round_trip(data: Seq<u8>)
    requires
        !bin_header(data),
        !basic_header(data),
        !ascii_header(data),
    ensures
        files_of(custom_blocks(data)) == seq![
            Ok::<FileView, DecodeError>(FileView::Custom { data: padded(data, 8, 0) }),
        ],
        padded(data, 8, 0).len() % 8 == 0,
        padded(data, 8, 0).take(data.len() as int) == data,
{
    let blocks = custom_blocks(data);
    lemma_padding_len(data.len() as int, 8);
    lemma_custom_block(data);
    reveal_with_fuel(files_from, 2);
    assert(next_file(blocks, 0) == 1);
}

/// The zeros that fill a block up make no header of data that is none.
pub proof fn lemma_custom_block(data: Seq<u8>)
    requires
        !bin_header(data),
        !basic_header(data),
        !ascii_header(data),
    ensures
        !bin_header(padded(data, 8, 0)),
        !basic_header(padded(data, 8, 0)),
        !ascii_header(padded(data, 8, 0)),
{
    let body = padded(data, 8, 0);
    lemma_padding_len(data.len() as int, 8);
    if body.len() >= 10 && data.len() < 10 {
        assert(body[9] == 0);
    }
    if data.len() >= 10 {
        assert forall|tag: u8| #[trigger] has_tag(body, tag) implies has_tag(data, tag) by {
            assert forall|i: int| 0 <= i < 10 implies data[i] == tag by {
                assert(body[i] == data[i]);
            }
        }
    }
}

/// Within a text that has its end-of-text byte, blocks written behind the
/// tape change nothing.
pub proof fn lemma_text_end_of_prefix(tape: Seq<Seq<u8>>, more: Seq<Seq<u8>>, from: int)
    requires
        0 <= from <= tape.len(),
        exists|k: int| from <= k < tape.len() && (#[trigger] tape[k]).contains(end_of_text()),
    ensures
        text_end(tape + more, from) == text_end(tape, from),
    decreases tape.len() - from,
{
    let k = choose|k: int| from <= k < tape.len() && (#[trigger] tape[k]).contains(end_of_text());
    assert((tape + more)[from] == tape[from]);
    if !tape[from].contains(end_of_text()) {
        assert(from < k);
        lemma_text_end_of_prefix(tape, more, from + 1);
    }
}

/// A text ends in the same block, whatever lies on the tape before it.
pub proof fn lemma_text_end_of_suffix(tape: Seq<Seq<u8>>, more: Seq<Seq<u8>>, from: int)
    requires
        0 <= from <= more.len(),
    ensures
        text_end(tape + more, tape.len() + from) == tape.len() + text_end(more, from),
    decreases more.len() - from,
{
    if from < more.len() {
        assert((tape + more)[tape.len() + from] == more[from]);
        if !more[from].contains(end_of_text()) {
            lemma_text_end_of_suffix(tape, more, from + 1);
        }
    }
}

/// A file that has all its blocks is read the same, whatever is written behind
/// the tape.
pub proof fn lemma_file_of_prefix(tape: Seq<Seq<u8>>, more: Seq<Seq<u8>>, at: int)
    requires
        0 <= at < tape.len(),
        complete_at(tape, at),
    ensures
        file_at(tape + more, at) == file_at(tape, at),
        next_file(tape + more, at) == next_file(tape, at),
        complete_at(tape + more, at),
{
    let all = tape + more;
    assert(all[at] == tape[at]);
    if bin_header(tape[at]) || basic_header(tape[at]) {
        assert(all[at + 1] == tape[at + 1]);
    } else if ascii_header(tape[at]) {
        let k = choose|k: int| at < k < tape.len() && (#[trigger] tape[k]).contains(end_of_text());
        assert(all[k] == tape[k]);
        lemma_text_end_of_prefix(tape, more, at + 1);
        lemma_cursor_advances(tape, at);
        assert(all.subrange(at + 1, text_end(tape, at + 1)) == tape.subrange(
            at + 1,
            text_end(tape, at + 1),
        ));
    }
}

/// A file is read the same, whatever lies on the tape before it.
pub proof fn lemma_file_of_suffix(tape: Seq<Seq<u8>>, more: Seq<Seq<u8>>, at: int)
    requires
        0 <= at < more.len(),
    ensures
        file_at(tape + more, tape.len() + at) == file_at(more, at),
        next_file(tape + more, tape.len() + at) == tape.len() + next_file(more, at),
        complete_at(tape + more, tape.len() + at) == complete_at(more, at),
{
    let all = tape + more;
    let n = tape.len() as int;
    assert(all[n + at] == more[at]);
    if bin_header(more[at]) || basic_header(more[at]) {
        if at + 1 < more.len() {
            assert(all[n + at + 1] == more[at + 1]);
        }
    } else if ascii_header(more[at]) {
        lemma_text_end_of_suffix(tape, more, at + 1);
        lemma_cursor_advances(more, at);
        assert(all.subrange(n + at + 1, n + text_end(more, at + 1)) == more.subrange(
            at + 1,
            text_end(more, at + 1),
        ));
        if complete_at(more, at) {
            let k = choose|k: int|
                at < k < more.len() && (#[trigger] more[k]).contains(end_of_text());
            assert(all[n + k] == more[k]);
        }
        if complete_at(all, n + at) {
            let k = choose|k: int|
                n + at < k < all.len() && (#[trigger] all[k]).contains(end_of_text());
            assert(all[k] == more[k - n]);
        }
    }
}

/// From a block of `more` on, the tape `tape + more` is read as `more` is.
pub proof fn lemma_files_of_suffix(tape: Seq<Seq<u8>>, more: Seq<Seq<u8>>, at: int)
    requires
        0 <= at <= more.len(),
    ensures
        files_from(tape + more, tape.len() + at) == files_from(more, at),
        complete_from(tape + more, tape.len() + at) == complete_from(more, at),
    decreases more.len() - at,
{
    if at < more.len() {
        lemma_file_of_suffix(tape, more, at);
        lemma_cursor_advances(more, at);
        lemma_files_of_suffix(tape, more, next_file(more, at));
    }
}

/// From a block of `tape` on, the tape `tape + more` is read as `tape` is and
/// then as `more` is, where the files of `tape` have all their blocks.
pub proof fn lemma_files_of_prefix(tape: Seq<Seq<u8>>, more: Seq<Seq<u8>>, at: int)
    requires
        0 <= at <= tape.len(),
        complete_from(tape, at),
    ensures
        files_from(tape + more, at) == files_from(tape, at) + files_of(more),
        complete_from(tape + more, at) == complete(more),
    decreases tape.len() - at,
{
    if at < tape.len() {
        lemma_file_of_prefix(tape, more, at);
        lemma_cursor_advances(tape, at);
        lemma_files_of_prefix(tape, more, next_file(tape, at));
        assert(files_from(tape + more, at) == files_from(tape, at) + files_of(more));
    } else {
        lemma_files_of_suffix(tape, more, 0);
    }
}

/// Files written behind a tape whose files have all their blocks are read as
/// they would be alone, behind the files of the tape; and where the new files
/// have all their blocks too, more can follow.
pub proof fn law_appended_files_follow(tape: Seq<Seq<u8>>, more: Seq<Seq<u8>>)
    requires
        complete(tape),
    ensures
        files_of(tape + more) == files_of(tape) + files_of(more),
        complete(tape + more) == complete(more),
{
    lemma_files_of_prefix(tape, more, 0);
}

/// No bytes hold no block, and no blocks hold no file.
pub proof fn law_empty_tape()
    ensures
        split_blocks(Seq::<u8>::empty()) == Seq::<Seq<u8>>::empty(),
        tape_bytes(Seq::<Seq<u8>>::empty()) == Seq::<u8>::empty(),
        files_of(Seq::<Seq<u8>>::empty()) == Seq::<Result<FileView, DecodeError>>::empty(),
        complete(Seq::<Seq<u8>>::empty()),
{
    lemma_starts_ordered(Seq::<u8>::empty(), 0);
}

/// The files that the tape writes have all their blocks: a binary and a Basic
/// file always; an ASCII file where its text holds no end-of-text byte before
/// the last block; a custom file where its data does not open like a header.
pub proof fn law_written_files_are_complete(name: Seq<u8>, data: Seq<u8>)
    requires
        name.len() == 6,
    ensures
        complete(bin_blocks(name, data)),
        complete(basic_blocks(name, data)),
        (forall|i: int| 0 <= i < 256 * (data.len() as int / 256) ==> data[i] != end_of_text())
            ==> complete(ascii_blocks(name, data)),
        !bin_header(data) && !basic_header(data) && !ascii_header(data) ==> complete(
            custom_blocks(data),
        ),
{
    lemma_header_body(0xd0, name);
    lemma_header_body(0xd3, name);
    lemma_header_body(0xea, name);
    reveal_with_fuel(complete_from, 2);
    assert(next_file(bin_blocks(name, data), 0) == 2);
    assert(next_file(basic_blocks(name, data), 0) == 2);
    if forall|i: int| 0 <= i < 256 * (data.len() as int / 256) ==> data[i] != end_of_text() {
        let blocks = ascii_blocks(name, data);
        let count = text_chunk_count(data);
        lemma_ascii_blocks(name, data);
        assert(complete_at(blocks, 0));
        assert(next_file(blocks, 0) == count + 1);
    }
    if !bin_header(data) && !basic_header(data) && !ascii_header(data) {
        lemma_custom_block(data);
        assert(next_file(custom_blocks(data), 0) == 1);
    }
}

/// Between two markers lies a whole number of strides: the body of every
/// block but the last is a multiple of eight bytes long, and that of the last
/// is one where the bytes are.
pub proof fn law_split_blocks_are_aligned(bytes: Seq<u8>)
    ensures
        forall|k: int|
            0 <= k < split_blocks(bytes).len() - 1 ==> (#[trigger] split_blocks(bytes)[k]).len()
                % 8 == 0,
        bytes.len() % 8 == 0 ==> aligned(split_blocks(bytes)),
{
    lemma_starts_ordered(bytes, bytes.len() / 8);
    let starts = block_starts(bytes);
    let blocks = split_blocks(bytes);
    assert forall|k: int| 0 <= k < blocks.len() - 1 implies (#[trigger] blocks[k]).len() % 8
        == 0 by {
        assert(blocks[k].len() == starts[k + 1] - (starts[k] + 8));
    }
    if bytes.len() % 8 == 0 && blocks.len() > 0 {
        let last = blocks.len() - 1;
        assert(blocks[last].len() == bytes.len() - (starts[last] + 8));
    }
}

/// The bytes of the first `count` blocks of `bytes`: the bytes from the first
/// marker to the start of the block after them.
proof fn lemma_bytes_of_first_blocks(bytes: Seq<u8>, count: int)
    requires
        0 < count <= block_starts(bytes).len(),
    ensures
        tape_bytes(split_blocks(bytes).take(count)) == bytes.subrange(
            block_starts(bytes)[0],
            if count < block_starts(bytes).len() {
                block_starts(bytes)[count]
            } else {
                bytes.len() as int
            },
        ),
    decreases count,
{
    lemma_starts_ordered(bytes, bytes.len() / 8);
    let starts = block_starts(bytes);
    let blocks = split_blocks(bytes);
    let taken = blocks.take(count);
    let at = starts[count - 1];
    let stop = if count < starts.len() {
        starts[count]
    } else {
        bytes.len() as int
    };
    assert(taken.drop_last() == blocks.take(count - 1));
    assert(taken.last() == bytes.subrange(at + 8, stop));
    assert(bytes.subrange(at, at + 8) == marker());
    if count == 1 {
        assert(tape_bytes(blocks.take(0)) == Seq::<u8>::empty());
        assert(bytes.subrange(at, stop) == marker() + bytes.subrange(at + 8, stop));
    } else {
        lemma_bytes_of_first_blocks(bytes, count - 1);
        assert(bytes.subrange(starts[0], stop) == bytes.subrange(starts[0], at) + marker()
            + bytes.subrange(at + 8, stop));
    }
}

/// Bytes that were split into blocks are got back from the blocks, but for
/// what lay before the first marker: of bytes without a marker nothing is
/// left.
pub proof fn law_blocks_keep_bytes(bytes: Seq<u8>)
    ensures
        tape_bytes(split_blocks(bytes)) == if block_starts(bytes).len() == 0 {
            Seq::<u8>::empty()
        } else {
            bytes.skip(block_starts(bytes)[0])
        },
{
    let count = block_starts(bytes).len() as int;
    if count > 0 {
        lemma_bytes_of_first_blocks(bytes, count);
        assert(split_blocks(bytes).take(count) == split_blocks(bytes));
    }
}

/// A tape that was turned into bytes is read back block by block as it was,
/// where the body of every block is a whole number of strides and holds no
/// marker at any of them.
pub proof fn law_bytes_round_trip(blocks: Seq<Seq<u8>>)
    requires
        aligned(blocks),
        forall|k: int| 0 <= k < blocks.len() ==> marker_free(#[trigger] blocks[k]),
    ensures
        split_blocks(tape_bytes(blocks)) == blocks,
        tape_bytes(blocks).len() % 8 == 0,
    decreases blocks.len(),
{
    if blocks.len() == 0 {
        lemma_starts_ordered(tape_bytes(blocks), 0);
    } else {
        let rest = blocks.drop_last();
        let last = blocks.last();
        let head = tape_bytes(rest);
        let tail = marker() + last;
        let all = tape_bytes(blocks);
        assert(all == head + tail);
        law_bytes_round_trip(rest);
        let count = (tail.len() / 8) as nat;
        assert(all.len() / 8 == head.len() / 8 + count);
        lemma_starts_of_suffix(head, tail, count);
        lemma_starts_of_block(last, count);
        lemma_starts_ordered(head, head.len() / 8);
        let old_starts = block_starts(head);
        let starts = block_starts(all);
        assert(seq![0int].map_values(|at: int| at + head.len()) == seq![head.len() as int]);
        assert(starts == old_starts.push(head.len() as int));
        assert(split_blocks(head).len() == old_starts.len());
        assert forall|k: int| 0 <= k < blocks.len() implies split_blocks(all)[k]
            == blocks[k] by {
            if k < rest.len() {
                let from = old_starts[k] + 8;
                let to = if k + 1 < old_starts.len() {
                    old_starts[k + 1]
                } else {
                    head.len() as int
                };
                assert(split_blocks(head)[k] == head.subrange(from, to));
                assert(split_blocks(all)[k] == all.subrange(from, to));
                assert(all.subrange(from, to) == head.subrange(from, to));
                assert(rest[k] == blocks[k]);
            } else {
                assert(split_blocks(all)[k] == all.subrange(head.len() as int + 8, all.len() as int));
                assert(all.subrange(head.len() as int + 8, all.len() as int) == last);
            }
        }
    }
}

} // verus!
