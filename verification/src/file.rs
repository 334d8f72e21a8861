//! Files: what the blocks of a tape add up to.

use crate::trusted::{str_trim, trimmed};
use vstd::prelude::*;
use vstd::string::*;

verus! {

/// A file found on a tape. The byte slices are borrowed from the tape.
///
/// * `Bin`: name, begin, end and start address, and the body of the data block
///   (which opens with the six bytes of the three addresses).
/// * `Basic`: name and the body of the data block.
/// * `Ascii`: name and the bodies of the text blocks, in order.
/// * `Custom`: the body of a block that belongs to no header.
#[derive(Debug, PartialEq)]
pub enum File<'a> {
    Bin(String, usize, usize, usize, &'a [u8]),
    Basic(String, &'a [u8]),
    Ascii(String, Vec<&'a [u8]>),
    Custom(&'a [u8]),
}

/// A file as a mathematical value.
pub enum FileView {
    Bin { name: Seq<char>, begin: int, end: int, start: int, data: Seq<u8> },
    Basic { name: Seq<char>, data: Seq<u8> },
    Ascii { name: Seq<char>, chunks: Seq<Seq<u8>> },
    Custom { data: Seq<u8> },
}

/// The contents of each slice of a list.
pub open spec fn slices_view(slices: Seq<&[u8]>) -> Seq<Seq<u8>> {
    slices.map_values(|slice: &[u8]| slice@)
}

impl<'a> View for File<'a> {
    type V = FileView;

    open spec fn view(&self) -> FileView {
        match *self {
            File::Bin(name, begin, end, start, data) => FileView::Bin {
                name: name@,
                begin: begin as int,
                end: end as int,
                start: start as int,
                data: data@,
            },
            File::Basic(name, data) => FileView::Basic { name: name@, data: data@ },
            File::Ascii(name, chunks) => FileView::Ascii {
                name: name@,
                chunks: slices_view(chunks@),
            },
            File::Custom(data) => FileView::Custom { data: data@ },
        }
    }
}

/// The four kinds of file.
#[derive(Debug, Clone, Copy, PartialEq, Eq)]
pub enum FileKind {
    Bin,
    Basic,
    Ascii,
    Custom,
}

/// The kind of a file.
pub open spec fn file_kind(file: FileView) -> FileKind {
    match file {
        FileView::Bin { .. } => FileKind::Bin,
        FileView::Basic { .. } => FileKind::Basic,
        FileView::Ascii { .. } => FileKind::Ascii,
        FileView::Custom { .. } => FileKind::Custom,
    }
}

/// What a file holds, as the list of the buffers that make it up, in order:
/// the text blocks of an ASCII file, the one data block of any other.
pub open spec fn payload_of(file: FileView) -> Seq<Seq<u8>> {
    match file {
        FileView::Bin { data, .. } => seq![data],
        FileView::Basic { data, .. } => seq![data],
        FileView::Ascii { chunks, .. } => chunks,
        FileView::Custom { data } => seq![data],
    }
}

/// The name given to files that have none of their own.
pub open spec fn default_stem() -> Seq<char> {
    seq!['n', 'o', 'n', 'a', 'm', 'e']
}

/// The first part of a file's display name: the name itself, or
/// [`default_stem`] where the name is empty or nothing but whitespace.
pub open spec fn stem(name: Seq<char>) -> Seq<char> {
    if name.len() == 0 || trimmed(name).len() == 0 {
        default_stem()
    } else {
        name
    }
}

/// The name under which a file is shown and stored: its stem, a dot and the
/// extension of its kind. Custom files have none.
pub open spec fn display_name(file: FileView) -> Option<Seq<char>> {
    match file {
        FileView::Bin { name, .. } => Some(stem(name) + seq!['.', 'b', 'i', 'n']),
        FileView::Basic { name, .. } => Some(stem(name) + seq!['.', 'b', 'a', 's']),
        FileView::Ascii { name, .. } => Some(stem(name) + seq!['.', 'a', 's', 'c']),
        FileView::Custom { .. } => None,
    }
}

impl<'a> File<'a> {
    /// The kind of this file.
    pub fn kind(&self) -> (kind: FileKind)
        ensures
            kind == file_kind(self@),
    {
        match self {
            File::Bin(_, _, _, _, _) => FileKind::Bin,
            File::Basic(_, _) => FileKind::Basic,
            File::Ascii(_, _) => FileKind::Ascii,
            File::Custom(_) => FileKind::Custom,
        }
    }

    /// The buffers that make up this file, in the order in which they are to
    /// be written out.
    pub fn payload(&self) -> (buffers: Vec<&'a [u8]>)
        ensures
            slices_view(buffers@) == payload_of(self@),
    {
        let mut buffers: Vec<&'a [u8]> = Vec::new();
        match self {
            File::Bin(_, _, _, _, data) => {
                buffers.push(*data);
                assert(slices_view(buffers@) == seq![data@]);
            },
            File::Basic(_, data) => {
                buffers.push(*data);
                assert(slices_view(buffers@) == seq![data@]);
            },
            File::Ascii(_, chunks) => {
                let mut k: usize = 0;
                assert(slices_view(buffers@) == slices_view(chunks@).take(0));
                while k < chunks.len()
                    invariant
                        k <= chunks@.len(),
                        slices_view(buffers@) == slices_view(chunks@).take(k as int),
                    decreases chunks@.len() - k,
                {
                    let ghost before = buffers@;
                    buffers.push(chunks[k]);
                    assert(slices_view(buffers@) == slices_view(before).push(chunks@[k as int]@));
                    assert(slices_view(chunks@).take(k + 1) == slices_view(chunks@).take(
                        k as int,
                    ).push(chunks@[k as int]@));
                    k = k + 1;
                }
                assert(slices_view(chunks@).take(k as int) == slices_view(chunks@));
            },
            File::Custom(data) => {
                buffers.push(*data);
                assert(slices_view(buffers@) == seq![data@]);
            },
        }
        buffers
    }

    /// The display name of this file, or `None` for a custom file.
    pub fn name(&self) -> (result: Option<String>)
        ensures
            match result {
                Some(text) => display_name(self@) == Some(text@),
                None => display_name(self@) is None,
            },
    {
        match self {
            File::Bin(name, _, _, _, _) => {
                let mut text = File::normalized_name(name.as_str());
                proof {
                    reveal_strlit(".bin");
                }
                text.append(".bin");
                assert(text@ == stem(name@) + seq!['.', 'b', 'i', 'n']);
                Some(text)
            },
            File::Basic(name, _) => {
                let mut text = File::normalized_name(name.as_str());
                proof {
                    reveal_strlit(".bas");
                }
                text.append(".bas");
                assert(text@ == stem(name@) + seq!['.', 'b', 'a', 's']);
                Some(text)
            },
            File::Ascii(name, _) => {
                let mut text = File::normalized_name(name.as_str());
                proof {
                    reveal_strlit(".asc");
                }
                text.append(".asc");
                assert(text@ == stem(name@) + seq!['.', 'a', 's', 'c']);
                Some(text)
            },
            File::Custom(_) => None,
        }
    }

    /// The stem of the display name of a file called `name`.
    pub fn normalized_name(name: &str) -> (result: String)
        ensures
            result@ == stem(name@),
    {
        File::stem_given_trim(name, str_trim(name))
    }

    /// The stem of the display name of a file called `name`, given what is left
    /// of `name` once the whitespace around it is gone.
    pub fn stem_given_trim(name: &str, rest: &str) -> (result: String)
        ensures
            result@ == if rest@.len() == 0 {
                default_stem()
            } else {
                name@
            },
    {
        if rest.is_empty() {
            proof {
                reveal_strlit("noname");
            }
            let text = "noname".to_owned();
            assert(text@ == default_stem());
            text
        } else {
            name.to_owned()
        }
    }
}

} // verus!
