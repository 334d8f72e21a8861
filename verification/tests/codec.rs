use mcp::{file_name, Block, BlockKind, DecodeError, File, FileKind, Tape};

const MARKER: [u8; 8] = [0x1f, 0xa6, 0xde, 0xba, 0xcc, 0x13, 0x7d, 0x74];

fn header(tag: u8, name: &[u8]) -> Vec<u8> {
    let mut body = vec![tag; 10];
    body.extend_from_slice(name);
    body
}

fn on_tape(bodies: &[&[u8]]) -> Vec<u8> {
    let mut bytes = Vec::new();
    for body in bodies {
        bytes.extend_from_slice(&MARKER);
        bytes.extend_from_slice(body);
    }
    bytes
}

fn bodies_of(tape: &Tape) -> Vec<Vec<u8>> {
    tape.blocks()
        .iter()
        .map(|block| block.data_without_prefix().to_vec())
        .collect()
}

#[test]
fn block_keeps_marker_and_body() {
    let block = Block::from_data(&[1, 2, 3]);
    assert_eq!(
        &[0x1f, 0xa6, 0xde, 0xba, 0xcc, 0x13, 0x7d, 0x74, 1, 2, 3],
        block.data()
    );
    assert_eq!(&[1, 2, 3], block.data_without_prefix());
    let empty = Block::from_data(&[]);
    assert_eq!(&MARKER, empty.data());
    assert!(empty.data_without_prefix().is_empty());
}

#[test]
fn header_kinds_exclude_each_other() {
    let bodies = [
        header(0xd0, b"ABCDEF"),
        header(0xd3, b"ABCDEF"),
        header(0xea, b"ABCDEF"),
        header(0x00, b"ABCDEF"),
        vec![0xd0; 9],
        vec![],
    ];
    for body in bodies.iter() {
        let block = Block::from_data(body);
        let kinds = [
            block.is_bin_header(),
            block.is_basic_header(),
            block.is_ascii_header(),
        ];
        assert!(kinds.iter().filter(|k| **k).count() <= 1);
        assert_eq!(kinds.iter().any(|k| *k), block.is_file_header());
        // Asking twice gives the same answer.
        assert_eq!(block.is_bin_header(), kinds[0]);
        assert_eq!(block.is_basic_header(), kinds[1]);
        assert_eq!(block.is_ascii_header(), kinds[2]);
    }
}

#[test]
fn classify_tells_the_kinds_apart() {
    assert_eq!(
        Ok(BlockKind::BinHeader),
        Block::from_data(&header(0xd0, b"A     ")).classify()
    );
    assert_eq!(
        Ok(BlockKind::BasicHeader),
        Block::from_data(&header(0xd3, b"A     ")).classify()
    );
    assert_eq!(
        Ok(BlockKind::AsciiHeader),
        Block::from_data(&header(0xea, b"A     ")).classify()
    );
    assert_eq!(
        Ok(BlockKind::Data),
        Block::from_data(&[0xd0, 0xd0, 0xd0, 0xd0, 0xd0, 0xd0, 0xd0, 0xd0, 0xd0, 0xd1]).classify()
    );
    // Ten bytes of tag are a header, even without a name.
    assert_eq!(
        Ok(BlockKind::BinHeader),
        Block::from_data(&[0xd0; 10]).classify()
    );
}

#[test]
fn short_block_is_a_truncated_header() {
    let block = Block::from_data(&[0xd0; 9]);
    assert_eq!(Err(DecodeError::TruncatedHeader), block.classify());
    assert_eq!(
        Err(DecodeError::TruncatedHeader),
        Block::from_data(&[]).classify()
    );
    assert!(!block.is_bin_header());
    assert!(!block.is_file_header());
    assert_eq!(None, block.file_name());
}

#[test]
fn short_block_is_read_as_custom_file() {
    let bytes = on_tape(&[&[0xd0; 8]]);
    let tape = Tape::from_bytes(&bytes);
    let mut files = tape.files();
    assert_eq!(Some(Ok(File::Custom(&[0xd0; 8]))), files.next());
    assert_eq!(None, files.next());
}

#[test]
fn name_is_trimmed_of_spaces_and_nuls() {
    assert_eq!(
        Some("FOO"),
        Block::from_data(&header(0xd3, b"FOO\0\0\0")).file_name()
    );
    assert_eq!(
        Some("FOO"),
        Block::from_data(&header(0xea, b"FOO \0 ")).file_name()
    );
    assert_eq!(
        Some(" A B"),
        Block::from_data(&header(0xd0, b" A B  ")).file_name()
    );
    assert_eq!(
        Some(""),
        Block::from_data(&header(0xd0, b"      ")).file_name()
    );
    // Bytes behind the name field are no part of the name.
    assert_eq!(
        Some("FOOBAR"),
        Block::from_data(&header(0xd0, b"FOOBARBAZ")).file_name()
    );
    // A name field that the body cuts short is taken as far as it goes.
    assert_eq!(
        Some("FO"),
        Block::from_data(&header(0xd0, b"FO")).file_name()
    );
    assert_eq!(Some(""), Block::from_data(&[0xd0; 10]).file_name());
}

#[test]
fn name_outside_utf8_is_no_name() {
    assert_eq!(
        None,
        Block::from_data(&header(0xd0, &[0x46, 0xff, 0x4f, 0x20, 0x20, 0x20])).file_name()
    );
    // Two bytes that spell one character are a name.
    assert_eq!(
        Some("\u{e9}"),
        Block::from_data(&header(0xd0, &[0xc3, 0xa9, 0x20, 0x20, 0x20, 0x20])).file_name()
    );
    // A character that the field cuts in two is none.
    assert_eq!(
        None,
        Block::from_data(&header(0xd0, &[0x41, 0x42, 0x43, 0x44, 0x45, 0xc3])).file_name()
    );
}

#[test]
fn written_name_is_read_back() {
    for name in ["", "a", "foobar", "FILE 1", "\u{e9}t\u{e9}", " x"] {
        let (stored, cut) = file_name(name);
        assert!(!cut);
        let mut tape = Tape::new();
        tape.append_basic(&stored, &[]);
        assert_eq!(
            vec![Ok(File::Basic(name.to_string(), &[]))],
            tape.files().collect()
        );
    }
    // Padding at the end of a name is lost.
    let (stored, _) = file_name("ab \0");
    let mut tape = Tape::new();
    tape.append_basic(&stored, &[]);
    assert_eq!(
        vec![Ok(File::Basic("ab".to_string(), &[]))],
        tape.files().collect()
    );
    // A name that was cut within a character cannot be read.
    let (stored, cut) = file_name("abcde\u{e9}");
    assert!(cut);
    let mut tape = Tape::new();
    tape.append_basic(&stored, &[]);
    assert_eq!(
        vec![Err(DecodeError::InvalidName)],
        tape.files().collect()
    );
}

#[test]
fn tape_name_is_six_bytes() {
    assert_eq!((*b"foobar", false), file_name("foobar"));
    assert_eq!((*b"foo   ", false), file_name("foo"));
    assert_eq!((*b"      ", false), file_name(""));
    assert_eq!((*b"foobar", true), file_name("foobarbaz"));
    assert_eq!((*b"abcdef", true), file_name("abcdefg"));
    // Six bytes are counted, not six characters.
    assert_eq!(([0x61, 0x62, 0x63, 0x64, 0xc3, 0xa9], false), file_name("abcd\u{e9}"));
    assert_eq!(([0x61, 0x62, 0x63, 0x64, 0x65, 0xc3], true), file_name("abcde\u{e9}"));
}

#[test]
fn display_name_has_stem_and_extension() {
    assert_eq!(
        Some("GAME.bin".to_string()),
        File::Bin("GAME".to_string(), 0, 0, 0, &[]).name()
    );
    assert_eq!(
        Some("GAME.bas".to_string()),
        File::Basic("GAME".to_string(), &[]).name()
    );
    assert_eq!(
        Some("GAME.asc".to_string()),
        File::Ascii("GAME".to_string(), vec![]).name()
    );
    assert_eq!(None, File::Custom(&[1, 2, 3]).name());
}

#[test]
fn file_tells_its_kind_and_payload() {
    let data: [u8; 8] = [0, 1, 2, 3, 4, 5, 6, 7];
    let bin = File::Bin("A".to_string(), 0x0100, 0x0302, 0x0504, &data);
    assert_eq!(FileKind::Bin, bin.kind());
    assert_eq!(vec![&data[..]], bin.payload());

    let basic = File::Basic("B".to_string(), &data);
    assert_eq!(FileKind::Basic, basic.kind());
    assert_eq!(vec![&data[..]], basic.payload());

    let first: [u8; 3] = [0x41, 0x42, 0x43];
    let second: [u8; 2] = [0x44, 0x1a];
    let ascii = File::Ascii("C".to_string(), vec![&first, &second]);
    assert_eq!(FileKind::Ascii, ascii.kind());
    assert_eq!(vec![&first[..], &second[..]], ascii.payload());
    let empty = File::Ascii("D".to_string(), vec![]);
    assert!(empty.payload().is_empty());

    let custom = File::Custom(&data);
    assert_eq!(FileKind::Custom, custom.kind());
    assert_eq!(vec![&data[..]], custom.payload());
}

#[test]
fn unnamed_files_are_called_noname() {
    assert_eq!(
        Some("noname.bin".to_string()),
        File::Bin(String::new(), 0, 0, 0, &[]).name()
    );
    assert_eq!(
        Some("noname.bas".to_string()),
        File::Basic("  ".to_string(), &[]).name()
    );
    assert_eq!(
        Some("noname.asc".to_string()),
        File::Ascii("\t \n".to_string(), vec![]).name()
    );
    // Whitespace around a name stays.
    assert_eq!(
        Some(" A.bin".to_string()),
        File::Bin(" A".to_string(), 0, 0, 0, &[]).name()
    );
    assert_eq!("noname", File::normalized_name(""));
    assert_eq!("noname", File::normalized_name("   "));
    assert_eq!("x", File::normalized_name("x"));
    assert_eq!("noname", File::stem_given_trim("abc", ""));
    assert_eq!("abc", File::stem_given_trim("abc", "b"));
}

#[test]
fn empty_tape_has_no_block_and_no_file() {
    let tape = Tape::from_bytes(&[]);
    assert!(tape.blocks().is_empty());
    assert!(tape.files().collect().is_empty());
    assert!(tape.to_bytes().is_empty());
    let fresh = Tape::new();
    assert!(fresh.blocks().is_empty());
    assert_eq!(None, fresh.files().next());
}

#[test]
fn bytes_without_marker_hold_no_block() {
    let tape = Tape::from_bytes(&[1, 2, 3, 4, 5, 6, 7, 8, 9, 10, 11, 12, 13, 14, 15, 16, 17]);
    assert!(tape.blocks().is_empty());
    // Seven bytes of marker are none.
    let tape = Tape::from_bytes(&MARKER[..7]);
    assert!(tape.blocks().is_empty());
}

#[test]
fn bytes_before_the_first_marker_are_dropped() {
    let mut bytes = vec![0xaa; 16];
    bytes.extend_from_slice(&on_tape(&[&[1, 2, 3, 4, 5, 6, 7, 8], &[9, 9]]));
    let tape = Tape::from_bytes(&bytes);
    assert_eq!(
        vec![vec![1, 2, 3, 4, 5, 6, 7, 8], vec![9, 9]],
        bodies_of(&tape)
    );
}

#[test]
fn marker_across_strides_starts_no_block() {
    let mut bytes = on_tape(&[&[1, 2, 3, 4]]);
    bytes.extend_from_slice(&MARKER);
    bytes.extend_from_slice(&[5, 6, 7, 8]);
    let tape = Tape::from_bytes(&bytes);
    let mut expected = vec![1, 2, 3, 4];
    expected.extend_from_slice(&MARKER);
    expected.extend_from_slice(&[5, 6, 7, 8]);
    assert_eq!(vec![expected], bodies_of(&tape));
}

#[test]
fn adjacent_markers_make_empty_blocks() {
    let bytes = on_tape(&[&[], &[], &[7; 8]]);
    let tape = Tape::from_bytes(&bytes);
    assert_eq!(vec![vec![], vec![], vec![7; 8]], bodies_of(&tape));
}

#[test]
fn decodes_the_bin_file_of_48_bytes() {
    let data: [u8; 16] = [
        0x00, 0x80, 0x08, 0x80, 0x00, 0x00, 1, 2, 3, 4, 5, 6, 7, 8, 9, 10,
    ];
    let bytes = on_tape(&[&header(0xd0, b"FILE1 "), &data]);
    assert_eq!(48, bytes.len());
    let tape = Tape::from_bytes(&bytes);
    let files = tape.files().collect();
    assert_eq!(1, files.len());
    let file = files[0].as_ref().unwrap();
    assert_eq!(Some("FILE1.bin".to_string()), file.name());
    assert_eq!(
        &File::Bin("FILE1".to_string(), 0x8000, 0x8008, 0x0000, &data),
        file
    );
}

#[test]
fn addresses_are_little_endian() {
    let data: [u8; 6] = [0x34, 0x12, 0xff, 0xff, 0x01, 0x00];
    let bytes = on_tape(&[&header(0xd0, b"A     "), &data]);
    let tape = Tape::from_bytes(&bytes);
    assert_eq!(
        Some(Ok(File::Bin("A".to_string(), 0x1234, 0xffff, 0x0001, &data))),
        tape.files().next()
    );
}

#[test]
fn decodes_the_ascii_file_of_two_chunks() {
    let first: [u8; 8] = [0x41, 0x42, 0x43, 0x44, 0x45, 0x46, 0x47, 0x48];
    let second: [u8; 8] = [0x49, 0x4a, 0x4b, 0x4c, 0x4d, 0x4e, 0x4f, 0x1a];
    let bytes = on_tape(&[&header(0xea, b"TEXT  "), &first, &second]);
    let tape = Tape::from_bytes(&bytes);
    let files = tape.files().collect();
    assert_eq!(1, files.len());
    let file = files[0].as_ref().unwrap();
    assert_eq!(Some("TEXT.asc".to_string()), file.name());
    assert_eq!(
        &File::Ascii("TEXT".to_string(), vec![&first[..], &second[..]]),
        file
    );
}

#[test]
fn text_ends_with_the_first_end_of_text_block() {
    let bytes = on_tape(&[
        &header(0xea, b"TEXT  "),
        &[0x41, 0x1a, 0x41, 0x41, 0x41, 0x41, 0x41, 0x41],
        &[0x42; 8],
    ]);
    let tape = Tape::from_bytes(&bytes);
    let mut files = tape.files();
    assert_eq!(
        Some(Ok(File::Ascii(
            "TEXT".to_string(),
            vec![&[0x41, 0x1a, 0x41, 0x41, 0x41, 0x41, 0x41, 0x41][..]]
        ))),
        files.next()
    );
    assert_eq!(2, files.position());
    assert_eq!(Some(Ok(File::Custom(&[0x42; 8]))), files.next());
    assert_eq!(None, files.next());
}

#[test]
fn text_without_end_runs_to_the_end_of_the_tape() {
    let bytes = on_tape(&[
        &header(0xea, b"TEXT  "),
        &[0x41; 8],
        &header(0xd0, b"BIN   "),
        &[0x42; 4],
    ]);
    let tape = Tape::from_bytes(&bytes);
    let mut files = tape.files();
    let bin_header = header(0xd0, b"BIN   ");
    assert_eq!(
        Some(Ok(File::Ascii(
            "TEXT".to_string(),
            vec![&[0x41; 8][..], &bin_header[..], &[0x42; 4][..]]
        ))),
        files.next()
    );
    assert_eq!(4, files.position());
    assert_eq!(None, files.next());
}

#[test]
fn ascii_header_at_the_end_has_no_chunk() {
    let bytes = on_tape(&[&header(0xea, b"TEXT  ")]);
    let tape = Tape::from_bytes(&bytes);
    let mut files = tape.files();
    assert_eq!(
        Some(Ok(File::Ascii("TEXT".to_string(), vec![]))),
        files.next()
    );
    assert_eq!(None, files.next());
}

#[test]
fn basic_file_takes_one_data_block() {
    let bytes = on_tape(&[&header(0xd3, b"PROG  "), &[1, 2, 3, 4, 5, 6, 7, 8], &[9; 8]]);
    let tape = Tape::from_bytes(&bytes);
    let mut files = tape.files();
    assert_eq!(
        Some(Ok(File::Basic(
            "PROG".to_string(),
            &[1, 2, 3, 4, 5, 6, 7, 8]
        ))),
        files.next()
    );
    assert_eq!(2, files.position());
    assert_eq!(Some(Ok(File::Custom(&[9; 8]))), files.next());
    assert_eq!(3, files.position());
    assert_eq!(None, files.next());
    assert_eq!(3, files.position());
    assert_eq!(None, files.next());
}

#[test]
fn data_block_is_not_read_as_header() {
    // The data of a Basic file may look like a header: it stays data.
    let inner = header(0xd0, b"INNER ");
    let bytes = on_tape(&[&header(0xd3, b"PROG  "), &inner]);
    let tape = Tape::from_bytes(&bytes);
    assert_eq!(
        vec![Ok(File::Basic("PROG".to_string(), &inner))],
        tape.files().collect()
    );
}

#[test]
fn lone_basic_header_dangles() {
    let bytes = on_tape(&[&[7; 8], &header(0xd3, b"PROG  ")]);
    let tape = Tape::from_bytes(&bytes);
    let mut files = tape.files();
    // The file before the failure is there.
    assert_eq!(Some(Ok(File::Custom(&[7; 8]))), files.next());
    assert_eq!(1, files.position());
    assert_eq!(Some(Err(DecodeError::DanglingHeader)), files.next());
    assert_eq!(2, files.position());
    assert_eq!(None, files.next());
    assert_eq!(
        vec![
            Ok(File::Custom(&[7; 8])),
            Err(DecodeError::DanglingHeader)
        ],
        tape.files().collect()
    );
}

#[test]
fn lone_bin_header_fails_to_decode() {
    let bytes = on_tape(&[&header(0xd0, b"FILE1 ")]);
    let tape = Tape::from_bytes(&bytes);
    assert_eq!(
        vec![Err(DecodeError::DanglingHeader)],
        tape.files().collect()
    );
}

#[test]
fn parse_fails_on_a_lone_bin_header() {
    let bytes = on_tape(&[&header(0xd0, b"FILE1 ")]);
    assert_eq!(
        Some(DecodeError::DanglingHeader),
        Tape::parse(&bytes).err()
    );
    // Read leniently, the blocks are there all the same.
    assert_eq!(1, Tape::from_bytes(&bytes).blocks().len());
}

#[test]
fn parse_gives_the_first_failure() {
    let bytes = on_tape(&[
        &[7; 8],
        &header(0xd0, b"A     "),
        &[],
        &[0; 8],
        &header(0xd3, b"B     "),
    ]);
    let tape = Tape::from_bytes(&bytes);
    assert_eq!(
        vec![
            Ok(File::Custom(&[7; 8])),
            Err(DecodeError::MissingAddresses),
            Ok(File::Custom(&[0; 8])),
            Err(DecodeError::DanglingHeader),
        ],
        tape.files().collect()
    );
    assert_eq!(Some(DecodeError::MissingAddresses), tape.first_error());
    assert_eq!(
        Some(DecodeError::MissingAddresses),
        Tape::parse(&bytes).err()
    );
}

#[test]
fn parse_reads_a_sound_tape() {
    let mut written = Tape::new();
    written.append_bin(b"A     ", &[0, 1, 2, 3, 4, 5, 6, 7]);
    written.append_ascii(b"B     ", b"10 PRINT 1");
    written.append_custom(&[1; 8]);
    assert_eq!(None, written.first_error());
    let tape = Tape::parse(&written.to_bytes()).unwrap();
    assert_eq!(bodies_of(&written), bodies_of(&tape));
    assert_eq!(written.files().collect(), tape.files().collect());
    assert_eq!(None, Tape::new().first_error());
    assert!(Tape::parse(&[]).unwrap().blocks().is_empty());
}

#[test]
fn name_outside_utf8_fails_the_file_only() {
    let bad = [0xff, 0x20, 0x20, 0x20, 0x20, 0x20];
    let bytes = on_tape(&[
        &header(0xd3, &bad),
        &[1; 8],
        &header(0xea, &bad),
        &[0x1a; 8],
        &header(0xd0, &bad),
        &[2; 8],
        &[3; 8],
    ]);
    let tape = Tape::from_bytes(&bytes);
    assert_eq!(
        vec![
            Err(DecodeError::InvalidName),
            Err(DecodeError::InvalidName),
            Err(DecodeError::InvalidName),
            Ok(File::Custom(&[3; 8]))
        ],
        tape.files().collect()
    );
}

#[test]
fn bin_data_without_addresses_fails() {
    let bytes = on_tape(&[&header(0xd0, b"A     "), &[1, 2, 3, 4, 5]]);
    let tape = Tape::from_bytes(&bytes);
    assert_eq!(
        vec![Err(DecodeError::MissingAddresses)],
        tape.files().collect()
    );
    let mut tape = Tape::new();
    tape.append_bin(b"A     ", &[]);
    tape.append_custom(&[3; 8]);
    assert_eq!(
        vec![
            Err(DecodeError::MissingAddresses),
            Ok(File::Custom(&[3; 8]))
        ],
        tape.files().collect()
    );
}

#[test]
fn append_bin_writes_header_and_padded_data() {
    let mut tape = Tape::new();
    tape.append_bin(b"GAME  ", &[0x00, 0x80, 0x10, 0x80, 0x00, 0x80, 1, 2, 3]);
    assert_eq!(
        vec![
            header(0xd0, b"GAME  "),
            vec![0x00, 0x80, 0x10, 0x80, 0x00, 0x80, 1, 2, 3, 0, 0, 0, 0, 0, 0, 0]
        ],
        bodies_of(&tape)
    );
    assert_eq!(
        vec![Ok(File::Bin(
            "GAME".to_string(),
            0x8000,
            0x8010,
            0x8000,
            &[0x00, 0x80, 0x10, 0x80, 0x00, 0x80, 1, 2, 3, 0, 0, 0, 0, 0, 0, 0]
        ))],
        tape.files().collect()
    );
}

#[test]
fn append_basic_writes_header_and_padded_data() {
    let mut tape = Tape::new();
    tape.append_basic(b"PROG  ", &[1, 2, 3, 4, 5, 6, 7, 8]);
    tape.append_basic(b"EMPTY ", &[]);
    tape.append_basic(b"ONE   ", &[9]);
    assert_eq!(
        vec![
            header(0xd3, b"PROG  "),
            vec![1, 2, 3, 4, 5, 6, 7, 8],
            header(0xd3, b"EMPTY "),
            vec![],
            header(0xd3, b"ONE   "),
            vec![9, 0, 0, 0, 0, 0, 0, 0],
        ],
        bodies_of(&tape)
    );
    assert_eq!(
        vec![
            Ok(File::Basic("PROG".to_string(), &[1, 2, 3, 4, 5, 6, 7, 8])),
            Ok(File::Basic("EMPTY".to_string(), &[])),
            Ok(File::Basic("ONE".to_string(), &[9, 0, 0, 0, 0, 0, 0, 0])),
        ],
        tape.files().collect()
    );
}

#[test]
fn append_custom_pads_with_zeros() {
    let mut tape = Tape::new();
    tape.append_custom(&[1, 2, 3, 4, 5]);
    tape.append_custom(&[6; 16]);
    tape.append_custom(&[]);
    assert_eq!(
        vec![vec![1, 2, 3, 4, 5, 0, 0, 0], vec![6; 16], vec![]],
        bodies_of(&tape)
    );
}

fn ascii_chunks(text: &[u8]) -> Vec<Vec<u8>> {
    let mut tape = Tape::new();
    tape.append_ascii(b"TEXT  ", text);
    let bodies = bodies_of(&tape);
    assert_eq!(header(0xea, b"TEXT  "), bodies[0]);
    bodies[1..].to_vec()
}

#[test]
fn append_ascii_cuts_text_into_chunks() {
    assert_eq!(vec![vec![0x1a; 256]], ascii_chunks(&[]));

    let mut one = vec![0x41];
    one.resize(256, 0x1a);
    assert_eq!(vec![one], ascii_chunks(&[0x41]));

    // Ten bytes of text: end-of-text bytes follow at once, no zeros before them.
    let mut ten = vec![0x42; 10];
    ten.resize(256, 0x1a);
    assert_eq!(vec![ten], ascii_chunks(&[0x42; 10]));

    let mut most = vec![0x43; 255];
    most.push(0x1a);
    assert_eq!(vec![most], ascii_chunks(&[0x43; 255]));

    assert_eq!(
        vec![vec![0x44; 256], vec![0x1a; 256]],
        ascii_chunks(&[0x44; 256])
    );

    let mut rest = vec![0x45];
    rest.resize(256, 0x1a);
    assert_eq!(vec![vec![0x45; 256], rest], ascii_chunks(&[0x45; 257]));

    assert_eq!(
        vec![vec![0x46; 256], vec![0x46; 256], vec![0x1a; 256]],
        ascii_chunks(&[0x46; 512])
    );
}

#[test]
fn ascii_file_is_read_back() {
    let text: Vec<u8> = (0..600).map(|i| 0x20 + (i % 64) as u8).collect();
    let mut tape = Tape::new();
    tape.append_ascii(b"TEXT  ", &text);
    let files = tape.files().collect();
    assert_eq!(1, files.len());
    match files[0].as_ref().unwrap() {
        File::Ascii(name, chunks) => {
            assert_eq!("TEXT", name);
            assert_eq!(600 / 256 + 1, chunks.len());
            assert_eq!(&text[..256], chunks[0]);
            assert_eq!(&text[256..512], chunks[1]);
            assert_eq!(256, chunks[2].len());
            assert_eq!(&text[512..], &chunks[2][..88]);
            assert!(chunks[2][88..].iter().all(|b| *b == 0x1a));
        }
        _ => panic!("unexpected file"),
    }
}

#[test]
fn end_of_text_in_the_text_ends_the_file_early() {
    let mut text = vec![0x41; 300];
    text[5] = 0x1a;
    let mut tape = Tape::new();
    tape.append_ascii(b"TEXT  ", &text);
    let files = tape.files().collect();
    assert_eq!(2, files.len());
    assert_eq!(
        Ok(File::Ascii("TEXT".to_string(), vec![&text[..256]])),
        files[0]
    );
}

#[test]
fn appended_blocks_are_aligned() {
    let mut tape = Tape::new();
    tape.append_bin(b"A     ", &[1, 2, 3, 4, 5, 6, 7]);
    tape.append_basic(b"B     ", &[1; 13]);
    tape.append_ascii(b"C     ", &[0x41; 700]);
    tape.append_ascii(b"D     ", &[]);
    tape.append_custom(&[1; 3]);
    tape.append_custom(&[1; 25]);
    assert_eq!(2 + 2 + 4 + 2 + 2, tape.blocks().len());
    for block in tape.blocks() {
        assert_eq!(0, block.data_without_prefix().len() % 8);
        assert_eq!(0, block.data().len() % 8);
    }
    assert_eq!(0, tape.to_bytes().len() % 8);
}

#[test]
fn appended_files_follow_the_others() {
    let mut tape = Tape::new();
    tape.append_custom(&[1; 8]);
    tape.append_bin(b"A     ", &[0, 1, 2, 3, 4, 5, 6, 7]);
    tape.append_ascii(b"B     ", &[0x41; 3]);
    tape.append_basic(b"C     ", &[9; 8]);
    let mut chunk = vec![0x41; 3];
    chunk.resize(256, 0x1a);
    assert_eq!(
        vec![
            Ok(File::Custom(&[1; 8])),
            Ok(File::Bin(
                "A".to_string(),
                0x0100,
                0x0302,
                0x0504,
                &[0, 1, 2, 3, 4, 5, 6, 7]
            )),
            Ok(File::Ascii("B".to_string(), vec![&chunk[..]])),
            Ok(File::Basic("C".to_string(), &[9; 8])),
        ],
        tape.files().collect()
    );
}

#[test]
fn tape_bytes_are_markers_and_bodies() {
    let mut tape = Tape::new();
    tape.append_custom(&[1, 2, 3]);
    tape.append_basic(b"P     ", &[4; 8]);
    let bytes = tape.to_bytes();
    assert_eq!(
        on_tape(&[
            &[1, 2, 3, 0, 0, 0, 0, 0],
            &header(0xd3, b"P     "),
            &[4; 8]
        ]),
        bytes
    );
    let again = Tape::from_bytes(&bytes);
    assert_eq!(bodies_of(&tape), bodies_of(&again));
    assert_eq!(tape.files().collect(), again.files().collect());
    assert_eq!(bytes, again.to_bytes());
}

#[test]
fn unaligned_last_block_is_kept_as_it_is() {
    let bytes = on_tape(&[&[1; 8], &[2, 3, 4]]);
    let tape = Tape::from_bytes(&bytes);
    assert_eq!(vec![vec![1; 8], vec![2, 3, 4]], bodies_of(&tape));
    assert_eq!(bytes, tape.to_bytes());
}

#[test]
fn collect_takes_what_is_left() {
    let bytes = on_tape(&[&[1; 8], &[2; 8], &[3; 8]]);
    let tape = Tape::from_bytes(&bytes);
    let mut files = tape.files();
    assert_eq!(Some(Ok(File::Custom(&[1; 8]))), files.next());
    assert_eq!(
        vec![Ok(File::Custom(&[2; 8])), Ok(File::Custom(&[3; 8]))],
        files.collect()
    );
    assert_eq!(3, files.position());
    assert!(files.collect().is_empty());
    assert_eq!(None, files.next());
    // A fresh cursor starts over.
    assert_eq!(3, tape.files().collect().len());
}
