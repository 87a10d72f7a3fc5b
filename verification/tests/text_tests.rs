use bsp::codec::{rest_after, usable_capacity, Codec};
use bsp::error::{ArgumentError, Errors};
use bsp::lines::{LineEnding, Record, TextOp};
use bsp::options::LineOptions;
use bsp::output::{perform, FileOp, OutputFile};
use bsp::text::{
    codec_for, codec_or_error, push_encoded, split_text, zero_limit_error, TextSplitter,
};

fn file(name: &str, content: &[u8]) -> OutputFile {
    OutputFile { name: name.to_string(), content: content.to_vec() }
}

#[test]
fn end_to_end_two_lines_per_file() {
    let files = split_text(&LineOptions::new(2), b"a\nb\nc\nd\n", LineEnding::Lf);
    assert_eq!(files, Ok(vec![file("xaa", b"a\nb\n"), file("xab", b"c\nd\n")]));
}

#[test]
fn unknown_encoding_is_an_error() {
    let opts = LineOptions::new(2).with_encoding(Some("no-such-encoding"));
    assert_eq!(
        split_text(&opts, b"a\n", LineEnding::Lf),
        Err(Errors::Arg(ArgumentError::new(
            "encoding",
            "invalid encoding name:no-such-encoding"
        )))
    );
    assert!(TextSplitter::new(&opts, LineEnding::Lf).is_err());
}

#[test]
fn known_encodings_are_accepted() {
    for label in ["utf-8", "UTF-8", " utf8 ", "shift_jis", "latin1", "euc-jp", "windows-1252"] {
        let opts = LineOptions::new(2).with_encoding(Some(label));
        assert!(TextSplitter::new(&opts, LineEnding::Lf).is_ok(), "label {:?}", label);
        assert!(Codec::for_label(label).is_some());
    }
    assert!(Codec::for_label("klingon").is_none());
    assert!(Codec::for_label("").is_none());
}

#[test]
fn codec_or_error_keeps_what_was_found() {
    assert!(codec_or_error(Some(Codec::utf_8()), "utf-8").is_ok());
    match codec_or_error(None, "x y") {
        Err(e) => {
            assert_eq!(e, Errors::Arg(ArgumentError::new("encoding", "invalid encoding name:x y")))
        }
        Ok(_) => panic!("no codec was found"),
    }
}

#[test]
fn decode_and_encode_utf8() {
    let mut codec = Codec::utf_8();
    let (read, text) = codec.decode("héllo\n".as_bytes());
    assert_eq!(read, 7);
    assert_eq!(text, "héllo\n".chars().collect::<Vec<char>>());
    assert_eq!(codec.encode(&text), "héllo\n".as_bytes());
    assert_eq!(codec.decode(b""), (0, vec![]));
    assert_eq!(codec.encode(&vec![]), Vec::<u8>::new());
}

#[test]
fn decode_and_encode_shift_jis() {
    let mut codec = Codec::for_label("shift_jis").unwrap();
    let bytes = [0x82u8, 0xA0, 0x82, 0xA2, 0x0A];
    let (read, text) = codec.decode(&bytes);
    assert_eq!(read, 5);
    assert_eq!(text, vec!['あ', 'い', '\n']);
    assert_eq!(codec.encode(&text), bytes);
}

#[test]
fn decoder_keeps_a_character_cut_between_pieces() {
    let mut codec = Codec::utf_8();
    let bytes = "é".as_bytes();
    let (read, text) = codec.decode(&bytes[..1]);
    assert_eq!((read, text), (1, vec![]));
    let (read, text) = codec.decode(&bytes[1..]);
    assert_eq!((read, text), (1, vec!['é']));
}

#[test]
fn characters_the_encoding_lacks_are_written_as_references() {
    let mut codec = Codec::for_label("latin1").unwrap();
    let text: Vec<char> = "aあb".chars().collect();
    assert_eq!(codec.encode(&text), b"a&#12354;b");
}

#[test]
fn long_text_is_encoded_whole() {
    let mut codec = Codec::for_label("windows-1252").unwrap();
    let text: Vec<char> = std::iter::repeat('あ').take(5000).collect();
    let expected: Vec<u8> = "&#12354;".repeat(5000).into_bytes();
    assert_eq!(codec.encode(&text), expected);
}

#[test]
fn shift_jis_text_is_split_by_lines() {
    let opts = LineOptions::new(1).with_encoding(Some("shift_jis")).with_is_numerical_suffix(true);
    let input = [0x82u8, 0xA0, 0x0D, 0x0A, 0x82, 0xA2, 0x0A, 0x82, 0xA4];
    assert_eq!(
        split_text(&opts, &input, LineEnding::Lf),
        Ok(vec![
            file("x0", &[0x82, 0xA0, 0x0D, 0x0A]),
            file("x1", &[0x82, 0xA2, 0x0A]),
            file("x2", &[0x82, 0xA4])
        ])
    );
}

#[test]
fn cut_records_get_the_line_ending_as_it_is() {
    let opts = LineOptions::new(10).with_max_chars(Some(2));
    assert_eq!(
        split_text(&opts, "äbcde\n".as_bytes(), LineEnding::CrLf),
        Ok(vec![file("xaa", "äb\r\ncd\r\ne\n".as_bytes())])
    );
}

#[test]
fn push_encoded_operations() {
    let mut out = vec![FileOp::Open("a".to_string())];
    push_encoded(&mut out, TextOp::Open("b".to_string()), vec![1, 2], LineEnding::Lf);
    push_encoded(
        &mut out,
        TextOp::Write(Record { text: vec!['x'], synthetic_ending: false }),
        vec![3],
        LineEnding::Lf,
    );
    push_encoded(
        &mut out,
        TextOp::Write(Record { text: vec!['y'], synthetic_ending: true }),
        vec![4, 5],
        LineEnding::CrLf,
    );
    assert_eq!(
        out,
        vec![
            FileOp::Open("a".to_string()),
            FileOp::Open("b".to_string()),
            FileOp::Write(vec![3]),
            FileOp::Write(vec![4, 5]),
            FileOp::Write(vec![13, 10]),
        ]
    );
}

#[test]
fn crlf_split_between_pieces_of_bytes_is_one_line() {
    let mut s = TextSplitter::new(&LineOptions::new(1), LineEnding::Lf).unwrap();
    let mut files = vec![OutputFile {
        name: s.lines.allocator.file_name(),
        content: Vec::new(),
    }];
    perform(&mut files, s.feed(b"ab\r"));
    assert_eq!(files, vec![file("xaa", b"")]);
    perform(&mut files, s.feed(b"\ncd\r\n"));
    perform(&mut files, s.finish());
    assert_eq!(files, vec![file("xaa", b"ab\r\n"), file("xab", b"cd\r\n")]);
}

#[test]
fn feeding_bytes_in_pieces_gives_the_same_files() {
    let text = "één\r\ntwee\rdrie\n\nvier\r\nvijf".as_bytes();
    let opts = LineOptions::new(2).with_max_chars(Some(3));
    let whole = split_text(&opts, text, LineEnding::Lf).unwrap();
    for piece in [1usize, 2, 3, 5, 8] {
        let mut s = TextSplitter::new(&opts, LineEnding::Lf).unwrap();
        let mut files = vec![OutputFile {
            name: s.lines.allocator.file_name(),
            content: Vec::new(),
        }];
        for chunk in text.chunks(piece) {
            perform(&mut files, s.feed(chunk));
            assert!(s.remainder.is_empty());
        }
        perform(&mut files, s.finish());
        assert_eq!(files, whole, "pieces of {}", piece);
    }
}

#[test]
fn utf8_text_comes_back_byte_for_byte() {
    let text = "α\nβγ\r\nδ\rε\n\nζ".as_bytes();
    for limit in 1..=7u64 {
        let files = split_text(&LineOptions::new(limit), text, LineEnding::Lf).unwrap();
        let joined: Vec<u8> = files.iter().flat_map(|f| f.content.clone()).collect();
        assert_eq!(joined, text);
        assert_eq!(files.len() as u64, (6 + limit - 1) / limit);
    }
}

#[test]
fn codec_remembers_its_label() {
    assert_eq!(Codec::utf_8().label(), None);
    assert_eq!(Codec::for_label("shift_jis").unwrap().label(), Some("shift_jis"));
    assert_eq!(Codec::for_label(" UTF8 ").unwrap().label(), Some(" UTF8 "));
    let opts = LineOptions::new(1).with_encoding(Some("latin1"));
    assert_eq!(TextSplitter::new(&opts, LineEnding::Lf).unwrap().codec.label(), Some("latin1"));
    let plain = TextSplitter::new(&LineOptions::new(1), LineEnding::Lf).unwrap();
    assert_eq!(plain.codec.label(), None);
    let mut codec = Codec::for_label("euc-jp").unwrap();
    codec.decode(b"abc");
    codec.encode(&vec!['a']);
    assert_eq!(codec.label(), Some("euc-jp"));
}

#[test]
fn usable_capacities() {
    assert_eq!(usable_capacity(None), None);
    assert_eq!(usable_capacity(Some(0)), Some(0));
    assert_eq!(usable_capacity(Some(4096)), Some(4096));
    assert_eq!(usable_capacity(Some(isize::MAX as usize)), Some(isize::MAX as usize));
    assert_eq!(usable_capacity(Some(isize::MAX as usize + 1)), None);
    assert_eq!(usable_capacity(Some(usize::MAX)), None);
}

#[test]
fn what_is_left_for_the_encoder() {
    assert_eq!(rest_after("héllo", 0), None);
    assert_eq!(rest_after("héllo", 1), Some("éllo"));
    assert_eq!(rest_after("héllo", 2), None);
    assert_eq!(rest_after("héllo", 3), Some("llo"));
    assert_eq!(rest_after("héllo", 6), Some(""));
    assert_eq!(rest_after("héllo", 7), None);
    assert_eq!(rest_after("", 0), None);
}

#[test]
fn the_encoding_is_checked_before_the_limit() {
    let unknown = LineOptions::new(0).with_encoding(Some("no-such-encoding"));
    let error = Errors::Arg(ArgumentError::new(
        "encoding",
        "invalid encoding name:no-such-encoding",
    ));
    assert_eq!(split_text(&unknown, b"a\n", LineEnding::Lf), Err(error));
    match TextSplitter::new(&unknown, LineEnding::Lf) {
        Err(e) => assert_eq!(
            e,
            Errors::Arg(ArgumentError::new("encoding", "invalid encoding name:no-such-encoding"))
        ),
        Ok(_) => panic!("the encoding is not known"),
    }
}

#[test]
fn a_limit_of_no_lines_is_an_error() {
    let error = Errors::Arg(ArgumentError::new("max-lines", "no file can take a line"));
    assert_eq!(split_text(&LineOptions::new(0), b"a\n", LineEnding::Lf), Err(error));
    let known = LineOptions::new(0).with_encoding(Some("shift_jis"));
    match TextSplitter::new(&known, LineEnding::Lf) {
        Err(e) => {
            assert_eq!(e, Errors::Arg(ArgumentError::new("max-lines", "no file can take a line")))
        }
        Ok(_) => panic!("no file can take a line"),
    }
}

#[test]
fn a_multiple_of_the_limit_in_bytes() {
    let opts = LineOptions::new(10).with_max_chars(Some(3));
    assert_eq!(
        split_text(&opts, b"abcdef\nxy\r\n", LineEnding::Lf),
        Ok(vec![file("xaa", b"abc\ndef\nxy\r\n")])
    );
}

#[test]
fn no_lines_and_no_input_leave_the_first_file() {
    assert_eq!(
        split_text(&LineOptions::new(0), b"", LineEnding::Lf),
        Ok(vec![file("xaa", b"")])
    );
    let opts = LineOptions::new(0)
        .with_prefix(Some("p"))
        .with_extra_suffix(Some(".txt"))
        .with_is_numerical_suffix(true)
        .with_encoding(Some("latin1"));
    assert_eq!(split_text(&opts, b"", LineEnding::Lf), Ok(vec![file("p0.txt", b"")]));
    assert_eq!(split_text(&opts, b"x", LineEnding::Lf), Err(zero_limit_error()));
    assert_eq!(
        zero_limit_error(),
        Errors::Arg(ArgumentError::new("max-lines", "no file can take a line"))
    );
}

#[test]
fn codec_for_the_options() {
    assert_eq!(codec_for(&None).unwrap().label(), None);
    assert_eq!(codec_for(&None).unwrap().name(), "UTF-8");
    let sjis = codec_for(&Some("sjis".to_string())).unwrap();
    assert_eq!(sjis.label(), Some("sjis"));
    assert_eq!(sjis.name(), "Shift_JIS");
    match codec_for(&Some("nope".to_string())) {
        Err(e) => {
            assert_eq!(e, Errors::Arg(ArgumentError::new("encoding", "invalid encoding name:nope")))
        }
        Ok(_) => panic!("the encoding is not known"),
    }
}

#[test]
fn which_codecs_encode_everything() {
    assert!(Codec::utf_8().can_encode_everything());
    assert!(Codec::for_label("utf-8").unwrap().can_encode_everything());
    assert!(Codec::for_label("utf-16le").unwrap().can_encode_everything());
    assert!(!Codec::for_label("shift_jis").unwrap().can_encode_everything());
    assert!(!Codec::for_label("latin1").unwrap().can_encode_everything());
    assert_eq!(Codec::for_label("utf8").unwrap().name(), "UTF-8");
    assert_eq!(Codec::for_label("latin1").unwrap().name(), "windows-1252");
}

#[test]
fn a_run_with_a_codec_given() {
    let opts = LineOptions::new(1);
    let mut s = TextSplitter::with_codec(&opts, LineEnding::Lf, codec_for(&None).unwrap());
    assert_eq!(s.feed(b"a\nb"), vec![FileOp::Write(b"a\n".to_vec())]);
    assert_eq!(
        s.finish(),
        vec![FileOp::Open("xab".to_string()), FileOp::Write(b"b".to_vec())]
    );
}

#[test]
fn encodings_with_every_character_are_written_as_utf8() {
    let text: Vec<char> = "aé€𝄞\n".chars().collect();
    for label in ["utf-8", "utf-16le", "utf-16be", "replacement"] {
        let mut codec = Codec::for_label(label).unwrap();
        assert!(codec.can_encode_everything());
        assert_eq!(codec.encode(&text), "aé€𝄞\n".as_bytes(), "label {:?}", label);
        assert_eq!(codec.encode(&text), "aé€𝄞\n".as_bytes(), "label {:?}", label);
    }
    let long: Vec<char> = std::iter::repeat('€').take(100_000).collect();
    assert_eq!(Codec::utf_8().encode(&long), "€".repeat(100_000).into_bytes());
}

#[test]
fn utf16_input_is_written_as_utf8() {
    let opts = LineOptions::new(1).with_encoding(Some("utf-16le"));
    let input = [0x61u8, 0x00, 0x0A, 0x00, 0xE9, 0x00];
    assert_eq!(
        split_text(&opts, &input, LineEnding::Lf),
        Ok(vec![file("xaa", b"a\n"), file("xab", "é".as_bytes())])
    );
}
