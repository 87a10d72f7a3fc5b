use bsp::allocator::{first_file_name, RollingAllocator};
use bsp::binary::{split_binary, BinarySplitter};
use bsp::options::BinaryOptions;
use bsp::output::{combine, perform, FileOp, OutputFile};

fn file(name: &str, content: &[u8]) -> OutputFile {
    OutputFile { name: name.to_string(), content: content.to_vec() }
}

#[test]
fn allocator_starts_with_the_first_file() {
    let a = RollingAllocator::new(5, "x", ".bin", false);
    assert_eq!(a.limit, 5);
    assert_eq!(a.available, 5);
    assert_eq!(a.suffix, "aa");
    assert_eq!(a.file_name(), "xaa.bin");
    let n = RollingAllocator::new(5, "part", "", true);
    assert_eq!(n.file_name(), "part0");
}

#[test]
fn ensure_capacity_with_room_changes_nothing() {
    let mut a = RollingAllocator::new(5, "x", "", false);
    assert_eq!(a.ensure_capacity(), None);
    assert_eq!((a.available, a.suffix.as_str()), (5, "aa"));
    a.consume(4);
    assert_eq!(a.ensure_capacity(), None);
    assert_eq!(a.ensure_capacity(), None);
    assert_eq!((a.available, a.suffix.as_str()), (1, "aa"));
    assert_eq!(a.file_name(), "xaa");
}

#[test]
fn ensure_capacity_rolls_when_nothing_is_left() {
    let mut a = RollingAllocator::new(2, "x", ".e", false);
    a.consume(2);
    assert_eq!(a.available, 0);
    assert_eq!(a.ensure_capacity(), Some("xab.e".to_string()));
    assert_eq!((a.available, a.suffix.as_str()), (2, "ab"));
    assert_eq!(a.ensure_capacity(), None);
    a.consume(1);
    a.consume(1);
    assert_eq!(a.ensure_capacity(), Some("xac.e".to_string()));
}

#[test]
fn feed_cuts_a_piece_across_files() {
    let mut s = BinarySplitter::new(3, "x", "", false);
    let ops = s.feed(b"abcdefgh");
    assert_eq!(
        ops,
        vec![
            FileOp::Write(b"abc".to_vec()),
            FileOp::Open("xab".to_string()),
            FileOp::Write(b"def".to_vec()),
            FileOp::Open("xac".to_string()),
            FileOp::Write(b"gh".to_vec()),
        ]
    );
    assert_eq!(s.allocator.available, 1);
    assert_eq!(s.feed(b""), Vec::<FileOp>::new());
    assert_eq!(
        s.feed(b"ij"),
        vec![
            FileOp::Write(b"i".to_vec()),
            FileOp::Open("xad".to_string()),
            FileOp::Write(b"j".to_vec())
        ]
    );
}

#[test]
fn a_full_file_is_followed_by_a_new_one_only_when_more_comes() {
    let mut s = BinarySplitter::new(2, "x", "", true);
    assert_eq!(s.feed(b"ab"), vec![FileOp::Write(b"ab".to_vec())]);
    assert_eq!(s.allocator.available, 0);
    assert_eq!(
        s.feed(b"c"),
        vec![FileOp::Open("x1".to_string()), FileOp::Write(b"c".to_vec())]
    );
}

#[test]
fn perform_applies_operations_in_order() {
    let mut files = vec![file("a", b"1")];
    perform(
        &mut files,
        vec![
            FileOp::Write(b"23".to_vec()),
            FileOp::Open("b".to_string()),
            FileOp::Open("c".to_string()),
            FileOp::Write(b"4".to_vec()),
            FileOp::Write(b"5".to_vec()),
        ],
    );
    assert_eq!(files, vec![file("a", b"123"), file("b", b""), file("c", b"45")]);
    let mut none: Vec<OutputFile> = Vec::new();
    perform(&mut none, vec![FileOp::Write(b"lost".to_vec())]);
    assert_eq!(none, Vec::<OutputFile>::new());
}

#[test]
fn split_binary_example() {
    let files = split_binary(&BinaryOptions::new(4), b"0123456789");
    assert_eq!(files, vec![file("xaa", b"0123"), file("xab", b"4567"), file("xac", b"89")]);
}

#[test]
fn split_binary_empty_input_leaves_one_empty_file() {
    assert_eq!(split_binary(&BinaryOptions::new(4), b""), vec![file("xaa", b"")]);
}

#[test]
fn split_binary_exact_multiple_has_no_empty_last_file() {
    assert_eq!(
        split_binary(&BinaryOptions::new(2).with_is_numerical_suffix(true), b"abcd"),
        vec![file("x0", b"ab"), file("x1", b"cd")]
    );
}

#[test]
fn split_binary_names() {
    let opts = BinaryOptions::new(1)
        .with_prefix(Some("part-"))
        .with_extra_suffix(Some(".bin"))
        .with_is_numerical_suffix(true);
    let files = split_binary(&opts, b"abcdefghijkl");
    let names: Vec<&str> = files.iter().map(|f| f.name.as_str()).collect();
    assert_eq!(
        names,
        vec![
            "part-0.bin", "part-1.bin", "part-2.bin", "part-3.bin", "part-4.bin", "part-5.bin",
            "part-6.bin", "part-7.bin", "part-8.bin", "part-9.bin", "part-10.bin", "part-11.bin"
        ]
    );
}

#[test]
fn split_binary_count_sizes_and_content() {
    let input: Vec<u8> = (0..1000u32).map(|i| (i % 251) as u8).collect();
    for limit in [1u64, 2, 3, 7, 64, 999, 1000, 1001, 5000] {
        for len in [0usize, 1, 2, 63, 64, 65, 128, 999, 1000] {
            let data = &input[..len];
            let files = split_binary(&BinaryOptions::new(limit), data);
            let expected = if len == 0 { 1 } else { (len as u64 + limit - 1) / limit };
            assert_eq!(files.len() as u64, expected);
            for f in &files[..files.len() - 1] {
                assert_eq!(f.content.len() as u64, limit);
            }
            assert!(files[files.len() - 1].content.len() as u64 <= limit);
            let joined: Vec<u8> = files.iter().flat_map(|f| f.content.clone()).collect();
            assert_eq!(joined, data);
        }
    }
}

#[test]
fn feeding_bytes_piecewise_gives_the_same_files() {
    let input: Vec<u8> = (0..200u8).collect();
    let opts = BinaryOptions::new(7).with_prefix(Some("p"));
    let whole = split_binary(&opts, &input);
    for piece in [1usize, 2, 5, 7, 8, 13, 200] {
        let mut s = BinarySplitter::from_options(&opts);
        let mut files = vec![OutputFile { name: s.allocator.file_name(), content: Vec::new() }];
        for chunk in input.chunks(piece) {
            perform(&mut files, s.feed(chunk));
        }
        assert_eq!(files, whole, "pieces of {}", piece);
    }
}

#[test]
fn combine_lays_files_end_to_end() {
    assert_eq!(combine(&vec![file("a", b"12"), file("b", b""), file("c", b"3")]), b"123");
    assert_eq!(combine(&vec![]), b"");
}

#[test]
fn combine_undoes_split_binary() {
    let input: Vec<u8> = (0..=255u8).cycle().take(1000).collect();
    for limit in [1u64, 3, 64, 1000, 4096] {
        assert_eq!(combine(&split_binary(&BinaryOptions::new(limit), &input)), input);
    }
}

#[test]
fn first_file_names() {
    assert_eq!(first_file_name("x", "", false), "xaa");
    assert_eq!(first_file_name("part", ".bin", true), "part0.bin");
    assert_eq!(
        first_file_name("p", ".e", false),
        RollingAllocator::new(3, "p", ".e", false).file_name()
    );
}
