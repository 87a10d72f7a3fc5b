use bsp::lines::{
    perform_text, split_line, split_lines, LineEnding, LineSplitter, Record, TextFile, TextOp,
};
use bsp::options::LineOptions;

fn chars(s: &str) -> Vec<char> {
    s.chars().collect()
}

fn record(s: &str, synthetic_ending: bool) -> Record {
    Record { text: chars(s), synthetic_ending }
}

fn file(name: &str, content: &str) -> TextFile {
    TextFile { name: name.to_string(), content: chars(content) }
}

fn open(name: &str) -> TextOp {
    TextOp::Open(name.to_string())
}

fn write(s: &str, synthetic_ending: bool) -> TextOp {
    TextOp::Write(record(s, synthetic_ending))
}

#[test]
fn line_ending_values() {
    assert_eq!(LineEnding::Lf.to_chars(), vec!['\n']);
    assert_eq!(LineEnding::CrLf.to_chars(), vec!['\r', '\n']);
    assert_eq!(LineEnding::Lf.to_bytes(), vec![10u8]);
    assert_eq!(LineEnding::CrLf.to_bytes(), vec![13u8, 10u8]);
}

#[test]
fn a_line_without_limit_is_one_record() {
    assert_eq!(split_line(&chars("hello\n"), None), vec![record("hello\n", false)]);
    assert_eq!(split_line(&chars(""), None), vec![record("", false)]);
}

#[test]
fn a_long_line_is_cut_at_every_limit() {
    assert_eq!(
        split_line(&chars("abcdefgh\n"), Some(3)),
        vec![record("abc", true), record("def", true), record("gh\n", false)]
    );
    assert_eq!(
        split_line(&chars("abcdefg\n"), Some(4)),
        vec![record("abcd", true), record("efg\n", false)]
    );
    assert_eq!(split_line(&chars("ab\r\n"), Some(3)), vec![record("ab\r\n", false)]);
    assert_eq!(
        split_line(&chars("abcdef"), Some(3)),
        vec![record("abc", true), record("def", true)]
    );
}

#[test]
fn a_line_within_the_limit_is_not_cut() {
    assert_eq!(split_line(&chars("ab\n"), Some(3)), vec![record("ab\n", false)]);
    assert_eq!(split_line(&chars("ab\n"), Some(100)), vec![record("ab\n", false)]);
    assert_eq!(split_line(&chars("ab"), Some(3)), vec![record("ab", false)]);
    assert_eq!(split_line(&chars(""), Some(3)), vec![record("", false)]);
    assert_eq!(split_line(&chars("\n"), Some(3)), vec![record("\n", false)]);
    assert_eq!(split_line(&chars("\r\n"), Some(1)), vec![record("\r\n", false)]);
}

#[test]
fn a_limit_of_zero_counts_as_one() {
    assert_eq!(split_line(&chars("ab\n"), Some(0)), vec![record("a", true), record("b\n", false)]);
    assert_eq!(split_line(&chars("ab\n"), Some(0)), split_line(&chars("ab\n"), Some(1)));
}

#[test]
fn the_line_ending_stays_with_the_last_record() {
    assert_eq!(
        split_line(&chars("abcdef\n"), Some(3)),
        vec![record("abc", true), record("def\n", false)]
    );
    assert_eq!(
        split_line(&chars("abcdef\r\n"), Some(3)),
        vec![record("abc", true), record("def\r\n", false)]
    );
    assert_eq!(
        split_line(&chars("abcde\r\n"), Some(3)),
        vec![record("abc", true), record("de\r\n", false)]
    );
    assert_eq!(
        split_line(&chars("abcdef\r"), Some(2)),
        vec![record("ab", true), record("cd", true), record("ef\r", false)]
    );
    assert_eq!(split_line(&chars("abc\n"), Some(3)), vec![record("abc\n", false)]);
}

#[test]
fn a_multiple_of_the_limit_leaves_no_blank_line() {
    let opts = LineOptions::new(10).with_max_chars(Some(3));
    assert_eq!(
        split_lines(&opts, &chars("abcdef\nghi\n\njkl"), LineEnding::Lf),
        vec![file("xaa", "abc\ndef\nghi\n\njkl\n")]
    );
    let two = LineOptions::new(2).with_max_chars(Some(3));
    assert_eq!(
        split_lines(&two, &chars("abcdef\r\nghi\r\n"), LineEnding::Lf),
        vec![file("xaa", "abc\ndef\r\n"), file("xab", "ghi\r\n")]
    );
}

#[test]
fn number_of_records_is_the_content_over_the_limit_rounded_up() {
    let line: Vec<char> = "0123456789abcdefghijklmnopqrstuvwxyz\n".chars().collect();
    for k in 2..=line.len() {
        for m in 1..=40u64 {
            let text = &line[line.len() - k..];
            let content = (k - 1) as u64;
            let records = split_line(text, Some(m));
            assert_eq!(records.len() as u64, (content + m - 1) / m);
            let joined: Vec<char> = records.iter().flat_map(|r| r.text.clone()).collect();
            assert_eq!(joined, text);
            for (i, r) in records.iter().enumerate() {
                if i + 1 < records.len() {
                    assert_eq!(r.text.len() as u64, m);
                    assert!(r.synthetic_ending);
                } else {
                    assert!(r.text.len() as u64 <= m + 1);
                    assert!(r.text.len() >= 2);
                }
            }
            assert!(!records[records.len() - 1].synthetic_ending);
            assert_eq!(records[records.len() - 1].text.last(), Some(&'\n'));
        }
    }
}

#[test]
fn two_lines_per_file() {
    let files = split_lines(&LineOptions::new(2), &chars("a\nb\nc\nd\n"), LineEnding::Lf);
    assert_eq!(files, vec![file("xaa", "a\nb\n"), file("xab", "c\nd\n")]);
}

#[test]
fn what_is_left_at_the_end_is_written_too() {
    let files = split_lines(&LineOptions::new(2), &chars("a\nb\nc"), LineEnding::Lf);
    assert_eq!(files, vec![file("xaa", "a\nb\n"), file("xab", "c")]);
    let files = split_lines(&LineOptions::new(2), &chars("a\nb"), LineEnding::Lf);
    assert_eq!(files, vec![file("xaa", "a\nb")]);
    let files = split_lines(&LineOptions::new(2), &chars("a\r\nb\r"), LineEnding::Lf);
    assert_eq!(files, vec![file("xaa", "a\r\nb\r")]);
}

#[test]
fn empty_text_leaves_one_empty_file() {
    let opts = LineOptions::new(2).with_is_numerical_suffix(true).with_extra_suffix(Some(".txt"));
    assert_eq!(split_lines(&opts, &chars(""), LineEnding::Lf), vec![file("x0.txt", "")]);
}

#[test]
fn cut_lines_count_as_lines() {
    let opts = LineOptions::new(2).with_max_chars(Some(3)).with_prefix(Some("p"));
    let files = split_lines(&opts, &chars("abcdefg\nhi\n"), LineEnding::Lf);
    assert_eq!(files, vec![file("paa", "abc\ndef\n"), file("pab", "g\nhi\n")]);
    let files = split_lines(&opts, &chars("abcdefg\nhi\n"), LineEnding::CrLf);
    assert_eq!(files, vec![file("paa", "abc\r\ndef\r\n"), file("pab", "g\nhi\n")]);
}

#[test]
fn feed_chars_answers_with_operations() {
    let mut s = LineSplitter::new(2, None, "x", "", false, LineEnding::Lf);
    assert_eq!(s.feed_chars(&chars("a\nb")), vec![write("a\n", false)]);
    assert_eq!(s.allocator.available, 1);
    assert_eq!(s.feed_chars(&chars("b\r")), vec![]);
    assert_eq!(
        s.feed_chars(&chars("\nc\nd")),
        vec![write("bb\r\n", false), open("xab"), write("c\n", false)]
    );
    assert_eq!(s.finish(), vec![write("d", false)]);
}

#[test]
fn finish_opens_a_file_for_what_is_left_when_the_open_one_is_full() {
    let mut s = LineSplitter::new(1, None, "x", "", true, LineEnding::Lf);
    assert_eq!(s.feed_chars(&chars("a\nb")), vec![write("a\n", false)]);
    assert_eq!(s.finish(), vec![open("x1"), write("b", false)]);
    let mut s = LineSplitter::new(1, None, "x", "", true, LineEnding::Lf);
    assert_eq!(s.feed_chars(&chars("a\n")), vec![write("a\n", false)]);
    assert_eq!(s.finish(), vec![]);
}

#[test]
fn perform_text_applies_operations_in_order() {
    let mut files = vec![file("a", "1")];
    perform_text(
        &mut files,
        vec![write("23", true), open("b"), write("4\n", false), write("5", true)],
        LineEnding::CrLf,
    );
    assert_eq!(files, vec![file("a", "123\r\n"), file("b", "4\n5\r\n")]);
}

#[test]
fn files_laid_end_to_end_are_the_text() {
    let text = "one\r\ntwo\rthree\n\n\r\nfour\nfive\r\rsix";
    for limit in 1..=12u64 {
        let files = split_lines(&LineOptions::new(limit), &chars(text), LineEnding::Lf);
        let joined: String = files.iter().flat_map(|f| f.content.iter()).collect();
        assert_eq!(joined, text);
        assert_eq!(files.len() as u64, (9 + limit - 1) / limit);
    }
}

#[test]
fn feeding_chars_piecewise_gives_the_same_files() {
    let text = chars("one\r\ntwo\rthree\n\n\r\nfour\nfive\r\rsix");
    let opts = LineOptions::new(3).with_max_chars(Some(2));
    let whole = split_lines(&opts, &text, LineEnding::Lf);
    for piece in [1usize, 2, 3, 4, 5, 7, 11] {
        let mut s = LineSplitter::from_options(&opts, LineEnding::Lf);
        let mut files = vec![TextFile { name: s.allocator.file_name(), content: Vec::new() }];
        for chunk in text.chunks(piece) {
            perform_text(&mut files, s.feed_chars(chunk), LineEnding::Lf);
        }
        perform_text(&mut files, s.finish(), LineEnding::Lf);
        assert_eq!(files, whole, "pieces of {}", piece);
    }
}
