use bsp::segment::{ending_length, is_line_ending, CarryState, LineSegmenter, PendingLine};

fn chars(s: &str) -> Vec<char> {
    s.chars().collect()
}

fn line(s: &str, terminated: bool) -> PendingLine {
    PendingLine { text: chars(s), terminated }
}

fn segment(pieces: &[&str]) -> Vec<PendingLine> {
    let mut seg = LineSegmenter::new();
    let mut out = Vec::new();
    for p in pieces {
        out.extend(seg.feed(&chars(p)));
    }
    out.extend(seg.finish());
    out
}

#[test]
fn line_endings() {
    assert!(is_line_ending("\r"));
    assert!(is_line_ending("\n"));
    assert!(is_line_ending("\r\n"));
    assert!(!is_line_ending(""));
    assert!(!is_line_ending("\n\r"));
    assert!(!is_line_ending("a\n"));
    assert!(!is_line_ending("\r\n\n"));
    assert!(!is_line_ending("a"));
}

#[test]
fn new_segmenter_is_empty() {
    let seg = LineSegmenter::new();
    assert!(seg.buffer.is_empty());
    assert_eq!(seg.carry, CarryState { pending_cr: false });
}

#[test]
fn lines_keep_their_endings() {
    assert_eq!(
        segment(&["a\nbb\r\nccc\rd"]),
        vec![line("a\n", true), line("bb\r\n", true), line("ccc\r", true), line("d", false)]
    );
}

#[test]
fn empty_lines_and_repeated_carriage_returns() {
    assert_eq!(
        segment(&["\n\n\r\r\r\n\n"]),
        vec![
            line("\n", true),
            line("\n", true),
            line("\r", true),
            line("\r", true),
            line("\r\n", true),
            line("\n", true)
        ]
    );
    assert_eq!(segment(&["a\r\rb"]), vec![line("a\r", true), line("\r", true), line("b", false)]);
}

#[test]
fn no_input_no_lines() {
    assert_eq!(segment(&[]), Vec::<PendingLine>::new());
    assert_eq!(segment(&["", ""]), Vec::<PendingLine>::new());
}

#[test]
fn carriage_return_at_the_end_of_the_stream_ends_a_line() {
    assert_eq!(segment(&["abc\r"]), vec![line("abc\r", true)]);
    assert_eq!(segment(&["abc"]), vec![line("abc", false)]);
}

#[test]
fn crlf_split_between_pieces_is_one_line() {
    let mut seg = LineSegmenter::new();
    let first = seg.feed(&chars("ab\r"));
    assert_eq!(first, Vec::<PendingLine>::new());
    assert_eq!(seg.carry, CarryState { pending_cr: true });
    assert_eq!(seg.buffer, chars("ab"));
    let second = seg.feed(&chars("\ncd\n"));
    assert_eq!(second, vec![line("ab\r\n", true), line("cd\n", true)]);
    assert_eq!(seg.carry, CarryState { pending_cr: false });
    assert_eq!(seg.finish(), None);
}

#[test]
fn carriage_return_then_other_character_in_next_piece() {
    let mut seg = LineSegmenter::new();
    assert_eq!(seg.feed(&chars("ab\r")), Vec::<PendingLine>::new());
    assert_eq!(seg.feed(&chars("c")), vec![line("ab\r", true)]);
    assert_eq!(seg.finish(), Some(line("c", false)));
}

#[test]
fn push_char_one_by_one() {
    let mut seg = LineSegmenter::new();
    assert_eq!(seg.push_char('x'), None);
    assert_eq!(seg.push_char('\r'), None);
    assert_eq!(seg.push_char('\r'), Some(line("x\r", true)));
    assert_eq!(seg.push_char('\n'), Some(line("\r\n", true)));
    assert_eq!(seg.push_char('\n'), Some(line("\n", true)));
    assert_eq!(seg.finish(), None);
}

#[test]
fn where_pieces_end_does_not_matter() {
    let text = "one\r\ntwo\rthree\n\r\n\rfour\r";
    let whole = segment(&[text]);
    let all: Vec<char> = chars(text);
    for cut in 0..=all.len() {
        let a: String = all[..cut].iter().collect();
        let b: String = all[cut..].iter().collect();
        assert_eq!(segment(&[&a, &b]), whole, "cut at {}", cut);
    }
    let singles: Vec<String> = all.iter().map(|c| c.to_string()).collect();
    let refs: Vec<&str> = singles.iter().map(|s| s.as_str()).collect();
    assert_eq!(segment(&refs), whole);
}

#[test]
fn lines_laid_end_to_end_are_the_text() {
    let text = "a\r\n\nbc\r\rd\ne";
    let joined: String = segment(&[text]).iter().flat_map(|l| l.text.iter()).collect();
    assert_eq!(joined, text);
}

#[test]
fn ending_lengths() {
    assert_eq!(ending_length(&chars("")), 0);
    assert_eq!(ending_length(&chars("abc")), 0);
    assert_eq!(ending_length(&chars("abc\n")), 1);
    assert_eq!(ending_length(&chars("abc\r")), 1);
    assert_eq!(ending_length(&chars("abc\r\n")), 2);
    assert_eq!(ending_length(&chars("abc\n\r")), 1);
    assert_eq!(ending_length(&chars("\r\n")), 2);
    assert_eq!(ending_length(&chars("\n")), 1);
    for s in ["", "a", "\r", "\n", "\r\n", "\n\r", "a\n", "\r\n\n"] {
        let c = chars(s);
        assert_eq!(is_line_ending(s), !c.is_empty() && ending_length(&c) == c.len());
    }
}
