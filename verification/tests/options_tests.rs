use bsp::error::{ArgumentError, Errors};
use bsp::options::{BinaryArgs, BinaryOptions, LineOptions, SplitUnit, TextArgs};

fn some(s: &str) -> Option<String> {
    Some(s.to_string())
}

fn arg_error(name: &str, description: &str) -> Errors {
    Errors::Arg(ArgumentError::new(name, description))
}

#[test]
fn argument_error_new_and_text() {
    let e = ArgumentError::new("max-size", "max-size is empty");
    assert_eq!(e.name, "max-size");
    assert_eq!(e.description, "max-size is empty");
    assert_eq!(e.to_text(), "max-size max-size is empty");
}

#[test]
fn io_error_message() {
    assert_eq!(
        Errors::from_io("NotFound", "opening input file"),
        Errors::Io("opening input file: NotFound".to_string())
    );
}

#[test]
fn binary_options_new_is_otherwise_empty() {
    let o = BinaryOptions::new(7);
    assert_eq!(
        o,
        BinaryOptions {
            max_size: 7,
            delimiter: None,
            input: None,
            output: None,
            prefix: None,
            extra_suffix: None,
            is_numerical_suffix: false,
            buffer_size: None,
        }
    );
    assert_eq!(BinaryOptions::default().max_size, 0);
}

#[test]
fn binary_options_builders_set_one_field_each() {
    let o = BinaryOptions::new(7)
        .with_input(Some("in"))
        .with_output(Some("out"))
        .with_prefix(Some("p"))
        .with_extra_suffix(Some(".bin"))
        .with_is_numerical_suffix(true)
        .with_buffer_size(Some("4096"));
    assert_eq!(
        o,
        BinaryOptions {
            max_size: 7,
            delimiter: None,
            input: some("in"),
            output: some("out"),
            prefix: some("p"),
            extra_suffix: some(".bin"),
            is_numerical_suffix: true,
            buffer_size: Some(4096),
        }
    );
    let cleared = o.with_input(None).with_prefix(None);
    assert_eq!(cleared.input, None);
    assert_eq!(cleared.prefix, None);
    assert_eq!(cleared.output, some("out"));
}

#[test]
fn buffer_size_that_is_no_number_is_unset() {
    assert_eq!(BinaryOptions::new(1).with_buffer_size(Some("12k")).buffer_size, None);
    assert_eq!(BinaryOptions::new(1).with_buffer_size(Some("")).buffer_size, None);
    assert_eq!(BinaryOptions::new(1).with_buffer_size(Some("-1")).buffer_size, None);
    assert_eq!(BinaryOptions::new(1).with_buffer_size(None).buffer_size, None);
    assert_eq!(BinaryOptions::new(1).with_buffer_size(Some("0")).buffer_size, Some(0));
    assert_eq!(
        BinaryOptions::new(1).with_buffer_size(Some("99999999999999999999999")).buffer_size,
        None
    );
}

#[test]
fn line_options_new_and_builders() {
    assert_eq!(
        LineOptions::new(3),
        LineOptions {
            max_lines: 3,
            max_chars: None,
            input: None,
            output: None,
            prefix: None,
            encoding: None,
            is_numerical_suffix: false,
            extra_suffix: None,
        }
    );
    assert_eq!(LineOptions::default().max_lines, 0);
    let o = LineOptions::new(3)
        .with_max_chars(Some(80))
        .with_prefix(Some("p"))
        .with_input(Some("in"))
        .with_output(Some("out"))
        .with_encoding(Some("shift_jis"))
        .with_extra_suffix(Some(".txt"))
        .with_is_numerical_suffix(true);
    assert_eq!(
        o,
        LineOptions {
            max_lines: 3,
            max_chars: Some(80),
            input: some("in"),
            output: some("out"),
            prefix: some("p"),
            encoding: some("shift_jis"),
            is_numerical_suffix: true,
            extra_suffix: some(".txt"),
        }
    );
}

#[test]
fn parse_u64_argument() {
    assert_eq!(LineOptions::parse_u64("12", "max-chars"), Ok(12));
    assert_eq!(
        LineOptions::parse_u64("x", "max-chars"),
        Err(arg_error("max-chars", "parse error: ParseIntError { kind: InvalidDigit }"))
    );
    assert_eq!(
        LineOptions::parse_u64("", "n"),
        Err(arg_error("n", "parse error: ParseIntError { kind: Empty }"))
    );
    assert_eq!(
        LineOptions::parse_u64("18446744073709551616", "n"),
        Err(arg_error("n", "parse error: ParseIntError { kind: PosOverflow }"))
    );
}

fn binary_args(max_size: Option<&str>) -> BinaryArgs {
    BinaryArgs {
        max_size: max_size.map(|s| s.to_string()),
        input: some("in"),
        output: None,
        prefix: some("p"),
        extra_suffix: None,
        numerical_suffix: true,
        buffer_size: some("16"),
    }
}

#[test]
fn binary_options_from_arguments() {
    assert_eq!(
        BinaryOptions::from_arg_matches(&binary_args(Some("100"))),
        Ok(BinaryOptions {
            max_size: 100,
            delimiter: None,
            input: some("in"),
            output: None,
            prefix: some("p"),
            extra_suffix: None,
            is_numerical_suffix: true,
            buffer_size: Some(16),
        })
    );
}

#[test]
fn binary_options_from_arguments_errors() {
    assert_eq!(
        BinaryOptions::from_arg_matches(&binary_args(None)),
        Err(arg_error("max-size", "max-size is empty"))
    );
    assert_eq!(
        BinaryOptions::from_arg_matches(&binary_args(Some("1k"))),
        Err(arg_error("max-size", "parse error: ParseIntError { kind: InvalidDigit }"))
    );
}

fn text_args(max_lines: Option<&str>, max_chars: Option<&str>) -> TextArgs {
    TextArgs {
        max_lines: max_lines.map(|s| s.to_string()),
        max_chars: max_chars.map(|s| s.to_string()),
        input: None,
        output: some("out"),
        prefix: None,
        encoding: some("utf-8"),
        extra_suffix: some(".txt"),
        numerical_suffix: false,
    }
}

#[test]
fn line_options_from_arguments() {
    assert_eq!(
        LineOptions::from_arg_matches(&text_args(Some("10"), Some("72"))),
        Ok(LineOptions {
            max_lines: 10,
            max_chars: Some(72),
            input: None,
            output: some("out"),
            prefix: None,
            encoding: some("utf-8"),
            is_numerical_suffix: false,
            extra_suffix: some(".txt"),
        })
    );
    assert_eq!(
        LineOptions::from_arg_matches(&text_args(Some("10"), None)).unwrap().max_chars,
        None
    );
}

#[test]
fn line_options_from_arguments_errors() {
    assert_eq!(
        LineOptions::from_arg_matches(&text_args(None, Some("72"))),
        Err(arg_error("max-size", "max-size is empty"))
    );
    assert_eq!(
        LineOptions::from_arg_matches(&text_args(Some("ten"), Some("72"))),
        Err(arg_error("max-size", "parse error: ParseIntError { kind: InvalidDigit }"))
    );
    assert_eq!(
        LineOptions::from_arg_matches(&text_args(Some("10"), Some(""))),
        Err(arg_error("max-chars", "parse error: ParseIntError { kind: Empty }"))
    );
    assert_eq!(
        LineOptions::from_arg_matches(&text_args(Some("x"), Some("y"))),
        Err(arg_error("max-size", "parse error: ParseIntError { kind: InvalidDigit }"))
    );
}

#[test]
fn split_units() {
    assert_eq!(BinaryOptions::new(5).unit(), SplitUnit::Bytes(5));
    assert_eq!(LineOptions::new(7).unit(), SplitUnit::Lines(7));
    assert_eq!(
        LineOptions::new(7).with_max_chars(Some(80)).unit(),
        SplitUnit::LinesAndChars { max_lines: 7, max_chars: 80 }
    );
    assert_eq!(SplitUnit::Bytes(5).limit(), 5);
    assert_eq!(SplitUnit::Lines(7).limit(), 7);
    assert_eq!(SplitUnit::LinesAndChars { max_lines: 7, max_chars: 80 }.limit(), 7);
    assert_eq!(SplitUnit::Bytes(5).max_chars(), None);
    assert_eq!(SplitUnit::Lines(7).max_chars(), None);
    assert_eq!(SplitUnit::LinesAndChars { max_lines: 7, max_chars: 80 }.max_chars(), Some(80));
}
