//! The options of a run, and how they are made from the arguments given on
//! the command line.

use crate::decimal::{parse_u64, parse_u64_spec, parse_usize, parse_usize_spec, DecimalError};
use crate::error::{ArgumentError, ArgumentErrorView, Errors, ErrorsView};
use vstd::prelude::*;

verus! {

/// The text of the string, if there is one.
pub open spec fn text_of(s: Option<String>) -> Option<Seq<char>> {
    match s {
        Some(v) => Some(v@),
        None => None,
    }
}

/// The text of the string slice, if there is one.
pub open spec fn str_text_of(s: Option<&str>) -> Option<Seq<char>> {
    match s {
        Some(v) => Some(v@),
        None => None,
    }
}

fn owned(s: Option<&str>) -> (r: Option<String>)
    ensures
        text_of(r) == str_text_of(s),
{
    match s {
        Some(v) => Some(String::from_str(v)),
        None => None,
    }
}

fn borrowed(s: &Option<String>) -> (r: Option<&str>)
    ensures
        str_text_of(r) == text_of(*s),
{
    match s {
        Some(v) => Some(v.as_str()),
        None => None,
    }
}

/// How a refused number is described: as the standard library shows the
/// error of its own integer parser.
pub open spec fn parse_error_text(e: DecimalError) -> Seq<char> {
    match e {
        DecimalError::Empty => "parse error: ParseIntError { kind: Empty }"@,
        DecimalError::InvalidDigit => "parse error: ParseIntError { kind: InvalidDigit }"@,
        DecimalError::PosOverflow => "parse error: ParseIntError { kind: PosOverflow }"@,
    }
}

/// How a refused number is described.
pub fn parse_error_description(e: DecimalError) -> (r: &'static str)
    ensures
        r@ == parse_error_text(e),
{
    match e {
        DecimalError::Empty => "parse error: ParseIntError { kind: Empty }",
        DecimalError::InvalidDigit => "parse error: ParseIntError { kind: InvalidDigit }",
        DecimalError::PosOverflow => "parse error: ParseIntError { kind: PosOverflow }",
    }
}

/// The number that the argument `name` holds, or the error for it.
pub open spec fn parse_arg_spec(s: Seq<char>, name: Seq<char>) -> Result<u64, ErrorsView> {
    match parse_u64_spec(s) {
        Ok(v) => Ok(v),
        Err(e) => Err(
            ErrorsView::Arg(ArgumentErrorView { name, description: parse_error_text(e) }),
        ),
    }
}

/// The result, with an error as text.
pub open spec fn result_view<T>(r: Result<T, Errors>) -> Result<T, ErrorsView> {
    match r {
        Ok(v) => Ok(v),
        Err(e) => Err(e@),
    }
}

/// What a run limits in each of its files. It is fixed for the run.
#[derive(Clone, Copy, Debug, PartialEq, Eq, Structural)]
pub enum SplitUnit {
    /// Bytes: at most so many in a file.
    Bytes(u64),
    /// Lines: at most so many in a file.
    Lines(u64),
    /// Lines, at most `max_lines` in a file, each cut into records of at
    /// most `max_chars` characters, which then count as lines.
    LinesAndChars { max_lines: u64, max_chars: u64 },
}

impl SplitUnit {
    /// How much a file may take, in bytes or in lines.
    pub open spec fn spec_limit(self) -> u64 {
        match self {
            SplitUnit::Bytes(n) => n,
            SplitUnit::Lines(n) => n,
            SplitUnit::LinesAndChars { max_lines, max_chars } => max_lines,
        }
    }

    /// How much a file may take, in bytes or in lines.
    #[verifier::when_used_as_spec(spec_limit)]
    pub fn limit(self) -> (r: u64)
        ensures
            r == self.spec_limit(),
    {
        match self {
            SplitUnit::Bytes(n) => n,
            SplitUnit::Lines(n) => n,
            SplitUnit::LinesAndChars { max_lines, max_chars } => max_lines,
        }
    }

    /// How many characters a record may take, where lines are cut.
    pub open spec fn spec_max_chars(self) -> Option<u64> {
        match self {
            SplitUnit::LinesAndChars { max_lines, max_chars } => Some(max_chars),
            _ => None,
        }
    }

    /// How many characters a record may take, where lines are cut.
    #[verifier::when_used_as_spec(spec_max_chars)]
    pub fn max_chars(self) -> (r: Option<u64>)
        ensures
            r == self.spec_max_chars(),
    {
        match self {
            SplitUnit::LinesAndChars { max_lines, max_chars } => Some(max_chars),
            _ => None,
        }
    }
}

/// The options of a run that splits bytes.
#[derive(Debug, PartialEq, Eq)]
pub struct BinaryOptions {
    pub max_size: u64,
    pub delimiter: Option<u8>,
    pub input: Option<String>,
    pub output: Option<String>,
    pub prefix: Option<String>,
    pub extra_suffix: Option<String>,
    pub is_numerical_suffix: bool,
    pub buffer_size: Option<usize>,
}

/// The options of a run that splits bytes, with strings as text.
pub struct BinaryOptionsView {
    pub max_size: u64,
    pub delimiter: Option<u8>,
    pub input: Option<Seq<char>>,
    pub output: Option<Seq<char>>,
    pub prefix: Option<Seq<char>>,
    pub extra_suffix: Option<Seq<char>>,
    pub is_numerical_suffix: bool,
    pub buffer_size: Option<usize>,
}

impl View for BinaryOptions {
    type V = BinaryOptionsView;

    open spec fn view(&self) -> BinaryOptionsView {
        BinaryOptionsView {
            max_size: self.max_size,
            delimiter: self.delimiter,
            input: text_of(self.input),
            output: text_of(self.output),
            prefix: text_of(self.prefix),
            extra_suffix: text_of(self.extra_suffix),
            is_numerical_suffix: self.is_numerical_suffix,
            buffer_size: self.buffer_size,
        }
    }
}

/// What the command line gave for a run that splits bytes: each argument as
/// it was written, or `None` where it was left out.
#[derive(Debug, PartialEq, Eq)]
pub struct BinaryArgs {
    pub max_size: Option<String>,
    pub input: Option<String>,
    pub output: Option<String>,
    pub prefix: Option<String>,
    pub extra_suffix: Option<String>,
    pub numerical_suffix: bool,
    pub buffer_size: Option<String>,
}

/// Options with nothing set and a size of zero.
pub open spec fn empty_binary_options() -> BinaryOptionsView {
    BinaryOptionsView {
        max_size: 0,
        delimiter: None,
        input: None,
        output: None,
        prefix: None,
        extra_suffix: None,
        is_numerical_suffix: false,
        buffer_size: None,
    }
}

/// The size of the read buffer that the text asks for, if it is a number
/// that fits.
pub open spec fn buffer_size_of(s: Option<Seq<char>>) -> Option<usize> {
    match s {
        Some(v) => parse_usize_spec(v),
        None => None,
    }
}

/// The options that the arguments ask for, or the error for the size where
/// it is missing or no number.
pub open spec fn binary_options_of(args: BinaryArgs) -> Result<BinaryOptionsView, ErrorsView> {
    match args.max_size {
        None => Err(
            ErrorsView::Arg(
                ArgumentErrorView { name: "max-size"@, description: "max-size is empty"@ },
            ),
        ),
        Some(text) => match parse_arg_spec(text@, "max-size"@) {
            Err(e) => Err(e),
            Ok(max_size) => Ok(
                BinaryOptionsView {
                    max_size,
                    delimiter: None,
                    input: text_of(args.input),
                    output: text_of(args.output),
                    prefix: text_of(args.prefix),
                    extra_suffix: text_of(args.extra_suffix),
                    is_numerical_suffix: args.numerical_suffix,
                    buffer_size: buffer_size_of(text_of(args.buffer_size)),
                },
            ),
        },
    }
}

/// The result, with options and error as text.
pub open spec fn binary_result_view(r: Result<BinaryOptions, Errors>) -> Result<
    BinaryOptionsView,
    ErrorsView,
> {
    match r {
        Ok(options) => Ok(options@),
        Err(e) => Err(e@),
    }
}

impl Default for BinaryOptions {
    fn default() -> (r: BinaryOptions)
        ensures
            r@ == empty_binary_options(),
    {
        BinaryOptions {
            max_size: 0,
            delimiter: None,
            input: None,
            output: None,
            prefix: None,
            extra_suffix: None,
            is_numerical_suffix: false,
            buffer_size: None,
        }
    }
}

impl BinaryOptions {
    /// Options for files of at most `max_size` bytes, with nothing else set.
    pub fn new(max_size: u64) -> (r: BinaryOptions)
        ensures
            r@ == (BinaryOptionsView { max_size, ..empty_binary_options() }),
    {
        let mut ret = BinaryOptions::default();
        ret.max_size = max_size;
        ret
    }

    /// Sets the path of the input; without one the run reads its standard
    /// input.
    pub fn with_input(self, s: Option<&str>) -> (r: BinaryOptions)
        ensures
            r@ == (BinaryOptionsView { input: str_text_of(s), ..self@ }),
    {
        let mut ret = self;
        ret.input = owned(s);
        ret
    }

    /// Sets the directory of the output files; without one they go to the
    /// current directory.
    pub fn with_output(self, s: Option<&str>) -> (r: BinaryOptions)
        ensures
            r@ == (BinaryOptionsView { output: str_text_of(s), ..self@ }),
    {
        let mut ret = self;
        ret.output = owned(s);
        ret
    }

    /// Sets the prefix of the file names.
    pub fn with_prefix(self, s: Option<&str>) -> (r: BinaryOptions)
        ensures
            r@ == (BinaryOptionsView { prefix: str_text_of(s), ..self@ }),
    {
        let mut ret = self;
        ret.prefix = owned(s);
        ret
    }

    /// Sets what stands behind the suffix in the file names.
    pub fn with_extra_suffix(self, s: Option<&str>) -> (r: BinaryOptions)
        ensures
            r@ == (BinaryOptionsView { extra_suffix: str_text_of(s), ..self@ }),
    {
        let mut ret = self;
        ret.extra_suffix = owned(s);
        ret
    }

    /// Sets whether the suffixes are numbers.
    pub fn with_is_numerical_suffix(self, b: bool) -> (r: BinaryOptions)
        ensures
            r@ == (BinaryOptionsView { is_numerical_suffix: b, ..self@ }),
    {
        let mut ret = self;
        ret.is_numerical_suffix = b;
        ret
    }

    /// Sets the size of the read buffer from its text. Text that is no
    /// number, or none that fits, leaves the size unset.
    pub fn with_buffer_size(self, s: Option<&str>) -> (r: BinaryOptions)
        ensures
            r@ == (BinaryOptionsView { buffer_size: buffer_size_of(str_text_of(s)), ..self@ }),
    {
        let mut ret = self;
        ret.buffer_size = match s {
            Some(v) => parse_usize(v),
            None => None,
        };
        ret
    }

    /// What the run limits: the bytes in a file.
    pub fn unit(&self) -> (r: SplitUnit)
        ensures
            r == SplitUnit::Bytes(self.max_size),
    {
        SplitUnit::Bytes(self.max_size)
    }

    /// The options that the arguments ask for.
    pub fn from_arg_matches(matches: &BinaryArgs) -> (r: Result<BinaryOptions, Errors>)
        ensures
            binary_result_view(r) == binary_options_of(*matches),
    {
        let max_size = match &matches.max_size {
            Some(v) => match LineOptions::parse_u64(v.as_str(), "max-size") {
                Ok(v) => v,
                Err(e) => {
                    return Err(e);
                },
            },
            None => {
                return Err(Errors::Arg(ArgumentError::new("max-size", "max-size is empty")));
            },
        };
        Ok(
            BinaryOptions::new(max_size).with_input(borrowed(&matches.input)).with_output(
                borrowed(&matches.output),
            ).with_prefix(borrowed(&matches.prefix)).with_extra_suffix(
                borrowed(&matches.extra_suffix),
            ).with_is_numerical_suffix(matches.numerical_suffix).with_buffer_size(
                borrowed(&matches.buffer_size),
            ),
        )
    }
}

/// The options of a run that splits text by lines.
#[derive(Debug, PartialEq, Eq)]
pub struct LineOptions {
    pub max_lines: u64,
    pub max_chars: Option<u64>,
    pub input: Option<String>,
    pub output: Option<String>,
    pub prefix: Option<String>,
    pub encoding: Option<String>,
    pub is_numerical_suffix: bool,
    pub extra_suffix: Option<String>,
}

/// The options of a run that splits text by lines, with strings as text.
pub struct LineOptionsView {
    pub max_lines: u64,
    pub max_chars: Option<u64>,
    pub input: Option<Seq<char>>,
    pub output: Option<Seq<char>>,
    pub prefix: Option<Seq<char>>,
    pub encoding: Option<Seq<char>>,
    pub is_numerical_suffix: bool,
    pub extra_suffix: Option<Seq<char>>,
}

impl View for LineOptions {
    type V = LineOptionsView;

    open spec fn view(&self) -> LineOptionsView {
        LineOptionsView {
            max_lines: self.max_lines,
            max_chars: self.max_chars,
            input: text_of(self.input),
            output: text_of(self.output),
            prefix: text_of(self.prefix),
            encoding: text_of(self.encoding),
            is_numerical_suffix: self.is_numerical_suffix,
            extra_suffix: text_of(self.extra_suffix),
        }
    }
}

/// What the command line gave for a run that splits text: each argument as
/// it was written, or `None` where it was left out.
#[derive(Debug, PartialEq, Eq)]
pub struct TextArgs {
    pub max_lines: Option<String>,
    pub max_chars: Option<String>,
    pub input: Option<String>,
    pub output: Option<String>,
    pub prefix: Option<String>,
    pub encoding: Option<String>,
    pub extra_suffix: Option<String>,
    pub numerical_suffix: bool,
}

/// Options with nothing set and no lines to a file.
pub open spec fn empty_line_options() -> LineOptionsView {
    LineOptionsView {
        max_lines: 0,
        max_chars: None,
        input: None,
        output: None,
        prefix: None,
        encoding: None,
        is_numerical_suffix: false,
        extra_suffix: None,
    }
}

/// The options that the arguments ask for, or the error for the first
/// number that is missing or no number. The number of lines is reported
/// under the name `max-size`.
pub open spec fn line_options_of(args: TextArgs) -> Result<LineOptionsView, ErrorsView> {
    match args.max_lines {
        None => Err(
            ErrorsView::Arg(
                ArgumentErrorView { name: "max-size"@, description: "max-size is empty"@ },
            ),
        ),
        Some(text) => match parse_arg_spec(text@, "max-size"@) {
            Err(e) => Err(e),
            Ok(max_lines) => {
                let max_chars = match args.max_chars {
                    None => Ok(None),
                    Some(t) => match parse_arg_spec(t@, "max-chars"@) {
                        Ok(v) => Ok(Some(v)),
                        Err(e) => Err(e),
                    },
                };
                match max_chars {
                    Err(e) => Err(e),
                    Ok(max_chars) => Ok(
                        LineOptionsView {
                            max_lines,
                            max_chars,
                            input: text_of(args.input),
                            output: text_of(args.output),
                            prefix: text_of(args.prefix),
                            encoding: text_of(args.encoding),
                            is_numerical_suffix: args.numerical_suffix,
                            extra_suffix: text_of(args.extra_suffix),
                        },
                    ),
                }
            },
        },
    }
}

/// The result, with options and error as text.
pub open spec fn line_result_view(r: Result<LineOptions, Errors>) -> Result<
    LineOptionsView,
    ErrorsView,
> {
    match r {
        Ok(options) => Ok(options@),
        Err(e) => Err(e@),
    }
}

/// What a run on lines limits: the lines in a file, and the characters in a
/// record where they are limited.
pub open spec fn line_unit(max_lines: u64, max_chars: Option<u64>) -> SplitUnit {
    match max_chars {
        Some(max_chars) => SplitUnit::LinesAndChars { max_lines, max_chars },
        None => SplitUnit::Lines(max_lines),
    }
}

impl Default for LineOptions {
    fn default() -> (r: LineOptions)
        ensures
            r@ == empty_line_options(),
    {
        LineOptions {
            max_lines: 0,
            max_chars: None,
            input: None,
            output: None,
            prefix: None,
            encoding: None,
            is_numerical_suffix: false,
            extra_suffix: None,
        }
    }
}

impl LineOptions {
    /// Options for files of at most `max_lines` lines, with nothing else set.
    pub fn new(max_lines: u64) -> (r: LineOptions)
        ensures
            r@ == (LineOptionsView { max_lines, ..empty_line_options() }),
    {
        let mut ret = LineOptions::default();
        ret.max_lines = max_lines;
        ret
    }

    /// Sets the number of characters behind which lines are cut.
    pub fn with_max_chars(self, max_chars: Option<u64>) -> (r: LineOptions)
        ensures
            r@ == (LineOptionsView { max_chars, ..self@ }),
    {
        let mut ret = self;
        ret.max_chars = max_chars;
        ret
    }

    /// Sets the prefix of the file names.
    pub fn with_prefix(self, prefix: Option<&str>) -> (r: LineOptions)
        ensures
            r@ == (LineOptionsView { prefix: str_text_of(prefix), ..self@ }),
    {
        let mut ret = self;
        ret.prefix = owned(prefix);
        ret
    }

    /// Sets the path of the input; without one the run reads its standard
    /// input.
    pub fn with_input(self, s: Option<&str>) -> (r: LineOptions)
        ensures
            r@ == (LineOptionsView { input: str_text_of(s), ..self@ }),
    {
        let mut ret = self;
        ret.input = owned(s);
        ret
    }

    /// Sets the directory of the output files; without one they go to the
    /// current directory.
    pub fn with_output(self, s: Option<&str>) -> (r: LineOptions)
        ensures
            r@ == (LineOptionsView { output: str_text_of(s), ..self@ }),
    {
        let mut ret = self;
        ret.output = owned(s);
        ret
    }

    /// Sets the label of the encoding of the text; without one it is UTF-8.
    pub fn with_encoding(self, s: Option<&str>) -> (r: LineOptions)
        ensures
            r@ == (LineOptionsView { encoding: str_text_of(s), ..self@ }),
    {
        let mut ret = self;
        ret.encoding = owned(s);
        ret
    }

    /// Sets what stands behind the suffix in the file names.
    pub fn with_extra_suffix(self, s: Option<&str>) -> (r: LineOptions)
        ensures
            r@ == (LineOptionsView { extra_suffix: str_text_of(s), ..self@ }),
    {
        let mut ret = self;
        ret.extra_suffix = owned(s);
        ret
    }

    /// Sets whether the suffixes are numbers.
    pub fn with_is_numerical_suffix(self, b: bool) -> (r: LineOptions)
        ensures
            r@ == (LineOptionsView { is_numerical_suffix: b, ..self@ }),
    {
        let mut ret = self;
        ret.is_numerical_suffix = b;
        ret
    }

    /// What the run limits: the lines in a file, and the characters in a
    /// record where the options limit them.
    pub fn unit(&self) -> (r: SplitUnit)
        ensures
            r == line_unit(self.max_lines, self.max_chars),
    {
        match self.max_chars {
            Some(max_chars) => SplitUnit::LinesAndChars { max_lines: self.max_lines, max_chars },
            None => SplitUnit::Lines(self.max_lines),
        }
    }

    /// Reads the number that the argument `name` holds.
    pub fn parse_u64(s: &str, name: &str) -> (r: Result<u64, Errors>)
        ensures
            result_view(r) == parse_arg_spec(s@, name@),
    {
        match parse_u64(s) {
            Ok(v) => Ok(v),
            Err(e) => Err(Errors::Arg(ArgumentError::new(name, parse_error_description(e)))),
        }
    }

    /// The options that the arguments ask for.
    pub fn from_arg_matches(matches: &TextArgs) -> (r: Result<LineOptions, Errors>)
        ensures
            line_result_view(r) == line_options_of(*matches),
    {
        let max_size = match &matches.max_lines {
            Some(v) => match LineOptions::parse_u64(v.as_str(), "max-size") {
                Ok(v) => v,
                Err(e) => {
                    return Err(e);
                },
            },
            None => {
                return Err(Errors::Arg(ArgumentError::new("max-size", "max-size is empty")));
            },
        };
        let max_chars = match &matches.max_chars {
            Some(v) => match LineOptions::parse_u64(v.as_str(), "max-chars") {
                Ok(v) => Some(v),
                Err(e) => {
                    return Err(e);
                },
            },
            None => None,
        };
        Ok(
            LineOptions::new(max_size).with_prefix(borrowed(&matches.prefix)).with_max_chars(
                max_chars,
            ).with_input(borrowed(&matches.input)).with_output(
                borrowed(&matches.output),
            ).with_encoding(borrowed(&matches.encoding)).with_extra_suffix(
                borrowed(&matches.extra_suffix),
            ).with_is_numerical_suffix(matches.numerical_suffix),
        )
    }
}

} // verus!
