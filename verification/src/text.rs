//! Splitting a stream of encoded text into files of at most a given number
//! of lines: the bytes are decoded, the characters are split by lines, and
//! what is to be written is encoded again.

use crate::allocator::{file_name_at, first_file_name, Naming};
use crate::binary::{extra_suffix_text, prefix_text};
use crate::codec::{
    after_decoding, decode_count, decoded_by, encodes_every_char, encoding_chosen, fresh_codec,
    Codec, CodecModel,
};
use crate::error::{ArgumentError, ArgumentErrorView, Errors, ErrorsView};
use crate::lines::{
    all_lines, holds_lines, lemma_first_file, lemma_line_split, lemma_text_ops_concat,
    line_naming, split_text_files, text_ops_view, LineEnding, LineSplitter, Record, TextOp,
};
use crate::rolling::{file_count, group, joined};
use crate::options::{text_of, LineOptions};
use crate::output::{
    apply_op, apply_ops, contents_of, file_ops_view, files_view, lemma_apply_concat,
    lemma_apply_one, lemma_apply_push, perform, FileModel, FileOp, OpModel, OutputFile,
};
use vstd::prelude::*;
use vstd::slice::slice_to_vec;
use vstd::utf8::encode_utf8;

verus! {

/// The error for a label that stands for no encoding.
pub open spec fn invalid_encoding(label: Seq<char>) -> ErrorsView {
    ErrorsView::Arg(
        ArgumentErrorView { name: "encoding"@, description: "invalid encoding name:"@ + label },
    )
}

/// The error for a run that may put no line into a file.
pub open spec fn zero_limit() -> ErrorsView {
    ErrorsView::Arg(
        ArgumentErrorView { name: "max-lines"@, description: "no file can take a line"@ },
    )
}

/// The error for a run that may put no line into a file.
pub fn zero_limit_error() -> (r: Errors)
    ensures
        r@ == zero_limit(),
{
    Errors::Arg(ArgumentError::new("max-lines", "no file can take a line"))
}

/// Whether the options name no encoding, or one that is known.
pub open spec fn encoding_accepted(encoding: Option<Seq<char>>) -> bool {
    encoding_chosen(encoding).is_some()
}

/// The codec that the search for `label` found, or the error for the label
/// where it found none.
pub fn codec_or_error(found: Option<Codec>, label: &str) -> (r: Result<Codec, Errors>)
    ensures
        r.is_ok() == found.is_some(),
        r matches Ok(codec) ==> found matches Some(f) && codec@ == f@ && codec.wf() == f.wf(),
        r matches Err(e) ==> e@ == invalid_encoding(label@),
{
    match found {
        Some(codec) => Ok(codec),
        None => {
            let mut description = String::from_str("invalid encoding name:");
            description.append(label);
            Err(Errors::Arg(ArgumentError::new("encoding", description.as_str())))
        },
    }
}

/// What `codec_for` answers: a fresh codec for the encoding that the label
/// stands for, or for UTF-8 where there is no label, or the error for a
/// label that stands for no encoding.
pub open spec fn is_codec_for(r: Result<Codec, Errors>, encoding: Option<String>) -> bool {
    match r {
        Ok(codec) => encoding_accepted(text_of(encoding)) && codec.wf() && codec@
            == starting_codec(text_of(encoding)) && (encoding.is_none() ==> encodes_every_char(
            codec@.encoding,
        )),
        Err(e) => encoding matches Some(label) && !encoding_accepted(Some(label@)) && e@
            == invalid_encoding(label@),
    }
}

/// The codec for the encoding that the options name, or for UTF-8 where
/// they name none; an encoding that is not known is an error.
pub fn codec_for(encoding: &Option<String>) -> (r: Result<Codec, Errors>)
    ensures
        is_codec_for(r, *encoding),
{
    match encoding {
        Some(label) => codec_or_error(Codec::for_label(label.as_str()), label.as_str()),
        None => Ok(Codec::utf_8()),
    }
}

/// The operations on files of bytes for one operation on files of text,
/// where `bytes` is what the record's text was encoded as. A line ending
/// that the text did not have is written as it is, in a write of its own.
pub open spec fn encoded_op(op: TextOp, bytes: Seq<u8>, ending: Seq<u8>) -> Seq<OpModel<u8>> {
    match op {
        TextOp::Open(name) => seq![OpModel::Open(name@)],
        TextOp::Write(record) => if record.synthetic_ending {
            seq![OpModel::Append(bytes), OpModel::Append(ending)]
        } else {
            seq![OpModel::Append(bytes)]
        },
    }
}

/// The operations on files of bytes for the operations on files of text,
/// where `bytes[i]` is what the text of operation `i` was encoded as.
pub open spec fn encoded_ops(ops: Seq<TextOp>, bytes: Seq<Seq<u8>>, ending: Seq<u8>) -> Seq<
    OpModel<u8>,
>
    decreases ops.len(),
{
    if ops.len() == 0 {
        Seq::empty()
    } else {
        encoded_ops(ops.drop_last(), bytes.drop_last(), ending) + encoded_op(
            ops.last(),
            bytes.last(),
            ending,
        )
    }
}

/// Puts the operations for one operation on files of text behind `out`.
pub fn push_encoded(out: &mut Vec<FileOp>, op: TextOp, bytes: Vec<u8>, line_ending: LineEnding)
    ensures
        file_ops_view(final(out)@) == file_ops_view(old(out)@) + encoded_op(
            op,
            bytes@,
            line_ending.bytes(),
        ),
{
    let ghost before = file_ops_view(out@);
    match op {
        TextOp::Open(name) => {
            out.push(FileOp::Open(name));
            assert(file_ops_view(out@) =~= before + seq![OpModel::Open(name@)]);
        },
        TextOp::Write(record) => {
            out.push(FileOp::Write(bytes));
            if record.synthetic_ending {
                out.push(FileOp::Write(line_ending.to_bytes()));
                assert(file_ops_view(out@) =~= before + seq![
                    OpModel::Append(bytes@),
                    OpModel::Append(line_ending.bytes()),
                ]);
            } else {
                assert(file_ops_view(out@) =~= before + seq![OpModel::<u8>::Append(bytes@)]);
            }
        },
    }
}

/// The text that an operation hands to the encoder, as UTF-8.
pub open spec fn op_utf8(op: TextOp) -> Seq<u8> {
    match op {
        TextOp::Write(record) => encode_utf8(record.text@),
        TextOp::Open(_) => Seq::empty(),
    }
}

/// All the text that the operations hand to the encoder, as UTF-8.
pub open spec fn read_by(ops: Seq<TextOp>) -> Seq<u8>
    decreases ops.len(),
{
    if ops.len() == 0 {
        Seq::empty()
    } else {
        read_by(ops.drop_last()) + op_utf8(ops.last())
    }
}

/// The codec once its encoder has read the text of the operations.
pub open spec fn codec_at(codec: CodecModel, ops: Seq<TextOp>) -> CodecModel {
    CodecModel { encoded: codec.encoded + read_by(ops), ..codec }
}

/// `encoded[i]` is the text of operation `i` as UTF-8.
pub open spec fn is_utf8_of(ops: Seq<TextOp>, encoded: Seq<Seq<u8>>) -> bool {
    forall|i: int| 0 <= i < ops.len() ==> #[trigger] encoded[i] == op_utf8(ops[i])
}

/// The files of text as files of bytes, each holding its text as UTF-8.
pub open spec fn utf8_files(files: Seq<FileModel<char>>) -> Seq<FileModel<u8>> {
    Seq::new(
        files.len(),
        |k: int| FileModel { name: files[k].name, content: encode_utf8(files[k].content) },
    )
}

/// A text as UTF-8 is its first part as UTF-8 and behind it the rest as
/// UTF-8.
pub proof fn lemma_utf8_concat(a: Seq<char>, b: Seq<char>)
    ensures
        encode_utf8(a + b) == encode_utf8(a) + encode_utf8(b),
    decreases a.len(),
{
    if a.len() == 0 {
        assert(a + b =~= b);
        assert(encode_utf8(a) + encode_utf8(b) =~= encode_utf8(b));
    } else {
        lemma_utf8_concat(a.drop_first(), b);
        assert((a + b).drop_first() =~= a.drop_first() + b);
        assert((a + b)[0] == a[0]);
        let head = vstd::utf8::encode_scalar(a[0] as u32);
        assert(head + (encode_utf8(a.drop_first()) + encode_utf8(b)) =~= head + encode_utf8(
            a.drop_first(),
        ) + encode_utf8(b));
    }
}

/// A line ending as bytes is the line ending as UTF-8.
pub proof fn lemma_ending_utf8(ending: LineEnding)
    ensures
        encode_utf8(ending.text()) == ending.bytes(),
{
    let text = ending.text();
    vstd::utf8::is_ascii_chars_encode_utf8(text);
    assert(encode_utf8(text) =~= ending.bytes());
}

/// Writing each text as UTF-8 gives the files of text as UTF-8: the
/// operations on files of bytes, with the UTF-8 of each text in its place,
/// do to files that hold text as UTF-8 what the operations on files of text
/// do to the text.
pub proof fn lemma_utf8_ops(
    files: Seq<FileModel<char>>,
    ops: Seq<TextOp>,
    encoded: Seq<Seq<u8>>,
    ending: LineEnding,
)
    requires
        encoded.len() == ops.len(),
        is_utf8_of(ops, encoded),
    ensures
        apply_ops(utf8_files(files), encoded_ops(ops, encoded, ending.bytes())) == utf8_files(
            apply_ops(files, text_ops_view(ops, ending.text())),
        ),
    decreases ops.len(),
{
    let view = text_ops_view(ops, ending.text());
    if ops.len() > 0 {
        let front = ops.drop_last();
        let front_bytes = encoded.drop_last();
        assert(is_utf8_of(front, front_bytes)) by {
            assert forall|i: int| 0 <= i < front.len() implies #[trigger] front_bytes[i]
                == op_utf8(front[i]) by {
                assert(encoded[i] == op_utf8(ops[i]));
            }
        }
        lemma_utf8_ops(files, front, front_bytes, ending);
        let t = apply_ops(files, text_ops_view(front, ending.text()));
        let b = utf8_files(t);
        assert(view.drop_last() =~= text_ops_view(front, ending.text()));
        let step = encoded_op(ops.last(), encoded.last(), ending.bytes());
        lemma_apply_concat(
            utf8_files(files),
            encoded_ops(front, front_bytes, ending.bytes()),
            step,
        );
        assert(encoded.last() == op_utf8(ops.last()));
        lemma_ending_utf8(ending);
        match ops.last() {
            TextOp::Open(name) => {
                lemma_apply_one(b, OpModel::<u8>::Open(name@));
                assert(apply_op(b, OpModel::<u8>::Open(name@)) =~= utf8_files(
                    apply_op(t, view.last()),
                ));
            },
            TextOp::Write(record) => {
                let bytes = encode_utf8(record.text@);
                if t.len() > 0 {
                    lemma_utf8_concat(t.last().content, record.text@);
                    lemma_utf8_concat(t.last().content + record.text@, ending.text());
                    assert(t.last().content + (record.text@ + ending.text()) =~= t.last().content
                        + record.text@ + ending.text());
                }
                if record.synthetic_ending {
                    let first = seq![OpModel::<u8>::Append(bytes)];
                    lemma_apply_one(b, OpModel::<u8>::Append(bytes));
                    assert(step =~= first.push(OpModel::<u8>::Append(ending.bytes())));
                    lemma_apply_push(b, first, OpModel::<u8>::Append(ending.bytes()));
                    assert(apply_ops(b, step) =~= utf8_files(apply_op(t, view.last())));
                } else {
                    lemma_apply_one(b, OpModel::<u8>::Append(bytes));
                    assert(apply_ops(b, step) =~= utf8_files(apply_op(t, view.last())));
                }
            },
        }
    } else {
        assert(view =~= Seq::<OpModel<char>>::empty());
    }
}

/// Encodes what the operations write.
fn encode_ops(codec: &mut Codec, text_ops: Vec<TextOp>, line_ending: LineEnding) -> (r: (
    Vec<FileOp>,
    Ghost<Seq<Seq<u8>>>,
))
    requires
        old(codec).wf(),
    ensures
        final(codec).wf(),
        r.1@.len() == text_ops@.len(),
        file_ops_view(r.0@) == encoded_ops(text_ops@, r.1@, line_ending.bytes()),
        final(codec)@.label == old(codec)@.label,
        final(codec)@.encoding == old(codec)@.encoding,
        final(codec)@.decoded == old(codec)@.decoded,
        encodes_every_char(old(codec)@.encoding) ==> is_utf8_of(text_ops@, r.1@) && final(codec)@
            == codec_at(old(codec)@, text_ops@),
{
    let mut text_ops = text_ops;
    let ghost all = text_ops@;
    let ghost ending = line_ending.bytes();
    let ghost start = codec@;
    let mut out: Vec<FileOp> = Vec::new();
    let ghost mut encoded: Seq<Seq<u8>> = Seq::empty();
    let n = text_ops.len();
    let mut i: usize = 0;
    proof {
        assert(all.take(0) =~= Seq::<TextOp>::empty());
        assert(file_ops_view(out@) =~= Seq::<OpModel<u8>>::empty());
        assert(start.encoded + read_by(all.take(0)) =~= start.encoded);
    }
    while i < n
        invariant
            i <= n,
            n == text_ops.len(),
            n == all.len(),
            ending == line_ending.bytes(),
            start == old(codec)@,
            codec.wf(),
            codec@.label == start.label,
            codec@.encoding == start.encoding,
            codec@.decoded == start.decoded,
            forall|k: int| i <= k < n ==> #[trigger] text_ops@[k] == all[k],
            encoded.len() == i,
            file_ops_view(out@) == encoded_ops(all.take(i as int), encoded, ending),
            encodes_every_char(start.encoding) ==> is_utf8_of(all.take(i as int), encoded)
                && codec@ == codec_at(start, all.take(i as int)),
        decreases n - i,
    {
        let mut op = TextOp::Write(Record { text: Vec::new(), synthetic_ending: false });
        std::mem::swap(&mut text_ops[i], &mut op);
        let ghost before = codec@;
        let ghost done = all.take(i as int);
        let bytes = match &op {
            TextOp::Open(_) => Vec::new(),
            TextOp::Write(record) => codec.encode(&record.text),
        };
        proof {
            let next = all.take(i + 1);
            assert(next.drop_last() =~= done);
            assert(next.last() == op);
            assert(encoded.push(bytes@).drop_last() =~= encoded);
            if encodes_every_char(start.encoding) {
                assert(before == codec_at(start, done));
                assert(bytes@ == op_utf8(op));
                assert(before.encoded + op_utf8(op) =~= start.encoded + (read_by(done) + op_utf8(
                    op,
                )));
                assert(before.encoded + Seq::<u8>::empty() =~= before.encoded);
                assert(codec@ == codec_at(start, next));
                let grown = encoded.push(bytes@);
                assert forall|k: int| 0 <= k < next.len() implies #[trigger] grown[k] == op_utf8(
                    next[k],
                ) by {
                    if k < i {
                        assert(encoded[k] == op_utf8(done[k]));
                    }
                }
            }
            encoded = encoded.push(bytes@);
        }
        push_encoded(&mut out, op, bytes, line_ending);
        i += 1;
    }
    assert(all.take(n as int) =~= all);
    (out, Ghost(encoded))
}

/// A run that splits encoded text. It is fed the stream of bytes piece by
/// piece, and answers each piece with the operations that bring the output
/// files up to date.
pub struct TextSplitter {
    /// The run on the decoded text.
    pub lines: LineSplitter,
    /// The bytes at the end of the last piece that the decoder did not
    /// read: they go in front of the next piece.
    pub remainder: Vec<u8>,
    /// The decoder and the encoder of the stream.
    pub codec: Codec,
}

/// The codec that a run with these options starts with: the fresh codec
/// for the encoding that they name, or for UTF-8 where they name none.
pub open spec fn starting_codec(encoding: Option<Seq<char>>) -> CodecModel {
    fresh_codec(encoding, encoding_chosen(encoding).unwrap())
}

impl TextSplitter {
    /// The run on the decoded text and the codec are well formed.
    pub open spec fn wf(&self) -> bool {
        self.lines.wf() && self.codec.wf()
    }

    /// The run is the one that the options ask for, with the codec for
    /// their encoding, and has read nothing.
    pub open spec fn starts(&self, opts: &LineOptions, line_ending: LineEnding) -> bool {
        &&& self.codec@ == starting_codec(text_of(opts.encoding))
        &&& self.lines.text@ == Seq::<char>::empty()
        &&& self.remainder@ == Seq::<u8>::empty()
        &&& self.lines.allocator.limit == opts.max_lines
        &&& self.lines.allocator.rolled@ == 0
        &&& self.lines.allocator.naming() == line_naming(opts@)
        &&& self.lines.max_chars == opts.max_chars
        &&& self.lines.line_ending == line_ending
    }

    /// What `new` answers: the error for an encoding that is not known;
    /// else the error for a run that may put no line into a file; else the
    /// run.
    pub open spec fn is_new(
        r: Result<TextSplitter, Errors>,
        opts: &LineOptions,
        line_ending: LineEnding,
    ) -> bool {
        match r {
            Ok(splitter) => encoding_accepted(text_of(opts.encoding)) && opts.max_lines > 0
                && splitter.wf() && splitter.starts(opts, line_ending),
            Err(e) => match opts.encoding {
                Some(label) => if encoding_accepted(Some(label@)) {
                    opts.max_lines == 0 && e@ == zero_limit()
                } else {
                    e@ == invalid_encoding(label@)
                },
                None => opts.max_lines == 0 && e@ == zero_limit(),
            },
        }
    }

    /// The run that the options ask for. An encoding that is not known is
    /// an error, whatever else the options hold; so is, behind it, a run
    /// that may put no line into a file. Without an encoding in the
    /// options, the text is UTF-8.
    pub fn new(opts: &LineOptions, line_ending: LineEnding) -> (r: Result<TextSplitter, Errors>)
        ensures
            Self::is_new(r, opts, line_ending),
    {
        let codec = match codec_for(&opts.encoding) {
            Ok(codec) => codec,
            Err(e) => {
                return Err(e);
            },
        };
        if opts.max_lines == 0 {
            return Err(zero_limit_error());
        }
        Ok(TextSplitter::with_codec(opts, line_ending, codec))
    }

    /// The run that the options ask for, with the codec given.
    pub fn with_codec(opts: &LineOptions, line_ending: LineEnding, codec: Codec) -> (r:
        TextSplitter)
        requires
            opts.max_lines > 0,
            codec.wf(),
            codec@ == starting_codec(text_of(opts.encoding)),
        ensures
            r.wf(),
            r.starts(opts, line_ending),
    {
        TextSplitter {
            lines: LineSplitter::from_options(opts, line_ending),
            remainder: Vec::new(),
            codec,
        }
    }

    /// What a piece of the stream did, where `text_ops` is what the decoded
    /// text asked for, and `encoded` what the encoder made of the text of
    /// each operation. The bytes waiting and the piece are handed to the
    /// decoder, and those that it did not read wait on. The text that it
    /// made of them is fed to the run on the text, and the operations come
    /// from those of that run, with the text of each encoded. For an
    /// encoding that has a place for every character, `encoded` holds each
    /// text as UTF-8.
    pub open spec fn fed(
        &self,
        after: &TextSplitter,
        chunk: Seq<u8>,
        ops: Seq<FileOp>,
        text_ops: Seq<TextOp>,
        encoded: Seq<Seq<u8>>,
    ) -> bool {
        let input = self.remainder@ + chunk;
        let decoded = decoded_by(self.codec@, input);
        let codec = after_decoding(self.codec@, input);
        &&& after.remainder@ == input.skip(decode_count(self.codec@, input.len()) as int)
        &&& after.lines.text@ == self.lines.text@ + decoded
        &&& apply_ops(self.lines.files(), text_ops_view(text_ops, self.lines.line_ending.text()))
            == after.lines.files()
        &&& encoded.len() == text_ops.len()
        &&& file_ops_view(ops) == encoded_ops(text_ops, encoded, self.lines.line_ending.bytes())
        &&& after.codec@.label == codec.label
        &&& after.codec@.encoding == codec.encoding
        &&& after.codec@.decoded == codec.decoded
        &&& encodes_every_char(codec.encoding) ==> is_utf8_of(text_ops, encoded) && after.codec@
            == codec_at(codec, text_ops)
    }

    /// Takes the next piece of the stream: decodes it, feeds the text to the
    /// run on the text, and encodes what that run writes.
    pub fn feed(&mut self, chunk: &[u8]) -> (ops: Vec<FileOp>)
        requires
            old(self).wf(),
        ensures
            final(self).wf(),
            final(self).lines.same_setup(&old(self).lines),
            exists|text_ops: Seq<TextOp>, encoded: Seq<Seq<u8>>|
                old(self).fed(final(self), chunk@, ops@, text_ops, encoded),
    {
        let mut input: Vec<u8> = Vec::new();
        std::mem::swap(&mut self.remainder, &mut input);
        let mut more = slice_to_vec(chunk);
        input.append(&mut more);
        let ghost whole = input@;
        let (read, decoded) = self.codec.decode(input.as_slice());
        self.remainder = input.split_off(read);
        let text_ops = self.lines.feed_chars(decoded.as_slice());
        let (ops, Ghost(encoded)) = encode_ops(&mut self.codec, text_ops, self.lines.line_ending);
        proof {
            assert(self.remainder@ =~= whole.skip(read as int));
            assert(old(self).fed(self, chunk@, ops@, text_ops@, encoded));
        }
        ops
    }

    /// What the end of the stream did, where `text_ops` is what the run on
    /// the text asked for, and `encoded` what the encoder made of the text
    /// of each operation.
    pub open spec fn finished(
        &self,
        ops: Seq<FileOp>,
        text_ops: Seq<TextOp>,
        encoded: Seq<Seq<u8>>,
    ) -> bool {
        &&& apply_ops(self.lines.files(), text_ops_view(text_ops, self.lines.line_ending.text()))
            == split_text_files(
            self.lines.text@,
            self.lines.max_chars,
            self.lines.allocator.limit as nat,
            self.lines.allocator.naming(),
            self.lines.line_ending.text(),
        )
        &&& encoded.len() == text_ops.len()
        &&& file_ops_view(ops) == encoded_ops(text_ops, encoded, self.lines.line_ending.bytes())
        &&& encodes_every_char(self.codec@.encoding) ==> is_utf8_of(text_ops, encoded)
    }

    /// Ends the stream: what is left of the text behind the last line
    /// ending is written as a last line. Bytes that the decoder did not
    /// read are dropped.
    pub fn finish(self) -> (ops: Vec<FileOp>)
        requires
            self.wf(),
        ensures
            exists|text_ops: Seq<TextOp>, encoded: Seq<Seq<u8>>|
                self.finished(ops@, text_ops, encoded),
    {
        let TextSplitter { lines, remainder: _, codec } = self;
        let mut codec = codec;
        let line_ending = lines.line_ending;
        let text_ops = lines.finish();
        let (ops, Ghost(encoded)) = encode_ops(&mut codec, text_ops, line_ending);
        proof {
            assert(self.finished(ops@, text_ops@, encoded));
        }
        ops
    }
}

/// The names of the files, in order.
pub open spec fn names_of<T>(files: Seq<FileModel<T>>) -> Seq<Seq<char>> {
    Seq::new(files.len(), |k: int| files[k].name)
}

/// Encoding changes what the files hold, not which files there are: the
/// operations on files of bytes open the files that the operations on files
/// of text open, in the same order.
pub proof fn lemma_encoded_names(
    bytes_files: Seq<FileModel<u8>>,
    text_files: Seq<FileModel<char>>,
    ops: Seq<TextOp>,
    encoded: Seq<Seq<u8>>,
    ending: LineEnding,
)
    requires
        names_of(bytes_files) == names_of(text_files),
        encoded.len() == ops.len(),
    ensures
        names_of(apply_ops(bytes_files, encoded_ops(ops, encoded, ending.bytes()))) == names_of(
            apply_ops(text_files, text_ops_view(ops, ending.text())),
        ),
    decreases ops.len(),
{
    let view = text_ops_view(ops, ending.text());
    if ops.len() > 0 {
        let front = ops.drop_last();
        let front_bytes = encoded.drop_last();
        lemma_encoded_names(bytes_files, text_files, front, front_bytes, ending);
        let b = apply_ops(bytes_files, encoded_ops(front, front_bytes, ending.bytes()));
        let t = apply_ops(text_files, text_ops_view(front, ending.text()));
        assert(view.drop_last() =~= text_ops_view(front, ending.text()));
        lemma_apply_concat(
            bytes_files,
            encoded_ops(front, front_bytes, ending.bytes()),
            encoded_op(ops.last(), encoded.last(), ending.bytes()),
        );
        let step = encoded_op(ops.last(), encoded.last(), ending.bytes());
        assert(names_of(b).len() == names_of(t).len());
        match ops.last() {
            TextOp::Open(name) => {
                lemma_apply_one(b, OpModel::<u8>::Open(name@));
                assert(names_of(apply_ops(b, step)) =~= names_of(b).push(name@));
                assert(names_of(apply_op(t, view.last())) =~= names_of(t).push(name@));
            },
            TextOp::Write(record) => {
                if record.synthetic_ending {
                    let first = seq![OpModel::<u8>::Append(encoded.last())];
                    lemma_apply_one(b, OpModel::<u8>::Append(encoded.last()));
                    assert(step =~= first.push(OpModel::<u8>::Append(ending.bytes())));
                    lemma_apply_push(b, first, OpModel::<u8>::Append(ending.bytes()));
                    assert(names_of(apply_ops(b, first)) =~= names_of(b));
                    assert(names_of(apply_ops(b, step)) =~= names_of(b));
                } else {
                    lemma_apply_one(b, OpModel::<u8>::Append(encoded.last()));
                    assert(names_of(apply_ops(b, step)) =~= names_of(b));
                }
                assert(names_of(apply_op(t, view.last())) =~= names_of(t));
            },
        }
    }
}

/// Encoding commutes with putting one list of operations behind another.
pub proof fn lemma_encoded_concat(
    a: Seq<TextOp>,
    b: Seq<TextOp>,
    encoded_a: Seq<Seq<u8>>,
    encoded_b: Seq<Seq<u8>>,
    ending: Seq<u8>,
)
    requires
        encoded_a.len() == a.len(),
        encoded_b.len() == b.len(),
    ensures
        encoded_ops(a + b, encoded_a + encoded_b, ending) == encoded_ops(a, encoded_a, ending)
            + encoded_ops(b, encoded_b, ending),
    decreases b.len(),
{
    if b.len() == 0 {
        assert(a + b =~= a);
        assert(encoded_a + encoded_b =~= encoded_a);
        assert(encoded_ops(a, encoded_a, ending) + encoded_ops(b, encoded_b, ending)
            =~= encoded_ops(a, encoded_a, ending));
    } else {
        lemma_encoded_concat(a, b.drop_last(), encoded_a, encoded_b.drop_last(), ending);
        assert((a + b).drop_last() =~= a + b.drop_last());
        assert((encoded_a + encoded_b).drop_last() =~= encoded_a + encoded_b.drop_last());
        assert((a + b).last() == b.last());
        assert((encoded_a + encoded_b).last() == encoded_b.last());
        let step = encoded_op(b.last(), encoded_b.last(), ending);
        assert(encoded_ops(a, encoded_a, ending) + (encoded_ops(
            b.drop_last(),
            encoded_b.drop_last(),
            ending,
        ) + step) =~= encoded_ops(a, encoded_a, ending) + encoded_ops(
            b.drop_last(),
            encoded_b.drop_last(),
            ending,
        ) + step);
    }
}

/// The first file of a run, with nothing in it.
pub open spec fn first_file<T>(naming: Naming) -> Seq<FileModel<T>> {
    seq![FileModel { name: file_name_at(naming, 0), content: Seq::<T>::empty() }]
}

/// The files of bytes are those of splitting the text `decoded`, each record
/// written as what it was encoded as: `text_ops` are operations that give
/// the files of the text, and the same operations, with `encoded[i]` in
/// place of the text of operation `i`, give `files`.
pub open spec fn is_encoded_split(
    files: Seq<FileModel<u8>>,
    decoded: Seq<char>,
    text_ops: Seq<TextOp>,
    encoded: Seq<Seq<u8>>,
    max_chars: Option<u64>,
    limit: nat,
    naming: Naming,
    ending: LineEnding,
) -> bool {
    &&& encoded.len() == text_ops.len()
    &&& apply_ops(first_file::<char>(naming), text_ops_view(text_ops, ending.text()))
        == split_text_files(decoded, max_chars, limit, naming, ending.text())
    &&& apply_ops(first_file::<u8>(naming), encoded_ops(text_ops, encoded, ending.bytes()))
        == files
}

/// The files of bytes are those of splitting the input: the text that the
/// codec for the options' encoding makes of `input` is split, and each
/// record is written as what its text was encoded as. For UTF-8, and for
/// any other encoding that has a place for every character, the files hold
/// as UTF-8 what the files of the split text hold.
pub open spec fn is_split_of(
    files: Seq<FileModel<u8>>,
    input: Seq<u8>,
    encoding: Option<Seq<char>>,
    max_chars: Option<u64>,
    limit: nat,
    naming: Naming,
    ending: LineEnding,
) -> bool {
    let decoded = decoded_by(starting_codec(encoding), input);
    &&& exists|text_ops: Seq<TextOp>, encoded: Seq<Seq<u8>>| #[trigger]
        is_encoded_split(files, decoded, text_ops, encoded, max_chars, limit, naming, ending)
    &&& encoding.is_none() || encodes_every_char(starting_codec(encoding).encoding) ==> files
        == utf8_files(split_text_files(decoded, max_chars, limit, naming, ending.text()))
}

/// Files of bytes that are an encoded split are as many as the files of the
/// text, and have their names.
pub proof fn lemma_encoded_split_names(
    files: Seq<FileModel<u8>>,
    decoded: Seq<char>,
    text_ops: Seq<TextOp>,
    encoded: Seq<Seq<u8>>,
    max_chars: Option<u64>,
    limit: nat,
    naming: Naming,
    ending: LineEnding,
)
    requires
        is_encoded_split(files, decoded, text_ops, encoded, max_chars, limit, naming, ending),
    ensures
        names_of(files) == names_of(
            split_text_files(decoded, max_chars, limit, naming, ending.text()),
        ),
{
    assert(names_of(first_file::<u8>(naming)) =~= names_of(first_file::<char>(naming)));
    lemma_encoded_names(
        first_file::<u8>(naming),
        first_file::<char>(naming),
        text_ops,
        encoded,
        ending,
    );
}

/// The files of splitting encoded text are as many as the files of
/// splitting the text that the input decodes to, and have their names: in
/// particular, where lines are not cut, there is one for each `limit` lines
/// of that text.
pub proof fn lemma_split_of_names(
    files: Seq<FileModel<u8>>,
    input: Seq<u8>,
    encoding: Option<Seq<char>>,
    max_chars: Option<u64>,
    limit: nat,
    naming: Naming,
    ending: LineEnding,
)
    requires
        is_split_of(files, input, encoding, max_chars, limit, naming, ending),
    ensures
        names_of(files) == names_of(
            split_text_files(
                decoded_by(starting_codec(encoding), input),
                max_chars,
                limit,
                naming,
                ending.text(),
            ),
        ),
{
    let decoded = decoded_by(starting_codec(encoding), input);
    let (text_ops, encoded) = choose|text_ops: Seq<TextOp>, encoded: Seq<Seq<u8>>| #[trigger]
        is_encoded_split(files, decoded, text_ops, encoded, max_chars, limit, naming, ending);
    lemma_encoded_split_names(files, decoded, text_ops, encoded, max_chars, limit, naming, ending);
}

/// The UTF-8 of texts, laid end to end, is the UTF-8 of the texts laid end
/// to end.
pub proof fn lemma_utf8_joined(parts: Seq<Seq<char>>)
    ensures
        joined(Seq::new(parts.len(), |k: int| encode_utf8(parts[k]))) == encode_utf8(
            joined(parts),
        ),
    decreases parts.len(),
{
    let each = Seq::new(parts.len(), |k: int| encode_utf8(parts[k]));
    if parts.len() > 0 {
        let front = parts.drop_last();
        lemma_utf8_joined(front);
        assert(each.drop_last() =~= Seq::new(front.len(), |k: int| encode_utf8(front[k])));
        lemma_utf8_concat(joined(front), parts.last());
    }
}

/// What splitting UTF-8 text by lines comes to where lines are not cut; it
/// holds as well of any other encoding that has a place for every
/// character. There is one file for each `limit` lines of the text that
/// the input decodes to, named in order, and each holds its lines as
/// UTF-8, in order. The files, laid end to end, are that text as UTF-8: so
/// they are the input, byte for byte, wherever the decoder gives the text
/// whose UTF-8 the input is.
pub proof fn lemma_split_text_utf8(
    files: Seq<FileModel<u8>>,
    input: Seq<u8>,
    encoding: Option<Seq<char>>,
    limit: nat,
    naming: Naming,
    ending: LineEnding,
)
    requires
        limit > 0,
        is_split_of(files, input, encoding, None, limit, naming, ending),
        encoding.is_none() || encodes_every_char(starting_codec(encoding).encoding),
    ensures
        joined(contents_of(files)) == encode_utf8(decoded_by(starting_codec(encoding), input)),
        encode_utf8(decoded_by(starting_codec(encoding), input)) == input ==> joined(
            contents_of(files),
        ) == input,
        files.len() == file_count(
            all_lines(decoded_by(starting_codec(encoding), input)).len(),
            limit,
        ),
        forall|k: int|
            0 <= k < files.len() ==> (#[trigger] files[k]).name == file_name_at(naming, k as nat)
                && files[k].content == encode_utf8(
                joined(group(all_lines(decoded_by(starting_codec(encoding), input)), limit, k)),
            ),
{
    let text = decoded_by(starting_codec(encoding), input);
    let of_text = split_text_files(text, None, limit, naming, ending.text());
    lemma_line_split(text, limit, naming, ending.text());
    lemma_utf8_joined(contents_of(of_text));
    assert(contents_of(files) =~= Seq::new(
        contents_of(of_text).len(),
        |k: int| encode_utf8(contents_of(of_text)[k]),
    ));
    assert forall|k: int| 0 <= k < files.len() implies (#[trigger] files[k]).name == file_name_at(
        naming,
        k as nat,
    ) && files[k].content == encode_utf8(joined(group(all_lines(text), limit, k))) by {
        assert(holds_lines(of_text, k, all_lines(text), limit, naming));
    }
}

/// What `split_text` answers. An encoding that is not known is an error.
/// Behind it, a run that may put no line into a file leaves its one empty
/// file where the input is empty, and is an error where it is not. Else
/// the answer is the files of splitting the input.
pub open spec fn is_split_text(
    r: Result<Vec<OutputFile>, Errors>,
    opts: &LineOptions,
    input: Seq<u8>,
    line_ending: LineEnding,
) -> bool {
    match r {
        Ok(files) => encoding_accepted(text_of(opts.encoding)) && if opts.max_lines == 0 {
            input.len() == 0 && files_view(files@) == first_file::<u8>(line_naming(opts@))
        } else {
            is_split_of(
                files_view(files@),
                input,
                text_of(opts.encoding),
                opts.max_chars,
                opts.max_lines as nat,
                line_naming(opts@),
                line_ending,
            )
        },
        Err(e) => match opts.encoding {
            Some(label) => if encoding_accepted(Some(label@)) {
                opts.max_lines == 0 && input.len() > 0 && e@ == zero_limit()
            } else {
                e@ == invalid_encoding(label@)
            },
            None => opts.max_lines == 0 && input.len() > 0 && e@ == zero_limit(),
        },
    }
}

/// Splits `input` as the options ask: the files that the run leaves, in
/// order. An encoding that is not known is an error, whatever else the
/// options hold. A run that may put no line into a file leaves its first
/// file, empty, where there is no input, and is an error where there is.
/// The files are those that splitting the decoded input gives, each record
/// holding what its text was encoded as.
pub fn split_text(opts: &LineOptions, input: &[u8], line_ending: LineEnding) -> (r: Result<
    Vec<OutputFile>,
    Errors,
>)
    ensures
        is_split_text(r, opts, input@, line_ending),
{
    let codec = match codec_for(&opts.encoding) {
        Ok(codec) => codec,
        Err(e) => {
            return Err(e);
        },
    };
    if opts.max_lines == 0 {
        if input.len() > 0 {
            return Err(zero_limit_error());
        }
        let mut files: Vec<OutputFile> = Vec::new();
        let name = first_file_name(
            prefix_text(&opts.prefix),
            extra_suffix_text(&opts.extra_suffix),
            opts.is_numerical_suffix,
        );
        files.push(OutputFile { name, content: Vec::new() });
        assert(files_view(files@) =~= first_file::<u8>(line_naming(opts@)));
        return Ok(files);
    }
    let mut splitter = TextSplitter::with_codec(opts, line_ending, codec);
    let mut files: Vec<OutputFile> = Vec::new();
    files.push(OutputFile { name: splitter.lines.allocator.file_name(), content: Vec::new() });
    let ghost start = splitter;
    let ghost naming = line_naming(opts@);
    let ghost first = starting_codec(text_of(opts.encoding));
    proof {
        lemma_first_file(opts.max_lines as nat, naming, line_ending.text());
        assert(files_view(files@) =~= first_file::<u8>(naming));
        assert(Seq::<u8>::empty() + input@ =~= input@);
    }
    let ops = splitter.feed(input);
    let ghost middle = splitter;
    let ghost ops1 = ops@;
    perform(&mut files, ops);
    let last = splitter.finish();
    let ghost ops2 = last@;
    perform(&mut files, last);
    proof {
        let decoded = decoded_by(first, input@);
        let codec = after_decoding(first, input@);
        let (text_ops, encoded) = choose|text_ops: Seq<TextOp>, encoded: Seq<Seq<u8>>|
            start.fed(&middle, input@, ops1, text_ops, encoded);
        let (last_ops, last_encoded) = choose|text_ops: Seq<TextOp>, encoded: Seq<Seq<u8>>|
            middle.finished(ops2, text_ops, encoded);
        let all_ops = text_ops + last_ops;
        let all_encoded = encoded + last_encoded;
        lemma_encoded_concat(text_ops, last_ops, encoded, last_encoded, line_ending.bytes());
        lemma_text_ops_concat(text_ops, last_ops, line_ending.text());
        lemma_apply_concat(
            first_file::<u8>(naming),
            encoded_ops(text_ops, encoded, line_ending.bytes()),
            encoded_ops(last_ops, last_encoded, line_ending.bytes()),
        );
        lemma_apply_concat(
            first_file::<char>(naming),
            text_ops_view(text_ops, line_ending.text()),
            text_ops_view(last_ops, line_ending.text()),
        );
        assert(Seq::<char>::empty() + decoded =~= decoded);
        if opts.encoding.is_none() || encodes_every_char(first.encoding) {
            assert(is_utf8_of(all_ops, all_encoded)) by {
                assert forall|i: int| 0 <= i < all_ops.len() implies #[trigger] all_encoded[i]
                    == op_utf8(all_ops[i]) by {
                    if i < text_ops.len() {
                        assert(encoded[i] == op_utf8(text_ops[i]));
                    } else {
                        assert(last_encoded[i - text_ops.len()] == op_utf8(
                            last_ops[i - text_ops.len()],
                        ));
                    }
                }
            }
            assert(first_file::<u8>(naming) =~= utf8_files(first_file::<char>(naming)));
            lemma_utf8_ops(first_file::<char>(naming), all_ops, all_encoded, line_ending);
        }
        assert(is_encoded_split(
            files_view(files@),
            decoded,
            all_ops,
            all_encoded,
            opts.max_chars,
            opts.max_lines as nat,
            naming,
            line_ending,
        ));
    }
    Ok(files)
}

} // verus!
