//! Splitting a stream of characters into files of at most a given number of
//! lines, with lines cut into records where they are longer than a given
//! number of characters.

use crate::allocator::{
    file_name_at, lemma_named_push, lemma_named_update, named_files, Naming, RollingAllocator,
};
use crate::binary::{extra_suffix_text, prefix_text};
use crate::options::{LineOptions, LineOptionsView};
use crate::output::{
    apply_op, apply_ops, contents_of, lemma_apply_concat, lemma_apply_push, FileModel, OpModel,
};
use crate::rolling::{
    file_count, filled, group, groups, joined, lemma_file_count_rounds_up, lemma_fill,
    lemma_group_bounds, lemma_group_sizes, lemma_groups_join, lemma_joined_concat,
    lemma_joined_twice, lemma_mul_step, lemma_roll,
};
use crate::segment::{
    content_of, ending_len, ending_length, ending_of, is_whole_line, lemma_scan_keeps_text,
    lemma_scan_shapes, scan_lines, scan_pending, LineSegmenter, PendingLine,
};
use vstd::prelude::*;
use vstd::slice::{slice_subrange, slice_to_vec};

verus! {

/// The line ending that is put behind a record where a line is cut.
#[derive(Clone, Copy, Debug, PartialEq, Eq, Structural)]
pub enum LineEnding {
    /// A line feed.
    Lf,
    /// A carriage return and a line feed.
    CrLf,
}

impl LineEnding {
    /// The line ending as characters.
    pub open spec fn text(self) -> Seq<char> {
        match self {
            LineEnding::Lf => seq!['\n'],
            LineEnding::CrLf => seq!['\r', '\n'],
        }
    }

    /// The line ending as bytes.
    pub open spec fn bytes(self) -> Seq<u8> {
        match self {
            LineEnding::Lf => seq![10u8],
            LineEnding::CrLf => seq![13u8, 10u8],
        }
    }

    /// The line ending as characters.
    pub fn to_chars(self) -> (r: Vec<char>)
        ensures
            r@ == self.text(),
    {
        let mut out: Vec<char> = Vec::new();
        match self {
            LineEnding::Lf => {
                out.push('\n');
            },
            LineEnding::CrLf => {
                out.push('\r');
                out.push('\n');
            },
        }
        assert(out@ =~= self.text());
        out
    }

    /// The line ending as bytes.
    pub fn to_bytes(self) -> (r: Vec<u8>)
        ensures
            r@ == self.bytes(),
    {
        let mut out: Vec<u8> = Vec::new();
        match self {
            LineEnding::Lf => {
                out.push(10u8);
            },
            LineEnding::CrLf => {
                out.push(13u8);
                out.push(10u8);
            },
        }
        assert(out@ =~= self.bytes());
        out
    }
}

/// What is written to a file in one piece: a line, or a part of one, and
/// whether a line ending is to follow that the text did not have.
#[derive(Debug, PartialEq, Eq)]
pub struct Record {
    pub text: Vec<char>,
    pub synthetic_ending: bool,
}

/// A record as text.
pub struct RecordModel {
    pub text: Seq<char>,
    pub synthetic_ending: bool,
}

impl View for Record {
    type V = RecordModel;

    open spec fn view(&self) -> RecordModel {
        RecordModel { text: self.text@, synthetic_ending: self.synthetic_ending }
    }
}

/// The records as text, in order.
pub open spec fn records_view(records: Seq<Record>) -> Seq<RecordModel> {
    Seq::new(records.len(), |i: int| records[i]@)
}

/// The characters that a record puts into its file.
pub open spec fn render(record: RecordModel, ending: Seq<char>) -> Seq<char> {
    if record.synthetic_ending {
        record.text + ending
    } else {
        record.text
    }
}

/// The characters that the records put into a file, one behind the other.
pub open spec fn rendered(records: Seq<RecordModel>, ending: Seq<char>) -> Seq<char>
    decreases records.len(),
{
    if records.len() == 0 {
        Seq::empty()
    } else {
        rendered(records.drop_last(), ending) + render(records.last(), ending)
    }
}

/// How many characters a record takes at most. A limit of zero counts as
/// one: no record is empty.
pub open spec fn chars_per_record(max_chars: u64) -> nat {
    if max_chars == 0 {
        1
    } else {
        max_chars as nat
    }
}

/// The text ends in a carriage return or a line feed.
pub open spec fn has_ending(s: Seq<char>) -> bool {
    s.len() > 0 && (s.last() == '\r' || s.last() == '\n')
}

/// Record `i` of a line that is cut behind every `m` characters of its
/// content, the text before its line ending. A record before the last holds
/// `m` characters and gets a line ending of its own, unless it ends in a
/// carriage return or line feed. The last holds the rest of the content and
/// the line's own ending; it gets a line ending of its own only where the
/// line has none and the record is full.
pub open spec fn cut_record(line: Seq<char>, m: nat, i: int) -> RecordModel {
    let content = content_of(line);
    let piece = group(content, m, i);
    if i + 1 < file_count(content.len(), m) {
        RecordModel { text: piece, synthetic_ending: !has_ending(piece) }
    } else {
        RecordModel {
            text: piece + ending_of(line),
            synthetic_ending: ending_len(line) == 0 && piece.len() == m,
        }
    }
}

/// The records that a line is written as. Without a limit on its length the
/// line is one record. With a limit, its content is cut behind every
/// `max_chars` characters, and its line ending stays with the last record:
/// a line ending is never a record of its own behind the content.
pub open spec fn line_records(line: Seq<char>, max_chars: Option<u64>) -> Seq<RecordModel> {
    match max_chars {
        None => seq![RecordModel { text: line, synthetic_ending: false }],
        Some(mc) => Seq::new(
            file_count(content_of(line).len(), chars_per_record(mc)),
            |i: int| cut_record(line, chars_per_record(mc), i),
        ),
    }
}

/// Cuts a line into its records.
pub fn split_line(text: &[char], max_chars: Option<u64>) -> (records: Vec<Record>)
    ensures
        records_view(records@) == line_records(text@, max_chars),
{
    let mut out: Vec<Record> = Vec::new();
    match max_chars {
        None => {
            out.push(Record { text: slice_to_vec(text), synthetic_ending: false });
            assert(records_view(out@) =~= line_records(text@, max_chars));
        },
        Some(mc) => {
            let m: u64 = if mc == 0 {
                1
            } else {
                mc
            };
            let len = text.len();
            let ending = ending_length(text);
            let content_len = len - ending;
            let ghost limit = chars_per_record(mc);
            let ghost content = content_of(text@);
            let ghost count = file_count(content_len as nat, limit);
            let ghost all = line_records(text@, max_chars);
            if content_len == 0 {
                out.push(Record { text: slice_to_vec(text), synthetic_ending: false });
                proof {
                    assert(0 * limit == 0) by (nonlinear_arith);
                    assert(group(content, limit, 0) + ending_of(text@) =~= text@);
                    assert(records_view(out@) =~= all);
                }
                return out;
            }
            let mut offset: usize = 0;
            proof {
                assert(0 * limit == 0) by (nonlinear_arith);
                assert(records_view(out@) =~= all.take(0));
            }
            while offset < content_len
                invariant
                    offset <= content_len,
                    content_len > 0,
                    len == text@.len(),
                    content_len + ending == len,
                    ending == ending_len(text@),
                    content == content_of(text@),
                    content.len() == content_len,
                    m == limit,
                    limit == chars_per_record(mc),
                    count == file_count(content_len as nat, limit),
                    all == line_records(text@, Some(mc)),
                    all.len() == count,
                    out.len() <= count,
                    out.len() < count ==> offset == out.len() * limit,
                    out.len() == count ==> offset == content_len,
                    records_view(out@) == all.take(out.len() as int),
                decreases content_len - offset,
            {
                let ghost i = out.len() as int;
                let left = content_len - offset;
                let take: usize = if left as u64 <= m {
                    left
                } else {
                    m as usize
                };
                proof {
                    lemma_group_bounds(content_len as nat, limit, i);
                    lemma_mul_step(i, limit as int);
                }
                let end = offset + take;
                let ghost before = records_view(out@);
                if end == content_len {
                    let piece = slice_to_vec(slice_subrange(text, offset, len));
                    let synthetic_ending = ending == 0 && take as u64 == m;
                    proof {
                        if i + 1 < count {
                            lemma_group_bounds(content_len as nat, limit, i + 1);
                        }
                        assert(piece@ =~= group(content, limit, i) + ending_of(text@));
                    }
                    out.push(Record { text: piece, synthetic_ending });
                } else {
                    let piece = slice_to_vec(slice_subrange(text, offset, end));
                    let last = piece[take - 1];
                    let synthetic_ending = !(last == '\r' || last == '\n');
                    proof {
                        assert(piece@ =~= group(content, limit, i));
                    }
                    out.push(Record { text: piece, synthetic_ending });
                }
                proof {
                    assert(all[i] == cut_record(text@, limit, i));
                    assert(records_view(out@) =~= before.push(all[i]));
                    assert(all.take(i + 1) =~= all.take(i).push(all[i]));
                }
                offset = end;
            }
            proof {
                if out.len() < count {
                    lemma_group_bounds(content_len as nat, limit, out.len() as int);
                }
                assert(all.take(count as int) =~= all);
            }
        },
    }
    out
}

/// An operation on the output files of a run that splits text.
#[derive(Debug, PartialEq, Eq)]
pub enum TextOp {
    /// Close the open file; create the file of this name, empty, and go on
    /// writing there.
    Open(String),
    /// Write this record to the open file.
    Write(Record),
}

impl TextOp {
    /// What the operation does to the files, where `ending` is the line
    /// ending put behind records that are cut.
    pub open spec fn model(&self, ending: Seq<char>) -> OpModel<char> {
        match self {
            TextOp::Open(name) => OpModel::Open(name@),
            TextOp::Write(record) => OpModel::Append(render(record@, ending)),
        }
    }
}

/// What the operations do to the files, in order.
pub open spec fn text_ops_view(ops: Seq<TextOp>, ending: Seq<char>) -> Seq<OpModel<char>> {
    Seq::new(ops.len(), |i: int| ops[i].model(ending))
}

/// The characters in each file, for the records of each file.
pub open spec fn rendered_groups(groups: Seq<Seq<RecordModel>>, ending: Seq<char>) -> Seq<
    Seq<char>,
> {
    Seq::new(groups.len(), |k: int| rendered(groups[k], ending))
}

/// The files that a run leaves for these records: every file but the last
/// holds `limit` records, the last holds the rest, and the files are named
/// in order.
pub open spec fn text_files(
    records: Seq<RecordModel>,
    limit: nat,
    naming: Naming,
    ending: Seq<char>,
) -> Seq<FileModel<char>> {
    named_files(rendered_groups(groups(records, limit), ending), naming)
}

/// The records for the lines, in the order of the lines.
pub open spec fn records_of(lines: Seq<Seq<char>>, max_chars: Option<u64>) -> Seq<RecordModel>
    decreases lines.len(),
{
    if lines.len() == 0 {
        Seq::empty()
    } else {
        records_of(lines.drop_last(), max_chars) + line_records(lines.last(), max_chars)
    }
}

proof fn lemma_rendered_push(records: Seq<RecordModel>, record: RecordModel, ending: Seq<char>)
    ensures
        rendered(records.push(record), ending) == rendered(records, ending) + render(
            record,
            ending,
        ),
        rendered(seq![record], ending) == render(record, ending),
{
    assert(records.push(record).drop_last() =~= records);
    let one = seq![record];
    assert(one.drop_last() =~= Seq::<RecordModel>::empty());
    assert(one.last() == record);
    assert(rendered(one.drop_last(), ending) =~= Seq::<char>::empty());
    assert(Seq::<char>::empty() + render(record, ending) =~= render(record, ending));
}

/// Writing one more record: the operations for it bring the files from
/// those of the records so far to those of the records with this one.
proof fn lemma_place_record(
    placed: Seq<RecordModel>,
    record: RecordModel,
    limit: nat,
    naming: Naming,
    ending: Seq<char>,
    files: nat,
    room: nat,
)
    requires
        filled(placed.len(), limit, files, room),
    ensures
        room > 0 ==> apply_op(
            text_files(placed, limit, naming, ending),
            OpModel::Append(render(record, ending)),
        ) == text_files(placed.push(record), limit, naming, ending),
        room == 0 ==> apply_op(
            apply_op(
                text_files(placed, limit, naming, ending),
                OpModel::Open(file_name_at(naming, files)),
            ),
            OpModel::Append(render(record, ending)),
        ) == text_files(placed.push(record), limit, naming, ending),
        room > 0 ==> filled(placed.len() + 1, limit, files, (room - 1) as nat),
        room == 0 ==> filled(placed.len() + 1, limit, files + 1, (limit - 1) as nat),
{
    let more = seq![record];
    let before = groups(placed, limit);
    let texts = rendered_groups(before, ending);
    assert(placed + more =~= placed.push(record));
    let old_files = text_files(placed, limit, naming, ending);
    if room > 0 {
        lemma_fill(placed, more, limit, files, room);
        let last = before[files - 1];
        assert(last + more =~= last.push(record));
        lemma_rendered_push(last, record, ending);
        assert(rendered_groups(before.update(files - 1, last + more), ending) =~= texts.update(
            files - 1,
            texts[files - 1] + render(record, ending),
        ));
        lemma_named_update(texts, naming, files - 1, texts[files - 1] + render(record, ending));
        assert(old_files.len() == files);
        assert(old_files.last().content == texts[files - 1]);
    } else {
        lemma_roll(placed, more, limit, files);
        lemma_rendered_push(Seq::empty(), record, ending);
        assert(rendered_groups(before.push(more), ending) =~= texts.push(
            render(record, ending),
        ));
        lemma_named_push(texts, naming, render(record, ending));
        let name = file_name_at(naming, files);
        let opened = old_files.push(FileModel { name, content: Seq::empty() });
        assert(Seq::<char>::empty() + render(record, ending) =~= render(record, ending));
        assert(apply_op(opened, OpModel::Append(render(record, ending))) =~= old_files.push(
            FileModel { name, content: render(record, ending) },
        ));
    }
}

/// Writes a line: one operation for each of its records, and before it the
/// opening of the next file where the open one is full. Every record counts
/// as a line of its file but one: the last record of a line that has no
/// line ending, where it gets none of its own either.
fn write_line(
    allocator: &mut RollingAllocator,
    line: &PendingLine,
    max_chars: Option<u64>,
    Ghost(placed): Ghost<Seq<RecordModel>>,
    Ghost(ending): Ghost<Seq<char>>,
) -> (ops: Vec<TextOp>)
    requires
        old(allocator).wf(),
        filled(
            placed.len(),
            old(allocator).limit as nat,
            old(allocator).rolled@ + 1,
            old(allocator).available as nat,
        ),
    ensures
        final(allocator).wf(),
        final(allocator).limit == old(allocator).limit,
        final(allocator).naming() == old(allocator).naming(),
        apply_ops(
            text_files(placed, old(allocator).limit as nat, old(allocator).naming(), ending),
            text_ops_view(ops@, ending),
        ) == text_files(
            placed + line_records(line.text@, max_chars),
            old(allocator).limit as nat,
            old(allocator).naming(),
            ending,
        ),
        line.terminated ==> filled(
            (placed + line_records(line.text@, max_chars)).len(),
            final(allocator).limit as nat,
            final(allocator).rolled@ + 1,
            final(allocator).available as nat,
        ),
{
    let records = split_line(line.text.as_slice(), max_chars);
    let mut records = records;
    let ghost all = line_records(line.text@, max_chars);
    let ghost limit = allocator.limit as nat;
    let ghost naming = allocator.naming();
    let ghost start = text_files(placed, limit, naming, ending);
    let n = records.len();
    let mut ops: Vec<TextOp> = Vec::new();
    let mut i: usize = 0;
    proof {
        assert(text_ops_view(ops@, ending) =~= Seq::<OpModel<char>>::empty());
        assert(placed + all.take(0) =~= placed);
    }
    while i < n
        invariant
            i <= n,
            n == records.len(),
            n == all.len(),
            all == line_records(line.text@, max_chars),
            forall|k: int| i <= k < n ==> (#[trigger] records@[k])@ == all[k],
            allocator.wf(),
            allocator.limit == limit,
            limit == old(allocator).limit,
            allocator.naming() == naming,
            naming == old(allocator).naming(),
            start == text_files(placed, limit, naming, ending),
            apply_ops(start, text_ops_view(ops@, ending)) == text_files(
                placed + all.take(i as int),
                limit,
                naming,
                ending,
            ),
            i < n || line.terminated ==> filled(
                (placed + all.take(i as int)).len(),
                limit,
                allocator.rolled@ + 1,
                allocator.available as nat,
            ),
        decreases n - i,
    {
        let ghost so_far = placed + all.take(i as int);
        let ghost done = text_ops_view(ops@, ending);
        let ghost files = allocator.rolled@ + 1;
        let ghost room = allocator.available as nat;
        let mut record = Record { text: Vec::new(), synthetic_ending: false };
        std::mem::swap(&mut records[i], &mut record);
        let ghost model = record@;
        proof {
            assert(model == all[i as int]);
            lemma_place_record(so_far, model, limit, naming, ending, files, room);
            assert(placed + all.take(i + 1) =~= so_far.push(model));
        }
        let opened = allocator.ensure_capacity();
        match opened {
            Some(name) => {
                ops.push(TextOp::Open(name));
                proof {
                    assert(text_ops_view(ops@, ending) =~= done.push(OpModel::Open(name@)));
                    lemma_apply_push(start, done, OpModel::Open(name@));
                }
            },
            None => {},
        }
        let ghost opened_done = text_ops_view(ops@, ending);
        let counted = line.terminated || i + 1 < n || record.synthetic_ending;
        ops.push(TextOp::Write(record));
        proof {
            assert(text_ops_view(ops@, ending) =~= opened_done.push(
                OpModel::Append(render(model, ending)),
            ));
            lemma_apply_push(start, opened_done, OpModel::Append(render(model, ending)));
        }
        if counted {
            allocator.consume(1);
        }
        i += 1;
    }
    assert(all.take(n as int) =~= all);
    ops
}

/// The lines of a whole text: those that a line ending completes, and behind
/// them what is left, if anything.
pub open spec fn all_lines(text: Seq<char>) -> Seq<Seq<char>> {
    let rest = scan_pending(Seq::empty(), text);
    if rest.len() > 0 {
        scan_lines(Seq::empty(), text).push(rest)
    } else {
        scan_lines(Seq::empty(), text)
    }
}

/// The files that splitting the whole of `text` leaves.
pub open spec fn split_text_files(
    text: Seq<char>,
    max_chars: Option<u64>,
    limit: nat,
    naming: Naming,
    ending: Seq<char>,
) -> Seq<FileModel<char>> {
    text_files(records_of(all_lines(text), max_chars), limit, naming, ending)
}

/// How the options name the files.
pub open spec fn line_naming(options: LineOptionsView) -> Naming {
    Naming {
        prefix: crate::binary::prefix_or_default(options.prefix),
        extra_suffix: crate::binary::extra_suffix_or_default(options.extra_suffix),
        numeric: options.is_numerical_suffix,
    }
}

/// A run that splits text. It is fed the stream of characters piece by
/// piece, and answers each piece with the operations that bring the output
/// files up to date. A line is written when it is complete; what is left at
/// the end of the stream is written by `finish`.
pub struct LineSplitter {
    pub allocator: RollingAllocator,
    pub segmenter: LineSegmenter,
    pub max_chars: Option<u64>,
    pub line_ending: LineEnding,
    /// All the characters fed so far.
    pub text: Ghost<Seq<char>>,
}

proof fn lemma_records_push(lines: Seq<Seq<char>>, line: Seq<char>, max_chars: Option<u64>)
    ensures
        records_of(lines.push(line), max_chars) == records_of(lines, max_chars) + line_records(
            line,
            max_chars,
        ),
{
    assert(lines.push(line).drop_last() =~= lines);
}

/// What operations do, one list behind another, is what each list does, one
/// behind the other.
pub proof fn lemma_text_ops_concat(a: Seq<TextOp>, b: Seq<TextOp>, ending: Seq<char>)
    ensures
        text_ops_view(a + b, ending) == text_ops_view(a, ending) + text_ops_view(b, ending),
{
    assert(text_ops_view(a + b, ending) =~= text_ops_view(a, ending) + text_ops_view(b, ending));
}

impl LineSplitter {
    /// The lines completed so far.
    pub open spec fn lines(&self) -> Seq<Seq<char>> {
        scan_lines(Seq::empty(), self.text@)
    }

    /// The records written so far.
    pub open spec fn records(&self) -> Seq<RecordModel> {
        records_of(self.lines(), self.max_chars)
    }

    /// The allocator and the segmenter are well formed, the segmenter holds
    /// what the text fed so far leaves of its last line, and the allocator
    /// stands where the records written so far leave it.
    pub open spec fn wf(&self) -> bool {
        &&& self.allocator.wf()
        &&& self.segmenter.wf()
        &&& self.segmenter@ == scan_pending(Seq::empty(), self.text@)
        &&& filled(
            self.records().len(),
            self.allocator.limit as nat,
            self.allocator.rolled@ + 1,
            self.allocator.available as nat,
        )
    }

    /// The output files as they stand.
    pub open spec fn files(&self) -> Seq<FileModel<char>> {
        text_files(
            self.records(),
            self.allocator.limit as nat,
            self.allocator.naming(),
            self.line_ending.text(),
        )
    }

    /// The two runs were set up alike.
    pub open spec fn same_setup(&self, other: &LineSplitter) -> bool {
        &&& self.allocator.limit == other.allocator.limit
        &&& self.allocator.naming() == other.allocator.naming()
        &&& self.max_chars == other.max_chars
        &&& self.line_ending == other.line_ending
    }

    /// A run that has opened its first file and written nothing yet.
    pub fn new(
        max_lines: u64,
        max_chars: Option<u64>,
        prefix: &str,
        extra_suffix: &str,
        numeric: bool,
        line_ending: LineEnding,
    ) -> (r: LineSplitter)
        requires
            max_lines > 0,
        ensures
            r.wf(),
            r.text@ == Seq::<char>::empty(),
            r.allocator.limit == max_lines,
            r.allocator.rolled@ == 0,
            r.allocator.naming() == (Naming {
                prefix: prefix@,
                extra_suffix: extra_suffix@,
                numeric,
            }),
            r.max_chars == max_chars,
            r.line_ending == line_ending,
    {
        let allocator = RollingAllocator::new(max_lines, prefix, extra_suffix, numeric);
        assert(1 * (max_lines as nat) == max_lines as nat) by (nonlinear_arith);
        LineSplitter {
            allocator,
            segmenter: LineSegmenter::new(),
            max_chars,
            line_ending,
            text: Ghost(Seq::empty()),
        }
    }

    /// The run that the options ask for.
    pub fn from_options(opts: &LineOptions, line_ending: LineEnding) -> (r: LineSplitter)
        requires
            opts.max_lines > 0,
        ensures
            r.wf(),
            r.text@ == Seq::<char>::empty(),
            r.allocator.limit == opts.max_lines,
            r.allocator.rolled@ == 0,
            r.allocator.naming() == line_naming(opts@),
            r.max_chars == opts.max_chars,
            r.line_ending == line_ending,
    {
        let unit = opts.unit();
        LineSplitter::new(
            unit.limit(),
            unit.max_chars(),
            prefix_text(&opts.prefix),
            extra_suffix_text(&opts.extra_suffix),
            opts.is_numerical_suffix,
            line_ending,
        )
    }

    /// Takes the next piece of the stream. The operations returned, carried
    /// out in order, bring the files from what they were to what the lines
    /// completed so far, this piece included, require.
    pub fn feed_chars(&mut self, chars: &[char]) -> (ops: Vec<TextOp>)
        requires
            old(self).wf(),
        ensures
            final(self).wf(),
            final(self).text@ == old(self).text@ + chars@,
            final(self).same_setup(old(self)),
            apply_ops(old(self).files(), text_ops_view(ops@, old(self).line_ending.text()))
                == final(self).files(),
    {
        let mut ops: Vec<TextOp> = Vec::new();
        let mut i: usize = 0;
        let ghost ending = self.line_ending.text();
        proof {
            assert(text_ops_view(ops@, ending) =~= Seq::<OpModel<char>>::empty());
            assert(self.text@ + chars@.take(0) =~= self.text@);
        }
        while i < chars.len()
            invariant
                i <= chars.len(),
                self.wf(),
                self.same_setup(old(self)),
                ending == self.line_ending.text(),
                self.text@ == old(self).text@ + chars@.take(i as int),
                apply_ops(old(self).files(), text_ops_view(ops@, ending)) == self.files(),
            decreases chars.len() - i,
        {
            let c = chars[i];
            let ghost text = self.text@;
            let ghost placed = self.records();
            let ghost lines = self.lines();
            let ghost done = ops@;
            let emitted = self.segmenter.push_char(c);
            self.text = Ghost(text.push(c));
            proof {
                assert(text.push(c).drop_last() =~= text);
                assert(old(self).text@ + chars@.take(i + 1) =~= text.push(c));
            }
            match emitted {
                Some(line) => {
                    proof {
                        assert(self.lines() == lines.push(line.text@));
                        lemma_records_push(lines, line.text@, self.max_chars);
                    }
                    let mut more = write_line(
                        &mut self.allocator,
                        &line,
                        self.max_chars,
                        Ghost(placed),
                        Ghost(ending),
                    );
                    proof {
                        lemma_text_ops_concat(done, more@, ending);
                        lemma_apply_concat(
                            old(self).files(),
                            text_ops_view(done, ending),
                            text_ops_view(more@, ending),
                        );
                    }
                    ops.append(&mut more);
                },
                None => {
                    assert(self.lines() == lines);
                },
            }
            i += 1;
        }
        assert(chars@.take(i as int) =~= chars@);
        ops
    }

    /// Ends the stream. What is left behind the last line ending is written
    /// as a last line, and the files are then those of the whole text.
    pub fn finish(self) -> (ops: Vec<TextOp>)
        requires
            self.wf(),
        ensures
            apply_ops(self.files(), text_ops_view(ops@, self.line_ending.text()))
                == split_text_files(
                self.text@,
                self.max_chars,
                self.allocator.limit as nat,
                self.allocator.naming(),
                self.line_ending.text(),
            ),
    {
        let mut this = self;
        let ghost ending = this.line_ending.text();
        let ghost placed = this.records();
        let ghost lines = this.lines();
        let last = this.segmenter.finish();
        match last {
            Some(line) => {
                proof {
                    lemma_records_push(lines, line.text@, this.max_chars);
                }
                write_line(
                    &mut this.allocator,
                    &line,
                    this.max_chars,
                    Ghost(placed),
                    Ghost(ending),
                )
            },
            None => {
                let ops: Vec<TextOp> = Vec::new();
                assert(text_ops_view(ops@, ending) =~= Seq::<OpModel<char>>::empty());
                ops
            },
        }
    }
}

/// The texts of the records, in order.
pub open spec fn record_texts(records: Seq<RecordModel>) -> Seq<Seq<char>> {
    Seq::new(records.len(), |i: int| records[i].text)
}

/// Record `i` of the records of `line` is as cutting at `max_chars` leaves
/// it. Before the last, a record holds exactly `max_chars` characters and
/// gets a line ending of its own unless it ends in a carriage return or
/// line feed. The last holds at least one and at most `max_chars`
/// characters of the content and behind them the line's own ending; it
/// gets a line ending of its own only where the line has none and the
/// record is full.
pub open spec fn is_cut(records: Seq<RecordModel>, i: int, line: Seq<char>, max_chars: u64) -> bool {
    let text = records[i].text;
    if i + 1 < records.len() {
        &&& text.len() == max_chars
        &&& records[i].synthetic_ending == !has_ending(text)
    } else {
        &&& 0 < text.len() - ending_len(line) <= max_chars
        &&& text.skip(text.len() - ending_len(line)) == ending_of(line)
        &&& records[i].synthetic_ending == (ending_len(line) == 0 && text.len() == max_chars)
    }
}

/// What cutting a line into records comes to, for a line with content and
/// a limit that is not zero. There are as many records as the length of the
/// content divided by the limit, rounded up. Their texts, laid end to end,
/// are the line. Every record holds at most `max_chars` characters of the
/// content, and every record but the last exactly so many. The line's own
/// ending stands at the end of the last record and nowhere else, and a
/// record before the last gets a line ending of its own.
pub proof fn lemma_line_cut(line: Seq<char>, max_chars: u64)
    requires
        content_of(line).len() > 0,
        max_chars > 0,
    ensures
        line_records(line, Some(max_chars)).len() == (content_of(line).len() + max_chars - 1) / (
        max_chars as int),
        joined(record_texts(line_records(line, Some(max_chars)))) == line,
        forall|i: int|
            0 <= i < line_records(line, Some(max_chars)).len() ==> #[trigger] is_cut(
                line_records(line, Some(max_chars)),
                i,
                line,
                max_chars,
            ),
{
    let m = max_chars as nat;
    let content = content_of(line);
    let records = line_records(line, Some(max_chars));
    lemma_file_count_rounds_up(content.len(), m);
    lemma_line_records_keep_text(line, Some(max_chars));
    assert forall|i: int| 0 <= i < records.len() implies #[trigger] is_cut(
        records,
        i,
        line,
        max_chars,
    ) by {
        lemma_group_sizes(content, m, i);
        let piece = group(content, m, i);
        assert(groups(content, m)[i] == piece);
        if i + 1 == records.len() {
            let text = piece + ending_of(line);
            assert(text.skip(text.len() - ending_len(line)) =~= ending_of(line));
        }
    }
}

/// Cutting loses nothing and adds nothing but line endings: the texts of
/// the records of a line, laid end to end, are the line.
pub proof fn lemma_line_records_keep_text(line: Seq<char>, max_chars: Option<u64>)
    ensures
        joined(record_texts(line_records(line, max_chars))) == line,
{
    let texts = record_texts(line_records(line, max_chars));
    match max_chars {
        Some(mc) => {
            let m = chars_per_record(mc);
            let content = content_of(line);
            let pieces = groups(content, m);
            let k = pieces.len() - 1;
            lemma_groups_join(content, m);
            assert(texts.drop_last() =~= pieces.drop_last());
            assert(texts.last() == pieces.last() + ending_of(line));
            assert(joined(pieces.drop_last()) + (pieces.last() + ending_of(line)) =~= joined(
                pieces.drop_last(),
            ) + pieces.last() + ending_of(line));
            assert(content + ending_of(line) =~= line);
        },
        None => {
            assert(texts.drop_last() =~= Seq::<Seq<char>>::empty());
            assert(joined(texts.drop_last()) =~= Seq::<char>::empty());
            assert(texts.last() == line);
            assert(joined(texts) =~= line);
        },
    }
}

/// The texts of all the records written for a text, laid end to end, are
/// the text: what the files hold is the text, with a line ending put in
/// behind each record that is marked for one.
pub proof fn lemma_records_keep_text(text: Seq<char>, max_chars: Option<u64>)
    ensures
        joined(record_texts(records_of(all_lines(text), max_chars))) == text,
{
    lemma_all_lines(text);
    lemma_lines_records_keep_text(all_lines(text), max_chars);
}

proof fn lemma_lines_records_keep_text(lines: Seq<Seq<char>>, max_chars: Option<u64>)
    ensures
        joined(record_texts(records_of(lines, max_chars))) == joined(lines),
    decreases lines.len(),
{
    if lines.len() > 0 {
        let front = lines.drop_last();
        lemma_lines_records_keep_text(front, max_chars);
        lemma_line_records_keep_text(lines.last(), max_chars);
        let a = records_of(front, max_chars);
        let b = line_records(lines.last(), max_chars);
        assert(record_texts(a + b) =~= record_texts(a) + record_texts(b));
        lemma_joined_concat(record_texts(a), record_texts(b));
    } else {
        assert(record_texts(records_of(lines, max_chars)) =~= Seq::<Seq<char>>::empty());
    }
}

/// The records of lines that are not cut: one for each line, holding the
/// line as it is.
proof fn lemma_plain_records(lines: Seq<Seq<char>>)
    ensures
        records_of(lines, None) == Seq::new(
            lines.len(),
            |i: int| RecordModel { text: lines[i], synthetic_ending: false },
        ),
    decreases lines.len(),
{
    if lines.len() > 0 {
        lemma_plain_records(lines.drop_last());
    }
    assert(records_of(lines, None) =~= Seq::new(
        lines.len(),
        |i: int| RecordModel { text: lines[i], synthetic_ending: false },
    ));
}

proof fn lemma_plain_rendered(lines: Seq<Seq<char>>, ending: Seq<char>)
    ensures
        rendered(
            Seq::new(lines.len(), |i: int| RecordModel { text: lines[i], synthetic_ending: false }),
            ending,
        ) == joined(lines),
    decreases lines.len(),
{
    let records = Seq::new(
        lines.len(),
        |i: int| RecordModel { text: lines[i], synthetic_ending: false },
    );
    if lines.len() > 0 {
        let front = lines.drop_last();
        lemma_plain_rendered(front, ending);
        assert(records.drop_last() =~= Seq::new(
            front.len(),
            |i: int| RecordModel { text: front[i], synthetic_ending: false },
        ));
    }
}

/// The lines of a text, laid end to end, are the text, and every line is a
/// whole line, but for what may be left behind the last line ending.
pub proof fn lemma_all_lines(text: Seq<char>)
    ensures
        joined(all_lines(text)) == text,
        forall|i: int|
            0 <= i < scan_lines(Seq::empty(), text).len() ==> #[trigger] all_lines(text)[i]
                == scan_lines(Seq::empty(), text)[i] && is_whole_line(all_lines(text)[i]),
        all_lines(text).len() <= scan_lines(Seq::empty(), text).len() + 1,
{
    let empty = Seq::<char>::empty();
    lemma_scan_keeps_text(empty, text);
    lemma_scan_shapes(empty, text);
    let lines = scan_lines(empty, text);
    let rest = scan_pending(empty, text);
    assert(empty + text =~= text);
    if rest.len() > 0 {
        assert(lines.push(rest).drop_last() =~= lines);
    } else {
        assert(joined(lines) + rest =~= joined(lines));
    }
}

/// File `k` of `files` has the name of file `k` and holds, laid end to end,
/// the lines that fall to file `k` when `lines` are dealt out in order,
/// `limit` to each file: no more than `limit` lines, and exactly `limit`
/// unless it is the last file.
pub open spec fn holds_lines(
    files: Seq<FileModel<char>>,
    k: int,
    lines: Seq<Seq<char>>,
    limit: nat,
    naming: Naming,
) -> bool {
    &&& files[k].name == file_name_at(naming, k as nat)
    &&& files[k].content == joined(group(lines, limit, k))
    &&& group(lines, limit, k).len() <= limit
    &&& k + 1 < files.len() ==> group(lines, limit, k).len() == limit
}

/// What splitting text by lines comes to where lines are not cut. The files
/// hold the lines of the text in order: each file but the last holds
/// `limit` lines, the last holds the rest, what is left behind the last line
/// ending counting as a line. The files, laid end to end in their order,
/// are the text. The files are named in order.
pub proof fn lemma_line_split(text: Seq<char>, limit: nat, naming: Naming, ending: Seq<char>)
    requires
        limit > 0,
    ensures
        joined(contents_of(split_text_files(text, None, limit, naming, ending))) == text,
        split_text_files(text, None, limit, naming, ending).len() == file_count(
            all_lines(text).len(),
            limit,
        ),
        forall|k: int|
            0 <= k < split_text_files(text, None, limit, naming, ending).len() ==> #[trigger] holds_lines(
                split_text_files(text, None, limit, naming, ending),
                k,
                all_lines(text),
                limit,
                naming,
            ),
{
    let lines = all_lines(text);
    let files = split_text_files(text, None, limit, naming, ending);
    let records = records_of(lines, None);
    let by_file = groups(lines, limit);
    lemma_plain_records(lines);
    lemma_all_lines(text);
    assert forall|k: int| 0 <= k < files.len() implies #[trigger] holds_lines(
        files,
        k,
        lines,
        limit,
        naming,
    ) by {
        lemma_group_sizes(lines, limit, k);
        lemma_group_bounds(lines.len(), limit, k);
        lemma_plain_rendered(by_file[k], ending);
        assert(groups(records, limit)[k] =~= Seq::new(
            by_file[k].len(),
            |i: int| RecordModel { text: by_file[k][i], synthetic_ending: false },
        ));
    }
    assert forall|k: int| 0 <= k < files.len() implies files[k].content == joined(
        by_file[k],
    ) by {
        assert(holds_lines(files, k, lines, limit, naming));
    }
    assert(contents_of(files) =~= Seq::new(by_file.len(), |k: int| joined(by_file[k])));
    lemma_joined_twice(by_file);
    lemma_groups_join(lines, limit);
}

/// An output file of text, held in memory.
#[derive(Debug, PartialEq, Eq)]
pub struct TextFile {
    pub name: String,
    pub content: Vec<char>,
}

impl View for TextFile {
    type V = FileModel<char>;

    open spec fn view(&self) -> FileModel<char> {
        FileModel { name: self.name@, content: self.content@ }
    }
}

/// The files as text, in order.
pub open spec fn text_files_view(files: Seq<TextFile>) -> Seq<FileModel<char>> {
    Seq::new(files.len(), |i: int| files[i]@)
}

/// Carries the operations out, in order, on files held in memory.
pub fn perform_text(files: &mut Vec<TextFile>, ops: Vec<TextOp>, line_ending: LineEnding)
    ensures
        text_files_view(final(files)@) == apply_ops(
            text_files_view(old(files)@),
            text_ops_view(ops@, line_ending.text()),
        ),
{
    let ghost start = text_files_view(files@);
    let ghost ending = line_ending.text();
    let mut ops = ops;
    let ghost all = text_ops_view(ops@, ending);
    let mut i: usize = 0;
    let n = ops.len();
    assert(all.take(0) =~= Seq::<OpModel<char>>::empty());
    while i < n
        invariant
            i <= n,
            n == ops.len(),
            all.len() == n,
            ending == line_ending.text(),
            forall|k: int| i <= k < n ==> (#[trigger] ops@[k]).model(ending) == all[k],
            text_files_view(files@) == apply_ops(start, all.take(i as int)),
        decreases n - i,
    {
        let mut op = TextOp::Write(Record { text: Vec::new(), synthetic_ending: false });
        std::mem::swap(&mut ops[i], &mut op);
        let ghost before = text_files_view(files@);
        proof {
            assert(all.take(i + 1).drop_last() =~= all.take(i as int));
            assert(all.take(i + 1).last() == all[i as int]);
        }
        match op {
            TextOp::Open(name) => {
                files.push(TextFile { name, content: Vec::new() });
                assert(text_files_view(files@) =~= apply_op(before, all[i as int]));
            },
            TextOp::Write(record) => {
                let m = files.len();
                if m > 0 {
                    let ghost held = files@[m - 1].content@;
                    let ghost written = render(record@, ending);
                    let mut text = record.text;
                    files[m - 1].content.append(&mut text);
                    if record.synthetic_ending {
                        let mut tail = line_ending.to_chars();
                        files[m - 1].content.append(&mut tail);
                    }
                    assert(files@[m - 1].content@ =~= held + written);
                    assert(all[i as int] == OpModel::Append(written));
                    assert(text_files_view(files@) =~= apply_op(before, all[i as int]));
                }
            },
        }
        i += 1;
    }
    assert(all.take(n as int) =~= all);
}

/// Splits `text` as the options ask: the files that the run leaves, in
/// order.
pub fn split_lines(opts: &LineOptions, text: &[char], line_ending: LineEnding) -> (files: Vec<
    TextFile,
>)
    requires
        opts.max_lines > 0,
    ensures
        text_files_view(files@) == split_text_files(
            text@,
            opts.max_chars,
            opts.max_lines as nat,
            line_naming(opts@),
            line_ending.text(),
        ),
{
    let mut splitter = LineSplitter::from_options(opts, line_ending);
    let mut files: Vec<TextFile> = Vec::new();
    files.push(TextFile { name: splitter.allocator.file_name(), content: Vec::new() });
    proof {
        lemma_first_file(
            opts.max_lines as nat,
            splitter.allocator.naming(),
            line_ending.text(),
        );
        assert(text_files_view(files@) =~= splitter.files());
        assert(Seq::<char>::empty() + text@ =~= text@);
    }
    let ops = splitter.feed_chars(text);
    perform_text(&mut files, ops, line_ending);
    let last = splitter.finish();
    perform_text(&mut files, last, line_ending);
    files
}

/// A run that has written nothing has its first file, and that is empty.
pub proof fn lemma_first_file(limit: nat, naming: Naming, ending: Seq<char>)
    requires
        limit > 0,
    ensures
        text_files(Seq::empty(), limit, naming, ending) == seq![
            FileModel { name: file_name_at(naming, 0), content: Seq::<char>::empty() },
        ],
{
    let none = Seq::<RecordModel>::empty();
    assert(0 * limit == 0) by (nonlinear_arith);
    assert(groups(none, limit)[0] =~= none);
    assert(text_files(none, limit, naming, ending) =~= seq![
        FileModel { name: file_name_at(naming, 0), content: Seq::<char>::empty() },
    ]);
}

} // verus!
