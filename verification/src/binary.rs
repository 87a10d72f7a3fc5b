//! Splitting a stream of bytes into files of at most a given size.

use crate::allocator::{
    file_name_at, lemma_file_names_differ, lemma_named_push, lemma_named_update, named_files,
    Naming, RollingAllocator,
};
use crate::options::{text_of, BinaryOptions, BinaryOptionsView};
use crate::output::{
    apply_op, apply_ops, contents_of, file_ops_view, files_view, lemma_apply_push, perform,
    FileModel, FileOp, OpModel, OutputFile,
};
use crate::rolling::{
    file_count, filled, groups, joined, lemma_file_count_rounds_up, lemma_fill,
    lemma_group_sizes, lemma_groups_join, lemma_roll,
};
use vstd::prelude::*;
use vstd::slice::{slice_subrange, slice_to_vec};

verus! {

/// The files that a run leaves for the bytes `data`: every file but the last
/// holds `limit` bytes, the last holds the rest, and the files are named in
/// order.
pub open spec fn binary_files(data: Seq<u8>, limit: nat, naming: Naming) -> Seq<FileModel<u8>> {
    named_files(groups(data, limit), naming)
}

/// A run that splits bytes. It is fed the stream piece by piece, and answers
/// each piece with the operations that bring the output files up to date.
pub struct BinarySplitter {
    pub allocator: RollingAllocator,
    /// All the bytes fed so far.
    pub written: Ghost<Seq<u8>>,
}

impl BinarySplitter {
    /// The allocator is well formed, and stands where the bytes fed so far
    /// leave it.
    pub open spec fn wf(&self) -> bool {
        &&& self.allocator.wf()
        &&& filled(
            self.written@.len(),
            self.allocator.limit as nat,
            self.allocator.rolled@ + 1,
            self.allocator.available as nat,
        )
    }

    /// The output files as they stand.
    pub open spec fn files(&self) -> Seq<FileModel<u8>> {
        binary_files(self.written@, self.allocator.limit as nat, self.allocator.naming())
    }

    /// A run that has opened its first file and written nothing yet.
    pub fn new(max_size: u64, prefix: &str, extra_suffix: &str, numeric: bool) -> (r:
        BinarySplitter)
        requires
            max_size > 0,
        ensures
            r.wf(),
            r.written@ == Seq::<u8>::empty(),
            r.allocator.limit == max_size,
            r.allocator.rolled@ == 0,
            r.allocator.naming() == (Naming {
                prefix: prefix@,
                extra_suffix: extra_suffix@,
                numeric,
            }),
    {
        let allocator = RollingAllocator::new(max_size, prefix, extra_suffix, numeric);
        assert(1 * (max_size as nat) == max_size as nat) by (nonlinear_arith);
        BinarySplitter { allocator, written: Ghost(Seq::empty()) }
    }

    /// Takes the next piece of the stream. The operations returned, carried
    /// out in order, bring the files from what they were to what the bytes
    /// fed so far, this piece included, require.
    pub fn feed(&mut self, chunk: &[u8]) -> (ops: Vec<FileOp>)
        requires
            old(self).wf(),
        ensures
            final(self).wf(),
            final(self).written@ == old(self).written@ + chunk@,
            final(self).allocator.limit == old(self).allocator.limit,
            final(self).allocator.naming() == old(self).allocator.naming(),
            apply_ops(old(self).files(), file_ops_view(ops@)) == final(self).files(),
    {
        let mut ops: Vec<FileOp> = Vec::new();
        let mut offset: usize = 0;
        assert(file_ops_view(ops@) =~= Seq::<OpModel<u8>>::empty());
        assert(self.written@ + chunk@.take(0) =~= self.written@);
        while offset < chunk.len()
            invariant
                offset <= chunk.len(),
                self.wf(),
                self.allocator.limit == old(self).allocator.limit,
                self.allocator.naming() == old(self).allocator.naming(),
                self.written@ == old(self).written@ + chunk@.take(offset as int),
                apply_ops(old(self).files(), file_ops_view(ops@)) == self.files(),
            decreases chunk.len() - offset,
        {
            let ghost start = old(self).files();
            let ghost w = self.written@;
            let ghost limit = self.allocator.limit as nat;
            let ghost naming = self.allocator.naming();
            let ghost count = self.allocator.rolled@ + 1;
            let ghost room_before = self.allocator.available as nat;
            let ghost files_before = self.files();
            let ghost done = file_ops_view(ops@);
            let opened = self.allocator.ensure_capacity();
            match opened {
                Some(name) => {
                    ops.push(FileOp::Open(name));
                    proof {
                        assert(file_ops_view(ops@) =~= done.push(OpModel::Open(name@)));
                        lemma_apply_push(start, done, OpModel::Open(name@));
                    }
                },
                None => {},
            }
            let ghost opened_done = file_ops_view(ops@);
            let room = self.allocator.available;
            let remaining = chunk.len() - offset;
            let n: usize = if remaining as u64 <= room {
                remaining
            } else {
                room as usize
            };
            let data = slice_to_vec(slice_subrange(chunk, offset, offset + n));
            proof {
                let contents = groups(w, limit);
                if room_before == 0 {
                    lemma_roll(w, data@, limit, count);
                    lemma_named_push(contents, naming, data@);
                    let opened_files = files_before.push(
                        FileModel { name: self.allocator.current_name(), content: Seq::empty() },
                    );
                    assert(apply_ops(start, opened_done) == opened_files);
                    assert(Seq::<u8>::empty() + data@ =~= data@);
                    assert(apply_op(opened_files, OpModel::Append(data@)) =~= files_before.push(
                        FileModel { name: self.allocator.current_name(), content: data@ },
                    ));
                } else {
                    lemma_fill(w, data@, limit, count, room_before);
                    lemma_named_update(contents, naming, count - 1, contents[count - 1] + data@);
                    assert(apply_ops(start, opened_done) == files_before);
                }
                assert(chunk@.take(offset + n) =~= chunk@.take(offset as int) + data@);
                assert(old(self).written@ + chunk@.take(offset + n) =~= w + data@);
            }
            ops.push(FileOp::Write(data));
            proof {
                assert(file_ops_view(ops@) =~= opened_done.push(OpModel::Append(data@)));
                lemma_apply_push(start, opened_done, OpModel::Append(data@));
            }
            self.allocator.consume(n as u64);
            self.written = Ghost(self.written@ + data@);
            offset += n;
        }
        assert(chunk@.take(offset as int) =~= chunk@);
        ops
    }
}

/// The prefix of the file names: the one asked for, or `x`.
pub open spec fn prefix_or_default(prefix: Option<Seq<char>>) -> Seq<char> {
    match prefix {
        Some(p) => p,
        None => seq!['x'],
    }
}

/// The extra suffix of the file names: the one asked for, or none.
pub open spec fn extra_suffix_or_default(extra_suffix: Option<Seq<char>>) -> Seq<char> {
    match extra_suffix {
        Some(e) => e,
        None => Seq::empty(),
    }
}

/// How the options name the files.
pub open spec fn binary_naming(options: BinaryOptionsView) -> Naming {
    Naming {
        prefix: prefix_or_default(options.prefix),
        extra_suffix: extra_suffix_or_default(options.extra_suffix),
        numeric: options.is_numerical_suffix,
    }
}

/// The prefix of the file names: the one given, or `x`.
pub fn prefix_text(prefix: &Option<String>) -> (r: &str)
    ensures
        r@ == prefix_or_default(text_of(*prefix)),
{
    proof {
        reveal_strlit("x");
    }
    match prefix {
        Some(p) => p.as_str(),
        None => {
            assert("x"@ =~= seq!['x']);
            "x"
        },
    }
}

/// The extra suffix of the file names: the one given, or none.
pub fn extra_suffix_text(extra_suffix: &Option<String>) -> (r: &str)
    ensures
        r@ == extra_suffix_or_default(text_of(*extra_suffix)),
{
    proof {
        reveal_strlit("");
    }
    match extra_suffix {
        Some(e) => e.as_str(),
        None => {
            assert(""@ =~= Seq::<char>::empty());
            ""
        },
    }
}

impl BinarySplitter {
    /// The run that the options ask for.
    pub fn from_options(opts: &BinaryOptions) -> (r: BinarySplitter)
        requires
            opts.max_size > 0,
        ensures
            r.wf(),
            r.written@ == Seq::<u8>::empty(),
            r.allocator.limit == opts.max_size,
            r.allocator.rolled@ == 0,
            r.allocator.naming() == binary_naming(opts@),
    {
        BinarySplitter::new(
            opts.unit().limit(),
            prefix_text(&opts.prefix),
            extra_suffix_text(&opts.extra_suffix),
            opts.is_numerical_suffix,
        )
    }
}

/// Splits `input` as the options ask: the files that the run leaves, in
/// order.
pub fn split_binary(opts: &BinaryOptions, input: &[u8]) -> (files: Vec<OutputFile>)
    requires
        opts.max_size > 0,
    ensures
        files_view(files@) == binary_files(input@, opts.max_size as nat, binary_naming(opts@)),
{
    let mut splitter = BinarySplitter::from_options(opts);
    let mut files: Vec<OutputFile> = Vec::new();
    files.push(OutputFile { name: splitter.allocator.file_name(), content: Vec::new() });
    proof {
        let limit = opts.max_size as nat;
        assert(0 * limit == 0) by (nonlinear_arith);
        assert(groups(Seq::<u8>::empty(), limit)[0] =~= Seq::<u8>::empty());
        assert(files_view(files@) =~= splitter.files());
        assert(Seq::<u8>::empty() + input@ =~= input@);
    }
    let ops = splitter.feed(input);
    perform(&mut files, ops);
    files
}

/// File `k` of `files` has the name of file `k`, holds no more than the
/// limit, and holds exactly the limit unless it is the last.
pub open spec fn is_sized<T>(files: Seq<FileModel<T>>, k: int, limit: nat, naming: Naming) -> bool {
    &&& files[k].name == file_name_at(naming, k as nat)
    &&& files[k].content.len() <= limit
    &&& k + 1 < files.len() ==> files[k].content.len() == limit
}

/// What splitting bytes comes to. The files, laid end to end in their order,
/// are the input. There are as many as the length of the input divided by
/// the limit, rounded up, and one where the input is empty. Every file but
/// the last holds exactly the limit, and the last no more. The files are
/// named in order, no two alike.
pub proof fn lemma_binary_split(data: Seq<u8>, limit: nat, naming: Naming)
    requires
        limit > 0,
    ensures
        joined(contents_of(binary_files(data, limit, naming))) == data,
        binary_files(data, limit, naming).len() == file_count(data.len(), limit),
        data.len() == 0 ==> binary_files(data, limit, naming).len() == 1,
        data.len() > 0 ==> binary_files(data, limit, naming).len() == (data.len() + limit - 1) / (
        limit as int),
        forall|k: int|
            0 <= k < binary_files(data, limit, naming).len() ==> #[trigger] is_sized(
                binary_files(data, limit, naming),
                k,
                limit,
                naming,
            ),
        forall|k: int|
            0 <= k < binary_files(data, limit, naming).len() && data.len() > 0 ==> (
            #[trigger] binary_files(data, limit, naming)[k]).content.len() > 0,
        forall|i: int, j: int|
            0 <= i < j < binary_files(data, limit, naming).len() ==> (#[trigger] binary_files(
                data,
                limit,
                naming,
            )[i]).name != (#[trigger] binary_files(data, limit, naming)[j]).name,
{
    let files = binary_files(data, limit, naming);
    lemma_groups_join(data, limit);
    lemma_file_count_rounds_up(data.len(), limit);
    assert(contents_of(files) =~= groups(data, limit));
    assert forall|k: int| 0 <= k < files.len() implies #[trigger] is_sized(
        files,
        k,
        limit,
        naming,
    ) by {
        lemma_group_sizes(data, limit, k);
    }
    assert forall|k: int| 0 <= k < files.len() && data.len() > 0 implies (
    #[trigger] files[k]).content.len() > 0 by {
        lemma_group_sizes(data, limit, k);
    }
    assert forall|i: int, j: int| 0 <= i < j < files.len() implies (#[trigger] files[i]).name != (
    #[trigger] files[j]).name by {
        lemma_file_names_differ(naming, i as nat, j as nat);
    }
}

} // verus!
