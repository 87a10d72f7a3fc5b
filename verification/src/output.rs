//! What a run puts out: operations on files, for the caller to carry out,
//! and the files that they leave.

use crate::rolling::joined;
use vstd::prelude::*;

verus! {

/// An output file as the run leaves it: its name and all that was written to
/// it.
pub struct FileModel<T> {
    pub name: Seq<char>,
    pub content: Seq<T>,
}

/// One operation on the output, in terms of what it does to the files.
pub enum OpModel<T> {
    /// Close the open file and open a new, empty one of this name.
    Open(Seq<char>),
    /// Write this at the end of the open file.
    Append(Seq<T>),
}

/// The files after one operation has been carried out. Writing where no
/// file is open does nothing.
pub open spec fn apply_op<T>(files: Seq<FileModel<T>>, op: OpModel<T>) -> Seq<FileModel<T>> {
    match op {
        OpModel::Open(name) => files.push(FileModel { name, content: Seq::empty() }),
        OpModel::Append(data) => if files.len() == 0 {
            files
        } else {
            files.update(
                files.len() - 1,
                FileModel { name: files.last().name, content: files.last().content + data },
            )
        },
    }
}

/// The files after the operations have been carried out in order.
pub open spec fn apply_ops<T>(files: Seq<FileModel<T>>, ops: Seq<OpModel<T>>) -> Seq<
    FileModel<T>,
>
    decreases ops.len(),
{
    if ops.len() == 0 {
        files
    } else {
        apply_op(apply_ops(files, ops.drop_last()), ops.last())
    }
}

/// An operation on the output files of a run.
#[derive(Debug, PartialEq, Eq)]
pub enum FileOp {
    /// Close the open file; create the file of this name, empty, and go on
    /// writing there.
    Open(String),
    /// Write these bytes to the open file.
    Write(Vec<u8>),
}

impl View for FileOp {
    type V = OpModel<u8>;

    open spec fn view(&self) -> OpModel<u8> {
        match self {
            FileOp::Open(name) => OpModel::Open(name@),
            FileOp::Write(data) => OpModel::Append(data@),
        }
    }
}

/// What the operations do to the files, in order.
pub open spec fn file_ops_view(ops: Seq<FileOp>) -> Seq<OpModel<u8>> {
    Seq::new(ops.len(), |i: int| ops[i]@)
}

/// Carrying out one more operation at the end.
pub proof fn lemma_apply_push<T>(files: Seq<FileModel<T>>, ops: Seq<OpModel<T>>, op: OpModel<T>)
    ensures
        apply_ops(files, ops.push(op)) == apply_op(apply_ops(files, ops), op),
{
    assert(ops.push(op).drop_last() =~= ops);
}

/// Carrying out a single operation.
pub proof fn lemma_apply_one<T>(files: Seq<FileModel<T>>, op: OpModel<T>)
    ensures
        apply_ops(files, seq![op]) == apply_op(files, op),
{
    let none = Seq::<OpModel<T>>::empty();
    assert(seq![op] =~= none.push(op));
    lemma_apply_push(files, none, op);
}

/// Carrying out one list of operations behind another.
pub proof fn lemma_apply_concat<T>(files: Seq<FileModel<T>>, a: Seq<OpModel<T>>, b: Seq<OpModel<T>>)
    ensures
        apply_ops(files, a + b) == apply_ops(apply_ops(files, a), b),
    decreases b.len(),
{
    if b.len() == 0 {
        assert(a + b =~= a);
    } else {
        lemma_apply_concat(files, a, b.drop_last());
        assert((a + b).drop_last() =~= a + b.drop_last());
        assert((a + b).last() == b.last());
    }
}

/// An output file held in memory.
#[derive(Debug, PartialEq, Eq)]
pub struct OutputFile {
    pub name: String,
    pub content: Vec<u8>,
}

impl View for OutputFile {
    type V = FileModel<u8>;

    open spec fn view(&self) -> FileModel<u8> {
        FileModel { name: self.name@, content: self.content@ }
    }
}

/// The files as names and contents, in order.
pub open spec fn files_view(files: Seq<OutputFile>) -> Seq<FileModel<u8>> {
    Seq::new(files.len(), |i: int| files[i]@)
}

/// Carries the operations out, in order, on files held in memory.
pub fn perform(files: &mut Vec<OutputFile>, ops: Vec<FileOp>)
    ensures
        files_view(final(files)@) == apply_ops(files_view(old(files)@), file_ops_view(ops@)),
{
    let ghost start = files_view(files@);
    let mut ops = ops;
    let ghost all = file_ops_view(ops@);
    let mut i: usize = 0;
    let n = ops.len();
    assert(all.take(0) =~= Seq::<OpModel<u8>>::empty());
    while i < n
        invariant
            i <= n,
            n == ops.len(),
            all.len() == n,
            forall|k: int| i <= k < n ==> (#[trigger] ops@[k])@ == all[k],
            files_view(files@) == apply_ops(start, all.take(i as int)),
        decreases n - i,
    {
        let mut op = FileOp::Write(Vec::new());
        std::mem::swap(&mut ops[i], &mut op);
        let ghost before = files_view(files@);
        proof {
            assert(all.take(i + 1).drop_last() =~= all.take(i as int));
            assert(all.take(i + 1).last() == all[i as int]);
        }
        match op {
            FileOp::Open(name) => {
                files.push(OutputFile { name, content: Vec::new() });
                assert(files_view(files@) =~= apply_op(before, all[i as int]));
            },
            FileOp::Write(mut data) => {
                let m = files.len();
                if m > 0 {
                    files[m - 1].content.append(&mut data);
                    assert(files_view(files@) =~= apply_op(before, all[i as int]));
                }
            },
        }
        i += 1;
    }
    assert(all.take(n as int) =~= all);
}

/// What each file of `files` holds, in the order of the files.
pub open spec fn contents_of<T>(files: Seq<FileModel<T>>) -> Seq<Seq<T>> {
    Seq::new(files.len(), |k: int| files[k].content)
}

/// Puts files together again: what they hold, laid end to end in their
/// order.
pub fn combine(files: &Vec<OutputFile>) -> (r: Vec<u8>)
    ensures
        r@ == joined(contents_of(files_view(files@))),
{
    let ghost contents = contents_of(files_view(files@));
    let mut out: Vec<u8> = Vec::new();
    let mut i: usize = 0;
    assert(contents.take(0) =~= Seq::<Seq<u8>>::empty());
    while i < files.len()
        invariant
            i <= files.len(),
            contents == contents_of(files_view(files@)),
            out@ == joined(contents.take(i as int)),
        decreases files.len() - i,
    {
        let mut j: usize = 0;
        let ghost before = out@;
        let content = &files[i].content;
        while j < content.len()
            invariant
                j <= content.len(),
                out@ == before + content@.take(j as int),
            decreases content.len() - j,
        {
            out.push(content[j]);
            j += 1;
            assert(out@ =~= before + content@.take(j as int));
        }
        proof {
            assert(content@.take(j as int) =~= content@);
            assert(contents.take(i + 1).drop_last() =~= contents.take(i as int));
            assert(contents.take(i + 1).last() == content@);
        }
        i += 1;
    }
    assert(contents.take(i as int) =~= contents);
    out
}

} // verus!
