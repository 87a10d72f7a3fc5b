//! The rolling allocator. It counts what the open output file can still
//! take, and when that is nothing it names the next file. It opens no file
//! itself: it says what is to be opened and written, as a list of
//! operations, and the caller carries them out in order.

use crate::output::FileModel;
use crate::suffix::{
    first_suffix, first_suffix_text, get_next_suffix, lemma_suffix_at_valid,
    lemma_suffixes_increase, next_suffix, suffix_at,
};
use vstd::prelude::*;

verus! {

/// How the files of a run are named: a prefix, the file's suffix, and an
/// extra suffix behind it.
pub struct Naming {
    pub prefix: Seq<char>,
    pub extra_suffix: Seq<char>,
    pub numeric: bool,
}

/// The name of file number `k` of a run, counted from zero.
pub open spec fn file_name_at(naming: Naming, k: nat) -> Seq<char> {
    naming.prefix + suffix_at(k, naming.numeric) + naming.extra_suffix
}

/// The files of a run with the given contents, named in order.
pub open spec fn named_files<T>(contents: Seq<Seq<T>>, naming: Naming) -> Seq<FileModel<T>> {
    Seq::new(
        contents.len(),
        |k: int| FileModel { name: file_name_at(naming, k as nat), content: contents[k] },
    )
}

/// The text of the name, if there is one.
pub open spec fn name_of(name: Option<String>) -> Option<Seq<char>> {
    match name {
        Some(n) => Some(n@),
        None => None,
    }
}

/// The name of the first file of a run.
pub fn first_file_name(prefix: &str, extra_suffix: &str, numeric: bool) -> (r: String)
    ensures
        r@ == file_name_at(Naming { prefix: prefix@, extra_suffix: extra_suffix@, numeric }, 0),
{
    let mut name = String::from_str(prefix);
    name.append(first_suffix_text(numeric).as_str());
    name.append(extra_suffix);
    name
}

/// Counts what the open file can still take, and names the files.
pub struct RollingAllocator {
    /// What each file may take.
    pub limit: u64,
    /// What the open file can still take.
    pub available: u64,
    /// The suffix of the open file.
    pub suffix: String,
    pub prefix: String,
    pub extra_suffix: String,
    pub numeric: bool,
    /// How many files the run has opened behind its first.
    pub rolled: Ghost<nat>,
}

impl RollingAllocator {
    /// How this allocator names its files.
    pub open spec fn naming(&self) -> Naming {
        Naming {
            prefix: self.prefix@,
            extra_suffix: self.extra_suffix@,
            numeric: self.numeric,
        }
    }

    /// The limit is not zero, no more is available than the limit, and the
    /// suffix is that of the open file.
    pub open spec fn wf(&self) -> bool {
        &&& self.limit > 0
        &&& self.available <= self.limit
        &&& self.suffix@ == suffix_at(self.rolled@, self.numeric)
    }

    /// The open file is full: before anything more is written, the next
    /// file has to be opened.
    pub open spec fn needs_roll(&self) -> bool {
        self.available == 0
    }

    /// The name of the open file.
    pub open spec fn current_name(&self) -> Seq<char> {
        file_name_at(self.naming(), self.rolled@)
    }

    /// The two allocators differ at most in what the open file can take.
    pub open spec fn same_file(&self, other: &RollingAllocator) -> bool {
        &&& self.limit == other.limit
        &&& self.suffix@ == other.suffix@
        &&& self.naming() == other.naming()
        &&& self.rolled@ == other.rolled@
    }

    /// An allocator for a run that has just opened its first file.
    pub fn new(limit: u64, prefix: &str, extra_suffix: &str, numeric: bool) -> (r:
        RollingAllocator)
        requires
            limit > 0,
        ensures
            r.wf(),
            r.limit == limit,
            r.available == limit,
            r.rolled@ == 0,
            r.suffix@ == first_suffix(numeric),
            r.naming() == (Naming {
                prefix: prefix@,
                extra_suffix: extra_suffix@,
                numeric,
            }),
    {
        RollingAllocator {
            limit,
            available: limit,
            suffix: first_suffix_text(numeric),
            prefix: String::from_str(prefix),
            extra_suffix: String::from_str(extra_suffix),
            numeric,
            rolled: Ghost(0),
        }
    }

    /// The name of the open file: the prefix, the suffix, the extra suffix.
    pub fn file_name(&self) -> (r: String)
        requires
            self.wf(),
        ensures
            r@ == self.current_name(),
    {
        let mut name = self.prefix.clone();
        name.append(self.suffix.as_str());
        name.append(self.extra_suffix.as_str());
        name
    }

    /// Makes sure that the open file can take something. Where it can,
    /// nothing changes and nothing is returned. Where it is full, the next
    /// file becomes the open one, with the whole limit available, and its
    /// name is returned for the caller to open it.
    pub fn ensure_capacity(&mut self) -> (r: Option<String>)
        requires
            old(self).wf(),
        ensures
            final(self).wf(),
            !final(self).needs_roll(),
            final(self).limit == old(self).limit,
            final(self).naming() == old(self).naming(),
            !old(self).needs_roll() ==> r.is_none() && *final(self) == *old(self),
            old(self).needs_roll() ==> final(self).available == old(self).limit,
            old(self).needs_roll() ==> final(self).rolled@ == old(self).rolled@ + 1,
            old(self).needs_roll() ==> final(self).suffix@ == next_suffix(
                old(self).suffix@,
                old(self).numeric,
            ),
            old(self).needs_roll() ==> name_of(r) == Some(final(self).current_name()),
    {
        if self.available > 0 {
            return None;
        }
        proof {
            lemma_suffix_at_valid(self.rolled@, self.numeric);
        }
        let next = get_next_suffix(self.suffix.as_str(), self.numeric);
        self.suffix = next;
        self.available = self.limit;
        self.rolled = Ghost((self.rolled@ + 1) as nat);
        Some(self.file_name())
    }

    /// Takes `n` from what the open file can still take.
    pub fn consume(&mut self, n: u64)
        requires
            old(self).wf(),
            n <= old(self).available,
        ensures
            final(self).wf(),
            final(self).available == old(self).available - n,
            final(self).same_file(old(self)),
    {
        self.available = self.available - n;
    }
}

/// Naming the files commutes with adding a file at the end.
pub proof fn lemma_named_push<T>(contents: Seq<Seq<T>>, naming: Naming, content: Seq<T>)
    ensures
        named_files(contents.push(content), naming) == named_files(contents, naming).push(
            FileModel { name: file_name_at(naming, contents.len()), content },
        ),
{
    assert(named_files(contents.push(content), naming) =~= named_files(contents, naming).push(
        FileModel { name: file_name_at(naming, contents.len()), content },
    ));
}

/// Naming the files commutes with changing what one file holds.
pub proof fn lemma_named_update<T>(
    contents: Seq<Seq<T>>,
    naming: Naming,
    k: int,
    content: Seq<T>,
)
    requires
        0 <= k < contents.len(),
    ensures
        named_files(contents.update(k, content), naming) == named_files(contents, naming).update(
            k,
            FileModel { name: file_name_at(naming, k as nat), content },
        ),
{
    assert(named_files(contents.update(k, content), naming) =~= named_files(
        contents,
        naming,
    ).update(k, FileModel { name: file_name_at(naming, k as nat), content }));
}

/// No two files of a run have the same name.
pub proof fn lemma_file_names_differ(naming: Naming, i: nat, j: nat)
    requires
        i != j,
    ensures
        file_name_at(naming, i) != file_name_at(naming, j),
{
    let a = suffix_at(i, naming.numeric);
    let b = suffix_at(j, naming.numeric);
    if i < j {
        lemma_suffixes_increase(i, j, naming.numeric);
    } else {
        lemma_suffixes_increase(j, i, naming.numeric);
    }
    let x = file_name_at(naming, i);
    let y = file_name_at(naming, j);
    if x == y {
        let p = naming.prefix.len() as int;
        assert(x.len() == p + a.len() + naming.extra_suffix.len());
        assert(y.len() == p + b.len() + naming.extra_suffix.len());
        assert(x.subrange(p, p + a.len()) =~= a);
        assert(y.subrange(p, p + b.len()) =~= b);
        assert(false);
    }
}

} // verus!
