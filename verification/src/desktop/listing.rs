//! Directory listings as the file browser shows them: the entries of a directory
//! with what the file system says of them, directories first and then by name,
//! and the totals of a directory tree.
use crate::paths::{extension, path_extension};
use crate::ranking::{sort_stable, stable_sorted, views, Ranked};
use crate::text::{chars_lt, lemma_chars_lt_irreflexive, lemma_chars_lt_transitive, lowercase, spec_lowercase, str_less};
use vstd::prelude::*;

verus! {

/// An entry of a directory.
#[derive(Debug, Clone)]
pub struct FileInfo {
    pub name: String,
    pub path: String,
    pub is_dir: bool,
    pub size: u64,
    pub modified: u64,
    pub extension: Option<String>,
}

/// The content of a [`FileInfo`].
pub struct FileInfoView {
    pub name: Seq<char>,
    pub path: Seq<char>,
    pub is_dir: bool,
    pub size: u64,
    pub modified: u64,
    pub extension: Option<Seq<char>>,
}

impl View for FileInfo {
    type V = FileInfoView;

    open spec fn view(&self) -> FileInfoView {
        FileInfoView {
            name: self.name@,
            path: self.path@,
            is_dir: self.is_dir,
            size: self.size,
            modified: self.modified,
            extension: match self.extension {
                Some(e) => Some(e@),
                None => None,
            },
        }
    }
}

/// The order of a directory listing: directories before files, then by name.
#[derive(Debug, Clone, Copy, PartialEq, Eq)]
pub enum ListingOrder {
    DirectoriesFirst,
}

/// The order of names: ascending by character.
#[derive(Debug, Clone, Copy, PartialEq, Eq)]
pub enum NameOrder {
    Ascending,
}

/// The order of a listing: directories before files, then by name.
pub open spec fn listed_before(a: FileInfoView, b: FileInfoView) -> bool {
    (a.is_dir && !b.is_dir) || (a.is_dir == b.is_dir && chars_lt(a.name, b.name))
}

impl Ranked for FileInfo {
    type Order = ListingOrder;

    open spec fn rank_lt(order: ListingOrder, a: FileInfoView, b: FileInfoView) -> bool {
        listed_before(a, b)
    }

    proof fn lemma_rank_lt_strict(order: ListingOrder, a: FileInfoView, b: FileInfoView, c: FileInfoView) {
        lemma_chars_lt_irreflexive(a.name);
        if listed_before(a, b) && listed_before(b, c) && a.is_dir == b.is_dir && b.is_dir == c.is_dir {
            lemma_chars_lt_transitive(a.name, b.name, c.name);
        }
    }

    fn ranks_before(order: ListingOrder, a: &FileInfo, b: &FileInfo) -> (r: bool) {
        (a.is_dir && !b.is_dir) || (a.is_dir == b.is_dir && str_less(a.name.as_str(), b.name.as_str()))
    }
}

impl Ranked for String {
    type Order = NameOrder;

    open spec fn rank_lt(order: NameOrder, a: Seq<char>, b: Seq<char>) -> bool {
        chars_lt(a, b)
    }

    proof fn lemma_rank_lt_strict(order: NameOrder, a: Seq<char>, b: Seq<char>, c: Seq<char>) {
        lemma_chars_lt_irreflexive(a);
        if chars_lt(a, b) && chars_lt(b, c) {
            lemma_chars_lt_transitive(a, b, c);
        }
    }

    fn ranks_before(order: NameOrder, a: &String, b: &String) -> (r: bool) {
        str_less(a.as_str(), b.as_str())
    }
}

/// The lower-case extension of `path`, if it has one.
pub open spec fn lower_extension(path: Seq<char>) -> Option<Seq<char>> {
    match extension(path) {
        Some(e) => Some(spec_lowercase(e)),
        None => None,
    }
}

/// The entry `name` at `path`, with what the file system says of it; its
/// extension is taken from the path, in lower case.
pub fn file_info(name: String, path: String, is_dir: bool, size: u64, modified: u64) -> (r: FileInfo)
    ensures
        r@ == (FileInfoView {
            name: name@,
            path: path@,
            is_dir,
            size,
            modified,
            extension: lower_extension(path@),
        }),
{
    let extension = match path_extension(path.as_str()) {
        Some(e) => Some(lowercase(e.as_str())),
        None => None,
    };
    FileInfo { name, path, is_dir, size, modified, extension }
}

/// The entries of a directory, directories first and then by name; entries that
/// tie keep their order.
pub fn sort_listing(entries: Vec<FileInfo>) -> (r: Vec<FileInfo>)
    ensures
        views(r@) == stable_sorted::<FileInfo>(ListingOrder::DirectoriesFirst, views(entries@)),
{
    sort_stable(ListingOrder::DirectoriesFirst, entries)
}

/// Names in ascending order.
pub fn sort_names(names: Vec<String>) -> (r: Vec<String>)
    ensures
        views(r@) == stable_sorted::<String>(NameOrder::Ascending, views(names@)),
{
    sort_stable(NameOrder::Ascending, names)
}

/// The totals of a directory tree.
#[derive(Debug, Clone, Copy, PartialEq, Eq)]
pub struct DirectoryStats {
    pub total_files: u64,
    pub total_size: u64,
    pub directory_count: u64,
}

/// How many of the entries are directories.
pub open spec fn dir_count(entries: Seq<(bool, u64)>) -> nat
    decreases entries.len(),
{
    if entries.len() == 0 {
        0
    } else {
        dir_count(entries.drop_last()) + if entries.last().0 {
            1nat
        } else {
            0nat
        }
    }
}

/// How many of the entries are files, and their total size.
pub open spec fn file_totals(entries: Seq<(bool, u64)>) -> (nat, nat)
    decreases entries.len(),
{
    if entries.len() == 0 {
        (0, 0)
    } else {
        let (n, size) = file_totals(entries.drop_last());
        if entries.last().0 {
            (n, size)
        } else {
            (n + 1, size + entries.last().1 as nat)
        }
    }
}

/// The totals classify entries by their directory flag alone: the directory
/// count is the number of entries flagged as directories, the file count the
/// number of the others, and the total size the sum of the sizes of those others.
pub proof fn law_directory_totals_by_flag(entries: Seq<(bool, u64)>)
    ensures
        dir_count(entries) == entries.filter(|x: (bool, u64)| x.0).len(),
        file_totals(entries).0 == entries.filter(|x: (bool, u64)| !x.0).len(),
        file_totals(entries).1 == entries.filter(|x: (bool, u64)| !x.0).fold_left(
            0nat,
            |acc: nat, x: (bool, u64)| acc + x.1 as nat,
        ),
    decreases entries.len(),
{
    let is_dir = |x: (bool, u64)| x.0;
    let is_file = |x: (bool, u64)| !x.0;
    let plus = |acc: nat, x: (bool, u64)| acc + x.1 as nat;
    reveal(Seq::filter);
    if entries.len() > 0 {
        let rest = entries.drop_last();
        let x = entries.last();
        law_directory_totals_by_flag(rest);
        assert(entries.filter(is_dir) == if x.0 { rest.filter(is_dir).push(x) } else { rest.filter(is_dir) });
        assert(entries.filter(is_file) == if x.0 { rest.filter(is_file) } else { rest.filter(is_file).push(x) });
        if !x.0 {
            let fs = rest.filter(is_file);
            assert(fs.push(x).drop_last() =~= fs);
            assert(fs.push(x).fold_left(0nat, plus) == plus(fs.fold_left(0nat, plus), x));
        }
    }
}

proof fn lemma_counts_bounded(entries: Seq<(bool, u64)>)
    ensures
        dir_count(entries) + file_totals(entries).0 == entries.len(),
    decreases entries.len(),
{
    if entries.len() > 0 {
        lemma_counts_bounded(entries.drop_last());
    }
}

proof fn lemma_size_monotone(entries: Seq<(bool, u64)>, k: int)
    requires
        0 <= k <= entries.len(),
    ensures
        file_totals(entries.take(k)).1 <= file_totals(entries).1,
    decreases entries.len() - k,
{
    if k < entries.len() {
        lemma_size_monotone(entries, k + 1);
        assert(entries.take(k + 1).drop_last() =~= entries.take(k));
    } else {
        assert(entries.take(k) =~= entries);
    }
}

/// The totals of a directory tree, from each entry under it (whether it is a
/// directory, and its size); directories count by number only.
pub fn get_directory_stats(entries: &Vec<(bool, u64)>) -> (r: DirectoryStats)
    requires
        file_totals(entries@).1 <= u64::MAX,
    ensures
        r.directory_count == dir_count(entries@),
        r.total_files == file_totals(entries@).0,
        r.total_size == file_totals(entries@).1,
{
    let mut stats = DirectoryStats { total_files: 0, total_size: 0, directory_count: 0 };
    let mut i: usize = 0;
    proof {
        assert(entries@.take(0) =~= Seq::<(bool, u64)>::empty());
    }
    while i < entries.len()
        invariant
            i <= entries@.len(),
            file_totals(entries@).1 <= u64::MAX,
            stats.directory_count == dir_count(entries@.take(i as int)),
            stats.total_files == file_totals(entries@.take(i as int)).0,
            stats.total_size == file_totals(entries@.take(i as int)).1,
        decreases entries@.len() - i,
    {
        proof {
            assert(entries@.take(i + 1).drop_last() =~= entries@.take(i as int));
            assert(entries@.take(i + 1).last() == entries@[i as int]);
            lemma_counts_bounded(entries@.take(i + 1));
            lemma_size_monotone(entries@, i + 1);
        }
        let (is_dir, size) = entries[i];
        if is_dir {
            stats.directory_count = stats.directory_count + 1;
        } else {
            stats.total_files = stats.total_files + 1;
            stats.total_size = stats.total_size + size;
        }
        i = i + 1;
    }
    proof {
        assert(entries@.take(entries@.len() as int) =~= entries@);
    }
    stats
}

} // verus!
