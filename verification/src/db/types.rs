//! The orders and rows of the path-keyed store.
use crate::ranking::Ranked;
use crate::text::{chars_lt, lemma_chars_lt_connected, lemma_chars_lt_irreflexive, lemma_chars_lt_transitive, str_equal, str_less, views_of_strings};
use vstd::prelude::*;

verus! {

/// The order of a file listing.
#[derive(Debug, Clone, Copy, PartialEq, Eq)]
pub enum FilesOrderBy {
    Id,
    Path,
}

impl FilesOrderBy {
    /// The SQL clause that orders a file listing this way.
    pub fn to_sql_clause(&self) -> (r: &'static str)
        ensures
            *self == FilesOrderBy::Id ==> r@ == "ORDER BY f.id"@,
            *self == FilesOrderBy::Path ==> r@ == "ORDER BY f.path"@,
    {
        match self {
            FilesOrderBy::Id => "ORDER BY f.id",
            FilesOrderBy::Path => "ORDER BY f.path",
        }
    }
}

/// A file with the names of its tags.
#[derive(Debug, Clone)]
pub struct FileWithTags {
    pub id: i64,
    pub path: String,
    pub tags: Vec<String>,
}

/// The content of a [`FileWithTags`].
pub struct FileTagsView {
    pub id: i64,
    pub path: Seq<char>,
    pub tags: Seq<Seq<char>>,
}

impl View for FileWithTags {
    type V = FileTagsView;

    open spec fn view(&self) -> FileTagsView {
        FileTagsView { id: self.id, path: self.path@, tags: views_of_strings(self.tags@) }
    }
}

/// A file of the store: its id and its path.
#[derive(Debug, Clone)]
pub struct FileRow {
    pub id: i64,
    pub path: String,
}

/// The content of a [`FileRow`].
pub struct RowView {
    pub id: i64,
    pub path: Seq<char>,
}

impl View for FileRow {
    type V = RowView;

    open spec fn view(&self) -> RowView {
        RowView { id: self.id, path: self.path@ }
    }
}

/// `a` is listed before `b`: by id, or by path and then id.
pub open spec fn row_before(order: FilesOrderBy, a: RowView, b: RowView) -> bool {
    match order {
        FilesOrderBy::Id => a.id < b.id,
        FilesOrderBy::Path => chars_lt(a.path, b.path) || (a.path == b.path && a.id < b.id),
    }
}

pub proof fn lemma_row_before_total(order: FilesOrderBy, a: RowView, b: RowView)
    requires
        a.id != b.id,
    ensures
        row_before(order, a, b) || row_before(order, b, a),
{
    if a.path != b.path {
        lemma_chars_lt_connected(a.path, b.path);
    }
}

impl Ranked for FileRow {
    type Order = FilesOrderBy;

    open spec fn rank_lt(order: FilesOrderBy, a: RowView, b: RowView) -> bool {
        row_before(order, a, b)
    }

    proof fn lemma_rank_lt_strict(order: FilesOrderBy, a: RowView, b: RowView, c: RowView) {
        lemma_chars_lt_irreflexive(a.path);
        if row_before(order, a, b) && row_before(order, b, c) && order == FilesOrderBy::Path {
            if chars_lt(a.path, b.path) && chars_lt(b.path, c.path) {
                lemma_chars_lt_transitive(a.path, b.path, c.path);
            }
        }
    }

    fn ranks_before(order: FilesOrderBy, a: &FileRow, b: &FileRow) -> (r: bool) {
        match order {
            FilesOrderBy::Id => a.id < b.id,
            FilesOrderBy::Path => str_less(a.path.as_str(), b.path.as_str()) || (str_equal(a.path.as_str(), b.path.as_str())
                && a.id < b.id),
        }
    }
}

} // verus!
