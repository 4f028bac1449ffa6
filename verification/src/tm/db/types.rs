//! The rows of the store: files and tags, their views, and the orders in which
//! queries list them.
use crate::ranking::Ranked;
use crate::text::{chars_lt, lemma_chars_lt_irreflexive, lemma_chars_lt_transitive, lemma_chars_lt_connected, str_equal, str_less};
use crate::times::TimePoint;
use vstd::prelude::*;

verus! {

/// A file as the store records it.
#[derive(Debug, Clone)]
pub struct DBFile {
    pub id: i64,
    pub path: String,
    pub size: u64,
    pub content_hash: String,
    pub last_modified: TimePoint,
    pub last_accessed: TimePoint,
    pub created: TimePoint,
}

/// A tag as the store records it.
#[derive(Debug, Clone)]
pub struct DBTag {
    pub id: i64,
    pub name: String,
}

/// The mathematical content of a [`DBFile`].
pub struct FileView {
    pub id: i64,
    pub path: Seq<char>,
    pub size: u64,
    pub content_hash: Seq<char>,
    pub last_modified: TimePoint,
    pub last_accessed: TimePoint,
    pub created: TimePoint,
}

/// The mathematical content of a [`DBTag`].
pub struct TagView {
    pub id: i64,
    pub name: Seq<char>,
}

impl View for DBFile {
    type V = FileView;

    open spec fn view(&self) -> FileView {
        FileView {
            id: self.id,
            path: self.path@,
            size: self.size,
            content_hash: self.content_hash@,
            last_modified: self.last_modified,
            last_accessed: self.last_accessed,
            created: self.created,
        }
    }
}

impl View for DBTag {
    type V = TagView;

    open spec fn view(&self) -> TagView {
        TagView { id: self.id, name: self.name@ }
    }
}

impl DBFile {
    /// A copy with the same content.
    pub fn duplicate(&self) -> (r: DBFile)
        ensures
            r@ == self@,
    {
        DBFile {
            id: self.id,
            path: self.path.clone(),
            size: self.size,
            content_hash: self.content_hash.clone(),
            last_modified: self.last_modified,
            last_accessed: self.last_accessed,
            created: self.created,
        }
    }
}

impl DBTag {
    /// A copy with the same content.
    pub fn duplicate(&self) -> (r: DBTag)
        ensures
            r@ == self@,
    {
        DBTag { id: self.id, name: self.name.clone() }
    }
}

/// The orders in which the store lists files.
#[derive(Clone, Copy, Debug, PartialEq, Eq)]
pub enum FileOrder {
    /// Newest creation time first (`ORDER BY created DESC`).
    CreatedDesc,
    /// Newest modification time first (`ORDER BY last_modified DESC`).
    ModifiedDesc,
    /// By path (`ORDER BY path`).
    Path,
}

/// `a` is listed before `b`; rows that tie on the key go by ascending id.
pub open spec fn file_before(order: FileOrder, a: FileView, b: FileView) -> bool {
    match order {
        FileOrder::CreatedDesc => a.created.secs > b.created.secs || (a.created.secs
            == b.created.secs && a.id < b.id),
        FileOrder::ModifiedDesc => a.last_modified.secs > b.last_modified.secs || (
        a.last_modified.secs == b.last_modified.secs && a.id < b.id),
        FileOrder::Path => chars_lt(a.path, b.path) || (a.path == b.path && a.id < b.id),
    }
}

/// The order in which the store lists tags.
#[derive(Clone, Copy, Debug, PartialEq, Eq)]
pub enum TagOrder {
    /// By name (`ORDER BY name`).
    Name,
}

/// Tags are listed by name, and by id where names tie.
pub open spec fn tag_before(a: TagView, b: TagView) -> bool {
    chars_lt(a.name, b.name) || (a.name == b.name && a.id < b.id)
}

/// Rows with different ids are always ordered one way or the other.
pub proof fn lemma_file_before_total(order: FileOrder, a: FileView, b: FileView)
    requires
        a.id != b.id,
    ensures
        file_before(order, a, b) || file_before(order, b, a),
{
    if a.path != b.path {
        lemma_chars_lt_connected(a.path, b.path);
    }
}

pub proof fn lemma_tag_before_total(a: TagView, b: TagView)
    requires
        a.id != b.id,
    ensures
        tag_before(a, b) || tag_before(b, a),
{
    if a.name != b.name {
        lemma_chars_lt_connected(a.name, b.name);
    }
}

impl Ranked for DBFile {
    type Order = FileOrder;

    open spec fn rank_lt(order: FileOrder, a: FileView, b: FileView) -> bool {
        file_before(order, a, b)
    }

    proof fn lemma_rank_lt_strict(order: FileOrder, a: FileView, b: FileView, c: FileView) {
        lemma_chars_lt_irreflexive(a.path);
        if file_before(order, a, b) && file_before(order, b, c) {
            if order == FileOrder::Path {
                if chars_lt(a.path, b.path) && chars_lt(b.path, c.path) {
                    lemma_chars_lt_transitive(a.path, b.path, c.path);
                }
            }
        }
    }

    fn ranks_before(order: FileOrder, a: &DBFile, b: &DBFile) -> (r: bool) {
        match order {
            FileOrder::CreatedDesc => a.created.secs > b.created.secs || (a.created.secs
                == b.created.secs && a.id < b.id),
            FileOrder::ModifiedDesc => a.last_modified.secs > b.last_modified.secs || (
            a.last_modified.secs == b.last_modified.secs && a.id < b.id),
            FileOrder::Path => str_less(a.path.as_str(), b.path.as_str()) || (str_equal(
                a.path.as_str(),
                b.path.as_str(),
            ) && a.id < b.id),
        }
    }
}

impl Ranked for DBTag {
    type Order = TagOrder;

    open spec fn rank_lt(order: TagOrder, a: TagView, b: TagView) -> bool {
        tag_before(a, b)
    }

    proof fn lemma_rank_lt_strict(order: TagOrder, a: TagView, b: TagView, c: TagView) {
        lemma_chars_lt_irreflexive(a.name);
        if tag_before(a, b) && tag_before(b, c) {
            if chars_lt(a.name, b.name) && chars_lt(b.name, c.name) {
                lemma_chars_lt_transitive(a.name, b.name, c.name);
            }
        }
    }

    fn ranks_before(order: TagOrder, a: &DBTag, b: &DBTag) -> (r: bool) {
        str_less(a.name.as_str(), b.name.as_str()) || (str_equal(a.name.as_str(), b.name.as_str())
            && a.id < b.id)
    }
}

} // verus!
