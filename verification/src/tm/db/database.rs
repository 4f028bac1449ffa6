//! The store of files and tags, kept in memory and checked against [`DbState`].
use crate::ranking::{views, sort_ranked, strictly_ranked, pairwise_comparable, lemma_strictly_ranked_unique};
use crate::text::{owned, str_equal};
use crate::times::{stored_time, TimePoint};
use crate::tm::db::error::DbError;
use crate::tm::db::state::{DbState, time_storable, lemma_file_at, lemma_tag_at, ranked_files, ranked_tags, window, any_file, any_tag, link_of_tag, lemma_filter_take_step, file_other_than, file_path_is_not, tag_other_than, link_not_of_file, link_not_of_tag, link_other_than, time_kept, lemma_filter_files_valid, lemma_filter_tags_valid, lemma_filter_no_duplicates, lemma_filter_contains_iff, lemma_file_kept, lemma_tag_kept, file_path_is, file_hash_is};
use crate::tm::db::types::{DBFile, DBTag, FileOrder, FileView, TagOrder, TagView, file_before, tag_before, lemma_file_before_total, lemma_tag_before_total};
use vstd::prelude::*;

verus! {

/// The tagging store: the `files`, `tags` and `file_tags` tables.
pub struct Database {
    files: Vec<DBFile>,
    tags: Vec<DBTag>,
    links: Vec<(i64, i64)>,
    last_file_id: i64,
    last_tag_id: i64,
}

impl View for Database {
    type V = DbState;

    closed spec fn view(&self) -> DbState {
        DbState {
            files: views(self.files@),
            tags: views(self.tags@),
            links: self.links@,
            last_file_id: self.last_file_id,
            last_tag_id: self.last_tag_id,
        }
    }
}

/// The state after a new file row.
pub open spec fn add_file_row(s: DbState, f: FileView) -> DbState {
    DbState { files: s.files.push(f), last_file_id: f.id, ..s }
}

/// The state after a new tag row.
pub open spec fn add_tag_row(s: DbState, t: TagView) -> DbState {
    DbState { tags: s.tags.push(t), last_tag_id: t.id, ..s }
}

/// The row that `create_file` writes.
pub open spec fn new_file_row(
    id: i64,
    path: Seq<char>,
    size: u64,
    content_hash: Seq<char>,
    last_modified: TimePoint,
    last_accessed: TimePoint,
    created: TimePoint,
) -> FileView {
    FileView {
        id,
        path,
        size,
        content_hash,
        last_modified: stored_time(last_modified),
        last_accessed: stored_time(last_accessed),
        created: stored_time(created),
    }
}

/// Which files a listing takes.
pub enum FileSelect {
    /// Every file.
    Any,
    /// The files with this path.
    PathIs(String),
    /// The files with this content hash.
    HashIs(String),
    /// The files that carry the tag with this id.
    TaggedWith(i64),
    /// The files that carry every tag with one of these names.
    HasAllTags(Vec<String>),
}

/// File `file_id` carries a tag with each of the names.
pub open spec fn carries_all(s: DbState, file_id: i64, names: Seq<String>) -> bool {
    forall|i: int|
        0 <= i < names.len() ==> s.has_tag_named(#[trigger] names[i]@) && s.has_link(
            file_id,
            s.tag_named(names[i]@).id,
        )
}

/// The files that a selection takes, in a state.
pub open spec fn file_selected(sel: FileSelect, s: DbState) -> spec_fn(FileView) -> bool {
    match sel {
        FileSelect::Any => |f: FileView| true,
        FileSelect::PathIs(p) => |f: FileView| f.path == p@,
        FileSelect::HashIs(h) => |f: FileView| f.content_hash == h@,
        FileSelect::TaggedWith(t) => |f: FileView| s.links.contains((f.id, t)),
        FileSelect::HasAllTags(names) => |f: FileView| carries_all(s, f.id, names@),
    }
}

/// Which tags a listing takes.
pub enum TagSelect {
    /// Every tag.
    Any,
    /// The tags of the file with this id.
    OnFile(i64),
}

/// The tags that a selection takes, in a state.
pub open spec fn tag_selected(sel: TagSelect, s: DbState) -> spec_fn(TagView) -> bool {
    match sel {
        TagSelect::Any => |t: TagView| true,
        TagSelect::OnFile(f) => |t: TagView| s.links.contains((f, t.id)),
    }
}

/// The state after the file with id `id` is deleted, with its links.
pub open spec fn without_file(s: DbState, id: i64) -> DbState {
    DbState { files: s.files.filter(file_other_than(id)), links: s.links.filter(link_not_of_file(id)), ..s }
}

/// The state after every file with path `p` is deleted, with their links.
pub open spec fn without_files_at_path(s: DbState, p: Seq<char>) -> DbState {
    DbState {
        files: s.files.filter(file_path_is_not(p)),
        links: s.links.filter(link_survives_path_removal(s, p)),
        ..s
    }
}

/// The state after the tag with id `id` is deleted, with its links.
pub open spec fn without_tag(s: DbState, id: i64) -> DbState {
    DbState { tags: s.tags.filter(tag_other_than(id)), links: s.links.filter(link_not_of_tag(id)), ..s }
}

/// The state with one more link.
pub open spec fn with_link(s: DbState, file_id: i64, tag_id: i64) -> DbState {
    DbState { links: s.links.push((file_id, tag_id)), ..s }
}

/// The state after file `file_id` is linked to tag `tag_id`: a new link when both
/// exist and are not linked yet, otherwise the state as it was.
pub open spec fn link_added(s: DbState, file_id: i64, tag_id: i64) -> DbState {
    if s.has_file(file_id) && s.has_tag(tag_id) && !s.has_link(file_id, tag_id) {
        with_link(s, file_id, tag_id)
    } else {
        s
    }
}

/// The state without the link of file `file_id` to tag `tag_id`.
pub open spec fn without_link(s: DbState, file_id: i64, tag_id: i64) -> DbState {
    DbState { links: s.links.filter(link_other_than(file_id, tag_id)), ..s }
}

/// The state without any link of file `file_id`.
pub open spec fn without_links_of_file(s: DbState, file_id: i64) -> DbState {
    DbState { links: s.links.filter(link_not_of_file(file_id)), ..s }
}

/// The state without the tags that no link refers to.
pub open spec fn without_unused_tags(s: DbState) -> DbState {
    DbState { tags: s.tags.filter(tag_used(s.links)), ..s }
}

/// The state in which the tag with id `id` is called `name`.
pub open spec fn with_tag_renamed(s: DbState, id: i64, name: Seq<char>) -> DbState {
    DbState { tags: s.tags.update(s.tag_index(id), TagView { id, name }), ..s }
}

/// The state in which the file with id `id` is replaced by `f`.
pub open spec fn with_file_replaced(s: DbState, id: i64, f: FileView) -> DbState {
    DbState { files: s.files.update(s.file_index(id), f), ..s }
}

/// A file row with the given columns set and the others as they were.
pub open spec fn updated_file(
    f: FileView,
    path: Option<Seq<char>>,
    size: Option<u64>,
    content_hash: Option<Seq<char>>,
    last_modified: Option<TimePoint>,
    last_accessed: Option<TimePoint>,
    created: Option<TimePoint>,
) -> FileView {
    FileView {
        id: f.id,
        path: match path {
            Some(p) => p,
            None => f.path,
        },
        size: match size {
            Some(z) => z,
            None => f.size,
        },
        content_hash: match content_hash {
            Some(h) => h,
            None => f.content_hash,
        },
        last_modified: match last_modified {
            Some(t) => stored_time(t),
            None => f.last_modified,
        },
        last_accessed: match last_accessed {
            Some(t) => stored_time(t),
            None => f.last_accessed,
        },
        created: match created {
            Some(t) => stored_time(t),
            None => f.created,
        },
    }
}

/// The characters of an optional string.
pub open spec fn opt_chars(s: Option<String>) -> Option<Seq<char>> {
    match s {
        Some(x) => Some(x@),
        None => None,
    }
}

/// A time that is absent or that the store can keep.
pub open spec fn opt_time_storable(t: Option<TimePoint>) -> bool {
    match t {
        Some(x) => time_storable(x),
        None => true,
    }
}

/// The store after `add_tag_by_name_to_file`, or `None` when a new tag id cannot be drawn.
pub open spec fn tag_added_by_name(s: DbState, file_id: i64, name: Seq<char>) -> Option<DbState> {
    if !s.has_tag_named(name) && s.last_tag_id == i64::MAX {
        None
    } else {
        let mid = if s.has_tag_named(name) {
            s
        } else {
            add_tag_row(s, TagView { id: (s.last_tag_id + 1) as i64, name })
        };
        let t = mid.tag_named(name).id;
        Some(
            if mid.has_file(file_id) && !mid.has_link(file_id, t) {
                with_link(mid, file_id, t)
            } else {
                mid
            },
        )
    }
}

/// Which file rows a rewrite of the table keeps.
enum FileKeep {
    NotId(i64),
    PathIsNot(String),
}

spec fn file_kept(k: FileKeep) -> spec_fn(FileView) -> bool {
    match k {
        FileKeep::NotId(id) => file_other_than(id),
        FileKeep::PathIsNot(p) => file_path_is_not(p@),
    }
}

/// Which tag rows a rewrite of the table keeps.
enum TagKeep {
    NotId(i64),
    Used,
}

/// Tags that some link refers to.
pub open spec fn tag_used(links: Seq<(i64, i64)>) -> spec_fn(TagView) -> bool {
    |t: TagView| exists|i: int| 0 <= i < links.len() && #[trigger] links[i].1 == t.id
}

spec fn tag_kept(k: TagKeep, s: DbState) -> spec_fn(TagView) -> bool {
    match k {
        TagKeep::NotId(id) => tag_other_than(id),
        TagKeep::Used => tag_used(s.links),
    }
}

/// Links whose file survives the removal of the files with path `p`.
pub open spec fn link_survives_path_removal(s: DbState, p: Seq<char>) -> spec_fn((i64, i64)) -> bool {
    |l: (i64, i64)| !(s.has_file(l.0) && s.file(l.0).path == p)
}

/// Which links a rewrite of the table keeps.
enum LinkKeep {
    NotFile(i64),
    NotTag(i64),
    NotPair(i64, i64),
    FileSurvivesPath(String),
}

spec fn link_kept(k: LinkKeep, s: DbState) -> spec_fn((i64, i64)) -> bool {
    match k {
        LinkKeep::NotFile(id) => link_not_of_file(id),
        LinkKeep::NotTag(id) => link_not_of_tag(id),
        LinkKeep::NotPair(f, t) => link_other_than(f, t),
        LinkKeep::FileSurvivesPath(p) => link_survives_path_removal(s, p@),
    }
}

/// The files have ascending ids between 1 and `last`, and times the store keeps.
fn files_fit(files: &Vec<DBFile>, last: i64) -> (r: bool)
    ensures
        r == ({
            let v = views(files@);
            &&& forall|i: int, j: int| 0 <= i < j < v.len() ==> #[trigger] v[i].id < #[trigger] v[j].id
            &&& forall|i: int|
                0 <= i < v.len() ==> {
                    let f = #[trigger] v[i];
                    &&& 1 <= f.id <= last
                    &&& time_kept(f.last_modified)
                    &&& time_kept(f.last_accessed)
                    &&& time_kept(f.created)
                }
        }),
{
    let ghost v = views(files@);
    let mut i: usize = 0;
    while i < files.len()
        invariant
            v == views(files@),
            i <= v.len(),
            forall|a: int, b: int| 0 <= a < b < i ==> #[trigger] v[a].id < #[trigger] v[b].id,
            forall|a: int|
                0 <= a < i ==> {
                    let f = #[trigger] v[a];
                    &&& 1 <= f.id <= last
                    &&& time_kept(f.last_modified)
                    &&& time_kept(f.last_accessed)
                    &&& time_kept(f.created)
                },
        decreases v.len() - i,
    {
        let f = &files[i];
        proof {
            assert(v[i as int] == files@[i as int]@);
        }
        let max_secs: u64 = 0x7fff_ffff_ffff_ffff;
        let times_ok = f.last_modified.nanos == 0 && f.last_modified.secs <= max_secs && f.last_accessed.nanos == 0
            && f.last_accessed.secs <= max_secs && f.created.nanos == 0 && f.created.secs <= max_secs;
        if !(1 <= f.id && f.id <= last && times_ok) {
            return false;
        }
        if i > 0 && files[i - 1].id >= f.id {
            proof {
                assert(v[i - 1] == files@[i - 1]@);
            }
            return false;
        }
        proof {
            if i > 0 {
                assert(v[i - 1] == files@[i - 1]@);
            }
        }
        i = i + 1;
    }
    true
}

/// The tags have ascending ids between 1 and `last`, and no two share a name.
fn tags_fit(tags: &Vec<DBTag>, last: i64) -> (r: bool)
    ensures
        r == ({
            let v = views(tags@);
            &&& forall|i: int, j: int| 0 <= i < j < v.len() ==> #[trigger] v[i].id < #[trigger] v[j].id
            &&& forall|i: int| 0 <= i < v.len() ==> 1 <= #[trigger] v[i].id <= last
            &&& forall|i: int, j: int|
                0 <= i < v.len() && 0 <= j < v.len() && i != j ==> #[trigger] v[i].name != #[trigger] v[j].name
        }),
{
    let ghost v = views(tags@);
    let mut i: usize = 0;
    while i < tags.len()
        invariant
            v == views(tags@),
            i <= v.len(),
            forall|a: int, b: int| 0 <= a < b < i ==> #[trigger] v[a].id < #[trigger] v[b].id,
            forall|a: int| 0 <= a < i ==> 1 <= #[trigger] v[a].id <= last,
            forall|a: int, b: int| 0 <= a < i && a < b < v.len() ==> #[trigger] v[a].name != #[trigger] v[b].name,
        decreases v.len() - i,
    {
        proof {
            assert(v[i as int] == tags@[i as int]@);
        }
        if !(1 <= tags[i].id && tags[i].id <= last) {
            proof {
                assert(!(1 <= v[i as int].id <= last));
            }
            return false;
        }
        if i > 0 && tags[i - 1].id >= tags[i].id {
            proof {
                assert(v[i - 1] == tags@[i - 1]@);
                assert(!(v[i - 1].id < v[i as int].id));
            }
            return false;
        }
        proof {
            if i > 0 {
                assert(v[i - 1] == tags@[i - 1]@);
            }
        }
        let mut j: usize = i + 1;
        while j < tags.len()
            invariant
                v == views(tags@),
                i < v.len(),
                i + 1 <= j <= v.len(),
                forall|b: int| i < b < j ==> v[i as int].name != #[trigger] v[b].name,
            decreases v.len() - j,
        {
            proof {
                assert(v[j as int] == tags@[j as int]@);
            }
            if str_equal(tags[i].name.as_str(), tags[j].name.as_str()) {
                proof {
                    assert(v[i as int].name == v[j as int].name);
                }
                return false;
            }
            j = j + 1;
        }
        i = i + 1;
    }
    proof {
        assert forall|a: int, b: int| 0 <= a < v.len() && 0 <= b < v.len() && a != b implies #[trigger] v[a].name
            != #[trigger] v[b].name by {
            if b < a {
                assert(v[b].name != v[a].name);
            }
        }
    }
    true
}

/// Whether some file of `files` has id `id`.
fn has_file_id(files: &Vec<DBFile>, id: i64, Ghost(s): Ghost<DbState>) -> (r: bool)
    requires
        s.files == views(files@),
    ensures
        r == s.has_file(id),
{
    let mut k: usize = 0;
    while k < files.len()
        invariant
            s.files == views(files@),
            k <= files@.len(),
            forall|c: int| 0 <= c < k ==> (#[trigger] s.files[c]).id != id,
        decreases files@.len() - k,
    {
        proof {
            assert(s.files[k as int] == files@[k as int]@);
        }
        if files[k].id == id {
            proof {
                assert(s.files[k as int].id == id);
            }
            return true;
        }
        k = k + 1;
    }
    false
}

/// Whether some tag of `tags` has id `id`.
fn has_tag_id(tags: &Vec<DBTag>, id: i64, Ghost(s): Ghost<DbState>) -> (r: bool)
    requires
        s.tags == views(tags@),
    ensures
        r == s.has_tag(id),
{
    let mut k: usize = 0;
    while k < tags.len()
        invariant
            s.tags == views(tags@),
            k <= tags@.len(),
            forall|c: int| 0 <= c < k ==> (#[trigger] s.tags[c]).id != id,
        decreases tags@.len() - k,
    {
        proof {
            assert(s.tags[k as int] == tags@[k as int]@);
        }
        if tags[k].id == id {
            proof {
                assert(s.tags[k as int].id == id);
            }
            return true;
        }
        k = k + 1;
    }
    false
}

/// Whether the pair at `i` occurs again after it.
fn occurs_later(links: &Vec<(i64, i64)>, i: usize) -> (r: bool)
    requires
        i < links.len(),
    ensures
        r == exists|b: int| i < b < links@.len() && #[trigger] links@[b] == links@[i as int],
{
    let (f, t) = links[i];
    let mut j: usize = i + 1;
    while j < links.len()
        invariant
            i < links@.len(),
            (f, t) == links@[i as int],
            i + 1 <= j <= links@.len(),
            forall|b: int| i < b < j ==> links@[i as int] != #[trigger] links@[b],
        decreases links@.len() - j,
    {
        if links[j].0 == f && links[j].1 == t {
            return true;
        }
        j = j + 1;
    }
    false
}

/// No pair occurs twice, and each pairs the id of one of `files` with the id of
/// one of `tags`.
fn links_fit(links: &Vec<(i64, i64)>, files: &Vec<DBFile>, tags: &Vec<DBTag>) -> (r: bool)
    ensures
        r == ({
            let s = DbState { files: views(files@), tags: views(tags@), links: links@, last_file_id: 0, last_tag_id: 0 };
            &&& links@.no_duplicates()
            &&& forall|l: (i64, i64)| #[trigger] links@.contains(l) ==> s.has_file(l.0) && s.has_tag(l.1)
        }),
{
    let ghost s = DbState { files: views(files@), tags: views(tags@), links: links@, last_file_id: 0, last_tag_id: 0 };
    let mut i: usize = 0;
    while i < links.len()
        invariant
            s == (DbState { files: views(files@), tags: views(tags@), links: links@, last_file_id: 0, last_tag_id: 0 }),
            i <= links@.len(),
            forall|a: int| 0 <= a < i ==> s.has_file(#[trigger] links@[a].0) && s.has_tag(links@[a].1),
            forall|a: int, b: int| 0 <= a < i && a < b < links@.len() ==> #[trigger] links@[a] != #[trigger] links@[b],
        decreases links@.len() - i,
    {
        let (f, t) = links[i];
        if !has_file_id(files, f, Ghost(s)) || !has_tag_id(tags, t, Ghost(s)) {
            proof {
                assert(links@.contains(links@[i as int]));
            }
            return false;
        }
        if occurs_later(links, i) {
            return false;
        }
        i = i + 1;
    }
    proof {
        assert forall|l: (i64, i64)| #[trigger] links@.contains(l) implies s.has_file(l.0) && s.has_tag(l.1) by {
            let c = choose|c: int| 0 <= c < links@.len() && links@[c] == l;
            assert(s.has_file(links@[c].0));
        }
    }
    true
}

impl Database {
    /// The store keeps its rules.
    pub open spec fn wf(&self) -> bool {
        self@.valid()
    }

    proof fn lemma_view_files(&self, i: int)
        requires
            0 <= i < self.files@.len(),
        ensures
            self@.files[i] == self.files@[i]@,
            self@.files.len() == self.files@.len(),
    {
    }

    proof fn lemma_view_tags(&self, i: int)
        requires
            0 <= i < self.tags@.len(),
        ensures
            self@.tags[i] == self.tags@[i]@,
            self@.tags.len() == self.tags@.len(),
    {
    }

    /// A store with the given tables and id counters, as a database file holds
    /// them. There is none when they break the rules of the store.
    pub fn from_tables(
        files: Vec<DBFile>,
        tags: Vec<DBTag>,
        links: Vec<(i64, i64)>,
        last_file_id: i64,
        last_tag_id: i64,
    ) -> (r: Option<Database>)
        ensures
            ({
                let s = DbState { files: views(files@), tags: views(tags@), links: links@, last_file_id, last_tag_id };
                &&& r is Some <==> s.valid()
                &&& r matches Some(db) ==> db.wf() && db@ == s
            }),
    {
        let ghost s = DbState { files: views(files@), tags: views(tags@), links: links@, last_file_id, last_tag_id };
        if last_file_id < 0 || last_tag_id < 0 {
            return None;
        }
        if files.len() as u64 > last_file_id as u64 || tags.len() as u64 > last_tag_id as u64 {
            return None;
        }
        if !files_fit(&files, last_file_id) || !tags_fit(&tags, last_tag_id) {
            return None;
        }
        let fits = links_fit(&links, &files, &tags);
        proof {
            let s0 = DbState { files: views(files@), tags: views(tags@), links: links@, last_file_id: 0, last_tag_id: 0 };
            assert(s.files == s0.files && s.tags == s0.tags);
            assert forall|id: i64| s.has_file(id) == s0.has_file(id) && s.has_tag(id) == s0.has_tag(id) by {
                if s0.has_file(id) {
                    let c = choose|c: int| 0 <= c < s0.files.len() && #[trigger] s0.files[c].id == id;
                    assert(s.files[c].id == id);
                }
                if s0.has_tag(id) {
                    let c = choose|c: int| 0 <= c < s0.tags.len() && #[trigger] s0.tags[c].id == id;
                    assert(s.tags[c].id == id);
                }
            }
        }
        if !fits {
            return None;
        }
        let db = Database { files, tags, links, last_file_id, last_tag_id };
        assert(db@ == s);
        Some(db)
    }

    /// The tables of the store and its id counters, as a database file keeps them.
    pub fn tables(&self) -> (r: (Vec<DBFile>, Vec<DBTag>, Vec<(i64, i64)>, i64, i64))
        ensures
            views(r.0@) == self@.files,
            views(r.1@) == self@.tags,
            r.2@ == self@.links,
            r.3 == self@.last_file_id,
            r.4 == self@.last_tag_id,
    {
        let mut files: Vec<DBFile> = Vec::new();
        let mut i: usize = 0;
        while i < self.files.len()
            invariant
                i <= self.files@.len(),
                views(files@) == views(self.files@).take(i as int),
            decreases self.files@.len() - i,
        {
            let ghost before = views(files@);
            files.push(self.files[i].duplicate());
            proof {
                assert(views(files@) =~= before.push(self.files@[i as int]@));
                assert(views(self.files@).take(i + 1) =~= views(self.files@).take(i as int).push(self.files@[i as int]@));
            }
            i = i + 1;
        }
        let mut tags: Vec<DBTag> = Vec::new();
        let mut j: usize = 0;
        while j < self.tags.len()
            invariant
                j <= self.tags@.len(),
                views(tags@) == views(self.tags@).take(j as int),
            decreases self.tags@.len() - j,
        {
            let ghost before = views(tags@);
            tags.push(self.tags[j].duplicate());
            proof {
                assert(views(tags@) =~= before.push(self.tags@[j as int]@));
                assert(views(self.tags@).take(j + 1) =~= views(self.tags@).take(j as int).push(self.tags@[j as int]@));
            }
            j = j + 1;
        }
        let mut links: Vec<(i64, i64)> = Vec::new();
        let mut k: usize = 0;
        while k < self.links.len()
            invariant
                k <= self.links@.len(),
                links@ == self.links@.take(k as int),
            decreases self.links@.len() - k,
        {
            links.push(self.links[k]);
            proof {
                assert(self.links@.take(k + 1) =~= self.links@.take(k as int).push(self.links@[k as int]));
            }
            k = k + 1;
        }
        proof {
            assert(views(self.files@).take(self.files@.len() as int) =~= views(self.files@));
            assert(views(self.tags@).take(self.tags@.len() as int) =~= views(self.tags@));
            assert(self.links@.take(self.links@.len() as int) =~= self.links@);
        }
        (files, tags, links, self.last_file_id, self.last_tag_id)
    }

    /// An empty store, as a fresh in-memory database.
    pub fn new_in_memory() -> (r: Result<Database, DbError>)
        ensures
            r is Ok,
            r matches Ok(db) ==> db.wf() && db@ == DbState::empty(),
    {
        let db = Database {
            files: Vec::new(),
            tags: Vec::new(),
            links: Vec::new(),
            last_file_id: 0,
            last_tag_id: 0,
        };
        assert(db@.files =~= Seq::<FileView>::empty());
        assert(db@.tags =~= Seq::<TagView>::empty());
        Ok(db)
    }

    /// The position of the file with the given id.
    fn file_pos(&self, id: i64) -> (r: Option<usize>)
        requires
            self.wf(),
        ensures
            r is None <==> !self@.has_file(id),
            r matches Some(i) ==> i < self.files@.len() && self.files@[i as int].id == id
                && self@.file_index(id) == i && self@.file(id) == self.files@[i as int]@,
    {
        let mut i: usize = 0;
        while i < self.files.len()
            invariant
                self.wf(),
                i <= self.files@.len(),
                forall|k: int| 0 <= k < i ==> self.files@[k].id != id,
            decreases self.files@.len() - i,
        {
            if self.files[i].id == id {
                proof {
                    self.lemma_view_files(i as int);
                    lemma_file_at(self@, i as int);
                }
                return Some(i);
            }
            i = i + 1;
        }
        proof {
            if self@.has_file(id) {
                let k = choose|k: int| 0 <= k < self@.files.len() && #[trigger] self@.files[k].id == id;
                self.lemma_view_files(k);
            }
        }
        None
    }

    /// The position of the tag with the given id.
    fn tag_pos(&self, id: i64) -> (r: Option<usize>)
        requires
            self.wf(),
        ensures
            r is None <==> !self@.has_tag(id),
            r matches Some(i) ==> i < self.tags@.len() && self.tags@[i as int].id == id
                && self@.tag_index(id) == i && self@.tag(id) == self.tags@[i as int]@,
    {
        let mut i: usize = 0;
        while i < self.tags.len()
            invariant
                self.wf(),
                i <= self.tags@.len(),
                forall|k: int| 0 <= k < i ==> self.tags@[k].id != id,
            decreases self.tags@.len() - i,
        {
            if self.tags[i].id == id {
                proof {
                    self.lemma_view_tags(i as int);
                    lemma_tag_at(self@, i as int);
                }
                return Some(i);
            }
            i = i + 1;
        }
        proof {
            if self@.has_tag(id) {
                let k = choose|k: int| 0 <= k < self@.tags.len() && #[trigger] self@.tags[k].id == id;
                self.lemma_view_tags(k);
            }
        }
        None
    }

    /// The position of the tag with the given name.
    fn tag_named_pos(&self, name: &str) -> (r: Option<usize>)
        requires
            self.wf(),
        ensures
            r is None <==> !self@.has_tag_named(name@),
            r matches Some(i) ==> i < self.tags@.len() && self.tags@[i as int].name@ == name@
                && self@.tag_named(name@) == self.tags@[i as int]@
                && self@.tag(self.tags@[i as int].id) == self.tags@[i as int]@
                && self@.has_tag(self.tags@[i as int].id),
    {
        let mut i: usize = 0;
        while i < self.tags.len()
            invariant
                self.wf(),
                i <= self.tags@.len(),
                forall|k: int| 0 <= k < i ==> self.tags@[k].name@ != name@,
            decreases self.tags@.len() - i,
        {
            if str_equal(self.tags[i].name.as_str(), name) {
                proof {
                    self.lemma_view_tags(i as int);
                    lemma_tag_at(self@, i as int);
                }
                return Some(i);
            }
            i = i + 1;
        }
        proof {
            if self@.has_tag_named(name@) {
                let k = choose|k: int| 0 <= k < self@.tags.len() && #[trigger] self@.tags[k].name == name@;
                self.lemma_view_tags(k);
            }
        }
        None
    }

    // ========== files ==========

    /// Adds a file row and returns its id, one above the largest id ever handed out.
    /// Fails when that id would pass `i64::MAX`.
    pub fn create_file(
        &mut self,
        path: String,
        size: u64,
        content_hash: String,
        last_modified: TimePoint,
        last_accessed: TimePoint,
        created: TimePoint,
    ) -> (r: Result<i64, DbError>)
        requires
            old(self).wf(),
            time_storable(last_modified),
            time_storable(last_accessed),
            time_storable(created),
        ensures
            final(self).wf(),
            r is Err <==> old(self)@.last_file_id == i64::MAX,
            r matches Err(e) ==> e is Sql && final(self)@ == old(self)@,
            r matches Ok(id) ==> id == old(self)@.last_file_id + 1 && final(self)@ == add_file_row(
                old(self)@,
                new_file_row(id, path@, size, content_hash@, last_modified, last_accessed, created),
            ),
    {
        if self.last_file_id == i64::MAX {
            return Err(DbError::Sql(owned("database or disk is full")));
        }
        let id = self.last_file_id + 1;
        let row = DBFile {
            id,
            path,
            size,
            content_hash,
            last_modified: TimePoint { secs: last_modified.secs, nanos: 0 },
            last_accessed: TimePoint { secs: last_accessed.secs, nanos: 0 },
            created: TimePoint { secs: created.secs, nanos: 0 },
        };
        let ghost pre = self@;
        self.files.push(row);
        self.last_file_id = id;
        proof {
            assert(self@.files =~= pre.files.push(row@));
            assert forall|l: (i64, i64)| #[trigger] self@.links.contains(l) implies self@.has_file(l.0)
                && self@.has_tag(l.1) by {
                assert(pre.has_file(l.0));
                let k = choose|k: int| 0 <= k < pre.files.len() && #[trigger] pre.files[k].id == l.0;
                assert(self@.files[k].id == l.0);
                assert(self@.tags == pre.tags);
                assert(pre.has_tag(l.1));
            }
        }
        Ok(id)
    }

    /// The file with the given id, if there is one.
    pub fn get_file(&self, id: i64) -> (r: Result<Option<DBFile>, DbError>)
        requires
            self.wf(),
        ensures
            r is Ok,
            r matches Ok(o) ==> (o is Some <==> self@.has_file(id)),
            r matches Ok(Some(f)) ==> f@ == self@.file(id),
    {
        match self.file_pos(id) {
            Some(i) => Ok(Some(self.files[i].duplicate())),
            None => Ok(None),
        }
    }

    /// Whether a file with the given id exists.
    pub fn file_exists(&self, id: i64) -> (r: Result<bool, DbError>)
        requires
            self.wf(),
        ensures
            r == Ok::<bool, DbError>(self@.has_file(id)),
    {
        Ok(self.file_pos(id).is_some())
    }

    /// The number of files.
    pub fn count_files(&self) -> (r: Result<i64, DbError>)
        requires
            self.wf(),
        ensures
            r == Ok::<i64, DbError>(self@.files.len() as i64),
    {
        Ok(self.files.len() as i64)
    }

    // ========== tags ==========

    /// The id of the tag with the given name, adding the tag when there is none.
    /// Fails when a new id would pass `i64::MAX`.
    pub fn create_tag(&mut self, name: &str) -> (r: Result<i64, DbError>)
        requires
            old(self).wf(),
        ensures
            final(self).wf(),
            old(self)@.has_tag_named(name@) ==> r == Ok::<i64, DbError>(old(self)@.tag_named(
                name@,
            ).id) && final(self)@ == old(self)@,
            !old(self)@.has_tag_named(name@) ==> {
                &&& r is Err <==> old(self)@.last_tag_id == i64::MAX
                &&& r matches Err(e) ==> e is Sql && final(self)@ == old(self)@
                &&& r matches Ok(id) ==> id == old(self)@.last_tag_id + 1 && final(self)@
                    == add_tag_row(old(self)@, TagView { id, name: name@ })
            },
    {
        if let Some(i) = self.tag_named_pos(name) {
            return Ok(self.tags[i].id);
        }
        if self.last_tag_id == i64::MAX {
            return Err(DbError::Sql(owned("database or disk is full")));
        }
        let id = self.last_tag_id + 1;
        let ghost pre = self@;
        self.tags.push(DBTag { id, name: owned(name) });
        self.last_tag_id = id;
        proof {
            assert(self@.tags =~= pre.tags.push(TagView { id, name: name@ }));
            assert forall|l: (i64, i64)| #[trigger] self@.links.contains(l) implies self@.has_file(l.0)
                && self@.has_tag(l.1) by {
                assert(pre.has_tag(l.1));
                let k = choose|k: int| 0 <= k < pre.tags.len() && #[trigger] pre.tags[k].id == l.1;
                assert(self@.tags[k].id == l.1);
                assert(self@.files == pre.files);
                assert(pre.has_file(l.0));
            }
            assert forall|i: int, j: int|
                0 <= i < self@.tags.len() && 0 <= j < self@.tags.len() && i != j implies #[trigger] self@.tags[i].name
                    != #[trigger] self@.tags[j].name by {
                if i == pre.tags.len() as int {
                    assert(pre.tags[j].name != name@);
                } else if j == pre.tags.len() as int {
                    assert(pre.tags[i].name != name@);
                }
            }
        }
        Ok(id)
    }

    /// The tag with the given id, if there is one.
    pub fn get_tag(&self, id: i64) -> (r: Result<Option<DBTag>, DbError>)
        requires
            self.wf(),
        ensures
            r is Ok,
            r matches Ok(o) ==> (o is Some <==> self@.has_tag(id)),
            r matches Ok(Some(t)) ==> t@ == self@.tag(id),
    {
        match self.tag_pos(id) {
            Some(i) => Ok(Some(self.tags[i].duplicate())),
            None => Ok(None),
        }
    }

    /// The tag with the given name, if there is one.
    pub fn get_tag_by_name(&self, name: &str) -> (r: Result<Option<DBTag>, DbError>)
        requires
            self.wf(),
        ensures
            r is Ok,
            r matches Ok(o) ==> (o is Some <==> self@.has_tag_named(name@)),
            r matches Ok(Some(t)) ==> t@ == self@.tag_named(name@),
    {
        match self.tag_named_pos(name) {
            Some(i) => Ok(Some(self.tags[i].duplicate())),
            None => Ok(None),
        }
    }

    /// The id of the tag with the given name, if there is one.
    pub fn get_tag_id_by_name(&self, name: &str) -> (r: Result<Option<i64>, DbError>)
        requires
            self.wf(),
        ensures
            r is Ok,
            r matches Ok(o) ==> (o is Some <==> self@.has_tag_named(name@)),
            r matches Ok(Some(id)) ==> id == self@.tag_named(name@).id,
    {
        match self.tag_named_pos(name) {
            Some(i) => Ok(Some(self.tags[i].id)),
            None => Ok(None),
        }
    }

    /// Whether a tag with the given id exists.
    pub fn tag_exists(&self, id: i64) -> (r: Result<bool, DbError>)
        requires
            self.wf(),
        ensures
            r == Ok::<bool, DbError>(self@.has_tag(id)),
    {
        Ok(self.tag_pos(id).is_some())
    }

    /// Whether a tag with the given name exists.
    pub fn tag_exists_by_name(&self, name: &str) -> (r: Result<bool, DbError>)
        requires
            self.wf(),
        ensures
            r == Ok::<bool, DbError>(self@.has_tag_named(name@)),
    {
        Ok(self.tag_named_pos(name).is_some())
    }

    /// The number of tags.
    pub fn count_tags(&self) -> (r: Result<i64, DbError>)
        requires
            self.wf(),
        ensures
            r == Ok::<i64, DbError>(self@.tags.len() as i64),
    {
        Ok(self.tags.len() as i64)
    }

    /// Whether the store links file `f` to tag `t`.
    fn link_pos(&self, f: i64, t: i64) -> (r: Option<usize>)
        ensures
            r is None <==> !self@.links.contains((f, t)),
            r matches Some(i) ==> i < self.links@.len() && self.links@[i as int] == (f, t),
    {
        let mut i: usize = 0;
        while i < self.links.len()
            invariant
                i <= self.links@.len(),
                forall|k: int| 0 <= k < i ==> self.links@[k] != (f, t),
            decreases self.links@.len() - i,
        {
            let (a, b) = self.links[i];
            if a == f && b == t {
                return Some(i);
            }
            i = i + 1;
        }
        None
    }

    fn file_matches(&self, sel: &FileSelect, f: &DBFile) -> (r: bool)
        requires
            self.wf(),
        ensures
            r == file_selected(*sel, self@)(f@),
    {
        match sel {
            FileSelect::Any => true,
            FileSelect::PathIs(p) => str_equal(f.path.as_str(), p.as_str()),
            FileSelect::HashIs(h) => str_equal(f.content_hash.as_str(), h.as_str()),
            FileSelect::TaggedWith(t) => self.link_pos(f.id, *t).is_some(),
            FileSelect::HasAllTags(names) => self.carries_all_exec(f.id, names),
        }
    }

    fn carries_all_exec(&self, file_id: i64, names: &Vec<String>) -> (r: bool)
        requires
            self.wf(),
        ensures
            r == carries_all(self@, file_id, names@),
    {
        let mut i: usize = 0;
        while i < names.len()
            invariant
                self.wf(),
                i <= names@.len(),
                forall|k: int|
                    0 <= k < i ==> self@.has_tag_named(#[trigger] names@[k]@) && self@.has_link(
                        file_id,
                        self@.tag_named(names@[k]@).id,
                    ),
            decreases names@.len() - i,
        {
            match self.tag_named_pos(names[i].as_str()) {
                Some(k) => {
                    if self.link_pos(file_id, self.tags[k].id).is_none() {
                        return false;
                    }
                },
                None => return false,
            }
            i = i + 1;
        }
        true
    }

    fn tag_matches(&self, sel: &TagSelect, t: &DBTag) -> (r: bool)
        ensures
            r == tag_selected(*sel, self@)(t@),
    {
        match sel {
            TagSelect::Any => true,
            TagSelect::OnFile(f) => self.link_pos(*f, t.id).is_some(),
        }
    }

    /// The selected files, ranked by `order`.
    fn ranked_file_selection(&self, order: FileOrder, sel: &FileSelect) -> (r: Vec<DBFile>)
        requires
            self.wf(),
        ensures
            views(r@) == ranked_files(order, self@.files, file_selected(*sel, self@)),
            strictly_ranked::<DBFile>(order, views(r@)),
            forall|v: FileView| #[trigger] views(r@).contains(v) <==> (self@.files.contains(v) && file_selected(*sel, self@)(v)),
    {
        let ghost pred = file_selected(*sel, self@);
        let ghost fs = self@.files;
        let mut out: Vec<DBFile> = Vec::new();
        let mut i: usize = 0;
        while i < self.files.len()
            invariant
                self.wf(),
                fs == self@.files,
                pred == file_selected(*sel, self@),
                i <= fs.len(),
                forall|v: FileView| #[trigger] views(out@).contains(v) <==> (fs.take(i as int).contains(v) && pred(v)),
                forall|a: int, b: int| 0 <= a < b < out@.len() ==> #[trigger] views(out@)[a].id < #[trigger] views(out@)[b].id,
            decreases fs.len() - i,
        {
            proof {
                self.lemma_view_files(i as int);
            }
            let ghost before = views(out@);
            let m = self.file_matches(sel, &self.files[i]);
            if m {
                let row = self.files[i].duplicate();
                out.push(row);
                proof {
                    assert(views(out@) =~= before.push(fs[i as int]));
                    assert forall|a: int| 0 <= a < before.len() implies before[a].id < fs[i as int].id by {
                        assert(before.contains(before[a]));
                        let k = choose|k: int| 0 <= k < fs.take(i as int).len() && #[trigger] fs.take(i as int)[k] == before[a];
                        assert(fs[k] == before[a]);
                    }
                }
            }
            proof {
                assert(fs.take(i + 1) =~= fs.take(i as int).push(fs[i as int]));
                let after = views(out@);
                if m {
                    assert(after =~= before.push(fs[i as int]));
                    assert(after[before.len() as int] == fs[i as int]);
                } else {
                    assert(after == before);
                }
                assert forall|v: FileView| #[trigger] after.contains(v) <==> (fs.take(i + 1).contains(v) && pred(v)) by {
                    assert(before.contains(v) <==> (fs.take(i as int).contains(v) && pred(v)));
                    assert(m == pred(fs[i as int]));
                    if m && v == fs[i as int] {
                        assert(after[before.len() as int] == v);
                        assert(fs.take(i + 1)[i as int] == v);
                    }
                    if after.contains(v) && !(m && v == fs[i as int]) {
                        let k = choose|k: int| 0 <= k < after.len() && #[trigger] after[k] == v;
                        if m { assert(k < before.len()); }
                        assert(before[k] == v);
                        assert(before.contains(v));
                    }
                    if fs.take(i + 1).contains(v) && v != fs[i as int] && pred(v) {
                        let k = choose|k: int| 0 <= k < fs.take(i + 1).len() && #[trigger] fs.take(i + 1)[k] == v;
                        assert(fs.take(i as int)[k] == v);
                        assert(before.contains(v));
                        let k2 = choose|k2: int| 0 <= k2 < before.len() && #[trigger] before[k2] == v;
                        assert(after[k2] == v);
                    }
                    if fs.take(i as int).contains(v) {
                        let k = choose|k: int| 0 <= k < fs.take(i as int).len() && #[trigger] fs.take(i as int)[k] == v;
                        assert(fs.take(i + 1)[k] == v);
                    }
                }
            }
            i = i + 1;
        }
        proof {
            assert(fs.take(fs.len() as int) =~= fs);
            let vo = views(out@);
            assert forall|a: int, b: int| 0 <= a < vo.len() && 0 <= b < vo.len() && a != b implies
                file_before(order, vo[a], vo[b]) || file_before(order, vo[b], vo[a]) by {
                if a < b {
                    assert(vo[a].id < vo[b].id);
                } else {
                    assert(vo[b].id < vo[a].id);
                }
                lemma_file_before_total(order, vo[a], vo[b]);
            }
            assert(pairwise_comparable::<DBFile>(order, vo));
        }
        let sorted = sort_ranked(order, out);
        proof {
            let target = ranked_files(order, fs, pred);
            let so = views(sorted@);
            assert(strictly_ranked::<DBFile>(order, so) && forall|v: FileView| #[trigger]
                so.contains(v) <==> (fs.contains(v) && pred(v)));
            lemma_strictly_ranked_unique::<DBFile>(order, so, target);
        }
        sorted
    }

    /// The selected tags, by name.
    fn ranked_tag_selection(&self, sel: &TagSelect) -> (r: Vec<DBTag>)
        requires
            self.wf(),
        ensures
            views(r@) == ranked_tags(self@.tags, tag_selected(*sel, self@)),
            strictly_ranked::<DBTag>(TagOrder::Name, views(r@)),
            forall|v: TagView| #[trigger] views(r@).contains(v) <==> (self@.tags.contains(v) && tag_selected(*sel, self@)(v)),
    {
        let ghost pred = tag_selected(*sel, self@);
        let ghost ts = self@.tags;
        let mut out: Vec<DBTag> = Vec::new();
        let mut i: usize = 0;
        while i < self.tags.len()
            invariant
                self.wf(),
                ts == self@.tags,
                pred == tag_selected(*sel, self@),
                i <= ts.len(),
                forall|v: TagView| #[trigger] views(out@).contains(v) <==> (ts.take(i as int).contains(v) && pred(v)),
                forall|a: int, b: int| 0 <= a < b < out@.len() ==> #[trigger] views(out@)[a].id < #[trigger] views(out@)[b].id,
            decreases ts.len() - i,
        {
            proof {
                self.lemma_view_tags(i as int);
            }
            let ghost before = views(out@);
            let m = self.tag_matches(sel, &self.tags[i]);
            if m {
                let row = self.tags[i].duplicate();
                out.push(row);
                proof {
                    assert(views(out@) =~= before.push(ts[i as int]));
                    assert forall|a: int| 0 <= a < before.len() implies before[a].id < ts[i as int].id by {
                        assert(before.contains(before[a]));
                        let k = choose|k: int| 0 <= k < ts.take(i as int).len() && #[trigger] ts.take(i as int)[k] == before[a];
                        assert(ts[k] == before[a]);
                    }
                }
            }
            proof {
                assert(ts.take(i + 1) =~= ts.take(i as int).push(ts[i as int]));
                let after = views(out@);
                if m {
                    assert(after =~= before.push(ts[i as int]));
                    assert(after[before.len() as int] == ts[i as int]);
                } else {
                    assert(after == before);
                }
                assert forall|v: TagView| #[trigger] after.contains(v) <==> (ts.take(i + 1).contains(v) && pred(v)) by {
                    assert(before.contains(v) <==> (ts.take(i as int).contains(v) && pred(v)));
                    assert(m == pred(ts[i as int]));
                    if m && v == ts[i as int] {
                        assert(after[before.len() as int] == v);
                        assert(ts.take(i + 1)[i as int] == v);
                    }
                    if after.contains(v) && !(m && v == ts[i as int]) {
                        let k = choose|k: int| 0 <= k < after.len() && #[trigger] after[k] == v;
                        if m { assert(k < before.len()); }
                        assert(before[k] == v);
                        assert(before.contains(v));
                    }
                    if ts.take(i + 1).contains(v) && v != ts[i as int] && pred(v) {
                        let k = choose|k: int| 0 <= k < ts.take(i + 1).len() && #[trigger] ts.take(i + 1)[k] == v;
                        assert(ts.take(i as int)[k] == v);
                        assert(before.contains(v));
                        let k2 = choose|k2: int| 0 <= k2 < before.len() && #[trigger] before[k2] == v;
                        assert(after[k2] == v);
                    }
                    if ts.take(i as int).contains(v) {
                        let k = choose|k: int| 0 <= k < ts.take(i as int).len() && #[trigger] ts.take(i as int)[k] == v;
                        assert(ts.take(i + 1)[k] == v);
                    }
                }
            }
            i = i + 1;
        }
        proof {
            assert(ts.take(ts.len() as int) =~= ts);
            let vo = views(out@);
            assert forall|a: int, b: int| 0 <= a < vo.len() && 0 <= b < vo.len() && a != b implies
                tag_before(vo[a], vo[b]) || tag_before(vo[b], vo[a]) by {
                if a < b {
                    assert(vo[a].id < vo[b].id);
                } else {
                    assert(vo[b].id < vo[a].id);
                }
                lemma_tag_before_total(vo[a], vo[b]);
            }
            assert(pairwise_comparable::<DBTag>(TagOrder::Name, vo));
        }
        let sorted = sort_ranked(TagOrder::Name, out);
        proof {
            let target = ranked_tags(ts, pred);
            let so = views(sorted@);
            assert(strictly_ranked::<DBTag>(TagOrder::Name, so) && forall|v: TagView| #[trigger]
                so.contains(v) <==> (ts.contains(v) && pred(v)));
            lemma_strictly_ranked_unique::<DBTag>(TagOrder::Name, so, target);
        }
        sorted
    }

    // ========== table rewrites ==========

    fn files_kept(&self, keep: &FileKeep) -> (r: Vec<DBFile>)
        requires
            self.wf(),
        ensures
            views(r@) == self@.files.filter(file_kept(*keep)),
    {
        let ghost pred = file_kept(*keep);
        let ghost fs = self@.files;
        let mut out: Vec<DBFile> = Vec::new();
        let mut i: usize = 0;
        while i < self.files.len()
            invariant
                fs == self@.files,
                pred == file_kept(*keep),
                i <= fs.len(),
                views(out@) == fs.take(i as int).filter(pred),
            decreases fs.len() - i,
        {
            proof {
                lemma_filter_take_step(fs, pred, i as int);
                self.lemma_view_files(i as int);
            }
            let keep_it = match keep {
                FileKeep::NotId(id) => self.files[i].id != *id,
                FileKeep::PathIsNot(p) => !str_equal(self.files[i].path.as_str(), p.as_str()),
            };
            if keep_it {
                let ghost before = views(out@);
                let row = self.files[i].duplicate();
                out.push(row);
                assert(views(out@) =~= before.push(row@));
            }
            i = i + 1;
        }
        assert(fs.take(fs.len() as int) =~= fs);
        out
    }

    fn tags_kept(&self, keep: &TagKeep) -> (r: Vec<DBTag>)
        requires
            self.wf(),
        ensures
            views(r@) == self@.tags.filter(tag_kept(*keep, self@)),
    {
        let ghost pred = tag_kept(*keep, self@);
        let ghost ts = self@.tags;
        let mut out: Vec<DBTag> = Vec::new();
        let mut i: usize = 0;
        while i < self.tags.len()
            invariant
                ts == self@.tags,
                pred == tag_kept(*keep, self@),
                i <= ts.len(),
                views(out@) == ts.take(i as int).filter(pred),
            decreases ts.len() - i,
        {
            proof {
                lemma_filter_take_step(ts, pred, i as int);
                self.lemma_view_tags(i as int);
            }
            let keep_it = match keep {
                TagKeep::NotId(id) => self.tags[i].id != *id,
                TagKeep::Used => self.tag_used_exec(self.tags[i].id),
            };
            if keep_it {
                let ghost before = views(out@);
                let row = self.tags[i].duplicate();
                out.push(row);
                assert(views(out@) =~= before.push(row@));
            }
            i = i + 1;
        }
        assert(ts.take(ts.len() as int) =~= ts);
        out
    }

    fn tag_used_exec(&self, tag_id: i64) -> (r: bool)
        ensures
            r == exists|i: int| 0 <= i < self@.links.len() && #[trigger] self@.links[i].1 == tag_id,
    {
        let mut i: usize = 0;
        while i < self.links.len()
            invariant
                i <= self@.links.len(),
                forall|k: int| 0 <= k < i ==> self@.links[k].1 != tag_id,
            decreases self@.links.len() - i,
        {
            if self.links[i].1 == tag_id {
                return true;
            }
            i = i + 1;
        }
        false
    }

    fn links_kept(&self, keep: &LinkKeep) -> (r: Vec<(i64, i64)>)
        requires
            self.wf(),
        ensures
            r@ == self@.links.filter(link_kept(*keep, self@)),
    {
        let ghost pred = link_kept(*keep, self@);
        let ghost ls = self@.links;
        let mut out: Vec<(i64, i64)> = Vec::new();
        let mut i: usize = 0;
        while i < self.links.len()
            invariant
                self.wf(),
                ls == self@.links,
                pred == link_kept(*keep, self@),
                i <= ls.len(),
                out@ == ls.take(i as int).filter(pred),
            decreases ls.len() - i,
        {
            proof {
                lemma_filter_take_step(ls, pred, i as int);
            }
            let (f, t) = self.links[i];
            let keep_it = match keep {
                LinkKeep::NotFile(id) => f != *id,
                LinkKeep::NotTag(id) => t != *id,
                LinkKeep::NotPair(a, b) => !(f == *a && t == *b),
                LinkKeep::FileSurvivesPath(p) => match self.file_pos(f) {
                    Some(k) => !str_equal(self.files[k].path.as_str(), p.as_str()),
                    None => true,
                },
            };
            if keep_it {
                out.push((f, t));
            }
            i = i + 1;
        }
        assert(ls.take(ls.len() as int) =~= ls);
        out
    }

    // ========== changes ==========

    /// Sets the given columns of the file with id `id`. Returns whether the file exists.
    pub fn update_file(
        &mut self,
        id: i64,
        path: Option<String>,
        size: Option<u64>,
        content_hash: Option<String>,
        last_modified: Option<TimePoint>,
        last_accessed: Option<TimePoint>,
        created: Option<TimePoint>,
    ) -> (r: Result<bool, DbError>)
        requires
            old(self).wf(),
            opt_time_storable(last_modified),
            opt_time_storable(last_accessed),
            opt_time_storable(created),
        ensures
            final(self).wf(),
            r == Ok::<bool, DbError>(old(self)@.has_file(id)),
            !old(self)@.has_file(id) ==> final(self)@ == old(self)@,
            old(self)@.has_file(id) ==> final(self)@ == with_file_replaced(
                old(self)@,
                id,
                updated_file(old(self)@.file(id), opt_chars(path), size, opt_chars(content_hash), last_modified, last_accessed, created),
            ),
    {
        let pos = match self.file_pos(id) {
            Some(i) => i,
            None => return Ok(false),
        };
        let ghost pre = self@;
        let ghost target = updated_file(pre.file(id), opt_chars(path), size, opt_chars(content_hash), last_modified, last_accessed, created);
        let old_row = self.files[pos].duplicate();
        let row = DBFile {
            id: old_row.id,
            path: match path {
                Some(p) => p,
                None => old_row.path,
            },
            size: match size {
                Some(z) => z,
                None => old_row.size,
            },
            content_hash: match content_hash {
                Some(h) => h,
                None => old_row.content_hash,
            },
            last_modified: match last_modified {
                Some(t) => TimePoint { secs: t.secs, nanos: 0 },
                None => old_row.last_modified,
            },
            last_accessed: match last_accessed {
                Some(t) => TimePoint { secs: t.secs, nanos: 0 },
                None => old_row.last_accessed,
            },
            created: match created {
                Some(t) => TimePoint { secs: t.secs, nanos: 0 },
                None => old_row.created,
            },
        };
        assert(row@ == target);
        self.files.set(pos, row);
        proof {
            assert(self@.files =~= pre.files.update(pos as int, target));
            lemma_file_at(pre, pos as int);
            assert forall|l: (i64, i64)| #[trigger] self@.links.contains(l) implies self@.has_file(l.0)
                && self@.has_tag(l.1) by {
                assert(pre.has_file(l.0));
                let k = choose|k: int| 0 <= k < pre.files.len() && #[trigger] pre.files[k].id == l.0;
                assert(self@.files[k].id == l.0);
                assert(self@.tags == pre.tags);
                assert(pre.has_tag(l.1));
            }
            assert forall|i: int| 0 <= i < self@.files.len() implies {
                let f = #[trigger] self@.files[i];
                &&& 1 <= f.id <= self@.last_file_id
                &&& time_kept(f.last_modified)
                &&& time_kept(f.last_accessed)
                &&& time_kept(f.created)
            } by {
                assert(pre.files[i].id == self@.files[i].id);
            }
            assert forall|i: int, j: int| 0 <= i < j < self@.files.len() implies #[trigger] self@.files[i].id
                < #[trigger] self@.files[j].id by {
                assert(pre.files[i].id < pre.files[j].id);
            }
        }
        Ok(true)
    }

    /// Deletes the file with id `id` and its links. Returns whether it existed.
    pub fn delete_file(&mut self, id: i64) -> (r: Result<bool, DbError>)
        requires
            old(self).wf(),
        ensures
            final(self).wf(),
            r == Ok::<bool, DbError>(old(self)@.has_file(id)),
            final(self)@ == without_file(old(self)@, id),
    {
        let existed = self.file_pos(id).is_some();
        let ghost pre = self@;
        let files = self.files_kept(&FileKeep::NotId(id));
        let links = self.links_kept(&LinkKeep::NotFile(id));
        self.files = files;
        self.links = links;
        proof {
            let post = without_file(pre, id);
            assert(self@ =~= post);
            lemma_filter_files_valid(pre, file_other_than(id));
            lemma_filter_no_duplicates(pre.links, link_not_of_file(id));
            lemma_filter_contains_iff(pre.links, link_not_of_file(id));
            assert forall|l: (i64, i64)| #[trigger] post.links.contains(l) implies post.has_file(l.0)
                && post.has_tag(l.1) by {
                assert(pre.links.contains(l));
                assert(pre.files[pre.file_index(l.0)].id == l.0);
                let j = lemma_file_kept(pre, file_other_than(id), l.0);
                assert(post.files[j].id == l.0);
                assert(pre.has_tag(l.1));
                let k = pre.tag_index(l.1);
                assert(post.tags[k].id == l.1);
            }
        }
        Ok(existed)
    }

    /// Deletes every file with the given path and their links. Returns how many there were.
    pub fn delete_files_by_path(&mut self, path: String) -> (r: Result<u64, DbError>)
        requires
            old(self).wf(),
        ensures
            final(self).wf(),
            r == Ok::<u64, DbError>((old(self)@.files.len() - final(self)@.files.len()) as u64),
            final(self)@ == without_files_at_path(old(self)@, path@),
    {
        let ghost pre = self@;
        let files = self.files_kept(&FileKeep::PathIsNot(path.clone()));
        let links = self.links_kept(&LinkKeep::FileSurvivesPath(path));
        proof {
            lemma_filter_files_valid(pre, file_path_is_not(path@));
        }
        let removed = self.files.len() - files.len();
        self.files = files;
        self.links = links;
        proof {
            let post = without_files_at_path(pre, path@);
            assert(self@ =~= post);
            let pl = link_survives_path_removal(pre, path@);
            lemma_filter_no_duplicates(pre.links, pl);
            lemma_filter_contains_iff(pre.links, pl);
            assert forall|l: (i64, i64)| #[trigger] post.links.contains(l) implies post.has_file(l.0)
                && post.has_tag(l.1) by {
                assert(pre.links.contains(l));
                assert(pre.files[pre.file_index(l.0)].id == l.0);
                let j = lemma_file_kept(pre, file_path_is_not(path@), l.0);
                assert(post.files[j].id == l.0);
                assert(pre.has_tag(l.1));
                let k = pre.tag_index(l.1);
                assert(post.tags[k].id == l.1);
            }
        }
        Ok(removed as u64)
    }

    /// Renames the tag with id `id`. Returns whether the tag exists; fails when another
    /// tag already has the new name.
    pub fn update_tag(&mut self, id: i64, new_name: &str) -> (r: Result<bool, DbError>)
        requires
            old(self).wf(),
        ensures
            final(self).wf(),
            !old(self)@.has_tag(id) ==> r == Ok::<bool, DbError>(false) && final(self)@ == old(self)@,
            old(self)@.has_tag(id) && old(self)@.has_tag_named(new_name@) && old(self)@.tag_named(
                new_name@,
            ).id != id ==> (r matches Err(e) && e is OperationFailed) && final(self)@ == old(self)@,
            old(self)@.has_tag(id) && !(old(self)@.has_tag_named(new_name@) && old(self)@.tag_named(
                new_name@,
            ).id != id) ==> r == Ok::<bool, DbError>(true) && final(self)@ == with_tag_renamed(
                old(self)@,
                id,
                new_name@,
            ),
    {
        let pos = match self.tag_pos(id) {
            Some(i) => i,
            None => return Ok(false),
        };
        if let Some(k) = self.tag_named_pos(new_name) {
            if self.tags[k].id != id {
                return Err(DbError::OperationFailed(owned("Tag o podanej nazwie już istnieje")));
            }
        }
        let ghost pre = self@;
        self.tags.set(pos, DBTag { id, name: owned(new_name) });
        proof {
            assert(self@.tags =~= pre.tags.update(pos as int, TagView { id, name: new_name@ }));
            lemma_tag_at(pre, pos as int);
            assert forall|l: (i64, i64)| #[trigger] self@.links.contains(l) implies self@.has_file(l.0)
                && self@.has_tag(l.1) by {
                assert(pre.has_tag(l.1));
                let k = choose|k: int| 0 <= k < pre.tags.len() && #[trigger] pre.tags[k].id == l.1;
                assert(self@.tags[k].id == l.1);
                assert(self@.files == pre.files);
                assert(pre.has_file(l.0));
            }
            assert forall|i: int, j: int| 0 <= i < j < self@.tags.len() implies #[trigger] self@.tags[i].id
                < #[trigger] self@.tags[j].id by {
                assert(pre.tags[i].id < pre.tags[j].id);
            }
            assert forall|i: int| 0 <= i < self@.tags.len() implies 1 <= #[trigger] self@.tags[i].id
                <= self@.last_tag_id by {
                assert(pre.tags[i].id == self@.tags[i].id);
            }
            assert forall|i: int, j: int|
                0 <= i < self@.tags.len() && 0 <= j < self@.tags.len() && i != j implies #[trigger] self@.tags[i].name
                    != #[trigger] self@.tags[j].name by {
                if i == pos as int {
                    if pre.tags[j].name == new_name@ {
                        lemma_tag_at(pre, j);
                    }
                } else if j == pos as int {
                    if pre.tags[i].name == new_name@ {
                        lemma_tag_at(pre, i);
                    }
                }
            }
        }
        Ok(true)
    }

    /// Deletes the tag with id `id` and its links. Returns whether it existed.
    pub fn delete_tag(&mut self, id: i64) -> (r: Result<bool, DbError>)
        requires
            old(self).wf(),
        ensures
            final(self).wf(),
            r == Ok::<bool, DbError>(old(self)@.has_tag(id)),
            final(self)@ == without_tag(old(self)@, id),
    {
        let existed = self.tag_pos(id).is_some();
        let ghost pre = self@;
        let tags = self.tags_kept(&TagKeep::NotId(id));
        let links = self.links_kept(&LinkKeep::NotTag(id));
        self.tags = tags;
        self.links = links;
        proof {
            let post = without_tag(pre, id);
            assert(self@ =~= post);
            lemma_filter_tags_valid(pre, tag_other_than(id));
            lemma_filter_no_duplicates(pre.links, link_not_of_tag(id));
            lemma_filter_contains_iff(pre.links, link_not_of_tag(id));
            assert forall|l: (i64, i64)| #[trigger] post.links.contains(l) implies post.has_file(l.0)
                && post.has_tag(l.1) by {
                assert(pre.links.contains(l));
                assert(pre.tags[pre.tag_index(l.1)].id == l.1);
                let j = lemma_tag_kept(pre, tag_other_than(id), l.1);
                assert(post.tags[j].id == l.1);
                assert(pre.has_file(l.0));
                let k = pre.file_index(l.0);
                assert(post.files[k].id == l.0);
            }
        }
        Ok(existed)
    }

    /// Deletes the tag with the given name and its links. Returns whether it existed.
    pub fn delete_tag_by_name(&mut self, name: &str) -> (r: Result<bool, DbError>)
        requires
            old(self).wf(),
        ensures
            final(self).wf(),
            r == Ok::<bool, DbError>(old(self)@.has_tag_named(name@)),
            !old(self)@.has_tag_named(name@) ==> final(self)@ == old(self)@,
            old(self)@.has_tag_named(name@) ==> final(self)@ == without_tag(
                old(self)@,
                old(self)@.tag_named(name@).id,
            ),
    {
        match self.tag_named_pos(name) {
            Some(i) => {
                let id = self.tags[i].id;
                self.delete_tag(id)
            },
            None => Ok(false),
        }
    }

    /// Links file `file_id` to tag `tag_id`. Returns false when either is missing,
    /// true when the link exists afterwards.
    pub fn add_tag_to_file(&mut self, file_id: i64, tag_id: i64) -> (r: Result<bool, DbError>)
        requires
            old(self).wf(),
        ensures
            final(self).wf(),
            r == Ok::<bool, DbError>(old(self)@.has_file(file_id) && old(self)@.has_tag(tag_id)),
            final(self)@ == link_added(old(self)@, file_id, tag_id),
    {
        if self.file_pos(file_id).is_none() || self.tag_pos(tag_id).is_none() {
            return Ok(false);
        }
        if self.link_pos(file_id, tag_id).is_some() {
            return Ok(true);
        }
        let ghost pre = self@;
        self.links.push((file_id, tag_id));
        proof {
            assert(self@ =~= with_link(pre, file_id, tag_id));
            assert forall|i: int, j: int| 0 <= i < j < self@.links.len() implies self@.links[i]
                != self@.links[j] by {
                if j == pre.links.len() {
                    assert(pre.links[i] != (file_id, tag_id));
                }
            }
            assert forall|l: (i64, i64)| #[trigger] self@.links.contains(l) implies self@.has_file(l.0)
                && self@.has_tag(l.1) by {
                assert(self@.files == pre.files);
                assert(self@.tags == pre.tags);
                if l != (file_id, tag_id) {
                    let k = choose|k: int| 0 <= k < self@.links.len() && self@.links[k] == l;
                    assert(pre.links[k] == l);
                    assert(pre.links.contains(l));
                } else {
                    assert(pre.has_file(file_id));
                    assert(pre.has_tag(tag_id));
                }
            }
        }
        Ok(true)
    }

    /// Links file `file_id` to the tag with the given name, adding the tag first when
    /// there is none (even when the file does not exist).
    pub fn add_tag_by_name_to_file(&mut self, file_id: i64, tag_name: &str) -> (r: Result<bool, DbError>)
        requires
            old(self).wf(),
        ensures
            final(self).wf(),
            r is Err <==> tag_added_by_name(old(self)@, file_id, tag_name@) is None,
            r matches Err(e) ==> e is Sql && final(self)@ == old(self)@,
            r matches Ok(b) ==> final(self)@ == tag_added_by_name(old(self)@, file_id, tag_name@)->0
                && b == old(self)@.has_file(file_id),
    {
        let tag_id = self.create_tag(tag_name)?;
        proof {
            if !old(self)@.has_tag_named(tag_name@) {
                lemma_tag_at(self@, self@.tags.len() - 1);
                assert(self@.tags[self@.tags.len() - 1].name == tag_name@);
            } else {
                let k = old(self)@.tag_named_index(tag_name@);
                assert(old(self)@.tags[k].name == tag_name@);
                lemma_tag_at(old(self)@, k);
            }
            assert(self@.has_tag(tag_id));
            assert(self@.tag_named(tag_name@).id == tag_id);
            if !old(self)@.has_tag_named(tag_name@) {
                assert(self@.has_file(file_id) <==> old(self)@.has_file(file_id)) by {
                    assert(self@.files == old(self)@.files);
                }
            }
        }
        self.add_tag_to_file(file_id, tag_id)
    }

    /// Removes the link of file `file_id` to tag `tag_id`. Returns whether it existed.
    pub fn remove_tag_from_file(&mut self, file_id: i64, tag_id: i64) -> (r: Result<bool, DbError>)
        requires
            old(self).wf(),
        ensures
            final(self).wf(),
            r == Ok::<bool, DbError>(old(self)@.has_link(file_id, tag_id)),
            final(self)@ == without_link(old(self)@, file_id, tag_id),
    {
        let existed = self.link_pos(file_id, tag_id).is_some();
        let ghost pre = self@;
        let links = self.links_kept(&LinkKeep::NotPair(file_id, tag_id));
        self.links = links;
        proof {
            let post = without_link(pre, file_id, tag_id);
            assert(self@ =~= post);
            lemma_filter_no_duplicates(pre.links, link_other_than(file_id, tag_id));
            lemma_filter_contains_iff(pre.links, link_other_than(file_id, tag_id));
        }
        Ok(existed)
    }

    /// Removes the link of file `file_id` to the tag with the given name. Returns
    /// whether it existed.
    pub fn remove_tag_by_name_from_file(&mut self, file_id: i64, tag_name: &str) -> (r: Result<bool, DbError>)
        requires
            old(self).wf(),
        ensures
            final(self).wf(),
            !old(self)@.has_tag_named(tag_name@) ==> r == Ok::<bool, DbError>(false) && final(self)@
                == old(self)@,
            old(self)@.has_tag_named(tag_name@) ==> r == Ok::<bool, DbError>(old(self)@.has_link(
                file_id,
                old(self)@.tag_named(tag_name@).id,
            )) && final(self)@ == without_link(old(self)@, file_id, old(self)@.tag_named(tag_name@).id),
    {
        match self.tag_named_pos(tag_name) {
            Some(i) => {
                let tag_id = self.tags[i].id;
                self.remove_tag_from_file(file_id, tag_id)
            },
            None => Ok(false),
        }
    }

    /// Removes every link of file `file_id`. Returns how many there were.
    pub fn remove_all_tags_from_file(&mut self, file_id: i64) -> (r: Result<u64, DbError>)
        requires
            old(self).wf(),
        ensures
            final(self).wf(),
            r == Ok::<u64, DbError>((old(self)@.links.len() - final(self)@.links.len()) as u64),
            final(self)@ == without_links_of_file(old(self)@, file_id),
    {
        let ghost pre = self@;
        let links = self.links_kept(&LinkKeep::NotFile(file_id));
        let removed = self.links.len() - links.len();
        proof {
            pre.links.lemma_filter_len(link_not_of_file(file_id));
        }
        self.links = links;
        proof {
            let post = without_links_of_file(pre, file_id);
            assert(self@ =~= post);
            lemma_filter_no_duplicates(pre.links, link_not_of_file(file_id));
            lemma_filter_contains_iff(pre.links, link_not_of_file(file_id));
        }
        Ok(removed as u64)
    }

    /// Deletes the tags that no file carries. Returns how many there were.
    pub fn cleanup_unused_tags(&mut self) -> (r: Result<u64, DbError>)
        requires
            old(self).wf(),
        ensures
            final(self).wf(),
            r == Ok::<u64, DbError>((old(self)@.tags.len() - final(self)@.tags.len()) as u64),
            final(self)@ == without_unused_tags(old(self)@),
    {
        let ghost pre = self@;
        let tags = self.tags_kept(&TagKeep::Used);
        proof {
            lemma_filter_tags_valid(pre, tag_used(pre.links));
        }
        let removed = self.tags.len() - tags.len();
        self.tags = tags;
        proof {
            let post = without_unused_tags(pre);
            assert(self@ =~= post);
            assert forall|l: (i64, i64)| #[trigger] post.links.contains(l) implies post.has_file(l.0)
                && post.has_tag(l.1) by {
                let k = choose|k: int| 0 <= k < pre.links.len() && pre.links[k] == l;
                assert(pre.tags[pre.tag_index(l.1)].id == l.1);
                assert(pre.links[k].1 == l.1);
                assert(pre.links.contains(l));
                let j = lemma_tag_kept(pre, tag_used(pre.links), l.1);
                assert(post.tags[j].id == l.1);
                assert(pre.has_file(l.0));
                let k2 = pre.file_index(l.0);
                assert(post.files[k2].id == l.0);
            }
        }
        Ok(removed as u64)
    }

    // ========== listings ==========

    /// Every file, newest creation time first, with the optional pagination: the
    /// first `offset` files skipped, and at most `limit` of the rest kept (a
    /// negative limit keeps all, a negative offset skips none).
    pub fn get_all_files(&self, limit: Option<i64>, offset: Option<i64>) -> (r: Result<Vec<DBFile>, DbError>)
        requires
            self.wf(),
        ensures
            r matches Ok(v) && views(v@) == window(
                ranked_files(FileOrder::CreatedDesc, self@.files, any_file()),
                limit,
                offset,
            ),
            strictly_ranked::<DBFile>(FileOrder::CreatedDesc, ranked_files(FileOrder::CreatedDesc, self@.files, any_file())),
            forall|x: FileView| #[trigger] ranked_files(FileOrder::CreatedDesc, self@.files, any_file()).contains(x)
                <==> self@.files.contains(x),
    {
        let all = self.ranked_file_selection(FileOrder::CreatedDesc, &FileSelect::Any);
        proof {
            assert(file_selected(FileSelect::Any, self@) == any_file());
        }
        Ok(window_of(all, limit, offset))
    }

    /// The files with the given path, newest modification time first.
    pub fn get_files_by_path(&self, path: String) -> (r: Result<Vec<DBFile>, DbError>)
        requires
            self.wf(),
        ensures
            r matches Ok(v) && views(v@) == ranked_files(FileOrder::ModifiedDesc, self@.files, file_path_is(path@)),
            forall|x: FileView| #[trigger] ranked_files(FileOrder::ModifiedDesc, self@.files, file_path_is(path@)).contains(x)
                <==> self@.files.contains(x) && x.path == path@,
    {
        let ghost p = path@;
        let sel = FileSelect::PathIs(path);
        let r = self.ranked_file_selection(FileOrder::ModifiedDesc, &sel);
        proof {
            assert(file_selected(sel, self@) =~= file_path_is(p));
        }
        Ok(r)
    }

    /// The files with the given content hash, by path.
    pub fn get_files_by_hash(&self, content_hash: &str) -> (r: Result<Vec<DBFile>, DbError>)
        requires
            self.wf(),
        ensures
            r matches Ok(v) && views(v@) == ranked_files(FileOrder::Path, self@.files, file_hash_is(content_hash@)),
    {
        let sel = FileSelect::HashIs(owned(content_hash));
        let r = self.ranked_file_selection(FileOrder::Path, &sel);
        proof {
            assert(file_selected(sel, self@) =~= file_hash_is(content_hash@));
        }
        Ok(r)
    }

    /// Whether file `file_id` carries tag `tag_id`.
    pub fn file_has_tag(&self, file_id: i64, tag_id: i64) -> (r: Result<bool, DbError>)
        requires
            self.wf(),
        ensures
            r == Ok::<bool, DbError>(self@.has_link(file_id, tag_id)),
    {
        Ok(self.link_pos(file_id, tag_id).is_some())
    }

    /// The files that carry the tag with the given id, by path.
    pub fn get_files_with_tag(&self, tag_id: i64) -> (r: Result<Vec<DBFile>, DbError>)
        requires
            self.wf(),
        ensures
            r matches Ok(v) && views(v@) == ranked_files(
                FileOrder::Path,
                self@.files,
                file_selected(FileSelect::TaggedWith(tag_id), self@),
            ),
    {
        Ok(self.ranked_file_selection(FileOrder::Path, &FileSelect::TaggedWith(tag_id)))
    }

    /// The files that carry the tag with the given name, by path; none when there is no such tag.
    pub fn get_files_with_tag_name(&self, tag_name: &str) -> (r: Result<Vec<DBFile>, DbError>)
        requires
            self.wf(),
        ensures
            !self@.has_tag_named(tag_name@) ==> (r matches Ok(v) && v@.len() == 0),
            self@.has_tag_named(tag_name@) ==> (r matches Ok(v) && views(v@) == ranked_files(
                FileOrder::Path,
                self@.files,
                file_selected(FileSelect::TaggedWith(self@.tag_named(tag_name@).id), self@),
            )),
    {
        match self.tag_named_pos(tag_name) {
            Some(i) => self.get_files_with_tag(self.tags[i].id),
            None => Ok(Vec::new()),
        }
    }

    /// Every tag, by name.
    pub fn get_all_tags(&self) -> (r: Result<Vec<DBTag>, DbError>)
        requires
            self.wf(),
        ensures
            r matches Ok(v) && views(v@) == ranked_tags(self@.tags, any_tag()),
    {
        let r = self.ranked_tag_selection(&TagSelect::Any);
        proof {
            assert(tag_selected(TagSelect::Any, self@) == any_tag());
        }
        Ok(r)
    }

    /// The tags of the file with the given id, by name.
    pub fn get_tags_for_file(&self, file_id: i64) -> (r: Result<Vec<DBTag>, DbError>)
        requires
            self.wf(),
        ensures
            r matches Ok(v) && views(v@) == ranked_tags(
                self@.tags,
                tag_selected(TagSelect::OnFile(file_id), self@),
            ),
            r matches Ok(v) && forall|x: TagView| #[trigger] views(v@).contains(x) <==> (self@.tags.contains(x)
                && tag_selected(TagSelect::OnFile(file_id), self@)(x)),
    {
        Ok(self.ranked_tag_selection(&TagSelect::OnFile(file_id)))
    }

    /// The files that carry a tag with each of the names, by path; none when no
    /// name is given.
    pub fn get_files_with_all_tags(&self, names: &Vec<String>) -> (r: Result<Vec<DBFile>, DbError>)
        requires
            self.wf(),
        ensures
            names@.len() == 0 ==> (r matches Ok(v) && v@.len() == 0),
            names@.len() > 0 ==> (r matches Ok(v) && views(v@) == ranked_files(
                FileOrder::Path,
                self@.files,
                |f: FileView| carries_all(self@, f.id, names@),
            )),
            names@.len() > 0 ==> (r matches Ok(v) && forall|x: FileView| #[trigger] views(v@).contains(x)
                <==> self@.files.contains(x) && carries_all(self@, x.id, names@)),
    {
        if names.len() == 0 {
            return Ok(Vec::new());
        }
        let mut copy: Vec<String> = Vec::new();
        let mut i: usize = 0;
        while i < names.len()
            invariant
                i <= names@.len(),
                copy@.len() == i,
                forall|k: int| 0 <= k < i ==> (#[trigger] copy@[k])@ == names@[k]@,
            decreases names@.len() - i,
        {
            copy.push(names[i].clone());
            i = i + 1;
        }
        let sel = FileSelect::HasAllTags(copy);
        let r = self.ranked_file_selection(FileOrder::Path, &sel);
        proof {
            assert forall|f: FileView| #[trigger] file_selected(sel, self@)(f) == carries_all(self@, f.id, names@) by {
                if carries_all(self@, f.id, copy@) {
                    assert forall|k: int| 0 <= k < names@.len() implies self@.has_tag_named(#[trigger] names@[k]@) && self@.has_link(f.id, self@.tag_named(names@[k]@).id) by {
                        assert(copy@[k]@ == names@[k]@);
                    }
                }
                if carries_all(self@, f.id, names@) {
                    assert forall|k: int| 0 <= k < copy@.len() implies self@.has_tag_named(#[trigger] copy@[k]@) && self@.has_link(f.id, self@.tag_named(copy@[k]@).id) by {
                        assert(copy@[k]@ == names@[k]@);
                    }
                }
            }
            assert(file_selected(sel, self@) =~= |f: FileView| carries_all(self@, f.id, names@));
        }
        Ok(r)
    }

    /// The number of links to the tag with the given id.
    fn links_to_tag(&self, tag_id: i64) -> (r: usize)
        ensures
            r == self@.links.filter(link_of_tag(tag_id)).len(),
    {
        let mut n: usize = 0;
        let mut i: usize = 0;
        while i < self.links.len()
            invariant
                i <= self@.links.len(),
                n == self@.links.take(i as int).filter(link_of_tag(tag_id)).len(),
                n <= i,
            decreases self@.links.len() - i,
        {
            proof {
                lemma_filter_take_step(self@.links, link_of_tag(tag_id), i as int);
            }
            if self.links[i].1 == tag_id {
                n = n + 1;
            }
            i = i + 1;
        }
        proof {
            assert(self@.links.take(self@.links.len() as int) =~= self@.links);
        }
        n
    }

    /// Every tag, by name, with the number of files that carry it.
    pub fn get_tags_with_file_count(&self) -> (r: Result<Vec<(DBTag, i64)>, DbError>)
        requires
            self.wf(),
        ensures
            r matches Ok(v) && v@.len() == ranked_tags(self@.tags, any_tag()).len() && forall|i: int|
                0 <= i < v@.len() ==> (#[trigger] v@[i]).0@ == ranked_tags(self@.tags, any_tag())[i]
                    && v@[i].1 == self@.links.filter(link_of_tag(v@[i].0.id)).len() as i64,
    {
        let tags = self.get_all_tags().unwrap();
        let mut out: Vec<(DBTag, i64)> = Vec::new();
        let mut i: usize = 0;
        while i < tags.len()
            invariant
                i <= tags@.len(),
                out@.len() == i,
                views(tags@) == ranked_tags(self@.tags, any_tag()),
                forall|k: int|
                    0 <= k < i ==> (#[trigger] out@[k]).0@ == views(tags@)[k] && out@[k].1
                        == self@.links.filter(link_of_tag(out@[k].0.id)).len() as i64,
            decreases tags@.len() - i,
        {
            let n = self.links_to_tag(tags[i].id);
            out.push((tags[i].duplicate(), n as i64));
            i = i + 1;
        }
        Ok(out)
    }
}

/// The part of `v` that `LIMIT limit OFFSET offset` keeps.
fn window_of(v: Vec<DBFile>, limit: Option<i64>, offset: Option<i64>) -> (r: Vec<DBFile>)
    ensures
        views(r@) == window(views(v@), limit, offset),
{
    let len = v.len();
    let start: usize = match offset {
        Some(o) => if o > 0 {
            if (o as u64) >= (len as u64) {
                len
            } else {
                o as usize
            }
        } else {
            0
        },
        None => 0,
    };
    let rest_len = len - start;
    let count: usize = match limit {
        Some(l) => if l >= 0 && (l as u64) < (rest_len as u64) {
            l as usize
        } else {
            rest_len
        },
        None => rest_len,
    };
    let mut out: Vec<DBFile> = Vec::new();
    let mut i: usize = 0;
    while i < count
        invariant
            start + count <= len,
            len == v@.len(),
            i <= count,
            views(out@) == views(v@).subrange(start as int, start + i),
        decreases count - i,
    {
        let ghost before = views(out@);
        let row = v[start + i].duplicate();
        out.push(row);
        assert(views(out@) =~= before.push(row@));
        assert(views(v@)[start + i] == v@[start + i]@);
        i = i + 1;
        assert(views(out@) =~= views(v@).subrange(start as int, start + i));
    }
    let ghost s = views(v@);
    proof {
        let st: int = match offset {
            Some(o) => if o > 0 { o as int } else { 0 },
            None => 0,
        };
        if st >= s.len() {
            assert(start == len);
            assert(views(out@) =~= window(s, limit, offset));
        } else {
            assert(start == st);
            assert(views(out@) =~= window(s, limit, offset));
        }
    }
    out
}

} // verus!