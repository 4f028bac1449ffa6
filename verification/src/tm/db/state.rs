//! The mathematical model of the store: its three tables and the counters
//! from which new ids are drawn, with the rules that every state keeps.
use crate::ranking::{strictly_ranked, Ranked};
use crate::tm::db::types::{DBFile, DBTag, FileOrder, FileView, TagOrder, TagView};
use crate::times::TimePoint;
use vstd::prelude::*;

verus! {

/// The content of the store.
pub struct DbState {
    /// The `files` table, by ascending id.
    pub files: Seq<FileView>,
    /// The `tags` table, by ascending id.
    pub tags: Seq<TagView>,
    /// The `file_tags` table: pairs of a file id and a tag id.
    pub links: Seq<(i64, i64)>,
    /// The largest file id ever handed out (0 before the first).
    pub last_file_id: i64,
    /// The largest tag id ever handed out (0 before the first).
    pub last_tag_id: i64,
}

/// A time that the store can keep: whole seconds within `i64`.
pub open spec fn time_kept(t: TimePoint) -> bool {
    t.nanos == 0 && t.secs <= i64::MAX
}

/// A time given to the store fits in the column that keeps it.
pub open spec fn time_storable(t: TimePoint) -> bool {
    t.secs <= i64::MAX
}

pub open spec fn link_not_of_file(id: i64) -> spec_fn((i64, i64)) -> bool {
    |l: (i64, i64)| l.0 != id
}

pub open spec fn link_not_of_tag(id: i64) -> spec_fn((i64, i64)) -> bool {
    |l: (i64, i64)| l.1 != id
}

pub open spec fn link_of_tag(id: i64) -> spec_fn((i64, i64)) -> bool {
    |l: (i64, i64)| l.1 == id
}

pub open spec fn link_other_than(f: i64, t: i64) -> spec_fn((i64, i64)) -> bool {
    |l: (i64, i64)| l != (f, t)
}

pub open spec fn file_other_than(id: i64) -> spec_fn(FileView) -> bool {
    |f: FileView| f.id != id
}

pub open spec fn tag_other_than(id: i64) -> spec_fn(TagView) -> bool {
    |t: TagView| t.id != id
}

pub open spec fn file_path_is(p: Seq<char>) -> spec_fn(FileView) -> bool {
    |f: FileView| f.path == p
}

pub open spec fn file_hash_is(h: Seq<char>) -> spec_fn(FileView) -> bool {
    |f: FileView| f.content_hash == h
}

pub open spec fn file_path_is_not(p: Seq<char>) -> spec_fn(FileView) -> bool {
    |f: FileView| f.path != p
}

/// The files ranked by `order`, among those that satisfy `pred`.
pub open spec fn ranked_files(
    order: FileOrder,
    files: Seq<FileView>,
    pred: spec_fn(FileView) -> bool,
) -> Seq<FileView> {
    choose|s: Seq<FileView>|
        strictly_ranked::<DBFile>(order, s) && forall|v: FileView| #[trigger]
            s.contains(v) <==> (files.contains(v) && pred(v))
}

/// The tags ranked by name, among those that satisfy `pred`.
pub open spec fn ranked_tags(tags: Seq<TagView>, pred: spec_fn(TagView) -> bool) -> Seq<TagView> {
    choose|s: Seq<TagView>|
        strictly_ranked::<DBTag>(TagOrder::Name, s) && forall|v: TagView| #[trigger]
            s.contains(v) <==> (tags.contains(v) && pred(v))
}

/// Every file.
pub open spec fn any_file() -> spec_fn(FileView) -> bool {
    |f: FileView| true
}

/// Every tag.
pub open spec fn any_tag() -> spec_fn(TagView) -> bool {
    |t: TagView| true
}

/// The part of a listing that `LIMIT` and `OFFSET` keep: a negative offset
/// counts as none, a negative limit as no limit.
pub open spec fn window<A>(s: Seq<A>, limit: Option<i64>, offset: Option<i64>) -> Seq<A> {
    let start: int = match offset {
        Some(o) => if o > 0 {
            o as int
        } else {
            0
        },
        None => 0,
    };
    let rest = if start >= s.len() {
        Seq::<A>::empty()
    } else {
        s.skip(start)
    };
    match limit {
        Some(l) => if l >= 0 && l < rest.len() {
            rest.take(l as int)
        } else {
            rest
        },
        None => rest,
    }
}

impl DbState {
    /// The empty store.
    pub open spec fn empty() -> DbState {
        DbState {
            files: Seq::empty(),
            tags: Seq::empty(),
            links: Seq::empty(),
            last_file_id: 0,
            last_tag_id: 0,
        }
    }

    pub open spec fn has_file(self, id: i64) -> bool {
        exists|i: int| 0 <= i < self.files.len() && #[trigger] self.files[i].id == id
    }

    pub open spec fn file_index(self, id: i64) -> int {
        choose|i: int| 0 <= i < self.files.len() && #[trigger] self.files[i].id == id
    }

    /// The file with the given id.
    pub open spec fn file(self, id: i64) -> FileView {
        self.files[self.file_index(id)]
    }

    pub open spec fn has_tag(self, id: i64) -> bool {
        exists|i: int| 0 <= i < self.tags.len() && #[trigger] self.tags[i].id == id
    }

    pub open spec fn tag_index(self, id: i64) -> int {
        choose|i: int| 0 <= i < self.tags.len() && #[trigger] self.tags[i].id == id
    }

    /// The tag with the given id.
    pub open spec fn tag(self, id: i64) -> TagView {
        self.tags[self.tag_index(id)]
    }

    pub open spec fn has_tag_named(self, name: Seq<char>) -> bool {
        exists|i: int| 0 <= i < self.tags.len() && #[trigger] self.tags[i].name == name
    }

    pub open spec fn tag_named_index(self, name: Seq<char>) -> int {
        choose|i: int| 0 <= i < self.tags.len() && #[trigger] self.tags[i].name == name
    }

    /// The tag with the given name.
    pub open spec fn tag_named(self, name: Seq<char>) -> TagView {
        self.tags[self.tag_named_index(name)]
    }

    pub open spec fn has_link(self, file_id: i64, tag_id: i64) -> bool {
        self.links.contains((file_id, tag_id))
    }

    /// The rules that every state of the store keeps.
    pub open spec fn valid(self) -> bool {
        &&& 0 <= self.last_file_id
        &&& 0 <= self.last_tag_id
        &&& self.files.len() <= self.last_file_id
        &&& self.tags.len() <= self.last_tag_id
        &&& forall|i: int, j: int|
            0 <= i < j < self.files.len() ==> #[trigger] self.files[i].id < #[trigger] self.files[j].id
        &&& forall|i: int|
            0 <= i < self.files.len() ==> {
                let f = #[trigger] self.files[i];
                &&& 1 <= f.id <= self.last_file_id
                &&& time_kept(f.last_modified)
                &&& time_kept(f.last_accessed)
                &&& time_kept(f.created)
            }
        &&& forall|i: int, j: int|
            0 <= i < j < self.tags.len() ==> #[trigger] self.tags[i].id < #[trigger] self.tags[j].id
        &&& forall|i: int| 0 <= i < self.tags.len() ==> 1 <= #[trigger] self.tags[i].id <= self.last_tag_id
        &&& forall|i: int, j: int|
            0 <= i < self.tags.len() && 0 <= j < self.tags.len() && i != j ==> #[trigger] self.tags[i].name
                != #[trigger] self.tags[j].name
        &&& self.links.no_duplicates()
        &&& forall|l: (i64, i64)|
            #[trigger] self.links.contains(l) ==> self.has_file(l.0) && self.has_tag(l.1)
    }
}

/// In a valid state a file id picks out exactly one row.
pub proof fn lemma_file_at(s: DbState, i: int)
    requires
        s.valid(),
        0 <= i < s.files.len(),
    ensures
        s.has_file(s.files[i].id),
        s.file_index(s.files[i].id) == i,
        s.file(s.files[i].id) == s.files[i],
{
    let id = s.files[i].id;
    assert(s.has_file(id));
    let k = s.file_index(id);
    if k < i {
        assert(s.files[k].id < s.files[i].id);
    } else if k > i {
        assert(s.files[i].id < s.files[k].id);
    }
}

/// In a valid state a tag id picks out exactly one row.
pub proof fn lemma_tag_at(s: DbState, i: int)
    requires
        s.valid(),
        0 <= i < s.tags.len(),
    ensures
        s.has_tag(s.tags[i].id),
        s.tag_index(s.tags[i].id) == i,
        s.tag(s.tags[i].id) == s.tags[i],
        s.has_tag_named(s.tags[i].name),
        s.tag_named_index(s.tags[i].name) == i,
        s.tag_named(s.tags[i].name) == s.tags[i],
{
    let id = s.tags[i].id;
    assert(s.has_tag(id));
    let k = s.tag_index(id);
    if k < i {
        assert(s.tags[k].id < s.tags[i].id);
    } else if k > i {
        assert(s.tags[i].id < s.tags[k].id);
    }
    assert(s.has_tag_named(s.tags[i].name));
    let n = s.tag_named_index(s.tags[i].name);
    if n != i {
        assert(s.tags[n].name != s.tags[i].name);
    }
}

/// One more element of a prefix, through `filter`.
pub proof fn lemma_filter_take_step<A>(s: Seq<A>, p: spec_fn(A) -> bool, i: int)
    requires
        0 <= i < s.len(),
    ensures
        s.take(i + 1).filter(p) == (if p(s[i]) {
            s.take(i).filter(p).push(s[i])
        } else {
            s.take(i).filter(p)
        }),
{
    reveal(Seq::filter);
    assert(s.take(i + 1).drop_last() =~= s.take(i));
    assert(s.take(i + 1).last() == s[i]);
}

/// What a filtered sequence contains.
pub proof fn lemma_filter_contains_iff<A>(s: Seq<A>, p: spec_fn(A) -> bool)
    ensures
        forall|v: A| #[trigger] s.filter(p).contains(v) <==> (s.contains(v) && p(v)),
{
    broadcast use vstd::seq_lib::group_filter_ensures;

    assert forall|v: A| #[trigger] s.filter(p).contains(v) <==> (s.contains(v) && p(v)) by {
        if s.contains(v) && p(v) {
            let i = choose|i: int| 0 <= i < s.len() && s[i] == v;
            s.lemma_filter_contains(p, i);
        }
        if s.filter(p).contains(v) {
            s.lemma_filter_contains_rev(p, v);
        }
    }
}

/// Filtering keeps a sequence increasing in a key.
pub proof fn lemma_filter_keeps_increasing<A>(s: Seq<A>, p: spec_fn(A) -> bool, key: spec_fn(A) -> int)
    requires
        forall|i: int, j: int| 0 <= i < j < s.len() ==> #[trigger] key(s[i]) < #[trigger] key(s[j]),
    ensures
        forall|i: int, j: int|
            0 <= i < j < s.filter(p).len() ==> #[trigger] key(s.filter(p)[i]) < #[trigger] key(
                s.filter(p)[j],
            ),
    decreases s.len(),
{
    reveal(Seq::filter);
    if s.len() > 0 {
        let t = s.drop_last();
        lemma_filter_keeps_increasing(t, p, key);
        lemma_filter_contains_iff(t, p);
        let ft = t.filter(p);
        assert forall|i: int| 0 <= i < ft.len() implies key(ft[i]) < key(s.last()) by {
            assert(ft.contains(ft[i]));
            let k = choose|k: int| 0 <= k < t.len() && t[k] == ft[i];
            assert(key(s[k]) < key(s[s.len() - 1]));
        }
    }
}

/// Filtering keeps a sequence free of duplicates.
pub proof fn lemma_filter_no_duplicates<A>(s: Seq<A>, p: spec_fn(A) -> bool)
    requires
        s.no_duplicates(),
    ensures
        s.filter(p).no_duplicates(),
    decreases s.len(),
{
    reveal(Seq::filter);
    if s.len() > 0 {
        let t = s.drop_last();
        assert(t.no_duplicates());
        lemma_filter_no_duplicates(t, p);
        lemma_filter_contains_iff(t, p);
        if p(s.last()) {
            assert(!t.contains(s.last()));
            let f = t.filter(p);
            assert(!f.contains(s.last()));
            assert forall|i: int, j: int| 0 <= i < j < f.push(s.last()).len() implies f.push(s.last())[i]
                != f.push(s.last())[j] by {
                if j == f.len() {
                    assert(f.contains(f[i]));
                }
            }
        }
    }
}

/// The id-ordered rows of a filtered file table keep every rule of a valid state
/// that is about files alone.
pub proof fn lemma_filter_files_valid(s: DbState, p: spec_fn(FileView) -> bool)
    requires
        s.valid(),
    ensures
        ({
            let f = s.files.filter(p);
            &&& f.len() <= s.files.len()
            &&& forall|i: int, j: int| 0 <= i < j < f.len() ==> #[trigger] f[i].id < #[trigger] f[j].id
            &&& forall|i: int|
                0 <= i < f.len() ==> {
                    let g = #[trigger] f[i];
                    &&& 1 <= g.id <= s.last_file_id
                    &&& time_kept(g.last_modified)
                    &&& time_kept(g.last_accessed)
                    &&& time_kept(g.created)
                }
            &&& forall|v: FileView| #[trigger] f.contains(v) <==> (s.files.contains(v) && p(v))
        }),
{
    let f = s.files.filter(p);
    s.files.lemma_filter_len(p);
    lemma_filter_keeps_increasing(s.files, p, |v: FileView| v.id as int);
    lemma_filter_contains_iff(s.files, p);
    assert forall|i: int, j: int| 0 <= i < j < f.len() implies #[trigger] f[i].id < #[trigger] f[j].id by {
        assert((|v: FileView| v.id as int)(f[i]) < (|v: FileView| v.id as int)(f[j]));
    }
    assert forall|i: int| 0 <= i < f.len() implies {
        let g = #[trigger] f[i];
        &&& 1 <= g.id <= s.last_file_id
        &&& time_kept(g.last_modified)
        &&& time_kept(g.last_accessed)
        &&& time_kept(g.created)
    } by {
        assert(f.contains(f[i]));
        let k = choose|k: int| 0 <= k < s.files.len() && s.files[k] == f[i];
        assert(s.files[k] == f[i]);
    }
}

/// The same for the tag table, with the uniqueness of names.
pub proof fn lemma_filter_tags_valid(s: DbState, p: spec_fn(TagView) -> bool)
    requires
        s.valid(),
    ensures
        ({
            let t = s.tags.filter(p);
            &&& t.len() <= s.tags.len()
            &&& forall|i: int, j: int| 0 <= i < j < t.len() ==> #[trigger] t[i].id < #[trigger] t[j].id
            &&& forall|i: int| 0 <= i < t.len() ==> 1 <= #[trigger] t[i].id <= s.last_tag_id
            &&& forall|i: int, j: int|
                0 <= i < t.len() && 0 <= j < t.len() && i != j ==> #[trigger] t[i].name != #[trigger] t[j].name
            &&& forall|v: TagView| #[trigger] t.contains(v) <==> (s.tags.contains(v) && p(v))
        }),
{
    let t = s.tags.filter(p);
    s.tags.lemma_filter_len(p);
    lemma_filter_keeps_increasing(s.tags, p, |v: TagView| v.id as int);
    lemma_filter_contains_iff(s.tags, p);
    assert forall|i: int, j: int| 0 <= i < j < t.len() implies #[trigger] t[i].id < #[trigger] t[j].id by {
        assert((|v: TagView| v.id as int)(t[i]) < (|v: TagView| v.id as int)(t[j]));
    }
    assert forall|i: int| 0 <= i < t.len() implies 1 <= #[trigger] t[i].id <= s.last_tag_id by {
        assert(t.contains(t[i]));
        let k = choose|k: int| 0 <= k < s.tags.len() && s.tags[k] == t[i];
        assert(s.tags[k] == t[i]);
    }
    assert forall|i: int, j: int|
        0 <= i < t.len() && 0 <= j < t.len() && i != j implies #[trigger] t[i].name != #[trigger] t[j].name by {
        assert(t.contains(t[i]));
        assert(t.contains(t[j]));
        let a = choose|a: int| 0 <= a < s.tags.len() && s.tags[a] == t[i];
        let b = choose|b: int| 0 <= b < s.tags.len() && s.tags[b] == t[j];
        if i < j {
            assert((|v: TagView| v.id as int)(t[i]) < (|v: TagView| v.id as int)(t[j]));
        } else {
            assert((|v: TagView| v.id as int)(t[j]) < (|v: TagView| v.id as int)(t[i]));
        }
        assert(a != b);
    }
}

/// A row that a filter keeps can still be found by its id.
pub proof fn lemma_file_kept(s: DbState, p: spec_fn(FileView) -> bool, id: i64) -> (j: int)
    requires
        s.has_file(id),
        p(s.files[s.file_index(id)]),
    ensures
        0 <= j < s.files.filter(p).len(),
        s.files.filter(p)[j].id == id,
{
    let k = s.file_index(id);
    lemma_filter_contains_iff(s.files, p);
    assert(s.files.contains(s.files[k]));
    let f = s.files.filter(p);
    assert(f.contains(s.files[k]));
    choose|j: int| 0 <= j < f.len() && f[j] == s.files[k]
}

/// A tag that a filter keeps can still be found by its id.
pub proof fn lemma_tag_kept(s: DbState, p: spec_fn(TagView) -> bool, id: i64) -> (j: int)
    requires
        s.has_tag(id),
        p(s.tags[s.tag_index(id)]),
    ensures
        0 <= j < s.tags.filter(p).len(),
        s.tags.filter(p)[j].id == id,
{
    let k = s.tag_index(id);
    lemma_filter_contains_iff(s.tags, p);
    assert(s.tags.contains(s.tags[k]));
    let t = s.tags.filter(p);
    assert(t.contains(s.tags[k]));
    choose|j: int| 0 <= j < t.len() && t[j] == s.tags[k]
}

/// A ranked listing of rows with distinct ids exists, so `ranked_files` is one.
pub proof fn lemma_ranked_files_props(order: FileOrder, files: Seq<FileView>, pred: spec_fn(FileView) -> bool)
    requires
        forall|i: int, j: int| 0 <= i < j < files.len() ==> #[trigger] files[i].id < #[trigger] files[j].id,
    ensures
        strictly_ranked::<DBFile>(order, ranked_files(order, files, pred)),
        forall|v: FileView| #[trigger] ranked_files(order, files, pred).contains(v) <==> (files.contains(v) && pred(v)),
{
    let f = files.filter(pred);
    lemma_filter_keeps_increasing(files, pred, |v: FileView| v.id as int);
    lemma_filter_contains_iff(files, pred);
    assert forall|i: int, j: int| 0 <= i < f.len() && 0 <= j < f.len() && i != j implies
        crate::tm::db::types::file_before(order, f[i], f[j]) || crate::tm::db::types::file_before(order, f[j], f[i]) by {
        if i < j {
            assert((|v: FileView| v.id as int)(f[i]) < (|v: FileView| v.id as int)(f[j]));
        } else {
            assert((|v: FileView| v.id as int)(f[j]) < (|v: FileView| v.id as int)(f[i]));
        }
        crate::tm::db::types::lemma_file_before_total(order, f[i], f[j]);
    }
    assert(crate::ranking::pairwise_comparable::<DBFile>(order, f));
    let r = crate::ranking::lemma_ranked_exists::<DBFile>(order, f);
    assert(strictly_ranked::<DBFile>(order, r) && forall|v: FileView| #[trigger] r.contains(v) <==> (files.contains(v) && pred(v)));
}

} // verus!
