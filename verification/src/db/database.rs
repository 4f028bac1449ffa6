//! A store keyed by path: the `files`, `tags` and `file_tags` tables of the
//! command-line tool, kept in memory and checked against [`TagTables`].
use crate::db::types::{FileRow, FileTagsView, FileWithTags, FilesOrderBy, RowView, lemma_row_before_total, row_before};
use crate::ranking::{lemma_ranked_selection_is, pairwise_comparable, ranked_selection, sort_ranked, strictly_ranked, views};
use crate::text::{comma_pieces, concat, join_strings, joined, owned, push_comma_pieces, str_equal, views_of_strings};
use vstd::seq_lib::group_filter_ensures;
use crate::tm::db::types::{lemma_tag_before_total, tag_before, DBTag, TagOrder, TagView};
use vstd::prelude::*;

verus! {

/// Why an operation of the store failed.
#[derive(Debug, Clone, PartialEq, Eq)]
pub enum DbError {
    /// The storage engine refused a statement.
    Sql(String),
}

impl DbError {
    /// The text of the error, as it is shown to the user.
    pub fn message(&self) -> (r: String)
        ensures
            self matches DbError::Sql(m) && r@ == "Błąd SQL: "@ + m@,
    {
        match self {
            DbError::Sql(m) => concat("Błąd SQL: ", m.as_str()),
        }
    }
}

/// The content of the store: file `i + 1` has path `files[i]`, tag `i + 1` has
/// name `tags[i]`.
pub struct TagTables {
    pub files: Seq<Seq<char>>,
    pub tags: Seq<Seq<char>>,
    pub links: Seq<(i64, i64)>,
}

impl TagTables {
    pub open spec fn valid(self) -> bool {
        &&& self.files.len() < i64::MAX
        &&& self.tags.len() < i64::MAX
        &&& forall|i: int, j: int| 0 <= i < self.files.len() && 0 <= j < self.files.len() && i != j
            ==> #[trigger] self.files[i] != #[trigger] self.files[j]
        &&& forall|i: int, j: int| 0 <= i < self.tags.len() && 0 <= j < self.tags.len() && i != j
            ==> #[trigger] self.tags[i] != #[trigger] self.tags[j]
        &&& self.links.no_duplicates()
        &&& forall|l: (i64, i64)| #[trigger] self.links.contains(l) ==> 1 <= l.0 <= self.files.len() && 1
            <= l.1 <= self.tags.len()
    }

    /// The id of the file with path `p` (meaningful when there is one).
    pub open spec fn path_id(self, p: Seq<char>) -> i64 {
        (self.files.index_of(p) + 1) as i64
    }

    /// The id of the tag named `n` (meaningful when there is one).
    pub open spec fn tag_id(self, n: Seq<char>) -> i64 {
        (self.tags.index_of(n) + 1) as i64
    }

    /// The files as rows of id and path.
    pub open spec fn rows(self) -> Seq<RowView> {
        Seq::new(self.files.len(), |i: int| RowView { id: (i + 1) as i64, path: self.files[i] })
    }

    /// The tags as rows of id and name.
    pub open spec fn tag_rows(self) -> Seq<TagView> {
        Seq::new(self.tags.len(), |i: int| TagView { id: (i + 1) as i64, name: self.tags[i] })
    }
}

pub open spec fn add_path(s: TagTables, p: Seq<char>) -> TagTables {
    if s.files.contains(p) {
        s
    } else {
        TagTables { files: s.files.push(p), ..s }
    }
}

pub open spec fn add_tag_name(s: TagTables, n: Seq<char>) -> TagTables {
    if s.tags.contains(n) {
        s
    } else {
        TagTables { tags: s.tags.push(n), ..s }
    }
}

pub open spec fn add_pair(s: TagTables, f: i64, t: i64) -> TagTables {
    if s.links.contains((f, t)) {
        s
    } else {
        TagTables { links: s.links.push((f, t)), ..s }
    }
}

/// The store after the tag `n` is given to the file with id `f`.
pub open spec fn tagged_by_id(s: TagTables, f: i64, n: Seq<char>) -> TagTables {
    let s1 = add_tag_name(s, n);
    add_pair(s1, f, s1.tag_id(n))
}

/// The store after the tag `n` is given to the file at path `p`.
pub open spec fn tagged_by_path(s: TagTables, p: Seq<char>, n: Seq<char>) -> TagTables {
    let s1 = add_path(s, p);
    tagged_by_id(s1, s1.path_id(p), n)
}

/// The names of the tags of file `f`, by ascending tag id.
pub open spec fn names_of_file(s: TagTables, f: i64, n: int) -> Seq<Seq<char>>
    decreases n,
{
    if n <= 0 {
        Seq::empty()
    } else {
        let rest = names_of_file(s, f, n - 1);
        if s.links.contains((f, n as i64)) {
            rest.push(s.tags[n - 1])
        } else {
            rest
        }
    }
}

/// The file has no tag.
pub open spec fn row_untagged(s: TagTables) -> spec_fn(RowView) -> bool {
    |r: RowView| forall|i: int| 0 <= i < s.links.len() ==> #[trigger] s.links[i].0 != r.id
}

/// The file carries the tag `t`.
pub open spec fn row_tagged_with(s: TagTables, t: i64) -> spec_fn(RowView) -> bool {
    |r: RowView| s.links.contains((r.id, t))
}

/// The order that a listing uses: by id when none is asked for.
pub open spec fn order_or_id(order: Option<FilesOrderBy>) -> FilesOrderBy {
    match order {
        Some(o) => o,
        None => FilesOrderBy::Id,
    }
}

/// The tag is one of those of file `f`.
pub open spec fn tag_of_file(s: TagTables, f: i64) -> spec_fn(TagView) -> bool {
    |t: TagView| s.links.contains((f, t.id))
}

/// The tag names of file `f` as the listing of files by tag gives them: sorted by
/// name, joined with commas and split again at the commas, empty parts dropped.
pub open spec fn listed_tag_names(s: TagTables, f: i64) -> Seq<Seq<char>> {
    let sorted = ranked_selection::<DBTag>(TagOrder::Name, s.tag_rows(), tag_of_file(s, f));
    comma_pieces(joined(sorted.map_values(|t: TagView| t.name), seq![',']))
}

/// The files that carry the tag named `n`, in the order asked for; none when
/// there is no such tag.
pub open spec fn tag_listing(s: TagTables, n: Seq<char>, order: Option<FilesOrderBy>) -> Seq<RowView> {
    if s.tags.contains(n) {
        ranked_selection::<FileRow>(order_or_id(order), s.rows(), row_tagged_with(s, s.tag_id(n)))
    } else {
        Seq::empty()
    }
}

/// A file of a listing by tag, with the names of all its tags.
pub open spec fn listed_file(s: TagTables, r: RowView) -> FileTagsView {
    FileTagsView { id: r.id, path: r.path, tags: listed_tag_names(s, r.id) }
}

/// The store after each path in turn is added to it.
pub open spec fn with_paths(s: TagTables, paths: Seq<Seq<char>>) -> TagTables
    decreases paths.len(),
{
    if paths.len() == 0 {
        s
    } else {
        add_path(with_paths(s, paths.drop_last()), paths.last())
    }
}

/// How many of the paths, added in turn, were not in the store yet.
pub open spec fn new_path_count(s: TagTables, paths: Seq<Seq<char>>) -> nat
    decreases paths.len(),
{
    if paths.len() == 0 {
        0
    } else {
        new_path_count(s, paths.drop_last()) + if with_paths(s, paths.drop_last()).files.contains(paths.last()) {
            0nat
        } else {
            1nat
        }
    }
}

/// Each pair of id and path by its characters.
pub open spec fn pair_views(v: Seq<(i64, String)>) -> Seq<(i64, Seq<char>)> {
    v.map_values(|p: (i64, String)| (p.0, p.1@))
}

/// Each row as a pair of id and path.
pub open spec fn row_pairs(rows: Seq<RowView>) -> Seq<(i64, Seq<char>)> {
    rows.map_values(|r: RowView| (r.id, r.path))
}

/// The files that carry no tag, in the order asked for.
pub open spec fn untagged_listing(s: TagTables, order: Option<FilesOrderBy>) -> Seq<RowView> {
    ranked_selection::<FileRow>(order_or_id(order), s.rows(), row_untagged(s))
}

/// Each path that was new adds one file.
pub proof fn lemma_with_paths_len(s: TagTables, paths: Seq<Seq<char>>)
    ensures
        with_paths(s, paths).files.len() == s.files.len() + new_path_count(s, paths),
    decreases paths.len(),
{
    if paths.len() > 0 {
        lemma_with_paths_len(s, paths.drop_last());
    }
}

/// Adding files leaves the tags and their links as they were.
pub proof fn lemma_with_paths_keeps_tags(s: TagTables, paths: Seq<Seq<char>>)
    ensures
        with_paths(s, paths).tags == s.tags,
        with_paths(s, paths).links == s.links,
    decreases paths.len(),
{
    if paths.len() > 0 {
        lemma_with_paths_keeps_tags(s, paths.drop_last());
    }
}

/// The tagging store of the command-line tool.
pub struct Database {
    files: Vec<String>,
    tags: Vec<String>,
    links: Vec<(i64, i64)>,
}

impl View for Database {
    type V = TagTables;

    closed spec fn view(&self) -> TagTables {
        TagTables { files: views_of_strings(self.files@), tags: views_of_strings(self.tags@), links: self.links@ }
    }
}

/// The names of the tags with a comma between each two.
fn join_names(tags: &Vec<DBTag>) -> (r: String)
    ensures
        r@ == joined(views(tags@).map_values(|t: TagView| t.name), seq![',']),
{
    let mut names: Vec<String> = Vec::new();
    let mut k: usize = 0;
    while k < tags.len()
        invariant
            k <= tags@.len(),
            views_of_strings(names@) == views(tags@).map_values(|t: TagView| t.name).take(k as int),
        decreases tags@.len() - k,
    {
        let ghost before = views_of_strings(names@);
        names.push(owned(tags[k].name.as_str()));
        proof {
            assert(views_of_strings(names@) =~= before.push(tags@[k as int].name@));
            assert(views(tags@).map_values(|t: TagView| t.name).take(k + 1) =~= views(tags@).map_values(
                |t: TagView| t.name,
            ).take(k as int).push(tags@[k as int].name@));
        }
        k = k + 1;
    }
    proof {
        assert(views(tags@).map_values(|t: TagView| t.name).take(tags@.len() as int) =~= views(tags@).map_values(
            |t: TagView| t.name,
        ));
        reveal_strlit(",");
        assert(","@ =~= seq![',']);
    }
    let r = join_strings(&names, ",");
    proof {
        assert(views_of_strings(names@) =~= views(tags@).map_values(|t: TagView| t.name));
    }
    r
}

/// No two of the strings are equal.
fn all_distinct(items: &Vec<String>) -> (r: bool)
    ensures
        r == (forall|i: int, j: int| 0 <= i < items@.len() && 0 <= j < items@.len() && i != j
            ==> #[trigger] views_of_strings(items@)[i] != #[trigger] views_of_strings(items@)[j]),
{
    let ghost v = views_of_strings(items@);
    let mut i: usize = 0;
    while i < items.len()
        invariant
            v == views_of_strings(items@),
            i <= items@.len(),
            forall|a: int, b: int| 0 <= a < i && a < b < items@.len() ==> #[trigger] v[a] != #[trigger] v[b],
        decreases items@.len() - i,
    {
        let mut j: usize = i + 1;
        while j < items.len()
            invariant
                v == views_of_strings(items@),
                i < items@.len(),
                i + 1 <= j <= items@.len(),
                forall|a: int, b: int| 0 <= a < i && a < b < items@.len() ==> #[trigger] v[a] != #[trigger] v[b],
                forall|b: int| i < b < j ==> v[i as int] != #[trigger] v[b],
            decreases items@.len() - j,
        {
            if str_equal(items[i].as_str(), items[j].as_str()) {
                proof {
                    assert(v[i as int] == v[j as int]);
                }
                return false;
            }
            j = j + 1;
        }
        i = i + 1;
    }
    proof {
        assert forall|a: int, b: int| 0 <= a < items@.len() && 0 <= b < items@.len() && a != b implies #[trigger] v[a]
            != #[trigger] v[b] by {
            if b < a {
                assert(v[b] != v[a]);
            }
        }
    }
    true
}

/// No pair occurs twice, and each names a file among the first `nfiles` and a tag
/// among the first `ntags`.
fn links_fit(links: &Vec<(i64, i64)>, nfiles: usize, ntags: usize) -> (r: bool)
    ensures
        r == (links@.no_duplicates() && forall|l: (i64, i64)| #[trigger] links@.contains(l) ==> 1 <= l.0 <= nfiles && 1
            <= l.1 <= ntags),
{
    let mut i: usize = 0;
    while i < links.len()
        invariant
            i <= links@.len(),
            forall|a: int| 0 <= a < i ==> 1 <= #[trigger] links@[a].0 <= nfiles && 1 <= links@[a].1 <= ntags,
            forall|a: int, b: int| 0 <= a < i && a < b < links@.len() ==> #[trigger] links@[a] != #[trigger] links@[b],
        decreases links@.len() - i,
    {
        let (f, t) = links[i];
        if !(1 <= f && f as u64 <= nfiles as u64 && 1 <= t && t as u64 <= ntags as u64) {
            proof {
                assert(links@.contains(links@[i as int]));
            }
            return false;
        }
        let mut j: usize = i + 1;
        while j < links.len()
            invariant
                i < links@.len(),
                (f, t) == links@[i as int],
                i + 1 <= j <= links@.len(),
                forall|b: int| i < b < j ==> links@[i as int] != #[trigger] links@[b],
            decreases links@.len() - j,
        {
            if links[j].0 == f && links[j].1 == t {
                return false;
            }
            j = j + 1;
        }
        i = i + 1;
    }
    proof {
        assert forall|l: (i64, i64)| #[trigger] links@.contains(l) implies 1 <= l.0 <= nfiles && 1 <= l.1 <= ntags by {
            let k = choose|k: int| 0 <= k < links@.len() && links@[k] == l;
            assert(1 <= links@[k].0 <= nfiles);
        }
    }
    true
}

/// A copy of the strings.
fn copy_strings(items: &Vec<String>) -> (r: Vec<String>)
    ensures
        views_of_strings(r@) == views_of_strings(items@),
{
    let mut out: Vec<String> = Vec::new();
    let mut i: usize = 0;
    while i < items.len()
        invariant
            i <= items@.len(),
            views_of_strings(out@) == views_of_strings(items@).take(i as int),
        decreases items@.len() - i,
    {
        let ghost before = views_of_strings(out@);
        out.push(owned(items[i].as_str()));
        proof {
            assert(views_of_strings(out@) =~= before.push(items@[i as int]@));
            assert(views_of_strings(items@).take(i + 1) =~= views_of_strings(items@).take(i as int).push(items@[i as int]@));
        }
        i = i + 1;
    }
    proof {
        assert(views_of_strings(items@).take(items@.len() as int) =~= views_of_strings(items@));
    }
    out
}

proof fn lemma_index_of_unique(s: Seq<Seq<char>>, i: int)
    requires
        0 <= i < s.len(),
        forall|a: int, b: int| 0 <= a < s.len() && 0 <= b < s.len() && a != b ==> #[trigger] s[a] != #[trigger] s[b],
    ensures
        s.index_of(s[i]) == i,
{
    assert(s.contains(s[i]));
    let k = s.index_of(s[i]);
    assert(s[k] == s[i]);
}

impl Database {
    pub open spec fn wf(&self) -> bool {
        self@.valid()
    }

    /// An empty store.
    pub fn new_in_memory() -> (r: Result<Database, DbError>)
        ensures
            r matches Ok(db) && db.wf() && db@.files.len() == 0 && db@.tags.len() == 0 && db@.links.len() == 0,
    {
        let db = Database { files: Vec::new(), tags: Vec::new(), links: Vec::new() };
        assert(db@.files =~= Seq::<Seq<char>>::empty());
        assert(db@.tags =~= Seq::<Seq<char>>::empty());
        Ok(db)
    }

    fn path_pos(&self, path: &str) -> (r: Option<usize>)
        requires
            self.wf(),
        ensures
            r is None <==> !self@.files.contains(path@),
            r matches Some(i) ==> i < self@.files.len() && i < self.files@.len() && self@.files[i as int] == path@ && self@.path_id(path@) == i + 1,
    {
        let mut i: usize = 0;
        while i < self.files.len()
            invariant
                self.wf(),
                i <= self.files@.len(),
                forall|k: int| 0 <= k < i ==> self@.files[k] != path@,
            decreases self.files@.len() - i,
        {
            assert(self@.files[i as int] == self.files@[i as int]@);
            if str_equal(self.files[i].as_str(), path) {
                proof {
                    lemma_index_of_unique(self@.files, i as int);
                }
                return Some(i);
            }
            i = i + 1;
        }
        None
    }

    fn tag_pos(&self, name: &str) -> (r: Option<usize>)
        requires
            self.wf(),
        ensures
            r is None <==> !self@.tags.contains(name@),
            r matches Some(i) ==> i < self@.tags.len() && i < self.tags@.len() && self@.tags[i as int] == name@ && self@.tag_id(name@) == i + 1,
    {
        let mut i: usize = 0;
        while i < self.tags.len()
            invariant
                self.wf(),
                i <= self.tags@.len(),
                forall|k: int| 0 <= k < i ==> self@.tags[k] != name@,
            decreases self.tags@.len() - i,
        {
            assert(self@.tags[i as int] == self.tags@[i as int]@);
            if str_equal(self.tags[i].as_str(), name) {
                proof {
                    lemma_index_of_unique(self@.tags, i as int);
                }
                return Some(i);
            }
            i = i + 1;
        }
        None
    }

    fn has_pair(&self, f: i64, t: i64) -> (r: bool)
        ensures
            r == self@.links.contains((f, t)),
    {
        let mut i: usize = 0;
        while i < self.links.len()
            invariant
                i <= self.links@.len(),
                forall|k: int| 0 <= k < i ==> self@.links[k] != (f, t),
            decreases self.links@.len() - i,
        {
            if self.links[i].0 == f && self.links[i].1 == t {
                return true;
            }
            i = i + 1;
        }
        false
    }

    fn insert_path(&mut self, path: &str) -> (r: i64)
        requires
            old(self).wf(),
            old(self)@.files.len() + 1 < i64::MAX,
        ensures
            final(self).wf(),
            final(self)@ == add_path(old(self)@, path@),
            r == final(self)@.path_id(path@),
            final(self)@.files.contains(path@),
    {
        match self.path_pos(path) {
            Some(i) => i as i64 + 1,
            None => {
                let ghost pre = self@;
                self.files.push(owned(path));
                proof {
                    assert(self@.files =~= pre.files.push(path@));
                    let n = pre.files.len() as int;
                    assert(self@.files[n] == path@);
                    assert forall|i: int, j: int| 0 <= i < self@.files.len() && 0 <= j < self@.files.len() && i != j
                        implies #[trigger] self@.files[i] != #[trigger] self@.files[j] by {
                        if i == n {
                            assert(!pre.files.contains(pre.files[j]) || pre.files[j] != path@);
                        } else if j == n {
                            assert(pre.files.contains(pre.files[i]));
                        }
                    }
                    lemma_index_of_unique(self@.files, n);
                }
                self.files.len() as i64
            },
        }
    }

    fn insert_tag(&mut self, name: &str) -> (r: i64)
        requires
            old(self).wf(),
            old(self)@.tags.len() + 1 < i64::MAX,
        ensures
            final(self).wf(),
            final(self)@ == add_tag_name(old(self)@, name@),
            r == final(self)@.tag_id(name@),
            final(self)@.tags.contains(name@),
    {
        match self.tag_pos(name) {
            Some(i) => i as i64 + 1,
            None => {
                let ghost pre = self@;
                self.tags.push(owned(name));
                proof {
                    assert(self@.tags =~= pre.tags.push(name@));
                    let n = pre.tags.len() as int;
                    assert(self@.tags[n] == name@);
                    assert forall|i: int, j: int| 0 <= i < self@.tags.len() && 0 <= j < self@.tags.len() && i != j
                        implies #[trigger] self@.tags[i] != #[trigger] self@.tags[j] by {
                        if j == n {
                            assert(pre.tags.contains(pre.tags[i]));
                        } else if i == n {
                            assert(pre.tags.contains(pre.tags[j]));
                        }
                    }
                    lemma_index_of_unique(self@.tags, n);
                }
                self.tags.len() as i64
            },
        }
    }

    fn insert_pair(&mut self, f: i64, t: i64)
        requires
            old(self).wf(),
            1 <= f <= old(self)@.files.len(),
            1 <= t <= old(self)@.tags.len(),
        ensures
            final(self).wf(),
            final(self)@ == add_pair(old(self)@, f, t),
    {
        if !self.has_pair(f, t) {
            let ghost pre = self@;
            self.links.push((f, t));
            proof {
                assert(self@ =~= add_pair(pre, f, t));
                assert forall|i: int, j: int| 0 <= i < j < self@.links.len() implies self@.links[i] != self@.links[j] by {
                    if j == pre.links.len() {
                        assert(pre.links.contains(pre.links[i]));
                    }
                }
                assert forall|l: (i64, i64)| #[trigger] self@.links.contains(l) implies 1 <= l.0 <= self@.files.len() && 1
                    <= l.1 <= self@.tags.len() by {
                    if l != (f, t) {
                        let k = choose|k: int| 0 <= k < self@.links.len() && self@.links[k] == l;
                        assert(pre.links[k] == l);
                        assert(pre.links.contains(l));
                    }
                }
            }
        }
    }

    /// A store with the given tables: file `i + 1` has path `files[i]`, tag `i + 1`
    /// has name `tags[i]`, and `links` pairs file ids with tag ids. There is none
    /// when the tables break the rules of the store.
    pub fn from_tables(files: Vec<String>, tags: Vec<String>, links: Vec<(i64, i64)>) -> (r: Option<Database>)
        ensures
            ({
                let t = TagTables { files: views_of_strings(files@), tags: views_of_strings(tags@), links: links@ };
                &&& r is Some <==> t.valid()
                &&& r matches Some(db) ==> db.wf() && db@ == t
            }),
    {
        let ghost t = TagTables { files: views_of_strings(files@), tags: views_of_strings(tags@), links: links@ };
        let limit: u64 = 0x7fff_ffff_ffff_fffe;
        if files.len() as u64 > limit || tags.len() as u64 > limit {
            return None;
        }
        if !all_distinct(&files) || !all_distinct(&tags) {
            return None;
        }
        if !links_fit(&links, files.len(), tags.len()) {
            return None;
        }
        let db = Database { files, tags, links };
        assert(db@ == t);
        Some(db)
    }

    /// The tables of the store: the paths by file id, the names by tag id, and
    /// the pairs of file id and tag id.
    pub fn tables(&self) -> (r: (Vec<String>, Vec<String>, Vec<(i64, i64)>))
        ensures
            views_of_strings(r.0@) == self@.files,
            views_of_strings(r.1@) == self@.tags,
            r.2@ == self@.links,
    {
        let mut links: Vec<(i64, i64)> = Vec::new();
        let mut i: usize = 0;
        while i < self.links.len()
            invariant
                i <= self.links@.len(),
                links@ == self.links@.take(i as int),
            decreases self.links@.len() - i,
        {
            links.push(self.links[i]);
            proof {
                assert(self.links@.take(i + 1) =~= self.links@.take(i as int).push(self.links@[i as int]));
            }
            i = i + 1;
        }
        proof {
            assert(self.links@.take(self.links@.len() as int) =~= self.links@);
        }
        (copy_strings(&self.files), copy_strings(&self.tags), links)
    }

    /// Adds a file with the given path unless there is one; returns its id.
    pub fn add_file(&mut self, path: &str) -> (r: Result<i64, DbError>)
        requires
            old(self).wf(),
            old(self)@.files.len() + 1 < i64::MAX,
        ensures
            final(self).wf(),
            final(self)@ == add_path(old(self)@, path@),
            r == Ok::<i64, DbError>(final(self)@.path_id(path@)),
    {
        Ok(self.insert_path(path))
    }

    /// Adds a file with the given path unless there is one; returns whether it was added.
    pub fn add_file_if_not_exists(&mut self, path: &str) -> (r: Result<bool, DbError>)
        requires
            old(self).wf(),
            old(self)@.files.len() + 1 < i64::MAX,
        ensures
            final(self).wf(),
            final(self)@ == add_path(old(self)@, path@),
            r == Ok::<bool, DbError>(!old(self)@.files.contains(path@)),
    {
        let existed = self.path_pos(path).is_some();
        self.insert_path(path);
        Ok(!existed)
    }

    /// Every file of the store, with its id, by ascending id.
    pub fn all_files(&self) -> (r: Vec<(i64, String)>)
        requires
            self.wf(),
        ensures
            pair_views(r@) == row_pairs(self@.rows()),
    {
        let ghost want = row_pairs(self@.rows());
        let mut out: Vec<(i64, String)> = Vec::new();
        let mut i: usize = 0;
        proof {
            assert(pair_views(out@) =~= want.take(0));
        }
        while i < self.files.len()
            invariant
                self.wf(),
                want == row_pairs(self@.rows()),
                i <= self.files@.len(),
                pair_views(out@) == want.take(i as int),
            decreases self.files@.len() - i,
        {
            let ghost before = pair_views(out@);
            let path = owned(self.files[i].as_str());
            out.push((i as i64 + 1, path));
            proof {
                assert(want[i as int] == ((i + 1) as i64, self.files@[i as int]@));
                assert(pair_views(out@) =~= before.push(want[i as int]));
                assert(want.take(i + 1) =~= want.take(i as int).push(want[i as int]));
            }
            i = i + 1;
        }
        proof {
            assert(want.take(self.files@.len() as int) =~= want);
        }
        out
    }

    /// The id of the file at `path`, if the store holds one.
    pub fn find_file(&self, path: &str) -> (r: Option<i64>)
        requires
            self.wf(),
        ensures
            r == (if self@.files.contains(path@) { Some(self@.path_id(path@)) } else { None::<i64> }),
    {
        match self.path_pos(path) {
            Some(i) => Some(i as i64 + 1),
            None => None,
        }
    }

    /// Whether a file with the given id exists.
    pub fn file_exists(&self, id: i64) -> (r: Result<bool, DbError>)
        requires
            self.wf(),
        ensures
            r == Ok::<bool, DbError>(1 <= id <= self@.files.len()),
    {
        Ok(1 <= id && id <= self.files.len() as i64)
    }

    /// Gives the tag `tag_name` to the file at `file_path`, adding the file and the
    /// tag when they are missing. Giving a tag twice changes nothing.
    pub fn assign_tag_to_file(&mut self, file_path: &str, tag_name: &str) -> (r: Result<(), DbError>)
        requires
            old(self).wf(),
            old(self)@.files.len() + 1 < i64::MAX,
            old(self)@.tags.len() + 1 < i64::MAX,
        ensures
            final(self).wf(),
            r is Ok,
            final(self)@ == tagged_by_path(old(self)@, file_path@, tag_name@),
    {
        let f = self.insert_path(file_path);
        let t = self.insert_tag(tag_name);
        proof {
            assert(self@.files.contains(file_path@));
            let k = self@.files.index_of(file_path@);
            assert(self@.files[k] == file_path@);
            let m = self@.tags.index_of(tag_name@);
            assert(self@.tags[m] == tag_name@);
        }
        self.insert_pair(f, t);
        Ok(())
    }

    /// Gives the tag `tag_name` to the file with id `file_id`, adding the tag when
    /// it is missing. Fails when there is no such file.
    pub fn assign_tag_to_file_by_id(&mut self, file_id: i64, tag_name: &str) -> (r: Result<(), DbError>)
        requires
            old(self).wf(),
            old(self)@.tags.len() + 1 < i64::MAX,
        ensures
            final(self).wf(),
            !(1 <= file_id <= old(self)@.files.len()) ==> (r matches Err(e) && e is Sql) && final(self)@ == old(self)@,
            1 <= file_id <= old(self)@.files.len() ==> r is Ok && final(self)@ == tagged_by_id(old(self)@, file_id, tag_name@),
    {
        if !(1 <= file_id && file_id <= self.files.len() as i64) {
            return Err(DbError::Sql(owned("FOREIGN KEY constraint failed")));
        }
        let t = self.insert_tag(tag_name);
        proof {
            let m = self@.tags.index_of(tag_name@);
            assert(self@.tags[m] == tag_name@);
        }
        self.insert_pair(file_id, t);
        Ok(())
    }

    /// Renames the tag `old_name` to `new_name`. Fails when there is no tag
    /// `old_name` or there is a tag `new_name` already.
    pub fn rename_tag(&mut self, old_name: &str, new_name: &str) -> (r: Result<(), DbError>)
        requires
            old(self).wf(),
        ensures
            final(self).wf(),
            r is Err <==> (!old(self)@.tags.contains(old_name@) || old(self)@.tags.contains(new_name@)),
            r is Err ==> final(self)@ == old(self)@,
            r is Ok ==> final(self)@ == (TagTables {
                tags: old(self)@.tags.update(old(self)@.tags.index_of(old_name@), new_name@),
                ..old(self)@
            }),
    {
        let i = match self.tag_pos(old_name) {
            Some(i) => i,
            None => return Err(DbError::Sql(owned("no such tag"))),
        };
        if self.tag_pos(new_name).is_some() {
            return Err(DbError::Sql(owned("UNIQUE constraint failed: tags.name")));
        }
        let ghost pre = self@;
        self.tags.set(i, owned(new_name));
        proof {
            lemma_index_of_unique(pre.tags, i as int);
            assert(self@.tags =~= pre.tags.update(i as int, new_name@));
            assert forall|a: int, b: int| 0 <= a < self@.tags.len() && 0 <= b < self@.tags.len() && a != b
                implies #[trigger] self@.tags[a] != #[trigger] self@.tags[b] by {
                if a == i {
                    assert(pre.tags.contains(pre.tags[b]));
                } else if b == i {
                    assert(pre.tags.contains(pre.tags[a]));
                }
            }
        }
        Ok(())
    }

    /// The names of the tags of the file at `file_path`, by ascending tag id; none
    /// when there is no such file.
    pub fn get_tags_for_file(&self, file_path: &str) -> (r: Result<Vec<String>, DbError>)
        requires
            self.wf(),
        ensures
            !self@.files.contains(file_path@) ==> (r matches Ok(v) && v@.len() == 0),
            self@.files.contains(file_path@) ==> (r matches Ok(v) && views_of_strings(v@) == names_of_file(
                self@,
                self@.path_id(file_path@),
                self@.tags.len() as int,
            )),
    {
        let f = match self.path_pos(file_path) {
            Some(i) => i as i64 + 1,
            None => return Ok(Vec::new()),
        };
        let mut out: Vec<String> = Vec::new();
        let mut k: usize = 0;
        while k < self.tags.len()
            invariant
                self.wf(),
                k <= self.tags@.len(),
                views_of_strings(out@) == names_of_file(self@, f, k as int),
            decreases self.tags@.len() - k,
        {
            let t = (k + 1) as i64;
            if self.has_pair(f, t) {
                let ghost before = views_of_strings(out@);
                let name = self.tags[k].clone();
                out.push(name);
                proof {
                    assert(views_of_strings(out@) =~= before.push(self@.tags[k as int]));
                }
            }
            k = k + 1;
        }
        Ok(out)
    }

    /// The files that carry no tag, in the given order (by id when none is given).
    pub fn get_untaged_files(&self, order_by: Option<FilesOrderBy>) -> (r: Result<Vec<(i64, String)>, DbError>)
        requires
            self.wf(),
        ensures
            r matches Ok(v) && pair_views(v@) == row_pairs(untagged_listing(self@, order_by)),
    {
        let order = match order_by {
            Some(o) => o,
            None => FilesOrderBy::Id,
        };
        let rows = self.ranked_rows(order, None);
        assert(order == order_or_id(order_by));
        let mut out: Vec<(i64, String)> = Vec::new();
        let mut i: usize = 0;
        while i < rows.len()
            invariant
                i <= rows@.len(),
                pair_views(out@) == row_pairs(views(rows@)).take(i as int),
            decreases rows@.len() - i,
        {
            let ghost before = pair_views(out@);
            let path = owned(rows[i].path.as_str());
            out.push((rows[i].id, path));
            proof {
                assert(pair_views(out@) =~= before.push((rows@[i as int].id, rows@[i as int].path@)));
                assert(row_pairs(views(rows@)).take(i + 1) =~= row_pairs(views(rows@)).take(i as int).push(
                    (rows@[i as int].id, rows@[i as int].path@)));
            }
            i = i + 1;
        }
        proof {
            assert(row_pairs(views(rows@)).take(rows@.len() as int) =~= row_pairs(views(rows@)));
        }
        Ok(out)
    }

    /// The files that carry no tag, in the given order (by id when none is given).
    pub fn get_untagged_files(&self, order_by: Option<FilesOrderBy>) -> (r: Result<Vec<(i64, String)>, DbError>)
        requires
            self.wf(),
        ensures
            r matches Ok(v) && pair_views(v@) == row_pairs(untagged_listing(self@, order_by)),
    {
        self.get_untaged_files(order_by)
    }

    /// The files that carry the tag `tag_name`, in the given order (by id when
    /// none is given), each with the names of all its tags sorted by name; none
    /// when there is no such tag.
    pub fn get_files_for_tag(&self, tag_name: &str, order_by: Option<FilesOrderBy>) -> (r: Result<Vec<FileWithTags>, DbError>)
        requires
            self.wf(),
        ensures
            r matches Ok(v) && views(v@) == tag_listing(self@, tag_name@, order_by).map_values(
                |row: RowView| listed_file(self@, row),
            ),
    {
        let t = match self.tag_pos(tag_name) {
            Some(i) => i as i64 + 1,
            None => {
                let none: Vec<FileWithTags> = Vec::new();
                proof {
                    assert(views(none@) =~= tag_listing(self@, tag_name@, order_by).map_values(
                        |row: RowView| listed_file(self@, row),
                    ));
                }
                return Ok(none);
            },
        };
        let order = match order_by {
            Some(o) => o,
            None => FilesOrderBy::Id,
        };
        let rows = self.ranked_rows(order, Some(t));
        let ghost want = views(rows@).map_values(|row: RowView| listed_file(self@, row));
        proof {
            assert(order == order_or_id(order_by));
            assert(views(rows@) == tag_listing(self@, tag_name@, order_by));
            assert(views(Seq::<FileWithTags>::empty()) =~= want.take(0));
        }
        let mut out: Vec<FileWithTags> = Vec::new();
        let mut i: usize = 0;
        while i < rows.len()
            invariant
                self.wf(),
                want == views(rows@).map_values(|row: RowView| listed_file(self@, row)),
                i <= rows@.len(),
                views(out@) == want.take(i as int),
            decreases rows@.len() - i,
        {
            let id = rows[i].id;
            let sorted = self.sorted_tags_of(id);
            let joined = join_names(&sorted);
            let mut tags: Vec<String> = Vec::new();
            push_comma_pieces(&mut tags, joined.as_str());
            let ghost before = views(out@);
            let item = FileWithTags { id, path: owned(rows[i].path.as_str()), tags };
            proof {
                assert(views_of_strings(Seq::<String>::empty()) =~= Seq::<Seq<char>>::empty());
                assert(item@.tags =~= listed_tag_names(self@, id));
                assert(item@ == want[i as int]);
            }
            out.push(item);
            proof {
                assert(views(out@) =~= before.push(want[i as int]));
                assert(want.take(i + 1) =~= want.take(i as int).push(want[i as int]));
            }
            i = i + 1;
        }
        proof {
            assert(want.take(rows@.len() as int) =~= want);
        }
        Ok(out)
    }

    /// Whether the store can take the files of a scan of `rel_paths` paths: its
    /// ids stay within `i64`.
    pub fn can_index(&self, rel_paths: &Vec<String>) -> (r: bool)
        requires
            self.wf(),
        ensures
            r == (self@.files.len() + rel_paths@.len() < i64::MAX),
    {
        (self.files.len() as u128) + (rel_paths.len() as u128) < 0x7fff_ffff_ffff_ffff
    }

    /// Adds each of the given paths (relative to the root) that the store does
    /// not hold yet; returns how many were added.
    pub fn rebuild(&mut self, rel_paths: &Vec<String>) -> (r: Result<usize, DbError>)
        requires
            old(self).wf(),
            old(self)@.files.len() + rel_paths@.len() < i64::MAX,
        ensures
            final(self).wf(),
            final(self)@ == with_paths(old(self)@, views_of_strings(rel_paths@)),
            r matches Ok(n) && n == new_path_count(old(self)@, views_of_strings(rel_paths@))
                && final(self)@.files.len() == old(self)@.files.len() + n,
    {
        let ghost start = self@;
        let ghost paths = views_of_strings(rel_paths@);
        let mut added: usize = 0;
        let mut i: usize = 0;
        while i < rel_paths.len()
            invariant
                self.wf(),
                paths == views_of_strings(rel_paths@),
                start.files.len() + rel_paths@.len() < i64::MAX,
                i <= rel_paths@.len(),
                self@ == with_paths(start, paths.take(i as int)),
                self@.files.len() <= start.files.len() + i,
                added == new_path_count(start, paths.take(i as int)),
                added <= i,
            decreases rel_paths@.len() - i,
        {
            proof {
                assert(paths.take(i + 1).drop_last() =~= paths.take(i as int));
                assert(paths.take(i + 1).last() == rel_paths@[i as int]@);
            }
            if let Ok(true) = self.add_file_if_not_exists(rel_paths[i].as_str()) {
                added = added + 1;
            }
            i = i + 1;
        }
        proof {
            assert(paths.take(rel_paths@.len() as int) =~= paths);
            lemma_with_paths_len(start, paths);
        }
        Ok(added)
    }

    /// The tags of file `f`, sorted by name.
    fn sorted_tags_of(&self, f: i64) -> (r: Vec<DBTag>)
        requires
            self.wf(),
        ensures
            views(r@) == ranked_selection::<DBTag>(TagOrder::Name, self@.tag_rows(), tag_of_file(self@, f)),
    {
        let ghost all = self@.tag_rows();
        let ghost pred = tag_of_file(self@, f);
        let mut out: Vec<DBTag> = Vec::new();
        let mut k: usize = 0;
        proof {
            reveal(Seq::filter);
            assert(all.take(0).filter(pred) =~= Seq::<TagView>::empty());
            assert(views(out@) =~= Seq::<TagView>::empty());
        }
        while k < self.tags.len()
            invariant
                self.wf(),
                all == self@.tag_rows(),
                pred == tag_of_file(self@, f),
                k <= self.tags@.len(),
                views(out@) == all.take(k as int).filter(pred),
                forall|a: int| 0 <= a < out@.len() ==> 1 <= #[trigger] views(out@)[a].id <= k,
                forall|a: int, b: int| 0 <= a < b < out@.len() ==> #[trigger] views(out@)[a].id < #[trigger] views(out@)[b].id,
            decreases self.tags@.len() - k,
        {
            let id = k as i64 + 1;
            let ghost row = all[k as int];
            let ghost before = views(out@);
            proof {
                assert(row == TagView { id, name: self.tags@[k as int]@ });
                assert(all.take(k + 1).drop_last() =~= all.take(k as int));
                assert(all.take(k + 1).last() == row);
                reveal(Seq::filter);
            }
            if self.has_pair(f, id) {
                let name = self.tags[k].clone();
                out.push(DBTag { id, name });
                proof {
                    assert(views(out@) =~= before.push(row));
                }
            } else {
                proof {
                    assert(views(out@) =~= before);
                }
            }
            k = k + 1;
        }
        proof {
            broadcast use group_filter_ensures;

            assert(all.take(all.len() as int) =~= all);
            let vo = views(out@);
            assert forall|v: TagView| #[trigger] vo.contains(v) <==> (all.contains(v) && pred(v)) by {
                if vo.contains(v) {
                    all.lemma_filter_contains_rev(pred, v);
                    let i = choose|i: int| 0 <= i < vo.len() && vo[i] == v;
                    all.lemma_filter_pred(pred, i);
                }
                if all.contains(v) && pred(v) {
                    let i = choose|i: int| 0 <= i < all.len() && all[i] == v;
                    all.lemma_filter_contains(pred, i);
                }
            }
            assert forall|a: int, b: int| 0 <= a < vo.len() && 0 <= b < vo.len() && a != b implies
                tag_before(vo[a], vo[b]) || tag_before(vo[b], vo[a]) by {
                if a < b {
                    assert(vo[a].id < vo[b].id);
                } else {
                    assert(vo[b].id < vo[a].id);
                }
                lemma_tag_before_total(vo[a], vo[b]);
            }
            assert(pairwise_comparable::<DBTag>(TagOrder::Name, vo));
        }
        let sorted = sort_ranked(TagOrder::Name, out);
        proof {
            lemma_ranked_selection_is::<DBTag>(TagOrder::Name, all, pred, views(sorted@));
        }
        sorted
    }

    /// The files that carry no tag (`tag` is `None`) or that carry the tag with id
    /// `tag`, ranked by `order`.
    fn ranked_rows(&self, order: FilesOrderBy, tag: Option<i64>) -> (r: Vec<FileRow>)
        requires
            self.wf(),
        ensures
            views(r@) == ranked_selection::<FileRow>(order, self@.rows(), match tag {
                None => row_untagged(self@),
                Some(t) => row_tagged_with(self@, t),
            }),
    {
        let ghost pred = match tag {
            None => row_untagged(self@),
            Some(t) => row_tagged_with(self@, t),
        };
        let ghost all = self@.rows();
        let mut out: Vec<FileRow> = Vec::new();
        let mut i: usize = 0;
        while i < self.files.len()
            invariant
                self.wf(),
                all == self@.rows(),
                pred == (match tag {
                    None => row_untagged(self@),
                    Some(t) => row_tagged_with(self@, t),
                }),
                i <= self.files@.len(),
                forall|v: RowView| #[trigger] views(out@).contains(v) <==> (all.take(i as int).contains(v) && pred(v)),
                forall|a: int| 0 <= a < out@.len() ==> 1 <= #[trigger] views(out@)[a].id <= i,
                forall|a: int, b: int| 0 <= a < b < out@.len() ==> #[trigger] views(out@)[a].id < #[trigger] views(out@)[b].id,
            decreases self.files@.len() - i,
        {
            let id = (i + 1) as i64;
            let keep = match tag {
                None => {
                    let mut j: usize = 0;
                    while j < self.links.len() && self.links[j].0 != id
                        invariant
                            j <= self.links@.len(),
                            forall|q: int| 0 <= q < j ==> self@.links[q].0 != id,
                        decreases self.links@.len() - j,
                    {
                        j = j + 1;
                    }
                    j == self.links.len()
                },
                Some(t) => self.has_pair(id, t),
            };
            let ghost row = all[i as int];
            proof {
                assert(row == RowView { id, path: self@.files[i as int] });
                assert(keep == pred(row));
                assert(all.take(i + 1) =~= all.take(i as int).push(row));
            }
            let ghost before = views(out@);
            if keep {
                let r = FileRow { id, path: self.files[i].clone() };
                out.push(r);
                proof {
                    assert(views(out@) =~= before.push(row));
                }
            }
            proof {
                let after = views(out@);
                assert forall|v: RowView| #[trigger] after.contains(v) <==> (all.take(i + 1).contains(v) && pred(v)) by {
                    if keep && v == row {
                        assert(after[before.len() as int] == v);
                        assert(all.take(i + 1)[i as int] == v);
                    }
                    if after.contains(v) && !(keep && v == row) {
                        let k = choose|k: int| 0 <= k < after.len() && #[trigger] after[k] == v;
                        if keep { assert(k < before.len()); }
                        assert(before[k] == v);
                        assert(before.contains(v));
                    }
                    if all.take(i + 1).contains(v) && v != row && pred(v) {
                        let k = choose|k: int| 0 <= k < all.take(i + 1).len() && #[trigger] all.take(i + 1)[k] == v;
                        assert(all.take(i as int)[k] == v);
                        assert(before.contains(v));
                        let k2 = choose|k2: int| 0 <= k2 < before.len() && #[trigger] before[k2] == v;
                        assert(after[k2] == v);
                    }
                    if all.take(i as int).contains(v) {
                        let k = choose|k: int| 0 <= k < all.take(i as int).len() && #[trigger] all.take(i as int)[k] == v;
                        assert(all.take(i + 1)[k] == v);
                    }
                    if v == row && after.contains(v) {
                        assert(all.take(i + 1)[i as int] == v);
                        if !keep {
                            let k = choose|k: int| 0 <= k < after.len() && #[trigger] after[k] == v;
                            assert(before[k].id <= i);
                        }
                    }
                }
            }
            i = i + 1;
        }
        proof {
            assert(all.take(all.len() as int) =~= all);
            let vo = views(out@);
            assert forall|a: int, b: int| 0 <= a < vo.len() && 0 <= b < vo.len() && a != b implies
                row_before(order, vo[a], vo[b]) || row_before(order, vo[b], vo[a]) by {
                if a < b {
                    assert(vo[a].id < vo[b].id);
                } else {
                    assert(vo[b].id < vo[a].id);
                }
                lemma_row_before_total(order, vo[a], vo[b]);
            }
            assert(pairwise_comparable::<FileRow>(order, vo));
        }
        let sorted = sort_ranked(order, out);
        proof {
            lemma_ranked_selection_is::<FileRow>(order, all, pred, views(sorted@));
        }
        sorted
    }
}

} // verus!
