//! The manager of a tagged directory: it owns the store and keeps it in step
//! with snapshots of the directory.
use crate::ranking::views;
use crate::paths::{file_name, join_paths, path_file_name, path_join};
use crate::text::{concat, contains_chars, decimal, decimal_string, lowercase, spec_lowercase, str_contains};
use crate::times::TimePoint;
use crate::tm::db::database::{carries_all, tag_selected, tag_added_by_name, with_tag_renamed, without_link, without_tag, FileSelect, TagSelect};
use crate::tm::db::state::{ranked_tags, any_tag, file_path_is, lemma_tag_at, lemma_filter_take_step, lemma_filter_contains_iff};
use crate::tm::db::types::TagView;
use crate::tm::kinds::{entry_type, get_entry_type, EntryType};
use crate::tm::roothash::{calculate_root_hash, distinct_paths, root_hash};
use crate::tm::sync_laws::{law_sync_is_idempotent, paths_distinct};
use crate::text::{owned, str_chars, str_equal, views_of_strings};
use crate::tm::db::database::{
    add_file_row, new_file_row, opt_chars, updated_file, with_file_replaced, without_file,
};
use crate::tm::db::state::{any_file, ranked_files, time_storable, DbState};
use crate::tm::db::types::{DBFile, FileOrder, FileView};
use crate::tm::db::{DBTag, Database, DbError};
use crate::tm::sync::{
    lemma_representatives_subset, lemma_replace_keeps_all_ids, lemma_sync_files_none_extends, delete_rows, first_with_content, first_with_path, full_sync_result, lemma_first_with_content,
    lemma_first_with_path, representatives, sync_files, sync_step,
};
use vstd::prelude::*;

verus! {

/// The rows that stand for their path, computed from a listing.
fn representatives_of(listed: &Vec<DBFile>) -> (r: Vec<DBFile>)
    ensures
        views(r@) == representatives(views(listed@)),
{
    let ghost lv = views(listed@);
    let mut out: Vec<DBFile> = Vec::new();
    let mut i: usize = listed.len();
    assert(lv.skip(lv.len() as int) =~= Seq::<FileView>::empty());
    while i > 0
        invariant
            lv == views(listed@),
            i <= listed@.len(),
            views(out@) == representatives(lv.skip(i as int)),
        decreases i,
    {
        let k = i - 1;
        let ghost m = lv.skip(k as int);
        assert(m.drop_first() =~= lv.skip(i as int));
        assert(m[0] == listed@[k as int]@);
        let ghost rest = views(out@);
        let mut j: usize = 0;
        while j < out.len() && !str_equal(out[j].path.as_str(), listed[k].path.as_str())
            invariant
                rest == views(out@),
                k < listed@.len(),
                j <= out@.len(),
                forall|q: int| 0 <= q < j ==> rest[q].path != listed@[k as int].path@,
            decreases out@.len() - j,
        {
            j = j + 1;
        }
        let found = j < out.len();
        proof {
            assert(representatives(m) == (if exists|q: int| 0 <= q < rest.len() && #[trigger] rest[q].path == m[0].path {
                rest
            } else {
                seq![m[0]] + rest
            }));
            if found {
                assert(rest[j as int].path == m[0].path);
            } else {
                assert(!exists|q: int| 0 <= q < rest.len() && #[trigger] rest[q].path == m[0].path);
            }
        }
        if !found {
            let row = listed[k].duplicate();
            out.insert(0, row);
            proof {
                assert(views(out@) =~= seq![m[0]] + rest);
            }
        }
        i = k;
    }
    assert(lv.skip(0) =~= lv);
    out
}

proof fn lemma_views_remove(s: Seq<DBFile>, i: int)
    requires
        0 <= i < s.len(),
    ensures
        views(s.remove(i)) == views(s).remove(i),
{
    assert(views(s.remove(i)) =~= views(s).remove(i));
}

/// The manager of one root directory and its store.
pub struct TagerManager {
    root: String,
    tager_dir: String,
    db_path: String,
    hash_path: String,
    db: Database,
    is_initialized: bool,
}

/// Every time of a snapshot entry fits in the store.
pub open spec fn snapshot_storable(snapshot: Seq<FileView>) -> bool {
    forall|i: int|
        0 <= i < snapshot.len() ==> time_storable(#[trigger] snapshot[i].last_modified)
            && time_storable(snapshot[i].last_accessed) && time_storable(snapshot[i].created)
}

impl TagerManager {
    /// The content of the store.
    pub closed spec fn store(&self) -> DbState {
        self.db@
    }

    /// Whether `init` has attached a store and `disconnect` has not detached it.
    pub closed spec fn initialized(&self) -> bool {
        self.is_initialized
    }

    /// The manager keeps its store valid.
    pub closed spec fn wf(&self) -> bool {
        self.db.wf()
    }

    /// The root directory.
    pub closed spec fn root_path(&self) -> Seq<char> {
        self.root@
    }

    /// The `.tager` directory.
    pub closed spec fn tager_dir_path(&self) -> Seq<char> {
        self.tager_dir@
    }

    /// The database file.
    pub closed spec fn db_file_path(&self) -> Seq<char> {
        self.db_path@
    }

    /// The file that keeps the hash of the last synchronised snapshot.
    pub closed spec fn hash_file_path(&self) -> Seq<char> {
        self.hash_path@
    }

    /// Matches every snapshot file against the store, then deletes the rows that
    /// nothing matched.
    fn full_sync(&mut self, snapshot: &Vec<DBFile>) -> (r: Result<(), String>)
        requires
            old(self).wf(),
            snapshot_storable(views(snapshot@)),
        ensures
            final(self).wf(),
            final(self).root_path() == old(self).root_path(),
            final(self).initialized() == old(self).initialized(),
            r is Err <==> full_sync_result(old(self).store(), views(snapshot@)) is None,
            r is Ok ==> final(self).store() == full_sync_result(old(self).store(), views(snapshot@))->0,
    {
        let ghost s0 = self.db@;
        let ghost fsv = views(snapshot@);
        let listed = match self.db.get_all_files(None, None) {
            Ok(v) => v,
            Err(e) => return Err(e.message()),
        };
        let mut rem = representatives_of(&listed);
        let ghost reps0 = views(rem@);
        proof {
            let ranked = ranked_files(FileOrder::CreatedDesc, s0.files, any_file());
            assert(views(listed@) =~= ranked);
            lemma_representatives_subset(ranked);
            assert forall|i: int| 0 <= i < reps0.len() implies s0.has_file(#[trigger] reps0[i].id) by {
                assert(reps0.contains(reps0[i]));
                assert(ranked.contains(reps0[i]));
                let k = choose|k: int| 0 <= k < s0.files.len() && s0.files[k] == reps0[i];
                assert(s0.files[k].id == reps0[i].id);
            }
            assert(fsv.take(0) =~= Seq::<FileView>::empty());
            assert(reps0 == representatives(ranked));
            assert forall|i: int| 0 <= i < rem@.len() implies self.db@.has_file(#[trigger] rem@[i].id) by {
                assert(reps0[i] == rem@[i]@);
                assert(s0.has_file(reps0[i].id));
            }
        }
        let mut k: usize = 0;
        while k < snapshot.len()
            invariant
                self.db.wf(),
                self.root == old(self).root,
                self.is_initialized == old(self).is_initialized,
                fsv == views(snapshot@),
                snapshot_storable(fsv),
                s0 == old(self).db@,
                reps0 == representatives(ranked_files(FileOrder::CreatedDesc, s0.files, any_file())),
                k <= snapshot@.len(),
                sync_files(s0, reps0, fsv.take(k as int)) == Some((self.db@, views(rem@))),
                forall|i: int| 0 <= i < rem@.len() ==> self.db@.has_file(#[trigger] rem@[i].id),
            decreases snapshot@.len() - k,
        {
            let ghost d = self.db@;
            let ghost rv = views(rem@);
            let ghost f = fsv[k as int];
            proof {
                assert(fsv.take(k + 1).drop_last() =~= fsv.take(k as int));
                assert(fsv.take(k + 1).last() == f);
                assert(f == snapshot@[k as int]@);
                assert(time_storable(f.last_modified));
            }
            let mut i: usize = 0;
            while i < rem.len() && !str_equal(rem[i].path.as_str(), snapshot[k].path.as_str())
                invariant
                    rv == views(rem@),
                    f == snapshot@[k as int]@,
                    k < snapshot@.len(),
                    i <= rem@.len(),
                    forall|q: int| 0 <= q < i ==> rv[q].path != f.path,
                decreases rem@.len() - i,
            {
                i = i + 1;
            }
            proof {
                lemma_first_with_path(rv, f.path, i as int);
            }
            if i < rem.len() {
                proof {
                    lemma_views_remove(rem@, i as int);
                }
                let row = rem.remove(i);
                if !str_equal(row.content_hash.as_str(), snapshot[k].content_hash.as_str()) {
                    let _ = self.db.update_file(
                        row.id,
                        None,
                        Some(snapshot[k].size),
                        Some(snapshot[k].content_hash.clone()),
                        Some(snapshot[k].last_modified),
                        Some(snapshot[k].last_accessed),
                        Some(snapshot[k].created),
                    );
                    proof {
                        lemma_replace_keeps_all_ids(d, row.id, updated_file(d.file(row.id), None, Some(f.size), Some(f.content_hash), Some(f.last_modified), Some(f.last_accessed), Some(f.created)));
                    }
                }
                proof {
                    assert forall|x: i64| #[trigger] self.db@.has_file(x) <==> d.has_file(x) by {
                        if self.db@ != d {
                            lemma_replace_keeps_all_ids(d, row.id, updated_file(d.file(row.id), None, Some(f.size), Some(f.content_hash), Some(f.last_modified), Some(f.last_accessed), Some(f.created)));
                        }
                    }
                    assert forall|q: int| 0 <= q < rem@.len() implies self.db@.has_file(#[trigger] rem@[q].id) by {
                        assert(views(rem@)[q] == rv.remove(i as int)[q]);
                        if q < i {
                            assert(d.has_file(rv[q].id));
                        } else {
                            assert(d.has_file(rv[q + 1].id));
                        }
                    }
                }
            } else {
                let mut j: usize = 0;
                while j < rem.len() && !(str_equal(rem[j].content_hash.as_str(), snapshot[k].content_hash.as_str()) && rem[j].size == snapshot[k].size)
                    invariant
                        rv == views(rem@),
                        f == snapshot@[k as int]@,
                        k < snapshot@.len(),
                        j <= rem@.len(),
                        forall|q: int| 0 <= q < j ==> !(rv[q].content_hash == f.content_hash && rv[q].size == f.size),
                    decreases rem@.len() - j,
                {
                    j = j + 1;
                }
                proof {
                    lemma_first_with_content(rv, f.content_hash, f.size, j as int);
                }
                if j < rem.len() {
                    proof {
                        lemma_views_remove(rem@, j as int);
                    }
                    let row = rem.remove(j);
                    let _ = self.db.update_file(row.id, Some(snapshot[k].path.clone()), None, None, None, None, None);
                    proof {
                        lemma_replace_keeps_all_ids(d, row.id, updated_file(d.file(row.id), Some(f.path), None, None, None, None, None));
                        assert forall|q: int| 0 <= q < rem@.len() implies self.db@.has_file(#[trigger] rem@[q].id) by {
                            assert(views(rem@)[q] == rv.remove(j as int)[q]);
                            if q < j {
                                assert(d.has_file(rv[q].id));
                            } else {
                                assert(d.has_file(rv[q + 1].id));
                            }
                        }
                    }
                } else {
                    match self.db.create_file(
                        snapshot[k].path.clone(),
                        snapshot[k].size,
                        snapshot[k].content_hash.clone(),
                        snapshot[k].last_modified,
                        snapshot[k].last_accessed,
                        snapshot[k].created,
                    ) {
                        Ok(_) => {
                            proof {
                                assert forall|q: int| 0 <= q < rem@.len() implies self.db@.has_file(#[trigger] rem@[q].id) by {
                                    assert(d.has_file(rem@[q].id));
                                    let w = choose|w: int| 0 <= w < d.files.len() && d.files[w].id == rem@[q].id;
                                    assert(self.db@.files[w].id == rem@[q].id);
                                }
                            }
                        },
                        Err(e) => {
                            proof {
                                assert(self.db@ == d);
                                assert(sync_step(d, rv, f) is None);
                                assert(sync_files(s0, reps0, fsv.take(k + 1)) is None);
                                lemma_sync_files_none_extends(s0, reps0, fsv, k + 1);
                                assert(reps0 == representatives(ranked_files(FileOrder::CreatedDesc, s0.files, any_file())));
                                assert(full_sync_result(s0, fsv) is None);
                            }
                            return Err(e.message());
                        },
                    }
                }
            }
            k = k + 1;
        }
        proof {
            assert(fsv.take(fsv.len() as int) =~= fsv);
        }
        let ghost d_end = self.db@;
        let ghost rv_end = views(rem@);
        let mut m: usize = 0;
        assert(rv_end.take(0) =~= Seq::<FileView>::empty());
        while m < rem.len()
            invariant
                self.db.wf(),
                self.root == old(self).root,
                self.is_initialized == old(self).is_initialized,
                rv_end == views(rem@),
                m <= rem@.len(),
                self.db@ == delete_rows(d_end, rv_end.take(m as int)),
            decreases rem@.len() - m,
        {
            let _ = self.db.delete_file(rem[m].id);
            proof {
                assert(rv_end.take(m + 1).drop_last() =~= rv_end.take(m as int));
                assert(rv_end.take(m + 1).last() == rem@[m as int]@);
            }
            m = m + 1;
        }
        proof {
            assert(rv_end.take(rv_end.len() as int) =~= rv_end);
        }
        Ok(())
    }
}

/// A tag as the manager lists it.
#[derive(Debug, Clone)]
pub struct TagEntry {
    pub id: i64,
    pub name: String,
}

impl View for TagEntry {
    type V = TagView;

    open spec fn view(&self) -> TagView {
        TagView { id: self.id, name: self.name@ }
    }
}

/// A file as the manager lists it.
#[derive(Debug, Clone)]
pub struct FileEntry {
    pub id: i64,
    pub abs_path: String,
    pub rel_path: String,
    pub file_name: String,
    pub size: u64,
    pub entry_type: EntryType,
    pub tags: Vec<TagEntry>,
    pub last_modified: String,
    pub created: String,
}

/// How a point in time is printed for debugging (`SystemTime`'s `Debug` on Unix).
pub open spec fn debug_time(t: TimePoint) -> Seq<char> {
    "SystemTime { tv_sec: "@ + decimal(t.secs as nat) + ", tv_nsec: "@ + decimal(t.nanos as nat) + " }"@
}

/// The file name of a path, or nothing.
pub open spec fn file_name_or_empty(p: Seq<char>) -> Seq<char> {
    match file_name(p) {
        Some(n) => n,
        None => Seq::empty(),
    }
}

/// `e` lists file `f` of state `s` under the root `root`; `dirs` holds the
/// stored paths that name a directory where the program runs, as the file system
/// answers for each of them.
pub open spec fn entry_describes(e: FileEntry, root: Seq<char>, f: FileView, s: DbState, dirs: Seq<Seq<char>>) -> bool {
    &&& e.id == f.id
    &&& e.abs_path@ == path_join(root, f.path)
    &&& e.rel_path@ == f.path
    &&& e.file_name@ == file_name_or_empty(f.path)
    &&& e.size == f.size
    &&& e.entry_type == entry_type(f.path, dirs.contains(f.path))
    &&& views(e.tags@) == ranked_tags(s.tags, tag_selected(TagSelect::OnFile(f.id), s))
    &&& e.last_modified@ == debug_time(f.last_modified)
    &&& e.created@ == debug_time(f.created)
}

/// The file name of `f` contains `filter`, both lowercased.
pub open spec fn name_matches(filter: Seq<char>) -> spec_fn(FileView) -> bool {
    |f: FileView| contains_chars(spec_lowercase(file_name_or_empty(f.path)), spec_lowercase(filter))
}

/// The name filter reads a file's final path component alone: a file whose
/// path is a directory part (empty or ending in a separator) followed by a name
/// `n` is kept exactly when `n`, lowercased, contains the lowercased filter,
/// whatever its directories are called.
pub proof fn law_name_filter_reads_file_name_only(filter: Seq<char>, f: FileView, dir: Seq<char>, n: Seq<char>)
    requires
        dir.len() == 0 || dir.last() == '/',
        n.len() > 0,
        forall|i: int| 0 <= i < n.len() ==> n[i] != '/',
        n != seq!['.'],
        n != seq!['.', '.'],
        f.path == dir + n,
    ensures
        name_matches(filter)(f) <==> contains_chars(spec_lowercase(n), spec_lowercase(filter)),
{
    crate::paths::lemma_file_name_of_last_component(dir, n);
}

/// The files that `get_files` lists: all files, newest creation first, kept when
/// their name matches the name filter and when they carry every tag of a
/// non-empty tag filter.
pub open spec fn listed_files(s: DbState, name_filter: Option<String>, tag_filters: Option<Vec<String>>) -> Seq<FileView> {
    let all = ranked_files(FileOrder::CreatedDesc, s.files, any_file());
    let named = match name_filter {
        Some(n) => all.filter(name_matches(n@)),
        None => all,
    };
    match tag_filters {
        Some(t) => if t@.len() > 0 {
            named.filter(|f: FileView| carries_all(s, f.id, t@))
        } else {
            named
        },
        None => named,
    }
}

/// The message when the manager is used before `init`.
pub open spec fn not_initialized_message() -> Seq<char> {
    "TagerManager nie jest zainicjalizowany"@
}

/// The message when `sync` is called before `init`.
pub open spec fn sync_before_init_message() -> Seq<char> {
    "TagerManager nie jest zainicjalizowany. Wywołaj init() przed sync()"@
}

/// The message when a tag is assigned before `init`.
pub open spec fn assign_before_init_message() -> Seq<char> {
    "TagerManager nie jest zainicjalizowany. Wywołaj init() przed użyciem"@
}

/// The message when no file has the given path.
pub open spec fn missing_file_message(p: Seq<char>) -> Seq<char> {
    "Plik '"@ + p + "' nie istnieje w bazie danych"@
}

/// The message when no tag has the given name.
pub open spec fn missing_tag_message(n: Seq<char>) -> Seq<char> {
    "Tag '"@ + n + "' nie istnieje"@
}

/// The message when a tag already has the given name.
pub open spec fn taken_tag_message(n: Seq<char>) -> Seq<char> {
    "Tag '"@ + n + "' już istnieje"@
}

/// What a synchronisation of store `s` with `snapshot` does, given the saved hash
/// of the last synchronised snapshot: the new store, and the hash to save (none
/// when the snapshot hashes as saved and nothing was done); none when a new id
/// cannot be drawn.
pub open spec fn sync_effect(s: DbState, snapshot: Seq<FileView>, saved: Option<Seq<char>>) -> Option<
    (DbState, Option<Seq<char>>),
> {
    if saved == Some(root_hash(snapshot)) {
        Some((s, None))
    } else {
        match full_sync_result(s, snapshot) {
            None => None,
            Some(t) => Some((t, Some(root_hash(snapshot)))),
        }
    }
}

/// Synchronising again with the hash that a synchronisation returned changes
/// nothing and returns no new hash; synchronising again without a saved hash
/// also leaves the store as it is, for a store and a snapshot with distinct paths.
pub proof fn law_sync_twice_changes_nothing(s: DbState, snapshot: Seq<FileView>, saved: Option<Seq<char>>)
    requires
        s.valid(),
        paths_distinct(s.files),
        paths_distinct(snapshot),
        sync_effect(s, snapshot, saved) is Some,
    ensures
        ({
            let (t, hash) = sync_effect(s, snapshot, saved)->0;
            &&& sync_effect(t, snapshot, Some(root_hash(snapshot))) == Some((t, None::<Seq<char>>))
            &&& (hash is Some ==> sync_effect(t, snapshot, None) == Some((t, Some(root_hash(snapshot)))))
        }),
{
    if saved != Some(root_hash(snapshot)) {
        law_sync_is_idempotent(s, snapshot);
    }
}

/// What `sync` did.
#[derive(Debug, Clone, PartialEq, Eq)]
pub enum SyncOutcome {
    /// The snapshot hashes as the saved hash says: nothing was done.
    Unchanged,
    /// The store was brought in step; the new hash of the snapshot is to be saved.
    Synced(String),
}

/// Whether one of `items` holds the characters of `s`.
fn contains_string(items: &Vec<String>, s: &str) -> (r: bool)
    ensures
        r == views_of_strings(items@).contains(s@),
{
    let mut i: usize = 0;
    while i < items.len()
        invariant
            i <= items@.len(),
            forall|k: int| 0 <= k < i ==> items@[k]@ != s@,
        decreases items@.len() - i,
    {
        if str_equal(items[i].as_str(), s) {
            proof {
                assert(views_of_strings(items@)[i as int] == s@);
            }
            return true;
        }
        i = i + 1;
    }
    proof {
        if views_of_strings(items@).contains(s@) {
            let k = choose|k: int| 0 <= k < items@.len() && views_of_strings(items@)[k] == s@;
            assert(items@[k]@ == s@);
        }
    }
    false
}

fn text3(a: &str, b: &str, c: &str) -> (r: String)
    ensures
        r@ == a@ + b@ + c@,
{
    let mut r = owned(a);
    r.append(b);
    r.append(c);
    r
}

fn debug_time_string(t: TimePoint) -> (r: String)
    ensures
        r@ == debug_time(t),
{
    let mut r = owned("SystemTime { tv_sec: ");
    r.append(decimal_string(t.secs).as_str());
    r.append(", tv_nsec: ");
    r.append(decimal_string(t.nanos as u64).as_str());
    r.append(" }");
    r
}

impl TagerManager {
    /// A manager for the directory `root`, with an empty store and not yet
    /// initialised. `root_exists` and `root_is_dir` say what the file system
    /// reports for `root`.
    pub fn new(root: &str, root_exists: bool, root_is_dir: bool) -> (r: Result<TagerManager, String>)
        ensures
            !root_exists ==> (r matches Err(m) && m@ == "Katalog '"@ + root@ + "' nie istnieje"@),
            root_exists && !root_is_dir ==> (r matches Err(m) && m@ == "'"@ + root@ + "' nie jest katalogiem"@),
            root_exists && root_is_dir ==> (r matches Ok(mgr) && mgr.wf() && !mgr.initialized()
                && mgr.store() == DbState::empty() && mgr.root_path() == root@
                && mgr.tager_dir_path() == path_join(root@, ".tager"@)
                && mgr.db_file_path() == path_join(path_join(root@, ".tager"@), "db.sqlite"@)
                && mgr.hash_file_path() == path_join(path_join(root@, ".tager"@), "root_hash"@)),
    {
        if !root_exists {
            return Err(text3("Katalog '", root, "' nie istnieje"));
        }
        if !root_is_dir {
            return Err(text3("'", root, "' nie jest katalogiem"));
        }
        let tager_dir = join_paths(root, ".tager");
        let db_path = join_paths(tager_dir.as_str(), "db.sqlite");
        let hash_path = join_paths(tager_dir.as_str(), "root_hash");
        let db = match Database::new_in_memory() {
            Ok(d) => d,
            Err(e) => return Err(e.message()),
        };
        Ok(TagerManager { root: owned(root), tager_dir, db_path, hash_path, db, is_initialized: false })
    }

    /// Attaches the store of the directory and marks the manager initialised.
    pub fn init(&mut self, db: Database)
        requires
            db.wf(),
        ensures
            final(self).wf(),
            final(self).initialized(),
            final(self).store() == db@,
            final(self).root_path() == old(self).root_path(),
            final(self).tager_dir_path() == old(self).tager_dir_path(),
            final(self).db_file_path() == old(self).db_file_path(),
            final(self).hash_file_path() == old(self).hash_file_path(),
    {
        self.db = db;
        self.is_initialized = true;
    }

    /// Brings the store in step with a snapshot of the directory, unless the
    /// snapshot hashes as `saved_hash` says.
    pub fn sync(&mut self, snapshot: &Vec<DBFile>, saved_hash: Option<String>) -> (r: Result<SyncOutcome, String>)
        requires
            old(self).wf(),
            snapshot_storable(views(snapshot@)),
            distinct_paths(views(snapshot@)),
        ensures
            final(self).wf(),
            final(self).initialized() == old(self).initialized(),
            final(self).root_path() == old(self).root_path(),
            !old(self).initialized() ==> (r matches Err(m) && m@ == sync_before_init_message())
                && final(self).store() == old(self).store(),
            old(self).initialized() && (saved_hash matches Some(h) && h@ == root_hash(views(snapshot@)))
                ==> r == Ok::<SyncOutcome, String>(SyncOutcome::Unchanged) && final(self).store() == old(self).store(),
            old(self).initialized() && !(saved_hash matches Some(h) && h@ == root_hash(views(snapshot@))) ==> {
                &&& r is Err <==> full_sync_result(old(self).store(), views(snapshot@)) is None
                &&& r matches Ok(o) ==> (o matches SyncOutcome::Synced(h) && h@ == root_hash(views(snapshot@)))
                    && final(self).store() == full_sync_result(old(self).store(), views(snapshot@))->0
            },
            old(self).initialized() ==> match sync_effect(
                old(self).store(),
                views(snapshot@),
                match saved_hash {
                    Some(h) => Some(h@),
                    None => None,
                },
            ) {
                None => r is Err,
                Some((t, hash)) => final(self).store() == t && match hash {
                    None => r == Ok::<SyncOutcome, String>(SyncOutcome::Unchanged),
                    Some(x) => r matches Ok(SyncOutcome::Synced(h)) && h@ == x,
                },
            },
    {
        if !self.is_initialized {
            return Err(owned("TagerManager nie jest zainicjalizowany. Wywołaj init() przed sync()"));
        }
        let current = calculate_root_hash(snapshot);
        if let Some(saved) = &saved_hash {
            if str_equal(saved.as_str(), current.as_str()) {
                return Ok(SyncOutcome::Unchanged);
            }
        }
        self.full_sync(snapshot)?;
        Ok(SyncOutcome::Synced(current))
    }

    /// Assigns the tag `tag_name` to the file at `file_path`, adding the tag when
    /// there is none. Of the files at that path, the one modified last is taken.
    pub fn assign_tag_to_file(&mut self, file_path: &str, tag_name: &str) -> (r: Result<(), DbError>)
        requires
            old(self).wf(),
        ensures
            final(self).wf(),
            final(self).initialized() == old(self).initialized(),
            final(self).root_path() == old(self).root_path(),
            !old(self).initialized() ==> (r matches Err(DbError::OperationFailed(m)) && m@
                == assign_before_init_message()) && final(self).store() == old(self).store(),
            ({
                let at_path = ranked_files(FileOrder::ModifiedDesc, old(self).store().files, file_path_is(file_path@));
                &&& old(self).initialized() && at_path.len() == 0 ==> (r matches Err(DbError::OperationFailed(m))
                    && m@ == missing_file_message(file_path@)) && final(self).store() == old(self).store()
                &&& old(self).initialized() && at_path.len() > 0 ==> {
                    let after = tag_added_by_name(old(self).store(), at_path[0].id, tag_name@);
                    &&& r is Err <==> after is None
                    &&& r matches Err(e) ==> e is Sql && final(self).store() == old(self).store()
                    &&& r is Ok ==> final(self).store() == after->0
                }
            }),
    {
        if !self.is_initialized {
            return Err(DbError::OperationFailed(owned("TagerManager nie jest zainicjalizowany. Wywołaj init() przed użyciem")));
        }
        let files = self.db.get_files_by_path(owned(file_path)).unwrap();
        if files.len() == 0 {
            return Err(DbError::OperationFailed(text3("Plik '", file_path, "' nie istnieje w bazie danych")));
        }
        let id = files[0].id;
        proof {
            assert(views(files@)[0] == files@[0]@);
        }
        self.db.add_tag_by_name_to_file(id, tag_name)?;
        Ok(())
    }

    /// Renames the tag `old_name` to `new_name`; fails when there is no tag
    /// `old_name` or there already is a tag `new_name`.
    pub fn rename_tag(&mut self, old_name: &str, new_name: &str) -> (r: Result<(), DbError>)
        requires
            old(self).wf(),
        ensures
            final(self).wf(),
            final(self).initialized() == old(self).initialized(),
            final(self).root_path() == old(self).root_path(),
            !old(self).initialized() ==> (r matches Err(DbError::OperationFailed(m)) && m@
                == not_initialized_message()) && final(self).store() == old(self).store(),
            old(self).initialized() && !old(self).store().has_tag_named(old_name@) ==> (r matches Err(
                DbError::OperationFailed(m),
            ) && m@ == missing_tag_message(old_name@)) && final(self).store() == old(self).store(),
            old(self).initialized() && old(self).store().has_tag_named(old_name@) && old(self).store().has_tag_named(new_name@)
                ==> (r matches Err(DbError::OperationFailed(m)) && m@ == taken_tag_message(new_name@))
                && final(self).store() == old(self).store(),
            old(self).initialized() && old(self).store().has_tag_named(old_name@) && !old(self).store().has_tag_named(new_name@)
                ==> r is Ok && final(self).store() == with_tag_renamed(
                old(self).store(),
                old(self).store().tag_named(old_name@).id,
                new_name@,
            ),
    {
        if !self.is_initialized {
            return Err(DbError::OperationFailed(owned("TagerManager nie jest zainicjalizowany")));
        }
        let tag = match self.db.get_tag_by_name(old_name).unwrap() {
            Some(t) => t,
            None => return Err(DbError::OperationFailed(text3("Tag '", old_name, "' nie istnieje"))),
        };
        if self.db.get_tag_by_name(new_name).unwrap().is_some() {
            return Err(DbError::OperationFailed(text3("Tag '", new_name, "' już istnieje")));
        }
        proof {
            let k = self.db@.tag_named_index(old_name@);
            assert(self.db@.tags[k].name == old_name@);
            lemma_tag_at(self.db@, k);
        }
        self.db.update_tag(tag.id, new_name)?;
        Ok(())
    }

    /// Removes the tag `tag_name` from the file at `file_path` (the one modified last).
    pub fn remove_tag_from_file(&mut self, file_path: &str, tag_name: &str) -> (r: Result<(), DbError>)
        requires
            old(self).wf(),
        ensures
            final(self).wf(),
            final(self).initialized() == old(self).initialized(),
            final(self).root_path() == old(self).root_path(),
            !old(self).initialized() ==> (r matches Err(DbError::OperationFailed(m)) && m@
                == not_initialized_message()) && final(self).store() == old(self).store(),
            ({
                let at_path = ranked_files(FileOrder::ModifiedDesc, old(self).store().files, file_path_is(file_path@));
                let s = old(self).store();
                &&& s.valid()
                &&& old(self).initialized() && at_path.len() == 0 ==> (r matches Err(DbError::OperationFailed(m))
                    && m@ == missing_file_message(file_path@)) && final(self).store() == s
                &&& old(self).initialized() && at_path.len() > 0 ==> r is Ok && (if s.has_tag_named(tag_name@) {
                    final(self).store() == without_link(s, at_path[0].id, s.tag_named(tag_name@).id)
                } else {
                    final(self).store() == s
                })
            }),
    {
        if !self.is_initialized {
            return Err(DbError::OperationFailed(owned("TagerManager nie jest zainicjalizowany")));
        }
        let files = self.db.get_files_by_path(owned(file_path)).unwrap();
        if files.len() == 0 {
            return Err(DbError::OperationFailed(text3("Plik '", file_path, "' nie istnieje w bazie danych")));
        }
        let id = files[0].id;
        proof {
            assert(views(files@)[0] == files@[0]@);
        }
        self.db.remove_tag_by_name_from_file(id, tag_name)?;
        Ok(())
    }

    /// Deletes the tag `tag_name` with its links, when there is one.
    pub fn delete_tag_completely(&mut self, tag_name: &str) -> (r: Result<(), DbError>)
        requires
            old(self).wf(),
        ensures
            final(self).wf(),
            final(self).initialized() == old(self).initialized(),
            final(self).root_path() == old(self).root_path(),
            !old(self).initialized() ==> (r matches Err(DbError::OperationFailed(m)) && m@
                == not_initialized_message()) && final(self).store() == old(self).store(),
            old(self).initialized() && !old(self).store().has_tag_named(tag_name@) ==> r is Ok
                && final(self).store() == old(self).store(),
            old(self).initialized() && old(self).store().has_tag_named(tag_name@) ==> r is Ok
                && final(self).store() == without_tag(old(self).store(), old(self).store().tag_named(tag_name@).id),
    {
        if !self.is_initialized {
            return Err(DbError::OperationFailed(owned("TagerManager nie jest zainicjalizowany")));
        }
        self.db.delete_tag_by_name(tag_name)?;
        Ok(())
    }

    /// Every tag, by name.
    pub fn get_all_tags(&self) -> (r: Result<Vec<TagEntry>, DbError>)
        requires
            self.wf(),
        ensures
            !self.initialized() ==> (r matches Err(DbError::OperationFailed(m)) && m@ == not_initialized_message()),
            self.initialized() ==> (r matches Ok(v) && views(v@) == ranked_tags(self.store().tags, any_tag())),
    {
        if !self.is_initialized {
            return Err(DbError::OperationFailed(owned("TagerManager nie jest zainicjalizowany")));
        }
        let tags = self.db.get_all_tags()?;
        Ok(tag_entries(&tags))
    }

    /// The entry that lists file `f`.
    fn entry_for(&self, f: &DBFile, dirs: &Vec<String>) -> (r: Result<FileEntry, DbError>)
        requires
            self.wf(),
        ensures
            r matches Ok(e) && entry_describes(e, self.root@, f@, self.db@, views_of_strings(dirs@)),
    {
        let is_dir = contains_string(dirs, f.path.as_str());
        let tags = self.db.get_tags_for_file(f.id)?;
        let name = match path_file_name(f.path.as_str()) {
            Some(n) => n,
            None => String::new(),
        };
        Ok(FileEntry {
            id: f.id,
            abs_path: join_paths(self.root.as_str(), f.path.as_str()),
            rel_path: f.path.clone(),
            file_name: name,
            size: f.size,
            entry_type: get_entry_type(f.path.as_str(), is_dir),
            tags: tag_entries(&tags),
            last_modified: debug_time_string(f.last_modified),
            created: debug_time_string(f.created),
        })
    }

    /// The files whose name contains `name_filter` (ignoring case) and that carry
    /// every tag of `tag_filters`, newest creation first, with their tags. An
    /// entry's kind is `Directory` when its stored path is among `dirs`, the stored
    /// paths that name a directory where the program runs.
    pub fn get_files(&self, name_filter: Option<String>, tag_filters: Option<Vec<String>>, dirs: &Vec<String>) -> (r: Result<Vec<FileEntry>, DbError>)
        requires
            self.wf(),
        ensures
            !self.initialized() ==> (r matches Err(DbError::OperationFailed(m)) && m@ == not_initialized_message()),
            self.initialized() ==> (r matches Ok(v) && v@.len() == listed_files(self.store(), name_filter, tag_filters).len()
                && forall|i: int| 0 <= i < v@.len() ==> entry_describes(#[trigger] v@[i], self.root_path(),
                    listed_files(self.store(), name_filter, tag_filters)[i], self.store(), views_of_strings(dirs@))),
    {
        if !self.is_initialized {
            return Err(DbError::OperationFailed(owned("TagerManager nie jest zainicjalizowany")));
        }
        let all = self.db.get_all_files(None, None)?;
        let ghost s = self.db@;
        let ghost all_v = ranked_files(FileOrder::CreatedDesc, s.files, any_file());
        proof {
            assert(views(all@) =~= all_v);
        }
        let named: Vec<DBFile> = match &name_filter {
            Some(nf) => retain_named(&all, nf.as_str()),
            None => all,
        };
        let ghost named_v = match name_filter {
            Some(n) => all_v.filter(name_matches(n@)),
            None => all_v,
        };
        assert(views(named@) == named_v);
        proof {
                assert forall|i: int| 0 <= i < named@.len() implies s.files.contains(#[trigger] named@[i]@) by {
                assert(views(named@)[i] == named@[i]@);
                assert(named_v.contains(named_v[i]));
                if name_filter is Some {
                    lemma_filter_contains_iff(all_v, name_matches(name_filter->0@));
                }
                assert(all_v.contains(named_v[i]));
            }
        }
        let kept: Vec<DBFile> = match &tag_filters {
            Some(tf) => if tf.len() > 0 {
                let with_tags = self.get_files_by_tags(tf)?;
                self.retain_with_ids(&named, &with_tags, Ghost(tf@))
            } else {
                named
            },
            None => named,
        };
        let ghost kept_v = listed_files(s, name_filter, tag_filters);
        assert(views(kept@) == kept_v);
        let mut out: Vec<FileEntry> = Vec::new();
        let mut i: usize = 0;
        while i < kept.len()
            invariant
                self.wf(),
                s == self.db@,
                kept_v == views(kept@),
                i <= kept@.len(),
                out@.len() == i,
                forall|k: int| 0 <= k < i ==> entry_describes(#[trigger] out@[k], self.root@, kept_v[k], s, views_of_strings(dirs@)),
            decreases kept@.len() - i,
        {
            let e = self.entry_for(&kept[i], dirs)?;
            out.push(e);
            i = i + 1;
        }
        Ok(out)
    }

    /// The files that carry a tag with each of the given names, by path; none when
    /// no name is given.
    fn get_files_by_tags(&self, tags: &Vec<String>) -> (r: Result<Vec<DBFile>, DbError>)
        requires
            self.wf(),
        ensures
            r matches Ok(v) && (tags@.len() > 0 ==> forall|x: FileView| #[trigger] views(v@).contains(x)
                <==> self.db@.files.contains(x) && carries_all(self.db@, x.id, tags@)),
    {
        self.db.get_files_with_all_tags(tags)
    }

    /// The files of `files` whose id is the id of one of `with`.
    fn retain_with_ids(&self, files: &Vec<DBFile>, with: &Vec<DBFile>, names: Ghost<Seq<String>>) -> (r: Vec<DBFile>)
        requires
            self.wf(),
            forall|x: FileView| #[trigger] views(with@).contains(x) <==> self.db@.files.contains(x) && carries_all(
                self.db@,
                x.id,
                names@,
            ),
            forall|i: int| 0 <= i < files@.len() ==> self.db@.files.contains(#[trigger] files@[i]@),
        ensures
            views(r@) == views(files@).filter(|f: FileView| carries_all(self.db@, f.id, names@)),
    {
        let ghost pred = |f: FileView| carries_all(self.db@, f.id, names@);
        let ghost fv = views(files@);
        let mut out: Vec<DBFile> = Vec::new();
        let mut i: usize = 0;
        while i < files.len()
            invariant
                self.wf(),
                fv == views(files@),
                pred == (|f: FileView| carries_all(self.db@, f.id, names@)),
                forall|x: FileView| #[trigger] views(with@).contains(x) <==> self.db@.files.contains(x) && carries_all(
                    self.db@,
                    x.id,
                    names@,
                ),
                forall|k: int| 0 <= k < files@.len() ==> self.db@.files.contains(#[trigger] files@[k]@),
                i <= files@.len(),
                views(out@) == fv.take(i as int).filter(pred),
            decreases files@.len() - i,
        {
            proof {
                lemma_filter_take_step(fv, pred, i as int);
                assert(fv[i as int] == files@[i as int]@);
            }
            let id = files[i].id;
            let mut j: usize = 0;
            while j < with.len() && with[j].id != id
                invariant
                    j <= with@.len(),
                    forall|q: int| 0 <= q < j ==> with@[q].id != id,
                decreases with@.len() - j,
            {
                j = j + 1;
            }
            proof {
                let f = files@[i as int]@;
                assert(self.db@.files.contains(f));
                if j < with.len() {
                    let w = with@[j as int]@;
                    assert(views(with@)[j as int] == w);
                    assert(views(with@).contains(w));
                } else {
                    if carries_all(self.db@, f.id, names@) {
                        assert(views(with@).contains(f));
                        let q = choose|q: int| 0 <= q < views(with@).len() && views(with@)[q] == f;
                        assert(with@[q].id == f.id);
                    }
                }
            }
            if j < with.len() {
                let ghost before = views(out@);
                let row = files[i].duplicate();
                out.push(row);
                assert(views(out@) =~= before.push(row@));
            }
            i = i + 1;
        }
        assert(fv.take(fv.len() as int) =~= fv);
        out
    }

    /// The files that carry no tag, newest creation first; `dirs` as for
    /// [`Self::get_files`].
    pub fn get_files_without_tags(&self, dirs: &Vec<String>) -> (r: Result<Vec<FileEntry>, DbError>)
        requires
            self.wf(),
        ensures
            !self.initialized() ==> (r matches Err(DbError::OperationFailed(m)) && m@ == not_initialized_message()),
            self.initialized() ==> (r matches Ok(v) && v@.len() == untagged_files(self.store()).len()
                && forall|i: int| 0 <= i < v@.len() ==> entry_describes(#[trigger] v@[i], self.root_path(),
                    untagged_files(self.store())[i], self.store(), views_of_strings(dirs@))),
    {
        if !self.is_initialized {
            return Err(DbError::OperationFailed(owned("TagerManager nie jest zainicjalizowany")));
        }
        let all = self.db.get_all_files(None, None)?;
        let ghost s = self.db@;
        let ghost all_v = ranked_files(FileOrder::CreatedDesc, s.files, any_file());
        let ghost pred = untagged(s);
        proof {
            assert(views(all@) =~= all_v);
            assert(all_v.take(0).filter(pred) =~= Seq::<FileView>::empty()) by {
                reveal(Seq::filter);
            }
        }
        let mut out: Vec<FileEntry> = Vec::new();
        let mut i: usize = 0;
        let ghost chosen: Seq<FileView> = Seq::empty();
        while i < all.len()
            invariant
                self.wf(),
                s == self.db@,
                all_v == views(all@),
                pred == untagged(s),
                i <= all@.len(),
                chosen == all_v.take(i as int).filter(pred),
                out@.len() == chosen.len(),
                forall|k: int| 0 <= k < out@.len() ==> entry_describes(#[trigger] out@[k], self.root@, chosen[k], s, views_of_strings(dirs@)),
            decreases all@.len() - i,
        {
            proof {
                lemma_filter_take_step(all_v, pred, i as int);
                assert(all_v[i as int] == all@[i as int]@);
            }
            let tags = self.db.get_tags_for_file(all[i].id)?;
            if tags.len() == 0 {
                let e = self.entry_for(&all[i], dirs)?;
                out.push(e);
                proof {
                    chosen = chosen.push(all_v[i as int]);
                }
            }
            proof {
                lemma_no_tags_iff(s, all@[i as int].id, views(tags@));
            }
            i = i + 1;
        }
        proof {
            assert(all_v.take(all_v.len() as int) =~= all_v);
        }
        Ok(out)
    }

    /// Marks the manager as no longer initialised.
    pub fn disconnect(&mut self)
        ensures
            !final(self).initialized(),
            final(self).store() == old(self).store(),
            final(self).root_path() == old(self).root_path(),
            final(self).tager_dir_path() == old(self).tager_dir_path(),
            final(self).db_file_path() == old(self).db_file_path(),
            final(self).hash_file_path() == old(self).hash_file_path(),
            final(self).wf() == old(self).wf(),
    {
        self.is_initialized = false;
    }

    /// The store.
    pub fn db(&self) -> (r: &Database)
        ensures
            r@ == self.store(),
            self.wf() ==> r.wf(),
    {
        &self.db
    }

    /// The store, to change it in place; what is done to it is done to the
    /// manager's store.
    pub fn db_mut(&mut self) -> (r: &mut Database)
        ensures
            r@ == old(self).store(),
            r.wf() == old(self).wf(),
            final(self).store() == final(r)@,
            final(self).wf() == final(r).wf(),
            final(self).initialized() == old(self).initialized(),
            final(self).root_path() == old(self).root_path(),
            final(self).tager_dir_path() == old(self).tager_dir_path(),
            final(self).db_file_path() == old(self).db_file_path(),
            final(self).hash_file_path() == old(self).hash_file_path(),
    {
        &mut self.db
    }

    /// The root directory.
    pub fn root(&self) -> (r: &str)
        ensures
            r@ == self.root_path(),
    {
        self.root.as_str()
    }

    /// Whether the manager is initialised.
    pub fn is_initialized(&self) -> (r: bool)
        ensures
            r == self.initialized(),
    {
        self.is_initialized
    }

    /// The `.tager` directory under the root.
    pub fn tager_dir(&self) -> (r: &str)
        ensures
            r@ == self.tager_dir_path(),
    {
        self.tager_dir.as_str()
    }

    /// The database file in the `.tager` directory.
    pub fn db_path(&self) -> (r: &str)
        ensures
            r@ == self.db_file_path(),
    {
        self.db_path.as_str()
    }

    /// The file that keeps the hash of the last synchronised snapshot.
    pub fn hash_path(&self) -> (r: &str)
        ensures
            r@ == self.hash_file_path(),
    {
        self.hash_path.as_str()
    }
}

/// Files without any link.
pub open spec fn untagged(s: DbState) -> spec_fn(FileView) -> bool {
    |f: FileView| !exists|i: int| 0 <= i < s.links.len() && #[trigger] s.links[i].0 == f.id
}

/// The files that `get_files_without_tags` lists, newest creation first.
pub open spec fn untagged_files(s: DbState) -> Seq<FileView> {
    ranked_files(FileOrder::CreatedDesc, s.files, any_file()).filter(untagged(s))
}

proof fn lemma_no_tags_iff(s: DbState, file_id: i64, tags: Seq<TagView>)
    requires
        s.valid(),
        tags == ranked_tags(s.tags, tag_selected(TagSelect::OnFile(file_id), s)),
        forall|v: TagView| #[trigger] tags.contains(v) <==> (s.tags.contains(v) && tag_selected(TagSelect::OnFile(file_id), s)(v)),
    ensures
        (tags.len() == 0) == untagged(s)(FileView { id: file_id, ..arbitrary_file() }),
{
    if tags.len() == 0 {
        assert forall|i: int| 0 <= i < s.links.len() implies #[trigger] s.links[i].0 != file_id by {
            if s.links[i].0 == file_id {
                let l = s.links[i];
                assert(s.links.contains(l));
                assert(s.has_tag(l.1));
                let k = s.tag_index(l.1);
                assert(s.tags[k].id == l.1);
                assert(s.tags.contains(s.tags[k]));
                assert(tags.contains(s.tags[k]));
            }
        }
    } else {
        assert(tags.contains(tags[0]));
        assert(s.links.contains((file_id, tags[0].id)));
        let i = choose|i: int| 0 <= i < s.links.len() && s.links[i] == (file_id, tags[0].id);
        assert(s.links[i].0 == file_id);
    }
}

pub open spec fn arbitrary_file() -> FileView {
    FileView {
        id: 0,
        path: Seq::empty(),
        size: 0,
        content_hash: Seq::empty(),
        last_modified: TimePoint { secs: 0, nanos: 0 },
        last_accessed: TimePoint { secs: 0, nanos: 0 },
        created: TimePoint { secs: 0, nanos: 0 },
    }
}

/// The tag entries for tag rows.
fn tag_entries(tags: &Vec<DBTag>) -> (r: Vec<TagEntry>)
    ensures
        views(r@) == views(tags@),
{
    let mut out: Vec<TagEntry> = Vec::new();
    let mut i: usize = 0;
    while i < tags.len()
        invariant
            i <= tags@.len(),
            views(out@) == views(tags@).take(i as int),
        decreases tags@.len() - i,
    {
        let ghost before = views(out@);
        let e = TagEntry { id: tags[i].id, name: tags[i].name.clone() };
        out.push(e);
        assert(views(out@) =~= before.push(e@));
        assert(views(tags@)[i as int] == tags@[i as int]@);
        assert(views(out@) =~= views(tags@).take(i + 1));
        i = i + 1;
    }
    assert(views(tags@).take(tags@.len() as int) =~= views(tags@));
    out
}

/// The files of `files` whose name contains `filter`, both lowercased.
fn retain_named(files: &Vec<DBFile>, filter: &str) -> (r: Vec<DBFile>)
    ensures
        views(r@) == views(files@).filter(name_matches(filter@)),
{
    let ghost pred = name_matches(filter@);
    let ghost fv = views(files@);
    let wanted = lowercase(filter);
    let mut out: Vec<DBFile> = Vec::new();
    let mut i: usize = 0;
    while i < files.len()
        invariant
            fv == views(files@),
            pred == name_matches(filter@),
            wanted@ == spec_lowercase(filter@),
            i <= files@.len(),
            views(out@) == fv.take(i as int).filter(pred),
        decreases files@.len() - i,
    {
        proof {
            lemma_filter_take_step(fv, pred, i as int);
            assert(fv[i as int] == files@[i as int]@);
        }
        let name = match path_file_name(files[i].path.as_str()) {
            Some(n) => n,
            None => String::new(),
        };
        let lower = lowercase(name.as_str());
        if str_contains(lower.as_str(), wanted.as_str()) {
            let ghost before = views(out@);
            let row = files[i].duplicate();
            out.push(row);
            assert(views(out@) =~= before.push(row@));
        }
        i = i + 1;
    }
    assert(fv.take(fv.len() as int) =~= fv);
    out
}

/// A path relative to the root that lies in the `.tager` directory.
pub open spec fn in_tager_dir(rel: Seq<char>) -> bool {
    rel == ".tager"@ || (rel.len() > ".tager/"@.len() && rel.take(".tager/"@.len() as int) == ".tager/"@)
}

/// Files outside the `.tager` directory.
pub open spec fn outside_tager_dir() -> spec_fn(FileView) -> bool {
    |f: FileView| !in_tager_dir(f.path)
}

fn is_in_tager_dir(rel: &str) -> (r: bool)
    ensures
        r == in_tager_dir(rel@),
{
    let cs = str_chars(rel);
    let pre = str_chars(".tager/");
    if str_equal(rel, ".tager") {
        return true;
    }
    if cs.len() <= pre.len() {
        assert(rel@.len() <= ".tager/"@.len());
        assert(rel@ != ".tager"@);
        return false;
    }
    let mut i: usize = 0;
    while i < pre.len()
        invariant
            cs@ == rel@,
            pre@ == ".tager/"@,
            pre@.len() < cs@.len(),
            rel@ != ".tager"@,
            i <= pre@.len(),
            forall|k: int| 0 <= k < i ==> cs@[k] == pre@[k],
        decreases pre@.len() - i,
    {
        if cs[i] != pre[i] {
            proof {
                assert(rel@.take(pre@.len() as int)[i as int] == cs@[i as int]);
            }
            return false;
        }
        i = i + 1;
    }
    assert(rel@.take(pre@.len() as int) =~= pre@);
    true
}

impl TagerManager {
    /// The files of a scan of the root, without those in the `.tager` directory.
    /// Each scanned file carries its path relative to the root.
    pub fn get_root_snapshot(&self, scanned: &Vec<DBFile>) -> (r: Vec<DBFile>)
        ensures
            views(r@) == views(scanned@).filter(outside_tager_dir()),
    {
        let ghost sv = views(scanned@);
        let ghost pred = outside_tager_dir();
        let mut out: Vec<DBFile> = Vec::new();
        let mut i: usize = 0;
        while i < scanned.len()
            invariant
                sv == views(scanned@),
                pred == outside_tager_dir(),
                i <= scanned@.len(),
                views(out@) == sv.take(i as int).filter(pred),
            decreases scanned@.len() - i,
        {
            proof {
                lemma_filter_take_step(sv, pred, i as int);
                assert(sv[i as int] == scanned@[i as int]@);
            }
            if !is_in_tager_dir(scanned[i].path.as_str()) {
                let ghost before = views(out@);
                let row = scanned[i].duplicate();
                out.push(row);
                assert(views(out@) =~= before.push(row@));
            }
            i = i + 1;
        }
        assert(sv.take(sv.len() as int) =~= sv);
        out
    }
}

} // verus!
