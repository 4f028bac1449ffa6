//! What the desktop application asks of the manager: the listings in the form the
//! front end receives them, the status of the manager, and the answers when no
//! manager is set up. The application keeps the manager in a slot that is empty
//! until a directory is opened.
use crate::paths::path_join;
use crate::ranking::views;
use crate::text::{concat, owned};
use crate::tm::db::database::{tag_added_by_name, tag_selected, TagSelect};
use crate::tm::db::error::error_message;
use crate::tm::db::state::{any_tag, file_path_is, ranked_files, ranked_tags, DbState};
use crate::tm::db::types::{FileOrder, FileView, TagView};
use crate::tm::db::DbError;
use crate::tm::manager::{
    assign_before_init_message, debug_time, file_name_or_empty, listed_files, missing_file_message,
    not_initialized_message, untagged_files, FileEntry, TagEntry,
    TagerManager,
};
use vstd::prelude::*;

verus! {

/// A tag as the front end receives it.
#[derive(Debug, Clone)]
pub struct TagEntryResponse {
    pub id: i64,
    pub name: String,
}

impl View for TagEntryResponse {
    type V = TagView;

    open spec fn view(&self) -> TagView {
        TagView { id: self.id, name: self.name@ }
    }
}

/// A file as the front end receives it.
#[derive(Debug, Clone)]
pub struct FileEntryResponse {
    pub id: i64,
    pub abs_path: String,
    pub rel_path: String,
    pub file_name: String,
    pub tags: Vec<TagEntryResponse>,
    pub last_modified: String,
    pub created: String,
}

/// The content of a [`FileEntryResponse`].
pub struct ResponseView {
    pub id: i64,
    pub abs_path: Seq<char>,
    pub rel_path: Seq<char>,
    pub file_name: Seq<char>,
    pub tags: Seq<TagView>,
    pub last_modified: Seq<char>,
    pub created: Seq<char>,
}

impl View for FileEntryResponse {
    type V = ResponseView;

    open spec fn view(&self) -> ResponseView {
        ResponseView {
            id: self.id,
            abs_path: self.abs_path@,
            rel_path: self.rel_path@,
            file_name: self.file_name@,
            tags: views(self.tags@),
            last_modified: self.last_modified@,
            created: self.created@,
        }
    }
}

/// What the front end receives for a listed entry.
pub open spec fn entry_response(e: FileEntry) -> ResponseView {
    ResponseView {
        id: e.id,
        abs_path: e.abs_path@,
        rel_path: e.rel_path@,
        file_name: e.file_name@,
        tags: views(e.tags@),
        last_modified: e.last_modified@,
        created: e.created@,
    }
}

/// What the front end receives for file `f` of store `s` under `root`.
pub open spec fn file_response(root: Seq<char>, s: DbState, f: FileView) -> ResponseView {
    ResponseView {
        id: f.id,
        abs_path: path_join(root, f.path),
        rel_path: f.path,
        file_name: file_name_or_empty(f.path),
        tags: ranked_tags(s.tags, tag_selected(TagSelect::OnFile(f.id), s)),
        last_modified: debug_time(f.last_modified),
        created: debug_time(f.created),
    }
}

/// The status of the manager.
#[derive(Debug, Clone)]
pub struct ManagerStatus {
    pub initialized: bool,
    pub root_path: String,
    pub total_files: i64,
    pub total_tags: i64,
}

/// The answer when no directory was opened yet.
pub open spec fn not_ready_message() -> Seq<char> {
    "Manager nie jest zainicjalizowany. Wywołaj init_tager_manager najpierw."@
}

impl From<TagEntry> for TagEntryResponse {
    /// The response for a listed tag.
    fn from(entry: TagEntry) -> (r: TagEntryResponse) {
        TagEntryResponse { id: entry.id, name: entry.name }
    }
}

impl vstd::std_specs::convert::FromSpecImpl<TagEntry> for TagEntryResponse {
    open spec fn obeys_from_spec() -> bool {
        true
    }

    open spec fn from_spec(entry: TagEntry) -> TagEntryResponse {
        TagEntryResponse { id: entry.id, name: entry.name }
    }
}

/// The responses for listed tags, in order.
fn tag_responses(tags: Vec<TagEntry>) -> (r: Vec<TagEntryResponse>)
    ensures
        views(r@) == views(tags@),
{
    let mut out: Vec<TagEntryResponse> = Vec::new();
    let mut i: usize = 0;
    while i < tags.len()
        invariant
            i <= tags@.len(),
            views(out@) == views(tags@).take(i as int),
        decreases tags@.len() - i,
    {
        let ghost before = views(out@);
        let entry = TagEntry { id: tags[i].id, name: owned(tags[i].name.as_str()) };
        let t = TagEntryResponse::from(entry);
        out.push(t);
        proof {
            assert(views(out@) =~= before.push(tags@[i as int]@));
            assert(views(tags@).take(i + 1) =~= views(tags@).take(i as int).push(tags@[i as int]@));
        }
        i = i + 1;
    }
    proof {
        assert(views(tags@).take(tags@.len() as int) =~= views(tags@));
    }
    out
}

impl FileEntryResponse {
    /// The response for a listed file.
    pub fn from_entry(entry: FileEntry) -> (r: FileEntryResponse)
        ensures
            r@ == entry_response(entry),
    {
        let tags = tag_responses(entry.tags);
        FileEntryResponse {
            id: entry.id,
            abs_path: entry.abs_path,
            rel_path: entry.rel_path,
            file_name: entry.file_name,
            tags,
            last_modified: entry.last_modified,
            created: entry.created,
        }
    }
}

/// The responses for listed files, in order.
fn file_responses(files: Vec<FileEntry>) -> (r: Vec<FileEntryResponse>)
    ensures
        r@.map_values(|x: FileEntryResponse| x@) == files@.map_values(|e: FileEntry| entry_response(e)),
{
    let ghost want = files@.map_values(|e: FileEntry| entry_response(e));
    let mut rest = files;
    let mut rev: Vec<FileEntryResponse> = Vec::new();
    let ghost n = rest@.len();
    while rest.len() > 0
        invariant
            rest@.len() <= n,
            want.len() == n,
            rev@.len() == n - rest@.len(),
            forall|k: int| 0 <= k < rest@.len() ==> entry_response(#[trigger] rest@[k]) == want[k],
            forall|k: int| 0 <= k < rev@.len() ==> (#[trigger] rev@[k])@ == want[n - 1 - k],
        decreases rest@.len(),
    {
        let e = rest.pop().unwrap();
        let resp = FileEntryResponse::from_entry(e);
        rev.push(resp);
    }
    let mut out: Vec<FileEntryResponse> = Vec::new();
    while rev.len() > 0
        invariant
            want.len() == n,
            out@.len() + rev@.len() == n,
            forall|k: int| 0 <= k < rev@.len() ==> (#[trigger] rev@[k])@ == want[n - 1 - k],
            forall|k: int| 0 <= k < out@.len() ==> (#[trigger] out@[k])@ == want[k],
        decreases rev@.len(),
    {
        let x = rev.pop().unwrap();
        out.push(x);
    }
    proof {
        assert(out@.map_values(|x: FileEntryResponse| x@) =~= want);
    }
    out
}

/// The message that says why a listing failed.
fn failure(what: &str, e: DbError) -> (r: String)
    ensures
        r@ == what@ + error_message(e),
{
    concat(what, e.message().as_str())
}

/// The files of the open directory whose name contains `name_filter` and that
/// carry every tag of `tag_filters`, as the front end receives them.
pub fn get_filtered_files(slot: &Option<TagerManager>, name_filter: Option<String>, tag_filters: Option<Vec<String>>) -> (r:
    Result<Vec<FileEntryResponse>, String>)
    requires
        match slot {
            Some(m) => m.wf(),
            None => true,
        },
    ensures
        match slot {
            None => r matches Err(msg) && msg@ == not_ready_message(),
            Some(m) => if m.initialized() {
                r matches Ok(v) && v@.map_values(|x: FileEntryResponse| x@) == listed_files(
                    m.store(),
                    name_filter,
                    tag_filters,
                ).map_values(|f: FileView| file_response(m.root_path(), m.store(), f))
            } else {
                r matches Err(msg) && msg@ == "Nie udało się pobrać plików: "@ + "Błąd operacji na bazie danych: "@
                    + not_initialized_message()
            },
        },
{
    match slot {
        Some(manager) => {
            let ghost listed = listed_files(manager.store(), name_filter, tag_filters);
            // a response carries no entry kind, so no directory needs naming
            match manager.get_files(name_filter, tag_filters, &Vec::new()) {
                Ok(files) => {
                    let out = file_responses(files);
                    proof {
                        assert(out@.map_values(|x: FileEntryResponse| x@) =~= listed.map_values(
                            |f: FileView| file_response(manager.root_path(), manager.store(), f),
                        )) by {
                            assert forall|i: int| 0 <= i < listed.len() implies entry_response(#[trigger] files@[i])
                                == file_response(manager.root_path(), manager.store(), listed[i]) by {
                                assert(views(files@[i].tags@) =~= ranked_tags(manager.store().tags, tag_selected(
                                    TagSelect::OnFile(listed[i].id), manager.store())));
                            }
                        }
                    }
                    Ok(out)
                },
                Err(e) => Err(failure("Nie udało się pobrać plików: ", e)),
            }
        },
        None => Err(owned("Manager nie jest zainicjalizowany. Wywołaj init_tager_manager najpierw.")),
    }
}

/// The files of the open directory without any tag, as the front end receives them.
pub fn get_files_without_tags(slot: &Option<TagerManager>) -> (r: Result<Vec<FileEntryResponse>, String>)
    requires
        match slot {
            Some(m) => m.wf(),
            None => true,
        },
    ensures
        match slot {
            None => r matches Err(msg) && msg@ == not_ready_message(),
            Some(m) => if m.initialized() {
                r matches Ok(v) && v@.map_values(|x: FileEntryResponse| x@) == untagged_files(m.store()).map_values(
                    |f: FileView| file_response(m.root_path(), m.store(), f),
                )
            } else {
                r matches Err(msg) && msg@ == "Nie udało się pobrać plików bez tagów: "@
                    + "Błąd operacji na bazie danych: "@ + not_initialized_message()
            },
        },
{
    match slot {
        Some(manager) => {
            let ghost listed = untagged_files(manager.store());
            // a response carries no entry kind, so no directory needs naming
            match manager.get_files_without_tags(&Vec::new()) {
                Ok(files) => {
                    let out = file_responses(files);
                    proof {
                        assert(out@.map_values(|x: FileEntryResponse| x@) =~= listed.map_values(
                            |f: FileView| file_response(manager.root_path(), manager.store(), f),
                        )) by {
                            assert forall|i: int| 0 <= i < listed.len() implies entry_response(#[trigger] files@[i])
                                == file_response(manager.root_path(), manager.store(), listed[i]) by {
                                assert(views(files@[i].tags@) =~= ranked_tags(manager.store().tags, tag_selected(
                                    TagSelect::OnFile(listed[i].id), manager.store())));
                            }
                        }
                    }
                    Ok(out)
                },
                Err(e) => Err(failure("Nie udało się pobrać plików bez tagów: ", e)),
            }
        },
        None => Err(owned("Manager nie jest zainicjalizowany. Wywołaj init_tager_manager najpierw.")),
    }
}

/// Gives the tag `tag_name` to the file at `file_path` of the open directory.
pub fn assign_tag_to_file(slot: &mut Option<TagerManager>, file_path: String, tag_name: String) -> (r: Result<(), String>)
    requires
        match *old(slot) {
            Some(m) => m.wf(),
            None => true,
        },
    ensures
        match *old(slot) {
            None => (r matches Err(msg) && msg@ == not_ready_message()) && *final(slot) is None,
            Some(m) => match *final(slot) {
                None => false,
                Some(n) => {
                    let at_path = ranked_files(FileOrder::ModifiedDesc, m.store().files, file_path_is(file_path@));
                    let prefix = "Nie udało się przypisać tagu do pliku: "@ + "Błąd operacji na bazie danych: "@;
                    &&& n.wf()
                    &&& n.initialized() == m.initialized()
                    &&& n.root_path() == m.root_path()
                    &&& !m.initialized() ==> (r matches Err(msg) && msg@ == prefix + assign_before_init_message())
                        && n.store() == m.store()
                    &&& m.initialized() && at_path.len() == 0 ==> (r matches Err(msg) && msg@ == prefix
                        + missing_file_message(file_path@)) && n.store() == m.store()
                    &&& m.initialized() && at_path.len() > 0 ==> {
                        let after = tag_added_by_name(m.store(), at_path[0].id, tag_name@);
                        &&& r is Err <==> after is None
                        &&& r is Err ==> n.store() == m.store()
                        &&& r is Ok ==> n.store() == after->0
                    }
                },
            },
        },
{
    match slot {
        Some(manager) => match manager.assign_tag_to_file(file_path.as_str(), tag_name.as_str()) {
            Ok(()) => Ok(()),
            Err(e) => Err(failure("Nie udało się przypisać tagu do pliku: ", e)),
        },
        None => Err(owned("Manager nie jest zainicjalizowany. Wywołaj init_tager_manager najpierw.")),
    }
}

/// Every tag of the open directory, by name, as the front end receives them.
pub fn get_all_tags(slot: &Option<TagerManager>) -> (r: Result<Vec<TagEntryResponse>, String>)
    requires
        match slot {
            Some(m) => m.wf(),
            None => true,
        },
    ensures
        match slot {
            None => r matches Err(msg) && msg@ == not_ready_message(),
            Some(m) => if m.initialized() {
                r matches Ok(v) && views(v@) == ranked_tags(m.store().tags, any_tag())
            } else {
                r matches Err(msg) && msg@ == "Nie udało się pobrać tagów: "@ + "Błąd operacji na bazie danych: "@
                    + not_initialized_message()
            },
        },
{
    match slot {
        Some(manager) => match manager.get_all_tags() {
            Ok(tags) => Ok(tag_responses(tags)),
            Err(e) => Err(failure("Nie udało się pobrać tagów: ", e)),
        },
        None => Err(owned("Manager nie jest zainicjalizowany. Wywołaj init_tager_manager najpierw.")),
    }
}

/// The status of the manager in the slot; an empty status when there is none.
pub fn get_manager_status(slot: &Option<TagerManager>) -> (r: Result<ManagerStatus, String>)
    requires
        match slot {
            Some(m) => m.wf(),
            None => true,
        },
    ensures
        match slot {
            None => r matches Ok(st) && !st.initialized && st.root_path@.len() == 0 && st.total_files == 0
                && st.total_tags == 0,
            Some(m) => r matches Ok(st) && st.initialized == m.initialized() && st.root_path@ == m.root_path()
                && st.total_files == m.store().files.len() as i64 && st.total_tags == m.store().tags.len() as i64,
        },
{
    match slot {
        Some(manager) => {
            let initialized = manager.is_initialized();
            let root = owned(manager.root());
            let total_files = match manager.db().count_files() {
                Ok(n) => n,
                Err(_) => 0,
            };
            let total_tags = match manager.db().count_tags() {
                Ok(n) => n,
                Err(_) => 0,
            };
            Ok(ManagerStatus { initialized, root_path: root, total_files, total_tags })
        },
        None => Ok(ManagerStatus { initialized: false, root_path: String::new(), total_files: 0, total_tags: 0 }),
    }
}

/// Closes the directory: the manager is marked not initialised and the slot emptied.
pub fn disconnect_manager(slot: &mut Option<TagerManager>) -> (r: Result<(), String>)
    ensures
        r is Ok,
        *final(slot) is None,
{
    if let Some(manager) = slot {
        manager.disconnect();
    }
    *slot = None;
    Ok(())
}

} // verus!
