//! The configuration of a tagged directory tree: where its configuration
//! directory lies, which entries a scan of the tree visits, the indexing of the
//! files that a scan found, and the listing of the stored files with what the
//! file system says of them.
use crate::db::database::{
    new_path_count, pair_views, row_pairs, with_paths, names_of_file, Database, DbError, TagTables,
};
use crate::paths::{extension, file_name, join_paths, path_extension, path_file_name, path_join};
use crate::text::{decimal, decimal_string, lowercase, owned, spec_lowercase, str_equal, views_of_strings};
use vstd::prelude::*;

verus! {

/// What the file system says of a stored file: its size in bytes and the time of
/// its last change, in whole seconds since the epoch.
#[derive(Debug, Clone, Copy, PartialEq, Eq)]
pub struct FileStat {
    pub size: u64,
    pub modified: u64,
}

/// A stored file as the file browser shows it.
#[derive(Debug, Clone)]
pub struct FileMetadata {
    pub id: String,
    pub name: String,
    pub path: String,
    pub tags: Vec<String>,
    pub size: u64,
    pub modified: u64,
    pub extension: Option<String>,
    pub file_type: String,
    pub is_dir: bool,
}

/// The content of a [`FileMetadata`].
pub struct MetadataView {
    pub id: Seq<char>,
    pub name: Seq<char>,
    pub path: Seq<char>,
    pub tags: Seq<Seq<char>>,
    pub size: u64,
    pub modified: u64,
    pub extension: Option<Seq<char>>,
    pub file_type: Seq<char>,
    pub is_dir: bool,
}

/// The characters of an optional string.
pub open spec fn opt_view(o: Option<String>) -> Option<Seq<char>> {
    match o {
        Some(s) => Some(s@),
        None => None,
    }
}

impl View for FileMetadata {
    type V = MetadataView;

    open spec fn view(&self) -> MetadataView {
        MetadataView {
            id: self.id@,
            name: self.name@,
            path: self.path@,
            tags: views_of_strings(self.tags@),
            size: self.size,
            modified: self.modified,
            extension: opt_view(self.extension),
            file_type: self.file_type@,
            is_dir: self.is_dir,
        }
    }
}

/// The name of the configuration directory.
pub open spec fn config_name() -> Seq<char> {
    seq!['.', 't', 'a', 'g', 'e', 'r']
}

/// The kind of file that an extension (already in lower case) names.
pub open spec fn file_kind(ext: Option<Seq<char>>) -> Seq<char> {
    match ext {
        Some(e) => if e == "jpg"@ || e == "jpeg"@ || e == "png"@ || e == "gif"@ || e == "bmp"@ {
            "image"@
        } else if e == "mp4"@ || e == "avi"@ || e == "mov"@ || e == "mkv"@ {
            "video"@
        } else if e == "pdf"@ || e == "docx"@ || e == "doc"@ || e == "txt"@ {
            "document"@
        } else {
            "other"@
        },
        None => "other"@,
    }
}

/// The file kinds by extension: `jpg`, `jpeg`, `png`, `gif` and `bmp` are images;
/// `mp4`, `avi`, `mov` and `mkv` are videos; `pdf`, `docx`, `doc` and `txt` are
/// documents; any other extension, and no extension, is `other`.
pub proof fn law_file_kind_table(e: Seq<char>)
    ensures
        (e == "jpg"@ || e == "jpeg"@ || e == "png"@ || e == "gif"@ || e == "bmp"@) ==> file_kind(Some(e)) == "image"@,
        (e == "mp4"@ || e == "avi"@ || e == "mov"@ || e == "mkv"@) ==> file_kind(Some(e)) == "video"@,
        (e == "pdf"@ || e == "docx"@ || e == "doc"@ || e == "txt"@) ==> file_kind(Some(e)) == "document"@,
        !(e == "jpg"@ || e == "jpeg"@ || e == "png"@ || e == "gif"@ || e == "bmp"@ || e == "mp4"@ || e == "avi"@ || e == "mov"@ || e == "mkv"@ || e == "pdf"@ || e == "docx"@ || e == "doc"@ || e == "txt"@) ==> file_kind(Some(e)) == "other"@,
        file_kind(None) == "other"@,
{
    reveal_strlit("jpg");
    reveal_strlit("jpeg");
    reveal_strlit("png");
    reveal_strlit("gif");
    reveal_strlit("bmp");
    reveal_strlit("mp4");
    reveal_strlit("avi");
    reveal_strlit("mov");
    reveal_strlit("mkv");
    reveal_strlit("pdf");
    reveal_strlit("docx");
    reveal_strlit("doc");
    reveal_strlit("txt");
    assert("mp4"@[0] != "jpg"@[0]);
    assert("mp4"@.len() != "jpeg"@.len());
    assert("mp4"@[0] != "png"@[0]);
    assert("mp4"@[0] != "gif"@[0]);
    assert("mp4"@[0] != "bmp"@[0]);
    assert("avi"@[0] != "jpg"@[0]);
    assert("avi"@.len() != "jpeg"@.len());
    assert("avi"@[0] != "png"@[0]);
    assert("avi"@[0] != "gif"@[0]);
    assert("avi"@[0] != "bmp"@[0]);
    assert("mov"@[0] != "jpg"@[0]);
    assert("mov"@.len() != "jpeg"@.len());
    assert("mov"@[0] != "png"@[0]);
    assert("mov"@[0] != "gif"@[0]);
    assert("mov"@[0] != "bmp"@[0]);
    assert("mkv"@[0] != "jpg"@[0]);
    assert("mkv"@.len() != "jpeg"@.len());
    assert("mkv"@[0] != "png"@[0]);
    assert("mkv"@[0] != "gif"@[0]);
    assert("mkv"@[0] != "bmp"@[0]);
    assert("pdf"@[0] != "jpg"@[0]);
    assert("pdf"@.len() != "jpeg"@.len());
    assert("pdf"@[1] != "png"@[1]);
    assert("pdf"@[0] != "gif"@[0]);
    assert("pdf"@[0] != "bmp"@[0]);
    assert("pdf"@[0] != "mp4"@[0]);
    assert("pdf"@[0] != "avi"@[0]);
    assert("pdf"@[0] != "mov"@[0]);
    assert("pdf"@[0] != "mkv"@[0]);
    assert("docx"@.len() != "jpg"@.len());
    assert("docx"@[0] != "jpeg"@[0]);
    assert("docx"@.len() != "png"@.len());
    assert("docx"@.len() != "gif"@.len());
    assert("docx"@.len() != "bmp"@.len());
    assert("docx"@.len() != "mp4"@.len());
    assert("docx"@.len() != "avi"@.len());
    assert("docx"@.len() != "mov"@.len());
    assert("docx"@.len() != "mkv"@.len());
    assert("doc"@[0] != "jpg"@[0]);
    assert("doc"@.len() != "jpeg"@.len());
    assert("doc"@[0] != "png"@[0]);
    assert("doc"@[0] != "gif"@[0]);
    assert("doc"@[0] != "bmp"@[0]);
    assert("doc"@[0] != "mp4"@[0]);
    assert("doc"@[0] != "avi"@[0]);
    assert("doc"@[0] != "mov"@[0]);
    assert("doc"@[0] != "mkv"@[0]);
    assert("txt"@[0] != "jpg"@[0]);
    assert("txt"@.len() != "jpeg"@.len());
    assert("txt"@[0] != "png"@[0]);
    assert("txt"@[0] != "gif"@[0]);
    assert("txt"@[0] != "bmp"@[0]);
    assert("txt"@[0] != "mp4"@[0]);
    assert("txt"@[0] != "avi"@[0]);
    assert("txt"@[0] != "mov"@[0]);
    assert("txt"@[0] != "mkv"@[0]);
}

/// The lower-case form of an optional extension.
pub open spec fn lower_ext(e: Option<Seq<char>>) -> Option<Seq<char>> {
    match e {
        Some(x) => Some(spec_lowercase(x)),
        None => None,
    }
}

/// How the browser shows the file at index `i` of the store, under `root`.
pub open spec fn metadata_of(s: TagTables, root: Seq<char>, i: int, st: FileStat) -> MetadataView {
    let full = path_join(root, s.files[i]);
    let ext = lower_ext(extension(full));
    MetadataView {
        id: decimal((i + 1) as nat),
        name: match file_name(full) {
            Some(n) => n,
            None => s.files[i],
        },
        path: full,
        tags: names_of_file(s, (i + 1) as i64, s.tags.len() as int),
        size: st.size,
        modified: st.modified,
        extension: ext,
        file_type: file_kind(ext),
        is_dir: false,
    }
}

/// The files of the store, in id order, that the file system gave a [`FileStat`]
/// for (`stats[i]` is that of the file at index `i`).
pub open spec fn metadata_listing(s: TagTables, root: Seq<char>, stats: Seq<Option<FileStat>>) -> Seq<MetadataView>
    decreases stats.len(),
{
    if stats.len() == 0 {
        Seq::empty()
    } else {
        let rest = metadata_listing(s, root, stats.drop_last());
        match stats.last() {
            Some(st) => rest.push(metadata_of(s, root, stats.len() - 1, st)),
            None => rest,
        }
    }
}

/// The kind of file that a lower-case extension names: `image`, `video`,
/// `document` or `other`.
pub fn file_type_of(ext: Option<&str>) -> (r: String)
    ensures
        r@ == file_kind(match ext {
            Some(e) => Some(e@),
            None => None,
        }),
{
    match ext {
        Some(e) => {
            if str_equal(e, "jpg") || str_equal(e, "jpeg") || str_equal(e, "png") || str_equal(e, "gif")
                || str_equal(e, "bmp") {
                owned("image")
            } else if str_equal(e, "mp4") || str_equal(e, "avi") || str_equal(e, "mov") || str_equal(e, "mkv") {
                owned("video")
            } else if str_equal(e, "pdf") || str_equal(e, "docx") || str_equal(e, "doc") || str_equal(e, "txt") {
                owned("document")
            } else {
                owned("other")
            }
        },
        None => owned("other"),
    }
}

/// The tagging configuration of one directory tree.
pub struct TagerManager {
    root_dir: String,
}

impl TagerManager {
    /// The root of the tree.
    pub closed spec fn root_path(&self) -> Seq<char> {
        self.root_dir@
    }

    /// A manager for the tree at `root_dir`.
    pub fn new(root_dir: &str) -> (r: TagerManager)
        ensures
            r.root_path() == root_dir@,
    {
        TagerManager { root_dir: owned(root_dir) }
    }

    /// The configuration directory: `.tager` under the root.
    pub fn config_dir(&self) -> (r: String)
        ensures
            r@ == path_join(self.root_path(), config_name()),
    {
        let name = Self::config_dir_name();
        join_paths(self.root_dir.as_str(), name)
    }

    /// Whether a scan of the tree visits the entry at `path`: every entry but a
    /// directory whose name is that of the configuration directory.
    pub fn should_include_entry(&self, is_dir: bool, path: &str) -> (r: bool)
        ensures
            r == !(is_dir && file_name(path@) == Some(config_name())),
    {
        if is_dir {
            if let Some(name) = path_file_name(path) {
                let cfg = Self::config_dir_name();
                if str_equal(name.as_str(), cfg) {
                    return false;
                }
            }
        }
        true
    }

    /// Adds to `db` each of the files that a scan found (paths relative to the
    /// root) that it does not hold yet; returns how many were added.
    pub fn rebuild(&self, db: &mut Database, rel_paths: &Vec<String>) -> (r: Result<usize, DbError>)
        requires
            old(db).wf(),
            old(db)@.files.len() + rel_paths@.len() < i64::MAX,
        ensures
            final(db).wf(),
            final(db)@ == with_paths(old(db)@, views_of_strings(rel_paths@)),
            r matches Ok(n) && n == new_path_count(old(db)@, views_of_strings(rel_paths@))
                && final(db)@.files.len() == old(db)@.files.len() + n,
    {
        db.rebuild(rel_paths)
    }

    /// The files of `db` that the file system gave a [`FileStat`] for, by id, as
    /// the file browser shows them; `stats[i]` belongs to the file with id `i + 1`.
    pub fn get_files_with_metadata(&self, db: &Database, stats: &Vec<Option<FileStat>>) -> (r: Result<
        Vec<FileMetadata>,
        DbError,
    >)
        requires
            db.wf(),
            stats@.len() == db@.files.len(),
        ensures
            r matches Ok(v) && v@.map_values(|m: FileMetadata| m@) == metadata_listing(db@, self.root_path(), stats@),
    {
        let files = db.all_files();
        let ghost want = metadata_listing(db@, self.root_path(), stats@);
        let mut out: Vec<FileMetadata> = Vec::new();
        let mut i: usize = 0;
        proof {
            assert(stats@.take(0) =~= Seq::<Option<FileStat>>::empty());
            assert(pair_views(files@).len() == row_pairs(db@.rows()).len());
            assert(out@.map_values(|m: FileMetadata| m@) =~= Seq::<MetadataView>::empty());
        }
        while i < files.len()
            invariant
                db.wf(),
                stats@.len() == db@.files.len(),
                pair_views(files@) == row_pairs(db@.rows()),
                files@.len() == db@.files.len(),
                i <= files@.len(),
                out@.map_values(|m: FileMetadata| m@) == metadata_listing(db@, self.root_path(), stats@.take(i as int)),
            decreases files@.len() - i,
        {
            proof {
                assert(stats@.take(i + 1).drop_last() =~= stats@.take(i as int));
                assert(stats@.take(i + 1).last() == stats@[i as int]);
                assert(pair_views(files@)[i as int] == row_pairs(db@.rows())[i as int]);
            }
            let ghost before = out@.map_values(|m: FileMetadata| m@);
            if let Some(st) = stats[i] {
                let id = files[i].0;
                let path = files[i].1.as_str();
                let full_path = join_paths(self.root_dir.as_str(), path);
                let tags = match db.get_tags_for_file(path) {
                    Ok(t) => t,
                    Err(e) => return Err(e),
                };
                let extension = match path_extension(full_path.as_str()) {
                    Some(e) => Some(lowercase(e.as_str())),
                    None => None,
                };
                let file_type = match &extension {
                    Some(e) => file_type_of(Some(e.as_str())),
                    None => file_type_of(None),
                };
                let name = match path_file_name(full_path.as_str()) {
                    Some(n) => n,
                    None => owned(path),
                };
                let item = FileMetadata {
                    id: decimal_string(id as u64),
                    name,
                    path: full_path,
                    tags,
                    size: st.size,
                    modified: st.modified,
                    extension,
                    file_type,
                    is_dir: false,
                };
                proof {
                    assert(id == i + 1);
                    assert(db@.files.contains(path@)) by {
                        assert(db@.files[i as int] == path@);
                    }
                    assert(db@.path_id(path@) == i + 1) by {
                        let k = db@.files.index_of(path@);
                        assert(db@.files[k] == path@);
                    }
                    assert(item@ == metadata_of(db@, self.root_path(), i as int, st));
                }
                out.push(item);
                proof {
                    assert(out@.map_values(|m: FileMetadata| m@) =~= before.push(item@));
                }
            }
            i = i + 1;
        }
        proof {
            assert(stats@.take(files@.len() as int) =~= stats@);
        }
        Ok(out)
    }

    /// The root of the tree.
    pub fn root_dir(&self) -> (r: &str)
        ensures
            r@ == self.root_path(),
    {
        self.root_dir.as_str()
    }

    /// The name of the configuration directory, `.tager`.
    pub fn config_dir_name() -> (r: &'static str)
        ensures
            r@ == config_name(),
    {
        let name = ".tager";
        proof {
            reveal_strlit(".tager");
        }
        name
    }
}

} // verus!
