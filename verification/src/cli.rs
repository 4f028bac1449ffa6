//! The commands of the command-line tool: what each one does to the store and the
//! lines it prints. Opening the store and scanning the directory tree are left to
//! the caller, which hands over the store and the files the scan found.
use crate::db::database::{
    lemma_with_paths_keeps_tags, listed_tag_names, names_of_file, new_path_count, tag_listing, tagged_by_id, untagged_listing, with_paths,
    Database, TagTables,
};
use crate::db::types::{FileTagsView, FileWithTags, FilesOrderBy, RowView};
use crate::paths::{join_paths, path_join};
use crate::ranking::views;
use crate::tager_manager::{config_name, TagerManager};
use crate::text::{decimal, decimal_string, i64_string, join_strings, joined, owned, signed_decimal, views_of_strings};
use vstd::prelude::*;

verus! {

/// What the tool is asked to do.
pub enum Commands {
    /// Set up the configuration directory and the store, and index the tree.
    Init,
    /// List the files: those with the tag `tag`, those without any tag, or all.
    List { tag: Option<String>, untagged: bool },
    /// Give the tag `tag` to the file at `file` (relative to the root).
    AddTag { file: String, tag: String },
    /// Rename a tag everywhere.
    RenameTag { old_name: String, new_name: String },
}

/// A command line: the root of the tree and the command.
pub struct Cli {
    pub root: String,
    pub command: Commands,
}

/// The names of the tags of the file at `p`; none when the store has no such file.
pub open spec fn tags_of_path(s: TagTables, p: Seq<char>) -> Seq<Seq<char>> {
    if s.files.contains(p) {
        names_of_file(s, s.path_id(p), s.tags.len() as int)
    } else {
        Seq::empty()
    }
}

/// The line that shows a file of the tree with its tags.
pub open spec fn file_line(p: Seq<char>, tags: Seq<Seq<char>>) -> Seq<char> {
    if tags.len() == 0 {
        "  "@ + p + " (bez tagów)"@
    } else {
        "  "@ + p + " ["@ + joined(tags, ", "@) + "]"@
    }
}

/// The listing of every file of the tree.
pub open spec fn all_files_lines(s: TagTables, paths: Seq<Seq<char>>) -> Seq<Seq<char>> {
    if paths.len() == 0 {
        seq!["Brak plików do wyświetlenia"@]
    } else {
        seq!["\nWszystkie pliki:\n"@] + paths.map_values(|p: Seq<char>| file_line(p, tags_of_path(s, p)))
    }
}

/// The line that shows an untagged file.
pub open spec fn untagged_line(r: RowView) -> Seq<char> {
    "  ["@ + signed_decimal(r.id as int) + "] "@ + r.path
}

/// The listing of the files without tags.
pub open spec fn untagged_lines(rows: Seq<RowView>) -> Seq<Seq<char>> {
    if rows.len() == 0 {
        seq!["Brak plików bez tagów"@]
    } else {
        seq!["\nPliki bez tagów:\n"@] + rows.map_values(|r: RowView| untagged_line(r))
    }
}

/// The line that shows a file of a listing by tag.
pub open spec fn tagged_line(f: FileTagsView) -> Seq<char> {
    "  "@ + f.path + " ["@ + joined(f.tags, ", "@) + "]"@
}

/// The listing of the files with the tag `tag`, by path.
pub open spec fn tagged_lines(s: TagTables, tag: Seq<char>) -> Seq<Seq<char>> {
    let files = tag_listing(s, tag, Some(FilesOrderBy::Path));
    if files.len() == 0 {
        seq!["Brak plików z tagiem '"@ + tag + "'"@]
    } else {
        seq!["\nPliki z tagiem '"@ + tag + "':\n"@] + files.map_values(
            |r: RowView| tagged_line(FileTagsView { id: r.id, path: r.path, tags: listed_tag_names(s, r.id) }),
        )
    }
}

/// The error when the store has no file at `p`.
pub open spec fn not_found_message(p: Seq<char>) -> Seq<char> {
    "Plik '"@ + p + "' nie został znaleziony w bazie danych"@
}

/// The error when a tag cannot be renamed.
pub open spec fn rename_failed_message(old_name: Seq<char>, new_name: Seq<char>) -> Seq<char> {
    "Nie można zmienić nazwy tagu: '"@ + old_name + "' nie istnieje lub '"@ + new_name + "' już istnieje"@
}

/// The line that confirms a new tag of a file.
pub open spec fn tag_added_line(tag: Seq<char>, file: Seq<char>) -> Seq<char> {
    "✓ Tag '"@ + tag + "' dodany do pliku '"@ + file + "'"@
}

/// The line that confirms a renamed tag.
pub open spec fn tag_renamed_line(old_name: Seq<char>, new_name: Seq<char>) -> Seq<char> {
    "✓ Tag '"@ + old_name + "' zmieniony na '"@ + new_name + "'"@
}

/// The lines that report how many files a scan added to the store.
pub open spec fn refresh_lines(added: nat) -> Seq<Seq<char>> {
    if added > 0 {
        seq!["ℹ Zaktualizowano bazę danych: dodano "@ + decimal(added) + " nowych plików"@]
    } else {
        Seq::empty()
    }
}

/// The lines of `init` for the tree at `root`, after `added` files were indexed.
pub open spec fn init_lines(root: Seq<char>, added: nat) -> Seq<Seq<char>> {
    let cfg = path_join(root, config_name());
    seq![
        "Inicjalizacja tager w: "@ + root,
        "✓ Katalog konfiguracyjny utworzony: "@ + cfg,
        "✓ Baza danych utworzona: "@ + path_join(cfg, "tager.db"@),
        "✓ Zindeksowano "@ + decimal(added) + " plików"@,
    ]
}

/// The lines of a listing, for the store `s` and the files `paths` of the tree.
pub open spec fn listing_lines(s: TagTables, tag: Option<String>, untagged: bool, paths: Seq<Seq<char>>) -> Seq<Seq<char>> {
    if untagged {
        untagged_lines(untagged_listing(s, Some(FilesOrderBy::Path)))
    } else {
        match tag {
            Some(t) => tagged_lines(s, t@),
            None => all_files_lines(s, paths),
        }
    }
}

/// Appends `line` to `out`.
fn push_line(out: &mut Vec<String>, line: String)
    ensures
        views_of_strings(final(out)@) == views_of_strings(old(out)@).push(line@),
{
    let ghost before = views_of_strings(out@);
    out.push(line);
    proof {
        assert(views_of_strings(out@) =~= before.push(line@));
    }
}

/// `items` with `", "` between each two, in square brackets after `"  "` and `path`.
fn bracketed(path: &str, items: &Vec<String>) -> (r: String)
    ensures
        r@ == "  "@ + path@ + " ["@ + joined(views_of_strings(items@), ", "@) + "]"@,
{
    let mut l = owned("  ");
    l.append(path);
    l.append(" [");
    let inner = join_strings(items, ", ");
    l.append(inner.as_str());
    l.append("]");
    l
}

impl Cli {
    /// Lists every file of the tree (`paths`, relative to the root) with its tags.
    pub fn list_all_files(db: &Database, paths: &Vec<String>) -> (r: Vec<String>)
        requires
            db.wf(),
        ensures
            views_of_strings(r@) == all_files_lines(db@, views_of_strings(paths@)),
    {
        let mut out: Vec<String> = Vec::new();
        if paths.len() == 0 {
            push_line(&mut out, owned("Brak plików do wyświetlenia"));
            proof {
                assert(views_of_strings(out@) =~= seq!["Brak plików do wyświetlenia"@]);
            }
            return out;
        }
        push_line(&mut out, owned("\nWszystkie pliki:\n"));
        let ghost ps = views_of_strings(paths@);
        let ghost want = ps.map_values(|p: Seq<char>| file_line(p, tags_of_path(db@, p)));
        let mut i: usize = 0;
        proof {
            assert(views_of_strings(out@) =~= seq!["\nWszystkie pliki:\n"@] + want.take(0));
        }
        while i < paths.len()
            invariant
                db.wf(),
                ps == views_of_strings(paths@),
                want == ps.map_values(|p: Seq<char>| file_line(p, tags_of_path(db@, p))),
                i <= paths@.len(),
                views_of_strings(out@) == seq!["\nWszystkie pliki:\n"@] + want.take(i as int),
            decreases paths@.len() - i,
        {
            let path = paths[i].as_str();
            let tags = match db.get_tags_for_file(path) {
                Ok(t) => t,
                Err(_) => Vec::new(),
            };
            let line = if tags.len() == 0 {
                let mut l = owned("  ");
                l.append(path);
                l.append(" (bez tagów)");
                l
            } else {
                bracketed(path, &tags)
            };
            proof {
                assert(views_of_strings(tags@) == tags_of_path(db@, path@));
                assert(line@ == want[i as int]);
                assert(want.take(i + 1) =~= want.take(i as int).push(want[i as int]));
            }
            push_line(&mut out, line);
            i = i + 1;
        }
        proof {
            assert(want.take(paths@.len() as int) =~= want);
        }
        out
    }

    /// Lists the files without any tag, by path.
    pub fn list_untagged_files(db: &Database) -> (r: Vec<String>)
        requires
            db.wf(),
        ensures
            views_of_strings(r@) == untagged_lines(untagged_listing(db@, Some(FilesOrderBy::Path))),
    {
        let files = match db.get_untagged_files(Some(FilesOrderBy::Path)) {
            Ok(f) => f,
            Err(_) => Vec::new(),
        };
        let ghost rows = untagged_listing(db@, Some(FilesOrderBy::Path));
        proof {
            assert(files@.len() == rows.len()) by {
                assert(files@.map_values(|p: (i64, String)| (p.0, p.1@)).len() == rows.map_values(
                    |r: RowView| (r.id, r.path),
                ).len());
            }
        }
        let mut out: Vec<String> = Vec::new();
        if files.len() == 0 {
            push_line(&mut out, owned("Brak plików bez tagów"));
            proof {
                assert(views_of_strings(out@) =~= seq!["Brak plików bez tagów"@]);
            }
            return out;
        }
        push_line(&mut out, owned("\nPliki bez tagów:\n"));
        let ghost want = rows.map_values(|r: RowView| untagged_line(r));
        let mut i: usize = 0;
        proof {
            assert(views_of_strings(out@) =~= seq!["\nPliki bez tagów:\n"@] + want.take(0));
        }
        while i < files.len()
            invariant
                files@.len() == rows.len(),
                files@.map_values(|p: (i64, String)| (p.0, p.1@)) == rows.map_values(|r: RowView| (r.id, r.path)),
                want == rows.map_values(|r: RowView| untagged_line(r)),
                i <= files@.len(),
                views_of_strings(out@) == seq!["\nPliki bez tagów:\n"@] + want.take(i as int),
            decreases files@.len() - i,
        {
            proof {
                assert(files@.map_values(|p: (i64, String)| (p.0, p.1@))[i as int] == rows.map_values(
                    |r: RowView| (r.id, r.path),
                )[i as int]);
            }
            let mut l = owned("  [");
            let id = i64_string(files[i].0);
            l.append(id.as_str());
            l.append("] ");
            l.append(files[i].1.as_str());
            proof {
                assert(l@ == want[i as int]);
                assert(want.take(i + 1) =~= want.take(i as int).push(want[i as int]));
            }
            push_line(&mut out, l);
            i = i + 1;
        }
        proof {
            assert(want.take(files@.len() as int) =~= want);
        }
        out
    }

    /// Lists the files with the tag `tag`, by path, each with all its tags.
    pub fn list_files_with_tag(db: &Database, tag: &str) -> (r: Vec<String>)
        requires
            db.wf(),
        ensures
            views_of_strings(r@) == tagged_lines(db@, tag@),
    {
        let files = match db.get_files_for_tag(tag, Some(FilesOrderBy::Path)) {
            Ok(f) => f,
            Err(_) => Vec::new(),
        };
        let ghost rows = tag_listing(db@, tag@, Some(FilesOrderBy::Path));
        let ghost listed = rows.map_values(
            |r: RowView| FileTagsView { id: r.id, path: r.path, tags: listed_tag_names(db@, r.id) },
        );
        proof {
            assert(views(files@) == listed);
            assert(files@.len() == rows.len()) by {
                assert(views(files@).len() == listed.len());
            }
        }
        let mut out: Vec<String> = Vec::new();
        if files.len() == 0 {
            let mut l = owned("Brak plików z tagiem '");
            l.append(tag);
            l.append("'");
            push_line(&mut out, l);
            proof {
                assert(views_of_strings(out@) =~= seq!["Brak plików z tagiem '"@ + tag@ + "'"@]);
            }
            return out;
        }
        let mut head = owned("\nPliki z tagiem '");
        head.append(tag);
        head.append("':\n");
        push_line(&mut out, head);
        let ghost want = rows.map_values(
            |r: RowView| tagged_line(FileTagsView { id: r.id, path: r.path, tags: listed_tag_names(db@, r.id) }),
        );
        let mut i: usize = 0;
        proof {
            assert(views_of_strings(out@) =~= seq!["\nPliki z tagiem '"@ + tag@ + "':\n"@] + want.take(0));
        }
        while i < files.len()
            invariant
                files@.len() == rows.len(),
                views(files@) == listed,
                listed == rows.map_values(
                    |r: RowView| FileTagsView { id: r.id, path: r.path, tags: listed_tag_names(db@, r.id) },
                ),
                want == rows.map_values(
                    |r: RowView| tagged_line(FileTagsView { id: r.id, path: r.path, tags: listed_tag_names(db@, r.id) }),
                ),
                i <= files@.len(),
                views_of_strings(out@) == seq!["\nPliki z tagiem '"@ + tag@ + "':\n"@] + want.take(i as int),
            decreases files@.len() - i,
        {
            let line = bracketed(files[i].path.as_str(), &files[i].tags);
            proof {
                assert(views(files@)[i as int] == listed[i as int]);
                assert(line@ == want[i as int]);
                assert(want.take(i + 1) =~= want.take(i as int).push(want[i as int]));
            }
            push_line(&mut out, line);
            i = i + 1;
        }
        proof {
            assert(want.take(files@.len() as int) =~= want);
        }
        out
    }

    /// The id of the file at `file_path`, or the error that there is none.
    pub fn find_file_id(db: &Database, file_path: &str) -> (r: Result<i64, String>)
        requires
            db.wf(),
        ensures
            db@.files.contains(file_path@) ==> r == Ok::<i64, String>(db@.path_id(file_path@)),
            !db@.files.contains(file_path@) ==> (r matches Err(m) && m@ == not_found_message(file_path@)),
    {
        match db.find_file(file_path) {
            Some(id) => Ok(id),
            None => {
                let mut m = owned("Plik '");
                m.append(file_path);
                m.append("' nie został znaleziony w bazie danych");
                Err(m)
            },
        }
    }

    /// Gives the tag `tag` to the file at `file_path`, which the store must hold.
    pub fn add_tag_command(&self, db: &mut Database, file_path: &str, tag: &str) -> (r: Result<Vec<String>, String>)
        requires
            old(db).wf(),
            old(db)@.tags.len() + 1 < i64::MAX,
        ensures
            final(db).wf(),
            old(db)@.files.contains(file_path@) ==> (r matches Ok(lines) && views_of_strings(lines@) == seq![
                tag_added_line(tag@, file_path@),
            ] && final(db)@ == tagged_by_id(old(db)@, old(db)@.path_id(file_path@), tag@)),
            !old(db)@.files.contains(file_path@) ==> (r matches Err(m) && m@ == not_found_message(file_path@)
                && final(db)@ == old(db)@),
    {
        let file_id = match Self::find_file_id(db, file_path) {
            Ok(id) => id,
            Err(m) => return Err(m),
        };
        proof {
            let k = db@.files.index_of(file_path@);
            assert(db@.files[k] == file_path@);
        }
        match db.assign_tag_to_file_by_id(file_id, tag) {
            Ok(()) => {},
            Err(e) => return Err(e.message()),
        }
        let mut l = owned("✓ Tag '");
        l.append(tag);
        l.append("' dodany do pliku '");
        l.append(file_path);
        l.append("'");
        let mut out: Vec<String> = Vec::new();
        push_line(&mut out, l);
        proof {
            assert(views_of_strings(out@) =~= seq![tag_added_line(tag@, file_path@)]);
        }
        Ok(out)
    }

    /// Renames the tag `old_name` to `new_name` everywhere.
    pub fn rename_tag_command(&self, db: &mut Database, old_name: &str, new_name: &str) -> (r: Result<Vec<String>, String>)
        requires
            old(db).wf(),
        ensures
            final(db).wf(),
            old(db)@.tags.contains(old_name@) && !old(db)@.tags.contains(new_name@) ==> (r matches Ok(lines)
                && views_of_strings(lines@) == seq![tag_renamed_line(old_name@, new_name@)] && final(db)@ == (TagTables {
                tags: old(db)@.tags.update(old(db)@.tags.index_of(old_name@), new_name@),
                ..old(db)@
            })),
            !(old(db)@.tags.contains(old_name@) && !old(db)@.tags.contains(new_name@)) ==> (r matches Err(m) && m@
                == rename_failed_message(old_name@, new_name@) && final(db)@ == old(db)@),
    {
        match db.rename_tag(old_name, new_name) {
            Ok(()) => {
                let mut l = owned("✓ Tag '");
                l.append(old_name);
                l.append("' zmieniony na '");
                l.append(new_name);
                l.append("'");
                let mut out: Vec<String> = Vec::new();
                push_line(&mut out, l);
                proof {
                    assert(views_of_strings(out@) =~= seq![tag_renamed_line(old_name@, new_name@)]);
                }
                Ok(out)
            },
            Err(_) => {
                let mut m = owned("Nie można zmienić nazwy tagu: '");
                m.append(old_name);
                m.append("' nie istnieje lub '");
                m.append(new_name);
                m.append("' już istnieje");
                Err(m)
            },
        }
    }

    /// Lists the files without tags, or those with the tag `tag_filter`, or all the
    /// files of the tree (`paths`).
    pub fn list_command(db: &Database, tag_filter: Option<String>, show_untagged: bool, paths: &Vec<String>) -> (r: Vec<
        String,
    >)
        requires
            db.wf(),
        ensures
            views_of_strings(r@) == listing_lines(db@, tag_filter, show_untagged, views_of_strings(paths@)),
    {
        if show_untagged {
            Self::list_untagged_files(db)
        } else {
            match tag_filter {
                Some(t) => Self::list_files_with_tag(db, t.as_str()),
                None => Self::list_all_files(db, paths),
            }
        }
    }

    /// Adds to the store the files that a scan of the tree found, and reports how
    /// many were new.
    pub fn refresh_index(&self, db: &mut Database, scanned: &Vec<String>) -> (r: Vec<String>)
        requires
            old(db).wf(),
            old(db)@.files.len() + scanned@.len() < i64::MAX,
        ensures
            final(db).wf(),
            final(db)@ == with_paths(old(db)@, views_of_strings(scanned@)),
            views_of_strings(r@) == refresh_lines(new_path_count(old(db)@, views_of_strings(scanned@))),
    {
        let manager = TagerManager::new(self.root.as_str());
        let added = match manager.rebuild(db, scanned) {
            Ok(n) => n,
            Err(_) => 0,
        };
        let mut out: Vec<String> = Vec::new();
        if added > 0 {
            let mut l = owned("ℹ Zaktualizowano bazę danych: dodano ");
            let count = decimal_string(added as u64);
            l.append(count.as_str());
            l.append(" nowych plików");
            push_line(&mut out, l);
            proof {
                assert(views_of_strings(out@) =~= refresh_lines(added as nat));
            }
        } else {
            proof {
                assert(views_of_strings(out@) =~= refresh_lines(0));
            }
        }
        out
    }

    /// Sets up the tree: indexes the files that a scan found in the new store and
    /// reports where the configuration and the store lie.
    pub fn init_command(&self, db: &mut Database, scanned: &Vec<String>) -> (r: Vec<String>)
        requires
            old(db).wf(),
            old(db)@.files.len() + scanned@.len() < i64::MAX,
        ensures
            final(db).wf(),
            final(db)@ == with_paths(old(db)@, views_of_strings(scanned@)),
            views_of_strings(r@) == init_lines(self.root@, new_path_count(old(db)@, views_of_strings(scanned@))),
    {
        let manager = TagerManager::new(self.root.as_str());
        let config = manager.config_dir();
        let db_path = join_paths(config.as_str(), "tager.db");
        let added = match manager.rebuild(db, scanned) {
            Ok(n) => n,
            Err(_) => 0,
        };
        let mut out: Vec<String> = Vec::new();
        let mut first = owned("Inicjalizacja tager w: ");
        first.append(self.root.as_str());
        push_line(&mut out, first);
        let mut second = owned("✓ Katalog konfiguracyjny utworzony: ");
        second.append(config.as_str());
        push_line(&mut out, second);
        let mut third = owned("✓ Baza danych utworzona: ");
        third.append(db_path.as_str());
        push_line(&mut out, third);
        let mut fourth = owned("✓ Zindeksowano ");
        let count = decimal_string(added as u64);
        fourth.append(count.as_str());
        fourth.append(" plików");
        push_line(&mut out, fourth);
        proof {
            assert(views_of_strings(out@) =~= init_lines(self.root@, added as nat));
        }
        out
    }

    /// Runs the command on the store of the tree, given the files that a scan of
    /// the tree found (relative to the root); returns the lines to print. Every
    /// command but `init` first adds the files that are new to the store.
    pub fn run(&self, db: &mut Database, scanned: &Vec<String>) -> (r: Result<Vec<String>, String>)
        requires
            old(db).wf(),
            old(db)@.files.len() + scanned@.len() < i64::MAX,
            old(db)@.tags.len() + 1 < i64::MAX,
        ensures
            final(db).wf(),
            ({
                let paths = views_of_strings(scanned@);
                let indexed = with_paths(old(db)@, paths);
                let report = refresh_lines(new_path_count(old(db)@, paths));
                match self.command {
                    Commands::Init => r matches Ok(lines) && final(db)@ == indexed && views_of_strings(lines@)
                        == init_lines(self.root@, new_path_count(old(db)@, paths)),
                    Commands::List { tag, untagged } => r matches Ok(lines) && final(db)@ == indexed
                        && views_of_strings(lines@) == report + listing_lines(indexed, tag, untagged, paths),
                    Commands::AddTag { file, tag } => if indexed.files.contains(file@) {
                        r matches Ok(lines) && views_of_strings(lines@) == report + seq![tag_added_line(tag@, file@)]
                            && final(db)@ == tagged_by_id(indexed, indexed.path_id(file@), tag@)
                    } else {
                        r matches Err(m) && m@ == not_found_message(file@) && final(db)@ == indexed
                    },
                    Commands::RenameTag { old_name, new_name } => if indexed.tags.contains(old_name@)
                        && !indexed.tags.contains(new_name@) {
                        r matches Ok(lines) && views_of_strings(lines@) == report + seq![
                            tag_renamed_line(old_name@, new_name@),
                        ] && final(db)@ == (TagTables {
                            tags: indexed.tags.update(indexed.tags.index_of(old_name@), new_name@),
                            ..indexed
                        })
                    } else {
                        r matches Err(m) && m@ == rename_failed_message(old_name@, new_name@) && final(db)@ == indexed
                    },
                }
            }),
    {
        proof {
            lemma_with_paths_keeps_tags(db@, views_of_strings(scanned@));
        }
        match &self.command {
            Commands::Init => Ok(self.init_command(db, scanned)),
            Commands::List { tag, untagged } => {
                let mut out = self.refresh_index(db, scanned);
                let wanted = match tag {
                    Some(t) => Some(owned(t.as_str())),
                    None => None,
                };
                let listing = Self::list_command(db, wanted, *untagged, scanned);
                let ghost before = views_of_strings(out@);
                let mut i: usize = 0;
                while i < listing.len()
                    invariant
                        i <= listing@.len(),
                        views_of_strings(out@) == before + views_of_strings(listing@).take(i as int),
                    decreases listing@.len() - i,
                {
                    let line = owned(listing[i].as_str());
                    proof {
                        assert(views_of_strings(listing@).take(i + 1) =~= views_of_strings(listing@).take(i as int).push(
                            listing@[i as int]@,
                        ));
                    }
                    push_line(&mut out, line);
                    i = i + 1;
                }
                proof {
                    assert(views_of_strings(listing@).take(listing@.len() as int) =~= views_of_strings(listing@));
                }
                Ok(out)
            },
            Commands::AddTag { file, tag } => {
                let mut out = self.refresh_index(db, scanned);
                let ghost mid = db@;
                let res = self.add_tag_command(db, file.as_str(), tag.as_str());
                proof {
                    if mid.files.contains(file@) {
                        assert(res is Ok);
                    }
                }
                match res {
                    Ok(lines) => {
                        proof {
                            assert(mid.files.contains(file@));
                            assert(views_of_strings(lines@).len() == 1);
                        }
                        let line = owned(lines[0].as_str());
                        proof {
                            assert(views_of_strings(lines@)[0] == lines@[0]@);
                        }
                        push_line(&mut out, line);
                        Ok(out)
                    },
                    Err(m) => Err(m),
                }
            },
            Commands::RenameTag { old_name, new_name } => {
                let mut out = self.refresh_index(db, scanned);
                let ghost mid = db@;
                let res = self.rename_tag_command(db, old_name.as_str(), new_name.as_str());
                match res {
                    Ok(lines) => {
                        proof {
                            assert(mid.tags.contains(old_name@) && !mid.tags.contains(new_name@));
                            assert(views_of_strings(lines@).len() == 1);
                        }
                        let line = owned(lines[0].as_str());
                        proof {
                            assert(views_of_strings(lines@)[0] == lines@[0]@);
                        }
                        push_line(&mut out, line);
                        Ok(out)
                    },
                    Err(m) => Err(m),
                }
            },
        }
    }
}

} // verus!
