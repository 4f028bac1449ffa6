use tager::cli::{Cli, Commands};
use tager::db::Database;
use tager::tager_manager::{file_type_of, FileStat, TagerManager};

fn paths(names: &[&str]) -> Vec<String> {
    names.iter().map(|s| s.to_string()).collect()
}

fn cli(command: Commands) -> Cli {
    Cli { root: "/home/u/pics".to_string(), command }
}

#[test]
fn init_indexes_the_scan_and_reports() {
    let mut db = Database::new_in_memory().unwrap();
    let lines = cli(Commands::Init).run(&mut db, &paths(&["a.jpg", "b/c.txt"])).unwrap();
    assert_eq!(
        lines,
        vec![
            "Inicjalizacja tager w: /home/u/pics",
            "✓ Katalog konfiguracyjny utworzony: /home/u/pics/.tager",
            "✓ Baza danych utworzona: /home/u/pics/.tager/tager.db",
            "✓ Zindeksowano 2 plików",
        ]
    );
    assert_eq!(db.all_files().len(), 2);
}

#[test]
fn list_all_shows_tags_or_their_absence() {
    let mut db = Database::new_in_memory().unwrap();
    db.assign_tag_to_file("a.jpg", "sea").unwrap();
    db.assign_tag_to_file("a.jpg", "beach").unwrap();
    let lines = cli(Commands::List { tag: None, untagged: false }).run(&mut db, &paths(&["a.jpg", "b.txt"])).unwrap();
    assert_eq!(
        lines,
        vec![
            "ℹ Zaktualizowano bazę danych: dodano 1 nowych plików",
            "\nWszystkie pliki:\n",
            "  a.jpg [sea, beach]",
            "  b.txt (bez tagów)",
        ]
    );
}

#[test]
fn list_of_an_empty_tree() {
    let db = Database::new_in_memory().unwrap();
    assert_eq!(Cli::list_all_files(&db, &Vec::new()), vec!["Brak plików do wyświetlenia"]);
}

#[test]
fn list_untagged_is_by_path_with_ids() {
    let mut db = Database::new_in_memory().unwrap();
    db.add_file("z.txt").unwrap();
    db.add_file("a.txt").unwrap();
    db.assign_tag_to_file("t.txt", "x").unwrap();
    assert_eq!(Cli::list_untagged_files(&db), vec!["\nPliki bez tagów:\n", "  [2] a.txt", "  [1] z.txt"]);
    let empty = Database::new_in_memory().unwrap();
    assert_eq!(Cli::list_untagged_files(&empty), vec!["Brak plików bez tagów"]);
}

#[test]
fn list_by_tag_is_by_path_with_all_tags() {
    let mut db = Database::new_in_memory().unwrap();
    db.assign_tag_to_file("b.txt", "work").unwrap();
    db.assign_tag_to_file("a.txt", "work").unwrap();
    db.assign_tag_to_file("a.txt", "alpha").unwrap();
    assert_eq!(
        Cli::list_files_with_tag(&db, "work"),
        vec!["\nPliki z tagiem 'work':\n", "  a.txt [alpha, work]", "  b.txt [work]"]
    );
    assert_eq!(Cli::list_files_with_tag(&db, "none"), vec!["Brak plików z tagiem 'none'"]);
}

#[test]
fn add_tag_needs_a_known_file() {
    let mut db = Database::new_in_memory().unwrap();
    let c = cli(Commands::AddTag { file: "a.txt".to_string(), tag: "x".to_string() });
    assert_eq!(c.run(&mut db, &paths(&["a.txt"])).unwrap(), vec![
        "ℹ Zaktualizowano bazę danych: dodano 1 nowych plików",
        "✓ Tag 'x' dodany do pliku 'a.txt'",
    ]);
    assert_eq!(db.get_tags_for_file("a.txt").unwrap(), vec!["x"]);

    let c = cli(Commands::AddTag { file: "nope.txt".to_string(), tag: "x".to_string() });
    assert_eq!(c.run(&mut db, &paths(&["a.txt"])).err(), Some("Plik 'nope.txt' nie został znaleziony w bazie danych".to_string()));
}

#[test]
fn rename_tag_reports_both_outcomes() {
    let mut db = Database::new_in_memory().unwrap();
    db.assign_tag_to_file("a.txt", "old").unwrap();
    let c = cli(Commands::RenameTag { old_name: "old".to_string(), new_name: "new".to_string() });
    assert_eq!(c.run(&mut db, &paths(&["a.txt"])).unwrap(), vec!["✓ Tag 'old' zmieniony na 'new'"]);
    let again = c.run(&mut db, &paths(&["a.txt"]));
    assert_eq!(again.err(), Some("Nie można zmienić nazwy tagu: 'old' nie istnieje lub 'new' już istnieje".to_string()));
}

#[test]
fn find_file_id_reports_a_missing_path() {
    let mut db = Database::new_in_memory().unwrap();
    db.add_file("x").unwrap();
    assert_eq!(Cli::find_file_id(&db, "x"), Ok(1));
    assert_eq!(Cli::find_file_id(&db, "y"), Err("Plik 'y' nie został znaleziony w bazie danych".to_string()));
}

#[test]
fn manager_paths_and_scan_filter() {
    let m = TagerManager::new("/root/dir");
    assert_eq!(m.root_dir(), "/root/dir");
    assert_eq!(m.config_dir(), "/root/dir/.tager");
    assert_eq!(TagerManager::config_dir_name(), ".tager");
    assert!(!m.should_include_entry(true, "/root/dir/.tager"));
    assert!(!m.should_include_entry(true, "/root/dir/sub/.tager/"));
    assert!(m.should_include_entry(false, "/root/dir/.tager"));
    assert!(m.should_include_entry(true, "/root/dir/.tagerx"));
}

#[test]
fn manager_rebuild_adds_new_files_once() {
    let m = TagerManager::new("/r");
    let mut db = Database::new_in_memory().unwrap();
    assert_eq!(m.rebuild(&mut db, &paths(&["a", "b"])).unwrap(), 2);
    assert_eq!(m.rebuild(&mut db, &paths(&["a", "b", "c"])).unwrap(), 1);
}

#[test]
fn files_with_metadata_skip_files_without_stat() {
    let m = TagerManager::new("/r");
    let mut db = Database::new_in_memory().unwrap();
    db.assign_tag_to_file("pics/Sea.JPG", "sea").unwrap();
    db.add_file("gone.mp4").unwrap();
    db.add_file("doc.PDF").unwrap();
    let stats = vec![Some(FileStat { size: 10, modified: 99 }), None, Some(FileStat { size: 5, modified: 7 })];
    let out = m.get_files_with_metadata(&db, &stats).unwrap();
    assert_eq!(out.len(), 2);
    assert_eq!(out[0].id, "1");
    assert_eq!(out[0].name, "Sea.JPG");
    assert_eq!(out[0].path, "/r/pics/Sea.JPG");
    assert_eq!(out[0].tags, vec!["sea"]);
    assert_eq!(out[0].size, 10);
    assert_eq!(out[0].modified, 99);
    assert_eq!(out[0].extension, Some("jpg".to_string()));
    assert_eq!(out[0].file_type, "image");
    assert!(!out[0].is_dir);
    assert_eq!(out[1].id, "3");
    assert_eq!(out[1].file_type, "document");
}

#[test]
fn file_types_by_extension() {
    assert_eq!(file_type_of(Some("png")), "image");
    assert_eq!(file_type_of(Some("mov")), "video");
    assert_eq!(file_type_of(Some("txt")), "document");
    assert_eq!(file_type_of(Some("webp")), "other");
    assert_eq!(file_type_of(None), "other");
}
