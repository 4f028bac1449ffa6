use sha2::{Digest, Sha256};
use std::time::{SystemTime, UNIX_EPOCH};

use tager::hashing::hash_file_contents;
use tager::tm::db::{DBFile, Database, DbError};
use tager::tm::manager::{SyncOutcome, TagerManager};
use tager::tm::roothash::calculate_root_hash;
use tager::tm::{get_entry_type, EntryType};
use tager::TimePoint;

fn now() -> TimePoint {
    let d = SystemTime::now().duration_since(UNIX_EPOCH).unwrap();
    TimePoint { secs: d.as_secs(), nanos: d.subsec_nanos() }
}

fn scanned(path: &str, content: &[u8], modified: TimePoint) -> DBFile {
    DBFile {
        id: 0,
        path: path.to_string(),
        size: content.len() as u64,
        content_hash: hash_file_contents(content),
        last_modified: modified,
        last_accessed: modified,
        created: modified,
    }
}

fn ready_manager() -> TagerManager {
    let mut manager = TagerManager::new("/data/photos", true, true).unwrap();
    manager.init(Database::new_in_memory().unwrap());
    manager
}

#[test]
fn test_tager_manager_basic_lifecycle() {
    // 1. creating the manager
    let mut manager = TagerManager::new("/tmp/test-root", true, true).unwrap();
    assert!(!manager.is_initialized());
    assert_eq!(manager.tager_dir(), "/tmp/test-root/.tager");

    // 2. initialising
    manager.init(Database::new_in_memory().unwrap());
    assert!(manager.is_initialized());
    assert_eq!(manager.db_path(), "/tmp/test-root/.tager/db.sqlite");

    // 3. the store is empty
    let db = manager.db();
    let file_count = db.count_files().unwrap();
    let tag_count = db.count_tags().unwrap();
    assert_eq!(file_count, 0);
    assert_eq!(tag_count, 0);

    // 4. disconnecting
    manager.disconnect();
    assert!(!manager.is_initialized());
}

#[test]
fn test_sync_initial_synchronization() {
    let mut manager = ready_manager();
    let t = now();
    let snapshot = vec![
        scanned("test1.txt", b"Hello, World!", t),
        scanned("test2.txt", b"Another file    ", t),
        scanned("subdir/test3.txt", b"File in subdirectory", t),
    ];

    let outcome = manager.sync(&snapshot, None).unwrap();
    assert!(matches!(outcome, SyncOutcome::Synced(_)));

    let all_files = manager.db().get_all_files(None, None).unwrap();
    assert_eq!(all_files.len(), 3, "Powinny być 3 pliki w bazie");

    let paths: Vec<String> = all_files.iter().map(|f| f.path.clone()).collect();
    assert!(paths.contains(&"test1.txt".to_string()));
    assert!(paths.contains(&"test2.txt".to_string()));
    assert!(paths.contains(&"subdir/test3.txt".to_string()));

    let mut hasher = Sha256::new();
    hasher.update(b"Hello, World!");
    let expected_hash = format!("{:x}", hasher.finalize());

    let test1_file = all_files.iter().find(|f| f.path.ends_with("test1.txt")).unwrap();
    assert_eq!(test1_file.content_hash, expected_hash);
    assert_eq!(test1_file.size, 13);
}

#[test]
fn test_sync_file_content_update() {
    let mut manager = ready_manager();
    let t = now();

    let first = vec![scanned("test.txt", b"Initial content", t)];
    let saved = match manager.sync(&first, None).unwrap() {
        SyncOutcome::Synced(h) => h,
        SyncOutcome::Unchanged => panic!("the first sync must store the files"),
    };

    let initial_files = manager.db().get_all_files(None, None).unwrap();
    let initial_file = initial_files[0].clone();

    let later = TimePoint { secs: t.secs + 1, nanos: t.nanos };
    let second = vec![scanned("test.txt", b"Updated content - much longer than before", later)];
    manager.sync(&second, Some(saved)).unwrap();

    let updated_files = manager.db().get_all_files(None, None).unwrap();
    let updated_file = &updated_files[0];

    assert_ne!(updated_file.content_hash, initial_file.content_hash);
    assert_ne!(updated_file.size, initial_file.size);
    assert_eq!(updated_file.size, 41);
    assert!(updated_file.last_modified >= initial_file.last_modified);
    assert_eq!(updated_file.id, initial_file.id);
    assert_eq!(updated_files.len(), 1);
}

// ---- further cases of the manager ----

#[test]
fn new_refuses_a_missing_root_and_a_file() {
    assert_eq!(TagerManager::new("/nope", false, false).err(), Some("Katalog '/nope' nie istnieje".to_string()));
    assert_eq!(TagerManager::new("/f.txt", true, false).err(), Some("'/f.txt' nie jest katalogiem".to_string()));
}

#[test]
fn sync_before_init_is_refused() {
    let mut manager = TagerManager::new("/r", true, true).unwrap();
    let err = manager.sync(&Vec::new(), None).unwrap_err();
    assert_eq!(err, "TagerManager nie jest zainicjalizowany. Wywołaj init() przed sync()");
}

#[test]
fn sync_with_the_saved_hash_changes_nothing() {
    let mut manager = ready_manager();
    let t = now();
    let snapshot = vec![scanned("a.txt", b"a", t)];
    let saved = match manager.sync(&snapshot, None).unwrap() {
        SyncOutcome::Synced(h) => h,
        SyncOutcome::Unchanged => panic!("expected a sync"),
    };
    manager.db_mut().delete_files_by_path("a.txt".to_string()).unwrap();
    let outcome = manager.sync(&snapshot, Some(saved)).unwrap();
    assert_eq!(outcome, SyncOutcome::Unchanged);
    assert_eq!(manager.db().count_files().unwrap(), 0);
}

#[test]
fn sync_removes_rows_of_vanished_files_and_keeps_moved_ones() {
    let mut manager = ready_manager();
    let t = now();
    manager.sync(&vec![scanned("a.txt", b"same", t), scanned("gone.txt", b"x", t)], None).unwrap();
    let id_a = manager.db().get_files_by_path("a.txt".to_string()).unwrap()[0].id;
    manager.assign_tag_to_file("a.txt", "keep").unwrap();

    // a.txt moved to b.txt with the same content; gone.txt vanished
    manager.sync(&vec![scanned("b.txt", b"same", t)], None).unwrap();
    let all = manager.db().get_all_files(None, None).unwrap();
    assert_eq!(all.len(), 1);
    assert_eq!(all[0].path, "b.txt");
    assert_eq!(all[0].id, id_a);
    let tags = manager.db().get_tags_for_file(id_a).unwrap();
    assert_eq!(tags.len(), 1);
    assert_eq!(tags[0].name, "keep");
}

#[test]
fn snapshot_leaves_out_the_tager_directory() {
    let manager = ready_manager();
    let t = now();
    let scan = vec![scanned(".tager/db.sqlite", b"db", t), scanned("x.txt", b"x", t), scanned(".tagerx", b"y", t)];
    let kept: Vec<String> = manager.get_root_snapshot(&scan).iter().map(|f| f.path.clone()).collect();
    assert_eq!(kept, vec!["x.txt".to_string(), ".tagerx".to_string()]);
}

#[test]
fn tags_can_be_assigned_renamed_removed_and_deleted() {
    let mut manager = ready_manager();
    let t = now();
    manager.sync(&vec![scanned("p.jpg", b"p", t), scanned("q.pdf", b"q", t)], None).unwrap();

    manager.assign_tag_to_file("p.jpg", "sea").unwrap();
    manager.assign_tag_to_file("q.pdf", "sea").unwrap();
    let names: Vec<String> = manager.get_all_tags().unwrap().iter().map(|t| t.name.clone()).collect();
    assert_eq!(names, vec!["sea".to_string()]);

    manager.rename_tag("sea", "ocean").unwrap();
    assert!(manager.rename_tag("sea", "x").is_err());
    let names: Vec<String> = manager.get_all_tags().unwrap().iter().map(|t| t.name.clone()).collect();
    assert_eq!(names, vec!["ocean".to_string()]);

    manager.remove_tag_from_file("p.jpg", "ocean").unwrap();
    let untagged: Vec<String> = manager.get_files_without_tags(&Vec::new()).unwrap().iter().map(|f| f.rel_path.clone()).collect();
    assert_eq!(untagged, vec!["p.jpg".to_string()]);

    manager.delete_tag_completely("ocean").unwrap();
    assert!(manager.get_all_tags().unwrap().is_empty());
    assert_eq!(manager.get_files_without_tags(&Vec::new()).unwrap().len(), 2);
}

#[test]
fn assigning_to_a_missing_file_is_refused() {
    let mut manager = ready_manager();
    match manager.assign_tag_to_file("none.txt", "t") {
        Err(DbError::OperationFailed(m)) => assert_eq!(m, "Plik 'none.txt' nie istnieje w bazie danych"),
        other => panic!("unexpected {:?}", other),
    }
}

#[test]
fn files_are_filtered_by_name_and_tags() {
    let mut manager = ready_manager();
    let t = now();
    let t2 = TimePoint { secs: t.secs + 5, nanos: 0 };
    manager
        .sync(&vec![scanned("Holiday.JPG", b"1", t), scanned("notes.txt", b"2", t2), scanned("holiday2.png", b"3", t2)], None)
        .unwrap();
    manager.assign_tag_to_file("Holiday.JPG", "trip").unwrap();
    manager.assign_tag_to_file("holiday2.png", "trip").unwrap();
    manager.assign_tag_to_file("holiday2.png", "best").unwrap();

    let by_name: Vec<String> = manager
        .get_files(Some("HOLIDAY".to_string()), None, &Vec::new())
        .unwrap()
        .iter()
        .map(|f| f.rel_path.clone())
        .collect();
    assert_eq!(by_name.len(), 2);
    assert!(by_name.contains(&"Holiday.JPG".to_string()));

    let both = manager.get_files(None, Some(vec!["trip".to_string(), "best".to_string()]), &Vec::new()).unwrap();
    assert_eq!(both.len(), 1);
    assert_eq!(both[0].rel_path, "holiday2.png");
    assert_eq!(both[0].abs_path, "/data/photos/holiday2.png");
    assert_eq!(both[0].file_name, "holiday2.png");
    assert_eq!(both[0].entry_type, EntryType::Image);
    let tag_names: Vec<String> = both[0].tags.iter().map(|t| t.name.clone()).collect();
    assert_eq!(tag_names, vec!["best".to_string(), "trip".to_string()]);

    // newest creation first
    let all = manager.get_files(None, None, &Vec::new()).unwrap();
    assert_eq!(all.len(), 3);
    assert_eq!(all[2].rel_path, "Holiday.JPG");
}

#[test]
fn listing_before_init_is_refused() {
    let manager = TagerManager::new("/r", true, true).unwrap();
    match manager.get_files(None, None, &Vec::new()) {
        Err(DbError::OperationFailed(m)) => assert_eq!(m, "TagerManager nie jest zainicjalizowany"),
        other => panic!("unexpected {:?}", other.map(|v| v.len())),
    }
}

#[test]
fn entry_types_follow_the_extension() {
    assert_eq!(get_entry_type("a/b.JPEG", false), EntryType::Image);
    assert_eq!(get_entry_type("a/b.mkv", false), EntryType::Video);
    assert_eq!(get_entry_type("a/b.txt", false), EntryType::Document);
    assert_eq!(get_entry_type("a/b", false), EntryType::Other);
    assert_eq!(get_entry_type("a/b.jpg", true), EntryType::Directory);
}

#[test]
fn content_hash_is_lowercase_sha256_hex() {
    assert_eq!(hash_file_contents(b"abc"), "ba7816bf8f01cfea414140de5dae2223b00361a396177a9cb410ff61f20015ad");
    assert_eq!(hash_file_contents(b""), "e3b0c44298fc1c149afbf4c8996fb92427ae41e4649b934ca495991b7852b855");
}

#[test]
fn second_sync_with_the_same_snapshot_changes_nothing() {
    let mut manager = ready_manager();
    let t = now();
    let snapshot = vec![scanned("a.txt", b"a", t), scanned("d/b.txt", b"b", t)];
    manager.sync(&snapshot, None).unwrap();
    let before = manager.db().get_all_files(None, None).unwrap();
    manager.sync(&snapshot, None).unwrap();
    let after = manager.db().get_all_files(None, None).unwrap();
    let ids_paths = |v: &Vec<DBFile>| v.iter().map(|f| (f.id, f.path.clone(), f.content_hash.clone())).collect::<Vec<_>>();
    assert_eq!(ids_paths(&before), ids_paths(&after));
}

#[test]
fn root_hash_does_not_depend_on_order() {
    let t = now();
    let a = scanned("a.txt", b"a", t);
    let b = scanned("b.txt", b"b", t);
    let h1 = calculate_root_hash(&vec![a.clone(), b.clone()]);
    let h2 = calculate_root_hash(&vec![b.clone(), a.clone()]);
    assert_eq!(h1, h2);
    assert_eq!(h1.len(), 64);
    let h3 = calculate_root_hash(&vec![a, scanned("b.txt", b"changed", t)]);
    assert_ne!(h1, h3);
}

#[test]
fn hashes_are_sixty_four_hex_digits() {
    assert_eq!(hash_file_contents(b"x").len(), 64);
    assert_eq!(calculate_root_hash(&Vec::new()).len(), 64);
}

#[test]
fn init_and_disconnect_keep_the_paths() {
    let mut m = TagerManager::new("/w", true, true).unwrap();
    m.init(Database::new_in_memory().unwrap());
    m.disconnect();
    assert_eq!(m.tager_dir(), "/w/.tager");
    assert_eq!(m.db_path(), "/w/.tager/db.sqlite");
    assert_eq!(m.hash_path(), "/w/.tager/root_hash");
    assert!(m.sync(&Vec::new(), None).is_err());
}

#[test]
fn stored_paths_that_name_directories_are_listed_as_directories() {
    let mut manager = ready_manager();
    let t = now();
    manager.sync(&vec![scanned("photos.jpg", b"1", t), scanned("notes.txt", b"2", t)], None).unwrap();
    let dirs = vec!["photos.jpg".to_string()];
    let all = manager.get_files(None, None, &dirs).unwrap();
    let kind = |p: &str| all.iter().find(|f| f.rel_path == p).unwrap().entry_type;
    assert_eq!(kind("photos.jpg"), EntryType::Directory);
    assert_eq!(kind("notes.txt"), EntryType::Document);
    let untagged = manager.get_files_without_tags(&dirs).unwrap();
    assert!(untagged.iter().any(|f| f.entry_type == EntryType::Directory));
}
