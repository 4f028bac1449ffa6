use tager::db::{Database, FilesOrderBy};

fn setup_db() -> Database {
    Database::new_in_memory().expect("Failed to create test database")
}

#[test]
fn test_new_in_memory() {
    let db = Database::new_in_memory();
    assert!(db.is_ok());
}

#[test]
fn test_add_file() {
    let mut db = setup_db();

    let file_id = db.add_file("test/file.txt");
    assert!(file_id.is_ok());

    let id = file_id.unwrap();
    assert!(id > 0);
}

#[test]
fn test_add_file_duplicate() {
    let mut db = setup_db();

    let id1 = db.add_file("test/file.txt").unwrap();
    let id2 = db.add_file("test/file.txt").unwrap();

    assert_eq!(id1, id2);
}

#[test]
fn test_add_file_if_not_exists() {
    let mut db = setup_db();

    let added1 = db.add_file_if_not_exists("test/file.txt").unwrap();
    assert!(added1, "First insert should return true");

    let added2 = db.add_file_if_not_exists("test/file.txt").unwrap();
    assert!(!added2, "Duplicate insert should return false");
}

#[test]
fn test_file_exists() {
    let mut db = setup_db();

    let file_id = db.add_file("test/file.txt").unwrap();

    let exists = db.file_exists(file_id).unwrap();
    assert!(exists);

    let not_exists = db.file_exists(99999).unwrap();
    assert!(!not_exists);
}

#[test]
fn test_assign_tag_to_file() {
    let mut db = setup_db();

    let file_id = db.add_file("test/file.txt").unwrap();

    let result = db.assign_tag_to_file_by_id(file_id, "important");
    assert!(result.is_ok());
}

#[test]
fn test_assign_tag_to_nonexistent_file() {
    let mut db = setup_db();

    let result = db.assign_tag_to_file_by_id(99999, "important");
    assert!(result.is_err());
}

#[test]
fn test_assign_multiple_tags() {
    let mut db = setup_db();

    let file_id = db.add_file("test/file.txt").unwrap();

    db.assign_tag_to_file_by_id(file_id, "important").unwrap();
    db.assign_tag_to_file_by_id(file_id, "work").unwrap();
    db.assign_tag_to_file_by_id(file_id, "urgent").unwrap();

    let tags = db.get_tags_for_file("test/file.txt").unwrap();
    assert_eq!(tags.len(), 3);
    assert!(tags.contains(&"important".to_string()));
    assert!(tags.contains(&"work".to_string()));
    assert!(tags.contains(&"urgent".to_string()));
}

#[test]
fn test_assign_duplicate_tag() {
    let mut db = setup_db();

    let file_id = db.add_file("test/file.txt").unwrap();

    db.assign_tag_to_file_by_id(file_id, "important").unwrap();
    db.assign_tag_to_file_by_id(file_id, "important").unwrap();

    let tags = db.get_tags_for_file("test/file.txt").unwrap();
    assert_eq!(tags.len(), 1, "Duplicate tags should not be added");
}

#[test]
fn test_get_tags_for_file() {
    let mut db = setup_db();

    let file_id = db.add_file("test/file.txt").unwrap();
    db.assign_tag_to_file_by_id(file_id, "tag1").unwrap();
    db.assign_tag_to_file_by_id(file_id, "tag2").unwrap();

    let tags = db.get_tags_for_file("test/file.txt").unwrap();
    assert_eq!(tags.len(), 2);
}

#[test]
fn test_get_tags_for_nonexistent_file() {
    let db = setup_db();

    let tags = db.get_tags_for_file("nonexistent.txt").unwrap();
    assert_eq!(tags.len(), 0);
}

#[test]
fn test_get_untagged_files() {
    let mut db = setup_db();

    let file1_id = db.add_file("tagged.txt").unwrap();
    db.add_file("untagged1.txt").unwrap();
    db.add_file("untagged2.txt").unwrap();

    db.assign_tag_to_file_by_id(file1_id, "important").unwrap();

    let untagged = db.get_untagged_files(None).unwrap();
    assert_eq!(untagged.len(), 2);

    let paths: Vec<String> = untagged.iter().map(|(_, p)| p.clone()).collect();
    assert!(paths.contains(&"untagged1.txt".to_string()));
    assert!(paths.contains(&"untagged2.txt".to_string()));
    assert!(!paths.contains(&"tagged.txt".to_string()));
}

#[test]
fn test_get_untagged_files_ordered_by_id() {
    let mut db = setup_db();

    db.add_file("file3.txt").unwrap();
    db.add_file("file1.txt").unwrap();
    db.add_file("file2.txt").unwrap();

    let untagged = db.get_untagged_files(Some(FilesOrderBy::Id)).unwrap();

    let ids: Vec<i64> = untagged.iter().map(|(id, _)| *id).collect();
    assert_eq!(ids, vec![1, 2, 3]);
}

#[test]
fn test_get_untagged_files_ordered_by_path() {
    let mut db = setup_db();

    db.add_file("file3.txt").unwrap();
    db.add_file("file1.txt").unwrap();
    db.add_file("file2.txt").unwrap();

    let untagged = db.get_untagged_files(Some(FilesOrderBy::Path)).unwrap();

    let paths: Vec<String> = untagged.iter().map(|(_, p)| p.clone()).collect();
    assert_eq!(paths, vec!["file1.txt", "file2.txt", "file3.txt"]);
}

#[test]
fn test_get_files_for_tag() {
    let mut db = setup_db();

    let file1_id = db.add_file("file1.txt").unwrap();
    let file2_id = db.add_file("file2.txt").unwrap();
    let file3_id = db.add_file("file3.txt").unwrap();

    db.assign_tag_to_file_by_id(file1_id, "important").unwrap();
    db.assign_tag_to_file_by_id(file2_id, "important").unwrap();
    db.assign_tag_to_file_by_id(file3_id, "other").unwrap();

    let files = db.get_files_for_tag("important", None).unwrap();
    assert_eq!(files.len(), 2);

    let paths: Vec<String> = files.iter().map(|f| f.path.clone()).collect();
    assert!(paths.contains(&"file1.txt".to_string()));
    assert!(paths.contains(&"file2.txt".to_string()));
}

#[test]
fn test_get_files_for_tag_with_multiple_tags() {
    let mut db = setup_db();

    let file_id = db.add_file("file.txt").unwrap();
    db.assign_tag_to_file_by_id(file_id, "important").unwrap();
    db.assign_tag_to_file_by_id(file_id, "work").unwrap();
    db.assign_tag_to_file_by_id(file_id, "urgent").unwrap();

    let files = db.get_files_for_tag("work", None).unwrap();
    assert_eq!(files.len(), 1);

    let file = &files[0];
    assert_eq!(file.path, "file.txt");
    assert_eq!(file.tags.len(), 3);
    assert!(file.tags.contains(&"important".to_string()));
    assert!(file.tags.contains(&"work".to_string()));
    assert!(file.tags.contains(&"urgent".to_string()));
}

#[test]
fn test_get_files_for_tag_ordered_by_path() {
    let mut db = setup_db();

    let file1_id = db.add_file("zebra.txt").unwrap();
    let file2_id = db.add_file("alpha.txt").unwrap();
    let file3_id = db.add_file("beta.txt").unwrap();

    db.assign_tag_to_file_by_id(file1_id, "tag").unwrap();
    db.assign_tag_to_file_by_id(file2_id, "tag").unwrap();
    db.assign_tag_to_file_by_id(file3_id, "tag").unwrap();

    let files = db.get_files_for_tag("tag", Some(FilesOrderBy::Path)).unwrap();

    let paths: Vec<String> = files.iter().map(|f| f.path.clone()).collect();
    assert_eq!(paths, vec!["alpha.txt", "beta.txt", "zebra.txt"]);
}

#[test]
fn test_get_files_for_nonexistent_tag() {
    let mut db = setup_db();

    db.add_file("file.txt").unwrap();

    let files = db.get_files_for_tag("nonexistent", None).unwrap();
    assert_eq!(files.len(), 0);
}

#[test]
fn test_tags_are_shared_across_files() {
    let mut db = setup_db();

    let file1_id = db.add_file("file1.txt").unwrap();
    let file2_id = db.add_file("file2.txt").unwrap();

    db.assign_tag_to_file_by_id(file1_id, "shared").unwrap();
    db.assign_tag_to_file_by_id(file2_id, "shared").unwrap();

    let files = db.get_files_for_tag("shared", None).unwrap();
    assert_eq!(files.len(), 2);
}

#[test]
fn test_file_with_tags_struct() {
    let mut db = setup_db();

    let file_id = db.add_file("test.txt").unwrap();
    db.assign_tag_to_file_by_id(file_id, "tag1").unwrap();
    db.assign_tag_to_file_by_id(file_id, "tag2").unwrap();

    let files = db.get_files_for_tag("tag1", None).unwrap();
    let file = &files[0];

    assert_eq!(file.id, file_id);
    assert_eq!(file.path, "test.txt");
    assert_eq!(file.tags.len(), 2);
}

#[test]
fn test_complex_tagging_scenario() {
    let mut db = setup_db();

    let work1_id = db.add_file("work/report.txt").unwrap();
    let work2_id = db.add_file("work/notes.txt").unwrap();
    let personal_id = db.add_file("personal/diary.txt").unwrap();
    let mixed_id = db.add_file("mixed.txt").unwrap();

    db.assign_tag_to_file_by_id(work1_id, "work").unwrap();
    db.assign_tag_to_file_by_id(work1_id, "important").unwrap();

    db.assign_tag_to_file_by_id(work2_id, "work").unwrap();

    db.assign_tag_to_file_by_id(personal_id, "personal").unwrap();

    db.assign_tag_to_file_by_id(mixed_id, "work").unwrap();
    db.assign_tag_to_file_by_id(mixed_id, "personal").unwrap();
    db.assign_tag_to_file_by_id(mixed_id, "important").unwrap();

    let work_files = db.get_files_for_tag("work", None).unwrap();
    assert_eq!(work_files.len(), 3);

    let important_files = db.get_files_for_tag("important", None).unwrap();
    assert_eq!(important_files.len(), 2);

    let personal_files = db.get_files_for_tag("personal", None).unwrap();
    assert_eq!(personal_files.len(), 2);

    db.add_file("untagged.txt").unwrap();
    let untagged = db.get_untagged_files(None).unwrap();
    assert_eq!(untagged.len(), 1);
}

#[test]
fn test_assign_tag_to_file_creates_records() {
    let mut db = Database::new_in_memory().unwrap();

    db.assign_tag_to_file("photo1.jpg", "morze").unwrap();
    db.assign_tag_to_file("photo1.jpg", "zachód").unwrap();

    let tags = db.get_tags_for_file("photo1.jpg").unwrap();
    assert_eq!(tags.len(), 2);
    assert!(tags.contains(&"morze".to_string()));
    assert!(tags.contains(&"zachód".to_string()));
}

#[test]
fn test_assign_tag_to_same_file_and_tag_twice_is_idempotent() {
    let mut db = Database::new_in_memory().unwrap();

    db.assign_tag_to_file("photo2.jpg", "las").unwrap();
    db.assign_tag_to_file("photo2.jpg", "las").unwrap();

    let tags = db.get_tags_for_file("photo2.jpg").unwrap();
    assert_eq!(tags.len(), 1);
    assert_eq!(tags[0], "las");
}

// ---- further cases of the path-keyed store ----

#[test]
fn untaged_and_untagged_listings_agree() {
    let mut db = setup_db();
    db.add_file("b.txt").unwrap();
    db.add_file("a.txt").unwrap();
    let x = db.get_untaged_files(Some(FilesOrderBy::Path)).unwrap();
    let y = db.get_untagged_files(Some(FilesOrderBy::Path)).unwrap();
    assert_eq!(x, y);
    assert_eq!(x, vec![(2, "a.txt".to_string()), (1, "b.txt".to_string())]);
}

#[test]
fn files_for_tag_list_all_tags_sorted_by_name() {
    let mut db = setup_db();
    let id = db.add_file("f.txt").unwrap();
    db.assign_tag_to_file_by_id(id, "zeta").unwrap();
    db.assign_tag_to_file_by_id(id, "alpha").unwrap();
    db.assign_tag_to_file_by_id(id, "mid").unwrap();
    let files = db.get_files_for_tag("mid", None).unwrap();
    assert_eq!(files[0].tags, vec!["alpha", "mid", "zeta"]);
}

#[test]
fn files_for_tag_split_names_that_hold_commas() {
    let mut db = setup_db();
    let id = db.add_file("f.txt").unwrap();
    db.assign_tag_to_file_by_id(id, "b,c").unwrap();
    db.assign_tag_to_file_by_id(id, "a").unwrap();
    db.assign_tag_to_file_by_id(id, ",").unwrap();
    let files = db.get_files_for_tag("a", None).unwrap();
    // sorted names ",", "a", "b,c" are joined as ",,a,b,c" and split again
    assert_eq!(files[0].tags, vec!["a", "b", "c"]);
}

#[test]
fn rebuild_counts_only_new_paths() {
    let mut db = setup_db();
    db.add_file("old.txt").unwrap();
    let scan = vec!["old.txt".to_string(), "new1.txt".to_string(), "new2.txt".to_string(), "new1.txt".to_string()];
    assert_eq!(db.rebuild(&scan).unwrap(), 2);
    assert_eq!(db.rebuild(&scan).unwrap(), 0);
    assert_eq!(db.all_files().len(), 3);
}

#[test]
fn rename_tag_refuses_missing_and_taken_names() {
    let mut db = setup_db();
    let id = db.add_file("f.txt").unwrap();
    db.assign_tag_to_file_by_id(id, "old").unwrap();
    db.assign_tag_to_file_by_id(id, "other").unwrap();
    assert!(db.rename_tag("missing", "x").is_err());
    assert!(db.rename_tag("old", "other").is_err());
    assert!(db.rename_tag("old", "new").is_ok());
    assert_eq!(db.get_tags_for_file("f.txt").unwrap(), vec!["new", "other"]);
}

#[test]
fn find_file_gives_the_id_of_a_path() {
    let mut db = setup_db();
    db.add_file("a").unwrap();
    db.add_file("b").unwrap();
    assert_eq!(db.find_file("b"), Some(2));
    assert_eq!(db.find_file("c"), None);
}

#[test]
fn sql_error_message_names_the_engine() {
    let e = tager::db::DbError::Sql("boom".to_string());
    assert_eq!(e.message(), "Błąd SQL: boom");
}

#[test]
fn order_clauses_name_the_column() {
    assert_eq!(FilesOrderBy::Id.to_sql_clause(), "ORDER BY f.id");
    assert_eq!(FilesOrderBy::Path.to_sql_clause(), "ORDER BY f.path");
}

#[test]
fn renamed_tag_keeps_its_links() {
    let mut db = setup_db();
    let a = db.add_file("a").unwrap();
    let b = db.add_file("b").unwrap();
    db.assign_tag_to_file_by_id(a, "x").unwrap();
    db.assign_tag_to_file_by_id(b, "x").unwrap();
    db.rename_tag("x", "y").unwrap();
    assert_eq!(db.get_files_for_tag("y", None).unwrap().len(), 2);
    assert!(db.get_files_for_tag("x", None).unwrap().is_empty());
}

#[test]
fn tables_round_trip_through_from_tables() {
    let mut db = setup_db();
    db.assign_tag_to_file("p", "t").unwrap();
    let (files, tags, links) = db.tables();
    let copy = Database::from_tables(files, tags, links).unwrap();
    assert_eq!(copy.get_tags_for_file("p").unwrap(), vec!["t"]);
    assert!(Database::from_tables(vec!["a".to_string(), "a".to_string()], vec![], vec![]).is_none());
    assert!(Database::from_tables(vec!["a".to_string()], vec!["t".to_string()], vec![(1, 2)]).is_none());
    assert!(Database::from_tables(vec!["a".to_string()], vec!["t".to_string()], vec![(1, 1), (1, 1)]).is_none());
}

#[test]
fn can_index_guards_the_id_range() {
    let mut db = setup_db();
    let scan = vec!["a".to_string(), "b".to_string()];
    assert!(db.can_index(&scan));
    assert_eq!(db.rebuild(&scan).unwrap(), 2);
    assert!(db.can_index(&scan));
    assert_eq!(db.rebuild(&scan).unwrap(), 0);
}
