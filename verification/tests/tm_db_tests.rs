use std::time::{Duration, SystemTime, UNIX_EPOCH};

use tager::tm::db::{DBFile, DBTag, Database};
use tager::{compare_system_times, TimePoint};

fn tp(t: SystemTime) -> TimePoint {
    let d = t.duration_since(UNIX_EPOCH).unwrap();
    TimePoint { secs: d.as_secs(), nanos: d.subsec_nanos() }
}

fn later(t: TimePoint, secs: u64) -> TimePoint {
    TimePoint { secs: t.secs + secs, nanos: t.nanos }
}

fn get_test_times() -> (TimePoint, TimePoint, TimePoint) {
    let now = SystemTime::now();
    let yesterday = now - Duration::from_secs(24 * 60 * 60);
    let last_week = now - Duration::from_secs(7 * 24 * 60 * 60);

    (tp(now), tp(yesterday), tp(last_week))
}

#[test]
fn test_update_file() {
    let mut db = Database::new_in_memory().unwrap();
    let path = "/test/file.txt".to_string();
    let (last_modified, last_accessed, created) = get_test_times();

    let id = db
        .create_file(
            path.clone(),
            1024,
            "abc123".to_string(),
            last_modified,
            last_accessed,
            created,
        )
        
        .unwrap();

    // Aktualizuj tylko rozmiar
    let updated = db
        .update_file(id, None, Some(2048), None, None, None, None)
        
        .unwrap();

    assert!(updated);

    let file = db.get_file(id).unwrap().unwrap();
    assert_eq!(file.path, path); // Nie zmienione
    assert_eq!(file.size, 2048); // Zmienione
    assert_eq!(file.content_hash, "abc123"); // Nie zmienione
}

#[test]
fn test_update_file_multiple_fields() {
    let mut db = Database::new_in_memory().unwrap();
    let path = "/test/file.txt".to_string();
    let (last_modified, last_accessed, created) = get_test_times();

    let id = db
        .create_file(
            path,
            1024,
            "old_hash".to_string(),
            last_modified,
            last_accessed,
            created,
        )
        
        .unwrap();

    // Aktualizuj kilka pól
    let new_last_modified = tp(SystemTime::now());
    let new_created = tp(SystemTime::now());

    let updated = db
        .update_file(
            id,
            Some("/test/new_path.txt".to_string()),
            Some(2048),
            Some("new_hash".to_string()),
            Some(new_last_modified),
            None, // last_accessed nie zmienione
            Some(new_created),
        )
        
        .unwrap();

    assert!(updated);

    let file = db.get_file(id).unwrap().unwrap();
    assert_eq!(file.path, "/test/new_path.txt".to_string());
    assert_eq!(file.size, 2048);
    assert_eq!(file.content_hash, "new_hash");
    assert!(compare_system_times(file.last_modified, new_last_modified).is_eq());
    assert!(compare_system_times(file.created, new_created).is_eq());
}

#[test]
fn test_create_and_get_file() {
    let mut db = Database::new_in_memory().unwrap();
    let (last_modified, last_accessed, created) = get_test_times();

    let id = db
        .create_file(
            "/test/file.txt".to_string(),
            1024,
            "abc123".to_string(),
            last_modified,
            last_accessed,
            created,
        )
        
        .unwrap();

    assert!(id > 0);

    let file = db.get_file(id).unwrap().unwrap();
    assert_eq!(file.path, "/test/file.txt".to_string());
    assert_eq!(file.size, 1024);
    assert_eq!(file.content_hash, "abc123");
}

#[test]
fn test_get_nonexistent_file() {
    let mut db = Database::new_in_memory().unwrap();
    let result = db.get_file(999).unwrap();
    assert!(result.is_none());
}

#[test]
fn test_get_all_files() {
    let mut db = Database::new_in_memory().unwrap();
    let (lm, la, cr) = get_test_times();

    // Utwórz kilka plików
    for i in 0..5 {
        db.create_file(
            format!("/test/file{}.txt", i),
            100 + i as u64,
            format!("hash{}", i),
            lm,
            la,
            cr,
        )
        
        .unwrap();
    }

    let files = db.get_all_files(None, None).unwrap();
    assert_eq!(files.len(), 5);

    // Test paginacji
    let limited = db.get_all_files(Some(2), None).unwrap();
    assert_eq!(limited.len(), 2);

    let offset = db.get_all_files(Some(2), Some(2)).unwrap();
    assert_eq!(offset.len(), 2);
}

#[test]
fn test_get_files_by_path() {
    let mut db = Database::new_in_memory().unwrap();
    let (lm, la, cr) = get_test_times();

    // Utwórz kilka plików z tą samą ścieżką (różne wersje)
    let path = "/test/file.txt".to_string();
    for i in 0..3 {
        let modified = later(lm, i as u64);
        db.create_file(
            path.clone(),
            100 + i as u64,
            format!("hash{}", i),
            modified,
            la,
            cr,
        )
        
        .unwrap();
    }

    let files = db.get_files_by_path(path.clone()).unwrap();
    assert_eq!(files.len(), 3);

    // Sprawdź czy są posortowane malejąco po last_modified
    assert!(files[0].last_modified >= files[1].last_modified);
    assert!(files[1].last_modified >= files[2].last_modified);
}

#[test]
fn test_delete_file() {
    let mut db = Database::new_in_memory().unwrap();
    let (lm, la, cr) = get_test_times();

    let id = db
        .create_file(
            "/test/file.txt".to_string(),
            1024,
            "abc123".to_string(),
            lm,
            la,
            cr,
        )
        
        .unwrap();

    // Usuń plik
    let deleted = db.delete_file(id).unwrap();
    assert!(deleted);

    // Sprawdź czy plik został usunięty
    let file = db.get_file(id).unwrap();
    assert!(file.is_none());

    // Spróbuj usunąć nieistniejący plik
    let deleted = db.delete_file(999).unwrap();
    assert!(!deleted);
}

#[test]
fn test_delete_files_by_path() {
    let mut db = Database::new_in_memory().unwrap();
    let (lm, la, cr) = get_test_times();

    // Utwórz kilka plików z różnymi ścieżkami
    db.create_file(
        "/test/file1.txt".to_string(),
        100,
        "hash1".to_string(),
        lm,
        la,
        cr,
    )
    
    .unwrap();

    db.create_file(
        "/test/file2.txt".to_string(),
        200,
        "hash2".to_string(),
        lm,
        la,
        cr,
    )
    
    .unwrap();

    // Utwórz 2 pliki z tą samą ścieżką
    let path_to_delete = "/test/duplicate.txt".to_string();
    db.create_file(path_to_delete.clone(), 300, "hash3".to_string(), lm, la, cr)
        
        .unwrap();

    let modified = later(lm, 10);
    db.create_file(
        path_to_delete.clone(),
        400,
        "hash4".to_string(),
        modified,
        la,
        cr,
    )
    
    .unwrap();

    // Usuń wszystkie pliki o danej ścieżce
    let deleted_count = db.delete_files_by_path(path_to_delete).unwrap();
    assert_eq!(deleted_count, 2);

    // Sprawdź czy pozostały tylko 2 pliki
    let files = db.get_all_files(None, None).unwrap();
    assert_eq!(files.len(), 2);
}

#[test]
fn tests_test_file_exists() {
    let mut db = Database::new_in_memory().unwrap();
    let (lm, la, cr) = get_test_times();

    let id = db
        .create_file(
            "/test/file.txt".to_string(),
            1024,
            "abc123".to_string(),
            lm,
            la,
            cr,
        )
        
        .unwrap();

    assert!(db.file_exists(id).unwrap());
    assert!(!db.file_exists(999).unwrap());
}

#[test]
fn test_get_files_by_hash() {
    let mut db = Database::new_in_memory().unwrap();
    let (lm, la, cr) = get_test_times();

    let common_hash = "duplicate_hash".to_string();

    // Utwórz 2 pliki z tym samym hashem
    db.create_file(
        "/test/file1.txt".to_string(),
        100,
        common_hash.clone(),
        lm,
        la,
        cr,
    )
    
    .unwrap();

    db.create_file(
        "/test/file2.txt".to_string(),
        200,
        common_hash.clone(),
        lm,
        la,
        cr,
    )
    
    .unwrap();

    // Plik z innym hashem
    db.create_file(
        "/test/unique.txt".to_string(),
        300,
        "unique_hash".to_string(),
        lm,
        la,
        cr,
    )
    
    .unwrap();

    let duplicates = db.get_files_by_hash(&common_hash).unwrap();
    assert_eq!(duplicates.len(), 2);

    let no_duplicates = db.get_files_by_hash("nonexistent").unwrap();
    assert!(no_duplicates.is_empty());
}

#[test]
fn test_count_files() {
    let mut db = Database::new_in_memory().unwrap();
    let (lm, la, cr) = get_test_times();

    // Początkowo 0 plików
    let count = db.count_files().unwrap();
    assert_eq!(count, 0);

    // Dodaj 3 pliki
    for i in 0..3 {
        db.create_file(
            format!("/test/file{}.txt", i),
            100,
            format!("hash{}", i),
            lm,
            la,
            cr,
        )
        
        .unwrap();
    }

    let count = db.count_files().unwrap();
    assert_eq!(count, 3);
}

// ========== TESTOWANIE OPERACJI NA TAGACH ==========

#[test]
fn test_create_and_get_tag() {
    let mut db = Database::new_in_memory().unwrap();

    let id = db.create_tag("important").unwrap();
    assert!(id > 0);

    let tag = db.get_tag(id).unwrap().unwrap();
    assert_eq!(tag.name, "important");

    let tag_by_name = db.get_tag_by_name("important").unwrap().unwrap();
    assert_eq!(tag_by_name.id, id);
    assert_eq!(tag_by_name.name, "important");
}

#[test]
fn test_create_duplicate_tag() {
    let mut db = Database::new_in_memory().unwrap();

    let id1 = db.create_tag("work").unwrap();
    let id2 = db.create_tag("work").unwrap(); // Powinien zwrócić istniejący ID

    assert_eq!(id1, id2);

    let tags = db.get_all_tags().unwrap();
    assert_eq!(tags.len(), 1); // Tylko jeden tag
}

#[test]
fn test_get_tag_id_by_name() {
    let mut db = Database::new_in_memory().unwrap();

    let id = db.create_tag("project").unwrap();

    let found_id = db.get_tag_id_by_name("project").unwrap().unwrap();
    assert_eq!(found_id, id);

    let not_found = db.get_tag_id_by_name("nonexistent").unwrap();
    assert!(not_found.is_none());
}

#[test]
fn test_get_all_tags() {
    let mut db = Database::new_in_memory().unwrap();

    // Utwórz kilka tagów
    let tag_names = vec!["work", "personal", "urgent", "archive"];
    for name in &tag_names {
        db.create_tag(name).unwrap();
    }

    let tags = db.get_all_tags().unwrap();
    assert_eq!(tags.len(), 4);

    // Sprawdź czy są posortowane alfabetycznie
    let tag_names_sorted: Vec<&str> = tags.iter().map(|t| t.name.as_str()).collect();
    assert_eq!(
        tag_names_sorted,
        vec!["archive", "personal", "urgent", "work"]
    );
}

#[test]
fn test_update_tag() {
    let mut db = Database::new_in_memory().unwrap();

    let id = db.create_tag("oldname").unwrap();

    // Zmień nazwę
    let updated = db.update_tag(id, "newname").unwrap();
    assert!(updated);

    let tag = db.get_tag(id).unwrap().unwrap();
    assert_eq!(tag.name, "newname");

    // Spróbuj zmienić na istniejącą nazwę (powinno się nie udać)
    let _ = db.create_tag("conflict").unwrap();
    let result = db.update_tag(id, "conflict");
    assert!(result.is_err());
}

#[test]
fn test_update_nonexistent_tag() {
    let mut db = Database::new_in_memory().unwrap();

    let updated = db.update_tag(999, "newname").unwrap();
    assert!(!updated); // Tag nie istnieje
}

#[test]
fn test_delete_tag() {
    let mut db = Database::new_in_memory().unwrap();

    let id = db.create_tag("todelete").unwrap();

    // Usuń tag
    let deleted = db.delete_tag(id).unwrap();
    assert!(deleted);

    let tag = db.get_tag(id).unwrap();
    assert!(tag.is_none());

    // Spróbuj usunąć ponownie
    let deleted = db.delete_tag(id).unwrap();
    assert!(!deleted);
}

#[test]
fn test_delete_tag_by_name() {
    let mut db = Database::new_in_memory().unwrap();

    db.create_tag("todelete").unwrap();

    let deleted = db.delete_tag_by_name("todelete").unwrap();
    assert!(deleted);

    let tag = db.get_tag_by_name("todelete").unwrap();
    assert!(tag.is_none());

    // Spróbuj usunąć nieistniejący tag
    let deleted = db.delete_tag_by_name("nonexistent").unwrap();
    assert!(!deleted);
}

#[test]
fn test_tag_exists() {
    let mut db = Database::new_in_memory().unwrap();

    let id = db.create_tag("test").unwrap();

    assert!(db.tag_exists(id).unwrap());
    assert!(db.tag_exists_by_name("test").unwrap());
    assert!(!db.tag_exists(999).unwrap());
    assert!(!db.tag_exists_by_name("nonexistent").unwrap());
}

#[test]
fn test_count_tags() {
    let mut db = Database::new_in_memory().unwrap();

    // Początkowo 0 tagów
    let count = db.count_tags().unwrap();
    assert_eq!(count, 0);

    // Dodaj 3 tagi
    let tag_names = vec!["tag1", "tag2", "tag3"];
    for name in &tag_names {
        db.create_tag(name).unwrap();
    }

    let count = db.count_tags().unwrap();
    assert_eq!(count, 3);
}

// ========== TESTOWANIE RELACJI PLIK-TAG ==========

#[test]
fn test_add_and_remove_tag_from_file() {
    let mut db = Database::new_in_memory().unwrap();
    let (lm, la, cr) = get_test_times();

    // Utwórz plik i tag
    let file_id = db
        .create_file(
            "/test/file.txt".to_string(),
            1024,
            "hash".to_string(),
            lm,
            la,
            cr,
        )
        
        .unwrap();

    let tag_id = db.create_tag("important").unwrap();

    // Dodaj tag do pliku
    let added = db.add_tag_to_file(file_id, tag_id).unwrap();
    assert!(added);

    // Sprawdź czy plik ma tag
    let has_tag = db.file_has_tag(file_id, tag_id).unwrap();
    assert!(has_tag);

    // Pobierz tagi dla pliku
    let tags = db.get_tags_for_file(file_id).unwrap();
    assert_eq!(tags.len(), 1);
    assert_eq!(tags[0].name, "important");

    // Usuń tag z pliku
    let removed = db.remove_tag_from_file(file_id, tag_id).unwrap();
    assert!(removed);

    let has_tag = db.file_has_tag(file_id, tag_id).unwrap();
    assert!(!has_tag);
}

#[test]
fn test_add_tag_by_name_to_file() {
    let mut db = Database::new_in_memory().unwrap();
    let (lm, la, cr) = get_test_times();

    let file_id = db
        .create_file(
            "/test/file.txt".to_string(),
            1024,
            "hash".to_string(),
            lm,
            la,
            cr,
        )
        
        .unwrap();

    // Tag nie istnieje - zostanie utworzony automatycznie
    let added = db.add_tag_by_name_to_file(file_id, "work").unwrap();
    assert!(added);

    let tags = db.get_tags_for_file(file_id).unwrap();
    assert_eq!(tags.len(), 1);
    assert_eq!(tags[0].name, "work");
}

#[test]
fn test_add_duplicate_tag_to_file() {
    let mut db = Database::new_in_memory().unwrap();
    let (lm, la, cr) = get_test_times();

    let file_id = db
        .create_file(
            "/test/file.txt".to_string(),
            1024,
            "hash".to_string(),
            lm,
            la,
            cr,
        )
        
        .unwrap();

    let tag_id = db.create_tag("test").unwrap();

    // Dodaj tag pierwszy raz
    let added1 = db.add_tag_to_file(file_id, tag_id).unwrap();
    assert!(added1);

    // Spróbuj dodać ponownie - powinno zwrócić true (już istnieje)
    let added2 = db.add_tag_to_file(file_id, tag_id).unwrap();
    assert!(added2);

    // Nadal tylko jeden tag
    let tags = db.get_tags_for_file(file_id).unwrap();
    assert_eq!(tags.len(), 1);
}

#[test]
fn test_remove_tag_by_name_from_file() {
    let mut db = Database::new_in_memory().unwrap();
    let (lm, la, cr) = get_test_times();

    let file_id = db
        .create_file(
            "/test/file.txt".to_string(),
            1024,
            "hash".to_string(),
            lm,
            la,
            cr,
        )
        
        .unwrap();

    db.add_tag_by_name_to_file(file_id, "work").unwrap();

    // Usuń tag po nazwie
    let removed = db
        .remove_tag_by_name_from_file(file_id, "work")
        
        .unwrap();
    assert!(removed);

    let tags = db.get_tags_for_file(file_id).unwrap();
    assert!(tags.is_empty());
}

#[test]
fn test_get_files_with_tag() {
    let mut db = Database::new_in_memory().unwrap();
    let (lm, la, cr) = get_test_times();

    let tag_id = db.create_tag("project").unwrap();

    // Utwórz 3 pliki z tagiem "project"
    for i in 0..3 {
        let file_id = db
            .create_file(
                format!("/project/file{}.txt", i),
                100,
                format!("hash{}", i),
                lm,
                la,
                cr,
            )
            
            .unwrap();

        db.add_tag_to_file(file_id, tag_id).unwrap();
    }

    // Utwórz plik bez tagu
    db.create_file(
        "/other/file.txt".to_string(),
        100,
        "hash".to_string(),
        lm,
        la,
        cr,
    )
    
    .unwrap();

    let files_with_tag = db.get_files_with_tag(tag_id).unwrap();
    assert_eq!(files_with_tag.len(), 3);
}

#[test]
fn test_get_files_with_tag_name() {
    let mut db = Database::new_in_memory().unwrap();
    let (lm, la, cr) = get_test_times();

    // Utwórz pliki z różnymi tagami
    for i in 0..3 {
        let file_id = db
            .create_file(
                format!("/file{}.txt", i),
                100,
                format!("hash{}", i),
                lm,
                la,
                cr,
            )
            
            .unwrap();

        if i < 2 {
            db.add_tag_by_name_to_file(file_id, "work").unwrap();
        } else {
            db.add_tag_by_name_to_file(file_id, "personal")
                
                .unwrap();
        }
    }

    let work_files = db.get_files_with_tag_name("work").unwrap();
    assert_eq!(work_files.len(), 2);

    let personal_files = db.get_files_with_tag_name("personal").unwrap();
    assert_eq!(personal_files.len(), 1);

    let nonexistent_files = db.get_files_with_tag_name("nonexistent").unwrap();
    assert!(nonexistent_files.is_empty());
}

#[test]
fn test_get_tags_with_file_count() {
    let mut db = Database::new_in_memory().unwrap();
    let (lm, la, cr) = get_test_times();

    // Utwórz tagi
    let tags = vec!["work", "personal", "archive"];
    for tag_name in &tags {
        db.create_tag(tag_name).unwrap();
    }

    // Utwórz pliki i przypisz tagi
    for i in 0..5 {
        let file_id = db
            .create_file(
                format!("/file{}.txt", i),
                100,
                format!("hash{}", i),
                lm,
                la,
                cr,
            )
            
            .unwrap();

        if i < 3 {
            // Pierwsze 3 pliki mają tag "work"
            db.add_tag_by_name_to_file(file_id, "work").unwrap();
        }
        if i < 2 {
            // Pierwsze 2 pliki mają tag "personal"
            db.add_tag_by_name_to_file(file_id, "personal")
                
                .unwrap();
        }
        // Tag "archive" nie jest przypisany do żadnego pliku
    }

    let tags_with_count = db.get_tags_with_file_count().unwrap();
    assert_eq!(tags_with_count.len(), 3);

    // Sprawdź liczbę plików dla każdego tagu
    for (tag, count) in tags_with_count {
        match tag.name.as_str() {
            "work" => assert_eq!(count, 3),
            "personal" => assert_eq!(count, 2),
            "archive" => assert_eq!(count, 0),
            _ => panic!("Nieoczekiwany tag"),
        }
    }
}

#[test]
fn test_remove_all_tags_from_file() {
    let mut db = Database::new_in_memory().unwrap();
    let (lm, la, cr) = get_test_times();

    let file_id = db
        .create_file(
            "/test/file.txt".to_string(),
            1024,
            "hash".to_string(),
            lm,
            la,
            cr,
        )
        
        .unwrap();

    // Dodaj kilka tagów
    let tag_names = vec!["work", "important", "urgent"];
    for name in &tag_names {
        db.add_tag_by_name_to_file(file_id, name).unwrap();
    }

    let tags_before = db.get_tags_for_file(file_id).unwrap();
    assert_eq!(tags_before.len(), 3);

    // Usuń wszystkie tagi
    let removed_count = db.remove_all_tags_from_file(file_id).unwrap();
    assert_eq!(removed_count, 3);

    let tags_after = db.get_tags_for_file(file_id).unwrap();
    assert!(tags_after.is_empty());
}

#[test]
fn test_cleanup_unused_tags() {
    let mut db = Database::new_in_memory().unwrap();

    // Utwórz kilka tagów
    let tag_names = vec!["used1", "used2", "unused1", "unused2"];
    for name in &tag_names {
        db.create_tag(name).unwrap();
    }

    // Utwórz plik i przypisz tylko 2 tagi
    let (lm, la, cr) = get_test_times();
    let file_id = db
        .create_file(
            "/test/file.txt".to_string(),
            1024,
            "hash".to_string(),
            lm,
            la,
            cr,
        )
        
        .unwrap();

    db.add_tag_by_name_to_file(file_id, "used1").unwrap();
    db.add_tag_by_name_to_file(file_id, "used2").unwrap();

    let tags_before = db.get_all_tags().unwrap();
    assert_eq!(tags_before.len(), 4);

    // Wyczyść nieużywane tagi
    let removed_count = db.cleanup_unused_tags().unwrap();
    assert_eq!(removed_count, 2); // unused1 i unused2

    let tags_after = db.get_all_tags().unwrap();
    assert_eq!(tags_after.len(), 2);

    // Sprawdź które tagi pozostały
    let remaining_names: Vec<String> = tags_after.iter().map(|t| t.name.clone()).collect();
    assert!(remaining_names.contains(&"used1".to_string()));
    assert!(remaining_names.contains(&"used2".to_string()));
}

#[test]
fn test_add_tag_to_nonexistent_file() {
    let mut db = Database::new_in_memory().unwrap();

    let tag_id = db.create_tag("test").unwrap();

    // Spróbuj dodać tag do nieistniejącego pliku
    let added = db.add_tag_to_file(999, tag_id).unwrap();
    assert!(!added);
}

#[test]
fn test_cascade_delete_when_tag_removed() {
    let mut db = Database::new_in_memory().unwrap();
    let (lm, la, cr) = get_test_times();

    // Utwórz plik i tag
    let file_id = db
        .create_file(
            "/test/file.txt".to_string(),
            1024,
            "hash".to_string(),
            lm,
            la,
            cr,
        )
        
        .unwrap();

    let tag_id = db.create_tag("test").unwrap();

    // Dodaj tag do pliku
    db.add_tag_to_file(file_id, tag_id).unwrap();

    // Usuń tag
    db.delete_tag(tag_id).unwrap();

    // Relacja w file_tags powinna zostać automatycznie usunięta (CASCADE)
    let has_tag = db.file_has_tag(file_id, tag_id).unwrap();
    assert!(!has_tag);
}

#[test]
fn test_cascade_delete_when_file_removed() {
    let mut db = Database::new_in_memory().unwrap();
    let (lm, la, cr) = get_test_times();

    // Utwórz plik i tag
    let file_id = db
        .create_file(
            "/test/file.txt".to_string(),
            1024,
            "hash".to_string(),
            lm,
            la,
            cr,
        )
        
        .unwrap();

    let tag_id = db.create_tag("test").unwrap();

    // Dodaj tag do pliku
    db.add_tag_to_file(file_id, tag_id).unwrap();

    // Usuń plik
    db.delete_file(file_id).unwrap();

    // Relacja w file_tags powinna zostać automatycznie usunięta (CASCADE)
    // Tag powinien nadal istnieć
    let tag_exists = db.tag_exists(tag_id).unwrap();
    assert!(tag_exists);
}

#[test]
fn store_tables_round_trip_and_bad_tables_are_refused() {
    let mut db = Database::new_in_memory().unwrap();
    let t = TimePoint { secs: 10, nanos: 0 };
    let id = db.create_file("a".to_string(), 1, "h".to_string(), t, t, t).unwrap();
    db.add_tag_by_name_to_file(id, "x").unwrap();
    let (files, tags, links, lf, lt) = db.tables();
    let copy = Database::from_tables(files, tags, links, lf, lt).unwrap();
    assert_eq!(copy.get_tags_for_file(id).unwrap()[0].name, "x");

    let f = |id: i64, nanos: u32| DBFile {
        id,
        path: "p".to_string(),
        size: 0,
        content_hash: String::new(),
        last_modified: TimePoint { secs: 1, nanos },
        last_accessed: TimePoint { secs: 1, nanos: 0 },
        created: TimePoint { secs: 1, nanos: 0 },
    };
    // ids out of order, an id above the counter, a time with nanoseconds
    assert!(Database::from_tables(vec![f(2, 0), f(1, 0)], vec![], vec![], 2, 0).is_none());
    assert!(Database::from_tables(vec![f(3, 0)], vec![], vec![], 2, 0).is_none());
    assert!(Database::from_tables(vec![f(1, 5)], vec![], vec![], 1, 0).is_none());
    // two tags with one name, a link to a missing tag
    let tg = |id: i64| DBTag { id, name: "n".to_string() };
    assert!(Database::from_tables(vec![], vec![tg(1), tg(2)], vec![], 0, 2).is_none());
    assert!(Database::from_tables(vec![f(1, 0)], vec![tg(1)], vec![(1, 2)], 1, 1).is_none());
    assert!(Database::from_tables(vec![f(1, 0)], vec![tg(1)], vec![(1, 1)], 1, 1).is_some());
}

#[test]
fn offset_without_limit_skips_the_first_files() {
    let mut db = Database::new_in_memory().unwrap();
    for i in 0..5u64 {
        let t = TimePoint { secs: 100 + i, nanos: 0 };
        db.create_file(format!("/f{}", i), 1, "h".to_string(), t, t, t).unwrap();
    }
    let rest = db.get_all_files(None, Some(2)).unwrap();
    let paths: Vec<String> = rest.iter().map(|f| f.path.clone()).collect();
    assert_eq!(paths, vec!["/f2", "/f1", "/f0"]);
    assert!(db.get_all_files(None, Some(9)).unwrap().is_empty());
    assert_eq!(db.get_all_files(Some(-1), Some(-3)).unwrap().len(), 5);
}
