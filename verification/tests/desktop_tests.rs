use tager::desktop::commands::{
    assign_tag_to_file, disconnect_manager, get_all_tags, get_filtered_files, get_files_without_tags, get_manager_status,
    FileEntryResponse,
};
use tager::desktop::listing::{file_info, get_directory_stats, sort_listing, sort_names, FileInfo};
use tager::desktop::media::{
    check_preview_size, check_thumbnail_source, data_url_of_png, file_as_base64, image_open_error, thumbnail_from_file,
};
use base64::Engine;
use tager::tm::db::{DBFile, Database};
use tager::tm::manager::TagerManager;
use tager::{compare_system_times, i64_to_system_time, system_time_to_i64, TimePoint};

fn slot_with_files() -> Option<TagerManager> {
    let mut m = TagerManager::new("/d", true, true).unwrap();
    m.init(Database::new_in_memory().unwrap());
    let t = TimePoint { secs: 1_700_000_000, nanos: 5 };
    let snap = vec![DBFile {
        id: 0,
        path: "a.png".to_string(),
        size: 3,
        content_hash: "h".to_string(),
        last_modified: t,
        last_accessed: t,
        created: t,
    }];
    m.sync(&snap, None).unwrap();
    Some(m)
}

#[test]
fn commands_without_a_manager_say_so() {
    let empty: Option<TagerManager> = None;
    let msg = "Manager nie jest zainicjalizowany. Wywołaj init_tager_manager najpierw.".to_string();
    assert_eq!(get_filtered_files(&empty, None, None).err(), Some(msg.clone()));
    assert_eq!(get_files_without_tags(&empty).err(), Some(msg.clone()));
    assert_eq!(get_all_tags(&empty).err(), Some(msg.clone()));
    let mut slot: Option<TagerManager> = None;
    assert_eq!(assign_tag_to_file(&mut slot, "a".to_string(), "t".to_string()).err(), Some(msg));
    let st = get_manager_status(&empty).unwrap();
    assert!(!st.initialized);
    assert_eq!(st.root_path, "");
    assert_eq!(st.total_files, 0);
}

#[test]
fn commands_convert_entries_for_the_front_end() {
    let mut slot = slot_with_files();
    assign_tag_to_file(&mut slot, "a.png".to_string(), "blue".to_string()).unwrap();
    let files: Vec<FileEntryResponse> = get_filtered_files(&slot, None, None).unwrap();
    assert_eq!(files.len(), 1);
    assert_eq!(files[0].abs_path, "/d/a.png");
    assert_eq!(files[0].rel_path, "a.png");
    assert_eq!(files[0].file_name, "a.png");
    assert_eq!(files[0].tags.len(), 1);
    assert_eq!(files[0].tags[0].name, "blue");
    assert_eq!(files[0].created, "SystemTime { tv_sec: 1700000000, tv_nsec: 0 }");
    assert!(get_files_without_tags(&slot).unwrap().is_empty());
    assert_eq!(get_all_tags(&slot).unwrap()[0].name, "blue");

    let err = assign_tag_to_file(&mut slot, "none".to_string(), "t".to_string()).err().unwrap();
    assert_eq!(err, "Nie udało się przypisać tagu do pliku: Błąd operacji na bazie danych: Plik 'none' nie istnieje w bazie danych");

    let st = get_manager_status(&slot).unwrap();
    assert!(st.initialized);
    assert_eq!(st.root_path, "/d");
    assert_eq!(st.total_files, 1);
    assert_eq!(st.total_tags, 1);

    disconnect_manager(&mut slot).unwrap();
    assert!(slot.is_none());
}

#[test]
fn listing_before_init_reports_the_manager_error() {
    let slot = Some(TagerManager::new("/d", true, true).unwrap());
    assert_eq!(
        get_filtered_files(&slot, None, None).err(),
        Some("Nie udało się pobrać plików: Błąd operacji na bazie danych: TagerManager nie jest zainicjalizowany".to_string())
    );
}

fn info(name: &str, is_dir: bool, size: u64) -> FileInfo {
    file_info(name.to_string(), format!("/x/{}", name), is_dir, size, 0)
}

#[test]
fn directory_listing_puts_directories_first_then_names() {
    let sorted = sort_listing(vec![info("b.TXT", false, 1), info("zdir", true, 0), info("a", false, 2), info("adir", true, 0)]);
    let names: Vec<&str> = sorted.iter().map(|f| f.name.as_str()).collect();
    assert_eq!(names, vec!["adir", "zdir", "a", "b.TXT"]);
    assert_eq!(sorted[3].extension, Some("txt".to_string()));
    assert_eq!(sorted[2].extension, None);
}

#[test]
fn directory_listing_keeps_ties_in_order() {
    let sorted = sort_listing(vec![info("same", false, 1), info("same", false, 2)]);
    assert_eq!(sorted[0].size, 1);
    assert_eq!(sorted[1].size, 2);
}

#[test]
fn names_sort_by_character() {
    let sorted = sort_names(vec!["b".to_string(), "B".to_string(), "a".to_string(), "ab".to_string(), "ą".to_string()]);
    assert_eq!(sorted, vec!["B", "a", "ab", "b", "ą"]);
}

#[test]
fn directory_stats_add_up() {
    let st = get_directory_stats(&vec![(true, 4096), (false, 10), (false, 5), (true, 0)]);
    assert_eq!(st.total_files, 2);
    assert_eq!(st.total_size, 15);
    assert_eq!(st.directory_count, 2);
}

#[test]
fn preview_is_limited_to_five_mebibytes() {
    assert!(check_preview_size(5 * 1024 * 1024).is_ok());
    assert_eq!(check_preview_size(5 * 1024 * 1024 + 1).err(), Some("Plik jest zbyt duży do wyświetlenia".to_string()));
}

#[test]
fn base64_is_standard_and_padded() {
    assert_eq!(file_as_base64(&b"Man".to_vec()), "TWFu");
    assert_eq!(file_as_base64(&b"Ma".to_vec()), "TWE=");
    assert_eq!(file_as_base64(&Vec::new()), "");
    assert_eq!(data_url_of_png(&vec![0u8, 1, 2]), "data:image/png;base64,AAEC");
}

#[test]
fn thumbnails_only_for_images() {
    assert_eq!(check_thumbnail_source("/p/a.png", false).err(), Some("Plik nie istnieje".to_string()));
    assert_eq!(check_thumbnail_source("/p/a.txt", true).err(), Some("Plik nie jest obsługiwanym formatem obrazu".to_string()));
    assert_eq!(check_thumbnail_source("/p/noext", true).err(), Some("Plik nie jest obsługiwanym formatem obrazu".to_string()));
    assert!(check_thumbnail_source("/p/a.WebP", true).is_ok());
    assert_eq!(image_open_error("bad"), "Nie udało się otworzyć obrazu: bad");
}

#[test]
fn times_round_trip_through_seconds() {
    let t = TimePoint { secs: 1234, nanos: 999 };
    assert_eq!(system_time_to_i64(t), 1234);
    assert_eq!(i64_to_system_time(1234), TimePoint { secs: 1234, nanos: 0 });
    assert!(compare_system_times(t, i64_to_system_time(1234)).is_eq());
    assert!(compare_system_times(i64_to_system_time(1), t).is_lt());
    assert!(compare_system_times(t, i64_to_system_time(1)).is_gt());
}

fn png_of(width: u32, height: u32) -> Vec<u8> {
    let img = image::RgbImage::from_pixel(width, height, image::Rgb([200, 10, 10]));
    let mut bytes: Vec<u8> = Vec::new();
    image::DynamicImage::ImageRgb8(img)
        .write_to(&mut std::io::Cursor::new(&mut bytes), image::ImageFormat::Png)
        .unwrap();
    bytes
}

#[test]
fn thumbnail_is_a_png_of_the_asked_size() {
    let file = png_of(40, 20);
    let url = thumbnail_from_file("/p/pic.PNG", &file, 8, 8).unwrap();
    let prefix = "data:image/png;base64,";
    assert!(url.starts_with(prefix));
    let png = base64::engine::general_purpose::STANDARD.decode(&url[prefix.len()..]).unwrap();
    let thumb = image::load_from_memory(&png).unwrap();
    assert_eq!((thumb.width(), thumb.height()), (8, 8));
    let wide = thumbnail_from_file("/p/pic.png", &file, 10, 4).unwrap();
    let png = base64::engine::general_purpose::STANDARD.decode(&wide[prefix.len()..]).unwrap();
    let thumb = image::load_from_memory(&png).unwrap();
    assert_eq!((thumb.width(), thumb.height()), (10, 4));
}

#[test]
fn thumbnail_reports_undecodable_files_and_other_formats() {
    let err = thumbnail_from_file("/p/a.jpg", &b"not an image".to_vec(), 8, 8).err().unwrap();
    assert!(err.starts_with("Nie udało się otworzyć obrazu: "));
    // the extension names the format: PNG bytes under a .jpg name do not decode
    let err = thumbnail_from_file("/p/a.jpg", &png_of(4, 4), 2, 2).err().unwrap();
    assert!(err.starts_with("Nie udało się otworzyć obrazu: "));
    assert_eq!(
        thumbnail_from_file("/p/a.txt", &png_of(4, 4), 2, 2).err(),
        Some("Plik nie jest obsługiwanym formatem obrazu".to_string())
    );
}

#[test]
fn time_order_is_by_whole_seconds_both_ways() {
    let a = TimePoint { secs: 5, nanos: 1 };
    let b = TimePoint { secs: 5, nanos: 900 };
    let c = TimePoint { secs: 6, nanos: 0 };
    assert!(compare_system_times(a, b).is_eq());
    assert!(compare_system_times(a, c).is_lt());
    assert!(compare_system_times(c, a).is_gt());
}
