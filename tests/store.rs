use fast_down_gui::config::{DownloadConfig, GeneralConfig};
use fast_down_gui::plan::{FileId, Status};
use fast_down_gui::range::ByteRange;
use fast_down_gui::store::{Database, DatabaseEntry};

fn entry(name: &str) -> DatabaseEntry {
    DatabaseEntry {
        file_name: name.to_string(),
        file_path: format!("/tmp/{name}"),
        file_size: 1000,
        file_id: FileId {
            etag: Some("e".to_string()),
            last_modified: None,
        },
        progress: Vec::new(),
        elapsed_ms: 0,
        url: "http://example.com/x".to_string(),
        config: DownloadConfig::with_save_dir("/tmp".to_string()),
        status: Status::Paused,
    }
}

#[test]
fn store_round_trip_of_progress() {
    let mut db = Database::new(DownloadConfig::with_save_dir(String::new()), GeneralConfig::new());
    let gid = db.next_gid();
    assert_eq!(gid, 0);
    assert_eq!(db.next_gid(), 1);
    db.init_entry(gid, entry("a"));
    assert!(db.take_changed());
    assert!(!db.take_changed());
    db.update_entry(gid, vec![ByteRange::new(0, 400)], 2500);
    let e = db.get(gid).unwrap();
    assert_eq!(e.progress, vec![ByteRange::new(0, 400)]);
    assert_eq!(e.elapsed_ms, 2500);
    assert_eq!(e.file_id.etag.as_deref(), Some("e"));
    assert_eq!(e.file_name, "a");
    db.update_status(gid, Status::Completed);
    assert_eq!(db.get(gid).unwrap().status, Status::Completed);
    assert_eq!(db.get(gid).unwrap().elapsed_ms, 2500);
}

#[test]
fn store_replace_and_remove() {
    let mut db = Database::new(DownloadConfig::with_save_dir(String::new()), GeneralConfig::new());
    db.init_entry(5, entry("a"));
    db.init_entry(6, entry("b"));
    db.init_entry(5, entry("c"));
    assert_eq!(db.get(5).unwrap().file_name, "c");
    assert_eq!(db.get(6).unwrap().file_name, "b");
    db.remove_entry(5);
    assert!(db.get(5).is_none());
    assert!(db.get(6).is_some());
    db.update_entry(5, vec![], 1);
    assert!(db.get(5).is_none());
}

#[test]
fn store_settings() {
    let mut db = Database::new(DownloadConfig::with_save_dir(String::new()), GeneralConfig::new());
    assert!(!db.is_auto_start());
    db.set_auto_start(true);
    assert!(db.is_auto_start());
    assert_eq!(db.get_general_config().max_concurrency, 2);
    assert_eq!(db.get_download_config().threads, 32);
}

#[test]
fn store_updates_keep_other_fields() {
    let mut db = Database::new(DownloadConfig::with_save_dir(String::new()), GeneralConfig::new());
    db.init_entry(1, entry("keep"));
    db.update_entry(1, vec![ByteRange::new(0, 10)], 7);
    db.update_status(1, Status::Error);
    let e = db.get(1).unwrap();
    assert_eq!(e.file_name, "keep");
    assert_eq!(e.url, "http://example.com/x");
    assert_eq!(e.file_path, "/tmp/keep");
    assert_eq!(e.file_size, 1000);
    assert_eq!(e.config.save_dir, "/tmp");
    assert_eq!(e.progress, vec![ByteRange::new(0, 10)]);
    assert_eq!(e.status, Status::Error);
}

#[test]
fn update_of_missing_record_changes_nothing() {
    let mut db = Database::new(DownloadConfig::with_save_dir(String::new()), GeneralConfig::new());
    db.update_entry(3, vec![], 1);
    db.update_status(3, Status::Completed);
    assert!(!db.take_changed());
    assert!(db.get(3).is_none());
}

#[test]
fn record_builders() {
    let c = DownloadConfig::with_save_dir("/d".to_string());
    let a = DatabaseEntry::accepted("http://h/f".to_string(), c.clone());
    assert_eq!(a.file_name, "http://h/f");
    assert_eq!(a.file_path, "");
    assert_eq!(a.status, Status::Paused);
    assert!(a.progress.is_empty());
    let f = DatabaseEntry::fresh(
        "f".to_string(),
        "/d/f".to_string(),
        42,
        FileId { etag: None, last_modified: Some("x".to_string()) },
        "http://h/f".to_string(),
        c,
    );
    assert_eq!(f.file_size, 42);
    assert_eq!(f.elapsed_ms, 0);
    assert_eq!(f.file_path, "/d/f");
}
