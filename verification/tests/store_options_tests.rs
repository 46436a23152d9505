use gst_log_viewer::options::get_filter_options;
use gst_log_viewer::parser::{Entry, Level};
use gst_log_viewer::store::SessionStore;

fn entry(pid: u32, level: Level, category: &str, thread: &str, object: Option<&str>) -> Entry {
    Entry {
        ts: 0,
        pid,
        thread: thread.to_string(),
        level,
        category: category.to_string(),
        file: "f.c".to_string(),
        line: 1,
        function: "do_it".to_string(),
        message: "m".to_string(),
        object: object.map(|s| s.to_string()),
    }
}

#[test]
fn store_serves_what_was_put() {
    let mut store = SessionStore::new();
    let id = "11111111-2222-3333-4444-555555555555".to_string();
    assert!(store.get(&id).is_none());
    assert!(!store.contains(&id));
    let installed = store.put(id.clone(), vec![entry(1, Level::Debug, "c", "t", None)]);
    assert!(installed);
    assert!(store.contains(&id));
    let got = store.get(&id).unwrap();
    assert_eq!(got.len(), 1);
    assert_eq!(got[0].pid, 1);
}

#[test]
fn store_never_overwrites_a_key() {
    let mut store = SessionStore::new();
    let id = "a".to_string();
    assert!(store.put(id.clone(), vec![entry(1, Level::Debug, "c", "t", None)]));
    let again = store.put(id.clone(), vec![entry(2, Level::Error, "d", "u", None)]);
    assert!(!again);
    assert_eq!(store.get(&id).unwrap()[0].pid, 1);
}

#[test]
fn store_keeps_sessions_apart() {
    let mut store = SessionStore::new();
    assert!(store.put("one".to_string(), vec![entry(1, Level::Debug, "c", "t", None)]));
    assert!(store.put("two".to_string(), vec![entry(2, Level::Error, "d", "u", None)]));
    assert_eq!(store.get(&"one".to_string()).unwrap()[0].pid, 1);
    assert_eq!(store.get(&"two".to_string()).unwrap()[0].pid, 2);
    assert!(store.get(&"three".to_string()).is_none());
}

#[test]
fn options_deduplicate_each_field() {
    let entries = vec![
        entry(1, Level::Debug, "video", "0xa", Some("dec0")),
        entry(1, Level::Debug, "video", "0xa", Some("dec0")),
        entry(2, Level::Error, "audio", "0xb", None),
    ];
    let r = get_filter_options(&entries);
    let mut categories = r.categories.clone();
    categories.sort();
    assert_eq!(categories, vec!["audio".to_string(), "video".to_string()]);
    let mut levels = r.levels.clone();
    levels.sort();
    assert_eq!(levels, vec!["DEBUG".to_string(), "ERROR".to_string()]);
    let mut pids = r.pids.clone();
    pids.sort();
    assert_eq!(pids, vec![1, 2]);
    let mut threads = r.threads.clone();
    threads.sort();
    assert_eq!(threads, vec!["0xa".to_string(), "0xb".to_string()]);
    assert_eq!(r.objects, vec!["dec0".to_string()]);
}

#[test]
fn options_of_an_empty_session_are_empty_lists() {
    let entries: Vec<Entry> = Vec::new();
    let r = get_filter_options(&entries);
    assert!(r.categories.is_empty());
    assert!(r.levels.is_empty());
    assert!(r.pids.is_empty());
    assert!(r.threads.is_empty());
    assert!(r.objects.is_empty());
}
