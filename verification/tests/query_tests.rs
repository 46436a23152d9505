use gst_log_viewer::models::{default_page, default_per_page, LogFilter, SerializableEntry};
use gst_log_viewer::parser::{Entry, Level};
use gst_log_viewer::query::{filter_entries, get_logs, matches_entry, to_microseconds, to_milliseconds};

fn entry(ts: u64, pid: u32, level: Level, category: &str, message: &str) -> Entry {
    Entry {
        ts,
        pid,
        thread: "0x1".to_string(),
        level,
        category: category.to_string(),
        file: "f.c".to_string(),
        line: 1,
        function: "do_it".to_string(),
        message: message.to_string(),
        object: None,
    }
}

fn no_filter() -> LogFilter {
    LogFilter {
        session_id: "s".to_string(),
        level: None,
        categories: Vec::new(),
        message_regex: None,
        pid: None,
        thread: None,
        object: None,
        function_regex: None,
        page: default_page(),
        per_page: default_per_page(),
        min_timestamp: None,
        max_timestamp: None,
        use_microseconds: false,
    }
}

#[test]
fn defaults_are_page_one_of_a_hundred() {
    assert_eq!(default_page(), 1);
    assert_eq!(default_per_page(), 100);
}

#[test]
fn level_and_pid_filter_selects_matching_entry() {
    let debug_entry = Entry::new(
        "0:00:00.123456789  1234   0x55d5c3a1b6e0 DEBUG videodecoder gstvideodecoder.c:1200:gst_video_decoder_finish_frame:<dec0> some message",
    )
    .unwrap();
    let error_entry = entry(5, 99, Level::Error, "videodecoder", "boom");
    let entries = vec![debug_entry, error_entry];
    let mut f = no_filter();
    f.level = Some("DEBUG".to_string());
    f.pid = Some(1234);
    let hits = filter_entries(&entries, &f);
    assert_eq!(hits.len(), 1);
    assert_eq!(hits[0].pid, 1234);
    assert_eq!(hits[0].message, "some message");
}

#[test]
fn no_criteria_returns_everything_in_order() {
    let entries = vec![
        entry(3, 1, Level::Debug, "a", "x"),
        entry(1, 2, Level::Error, "b", "y"),
        entry(2, 3, Level::Info, "c", "z"),
    ];
    let hits = filter_entries(&entries, &no_filter());
    assert_eq!(hits.len(), 3);
    assert_eq!(hits[0].message, "x");
    assert_eq!(hits[1].message, "y");
    assert_eq!(hits[2].message, "z");
}

#[test]
fn filtering_twice_gives_same_result() {
    let entries = vec![
        entry(1, 1, Level::Debug, "a", "x"),
        entry(2, 2, Level::Error, "b", "y"),
        entry(3, 1, Level::Debug, "c", "z"),
    ];
    let mut f = no_filter();
    f.pid = Some(1);
    let once: Vec<Entry> = filter_entries(&entries, &f)
        .into_iter()
        .map(|e| entry(e.ts, e.pid, e.level, &e.category, &e.message))
        .collect();
    let twice = filter_entries(&once, &f);
    assert_eq!(once.len(), twice.len());
    for (a, b) in once.iter().zip(twice.iter()) {
        assert_eq!(a.message, b.message);
    }
}

#[test]
fn category_filter_tolerates_surrounding_whitespace() {
    let entries = vec![
        entry(1, 1, Level::Debug, "videodecoder", "x"),
        entry(2, 2, Level::Debug, "audiodecoder", "y"),
    ];
    let mut f = no_filter();
    f.categories = vec![" videodecoder ".to_string()];
    let hits = filter_entries(&entries, &f);
    assert_eq!(hits.len(), 1);
    assert_eq!(hits[0].message, "x");
}

#[test]
fn message_regex_restricts() {
    let entries = vec![
        entry(1, 1, Level::Debug, "c", "frame dropped"),
        entry(2, 2, Level::Debug, "c", "all good"),
    ];
    let mut f = no_filter();
    f.message_regex = Some("drop.*".to_string());
    let hits = filter_entries(&entries, &f);
    assert_eq!(hits.len(), 1);
    assert_eq!(hits[0].message, "frame dropped");
}

#[test]
fn uncompilable_regex_restricts_nothing() {
    let entries = vec![
        entry(1, 1, Level::Debug, "c", "one"),
        entry(2, 2, Level::Debug, "c", "two"),
    ];
    let mut f = no_filter();
    f.message_regex = Some("(".to_string());
    let hits = filter_entries(&entries, &f);
    assert_eq!(hits.len(), 2);
}

#[test]
fn function_regex_restricts() {
    let mut a = entry(1, 1, Level::Debug, "c", "one");
    a.function = "gst_pad_push".to_string();
    let mut b = entry(2, 2, Level::Debug, "c", "two");
    b.function = "gst_queue_loop".to_string();
    let entries = vec![a, b];
    let mut f = no_filter();
    f.function_regex = Some("^gst_pad".to_string());
    let hits = filter_entries(&entries, &f);
    assert_eq!(hits.len(), 1);
    assert_eq!(hits[0].message, "one");
}

#[test]
fn object_criterion_never_matches_absent_object() {
    let mut a = entry(1, 1, Level::Debug, "c", "with");
    a.object = Some("dec0".to_string());
    let b = entry(2, 2, Level::Debug, "c", "without");
    let entries = vec![a, b];
    let mut f = no_filter();
    f.object = Some("dec0".to_string());
    let hits = filter_entries(&entries, &f);
    assert_eq!(hits.len(), 1);
    assert_eq!(hits[0].message, "with");
}

#[test]
fn thread_criterion_is_exact() {
    let mut a = entry(1, 1, Level::Debug, "c", "one");
    a.thread = "0xaa".to_string();
    let b = entry(2, 2, Level::Debug, "c", "two");
    let entries = vec![a, b];
    let mut f = no_filter();
    f.thread = Some("0xaa".to_string());
    let hits = filter_entries(&entries, &f);
    assert_eq!(hits.len(), 1);
    assert_eq!(hits[0].message, "one");
}

#[test]
fn timestamp_bounds_are_inclusive_in_milliseconds() {
    let entries = vec![
        entry(100_000_000, 1, Level::Debug, "c", "at100ms"),
        entry(200_000_000, 2, Level::Debug, "c", "at200ms"),
        entry(300_000_000, 3, Level::Debug, "c", "at300ms"),
    ];
    let mut f = no_filter();
    f.min_timestamp = Some(100);
    f.max_timestamp = Some(200);
    let hits = filter_entries(&entries, &f);
    assert_eq!(hits.len(), 2);
    assert_eq!(hits[0].message, "at100ms");
    assert_eq!(hits[1].message, "at200ms");
}

#[test]
fn microsecond_unit_is_selected_explicitly() {
    let e = entry(1_500_000, 1, Level::Debug, "c", "x");
    let mut f = no_filter();
    f.min_timestamp = Some(1500);
    f.use_microseconds = true;
    assert!(matches_entry(&f, &e));
    f.use_microseconds = false;
    assert!(!matches_entry(&f, &e));
    assert_eq!(to_milliseconds(1_500_000), 1);
    assert_eq!(to_microseconds(1_500_000), 1500);
}

#[test]
fn pagination_reconstructs_the_sequence() {
    let entries: Vec<Entry> = (0..5)
        .map(|i| entry(i as u64, i, Level::Debug, "c", &format!("m{}", i)))
        .collect();
    let mut collected: Vec<String> = Vec::new();
    let mut f = no_filter();
    f.per_page = 2;
    let mut page = 1;
    loop {
        f.page = page;
        let r = get_logs(&entries, &f);
        assert_eq!(r.total, 5);
        assert_eq!(r.total_pages, 3);
        for e in &r.entries {
            collected.push(e.message.clone());
        }
        if page >= r.total_pages {
            break;
        }
        page += 1;
    }
    assert_eq!(collected, vec!["m0", "m1", "m2", "m3", "m4"]);
}

#[test]
fn page_beyond_total_is_empty_with_totals() {
    let entries: Vec<Entry> = (0..5)
        .map(|i| entry(i as u64, i, Level::Debug, "c", "m"))
        .collect();
    let mut f = no_filter();
    f.per_page = 2;
    f.page = 9;
    let r = get_logs(&entries, &f);
    assert_eq!(r.entries.len(), 0);
    assert_eq!(r.total, 5);
    assert_eq!(r.total_pages, 3);
    assert_eq!(r.page, 9);
}

#[test]
fn page_clamps_to_one_and_size_to_a_thousand() {
    let entries: Vec<Entry> = (0..3)
        .map(|i| entry(i as u64, i, Level::Debug, "c", "m"))
        .collect();
    let mut f = no_filter();
    f.page = 0;
    f.per_page = 5000;
    let r = get_logs(&entries, &f);
    assert_eq!(r.page, 1);
    assert_eq!(r.total_pages, 1);
    assert_eq!(r.entries.len(), 3);
}

#[test]
fn response_entries_use_display_forms() {
    let e = entry(123456789, 7, Level::Memdump, "c", "m");
    let s = SerializableEntry::from_entry(&e);
    assert_eq!(s.ts, "0:00:00.123456789");
    assert_eq!(s.level, "MEMDUMP");
    assert_eq!(s.pid, 7);
    let long = entry((2 * 3600 + 3 * 60 + 4) as u64 * 1_000_000_000 + 5, 1, Level::Info, "c", "m");
    let s2 = SerializableEntry::from_entry(&long);
    assert_eq!(s2.ts, "2:03:04.000000005");
}

#[test]
fn pattern_compilation_is_reported() {
    assert!(gst_log_viewer::query::pattern_compiles("drop.*"));
    assert!(gst_log_viewer::query::pattern_compiles(""));
    assert!(!gst_log_viewer::query::pattern_compiles("("));
    assert!(!gst_log_viewer::query::pattern_compiles("a{2,1}"));
}
