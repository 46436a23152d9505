use gst_log_viewer::models::LogFilter;
use gst_log_viewer::parser::{Entry, Level};
use gst_log_viewer::timeline::{
    default_interval, get_timeline, parse_interval, TimelineError, TimelineFilter,
};

fn entry(ts: u64) -> Entry {
    Entry {
        ts,
        pid: 1,
        thread: "0x1".to_string(),
        level: Level::Debug,
        category: "c".to_string(),
        file: "f.c".to_string(),
        line: 1,
        function: "do_it".to_string(),
        message: "m".to_string(),
        object: None,
    }
}

fn timeline_filter(interval: &str) -> TimelineFilter {
    TimelineFilter {
        log_filter: LogFilter {
            session_id: "s".to_string(),
            level: None,
            categories: Vec::new(),
            message_regex: None,
            pid: None,
            thread: None,
            object: None,
            function_regex: None,
            page: 1,
            per_page: 100,
            min_timestamp: None,
            max_timestamp: None,
            use_microseconds: false,
        },
        interval: interval.to_string(),
    }
}

#[test]
fn interval_grammar_accepts_the_four_units() {
    assert_eq!(parse_interval("10us"), Some(10));
    assert_eq!(parse_interval("500ms"), Some(500_000));
    assert_eq!(parse_interval("2s"), Some(2_000_000));
    assert_eq!(parse_interval("3m"), Some(180_000_000));
}

#[test]
fn interval_grammar_rejects_malformed_strings() {
    assert_eq!(parse_interval(""), None);
    assert_eq!(parse_interval("ms"), None);
    assert_eq!(parse_interval("10"), None);
    assert_eq!(parse_interval("10x"), None);
    assert_eq!(parse_interval("x10s"), None);
    assert_eq!(parse_interval("10 s"), None);
    assert_eq!(parse_interval("0s"), None);
    assert_eq!(parse_interval("99999999999999999999us"), None);
}

#[test]
fn default_interval_is_one_second() {
    assert_eq!(default_interval(), "1s");
    assert_eq!(parse_interval(&default_interval()), Some(1_000_000));
}

#[test]
fn buckets_of_half_a_second() {
    let entries = vec![entry(0), entry(400_000_000), entry(900_000_000)];
    let r = get_timeline(&entries, &timeline_filter("500ms")).unwrap();
    assert_eq!(r.min_timestamp, 0);
    assert_eq!(r.max_timestamp, 900);
    assert_eq!(r.buckets.len(), 2);
    assert_eq!((r.buckets[0].timestamp, r.buckets[0].count), (0, 2));
    assert_eq!((r.buckets[1].timestamp, r.buckets[1].count), (500, 1));
}

#[test]
fn bucket_counts_sum_to_entry_count() {
    let entries: Vec<Entry> = [5u64, 1, 9, 3, 3, 8, 1]
        .iter()
        .map(|s| entry(s * 1_000_000_000))
        .collect();
    let r = get_timeline(&entries, &timeline_filter("2s")).unwrap();
    let total: usize = r.buckets.iter().map(|b| b.count).sum();
    assert_eq!(total, entries.len());
    for b in &r.buckets {
        assert!(b.count > 0);
    }
    for w in r.buckets.windows(2) {
        assert!(w[0].timestamp < w[1].timestamp);
    }
}

#[test]
fn buckets_anchor_at_the_observed_minimum() {
    let entries = vec![entry(3_000_000_000), entry(4_400_000_000)];
    let r = get_timeline(&entries, &timeline_filter("1s")).unwrap();
    assert_eq!(r.min_timestamp, 3000);
    assert_eq!(r.max_timestamp, 4400);
    assert_eq!((r.buckets[0].timestamp, r.buckets[0].count), (3000, 1));
    assert_eq!((r.buckets[1].timestamp, r.buckets[1].count), (4000, 1));
    for b in &r.buckets {
        for e in &entries {
            let t = e.ts / 1_000_000;
            if t >= b.timestamp && t < b.timestamp + 1000 {
                // every timestamp in this bucket's range is counted there
                assert!(b.count >= 1);
            }
        }
    }
}

#[test]
fn microsecond_interval_uses_microsecond_precision() {
    let entries = vec![entry(1_000_000), entry(1_400_000), entry(2_600_000)];
    let r = get_timeline(&entries, &timeline_filter("700us")).unwrap();
    assert_eq!(r.min_timestamp, 1000);
    assert_eq!(r.max_timestamp, 2600);
    assert_eq!(r.buckets.len(), 2);
    assert_eq!((r.buckets[0].timestamp, r.buckets[0].count), (1000, 2));
    assert_eq!((r.buckets[1].timestamp, r.buckets[1].count), (2400, 1));
}

#[test]
fn empty_filtered_set_reports_zero_span() {
    let entries: Vec<Entry> = Vec::new();
    let r = get_timeline(&entries, &timeline_filter("1s")).unwrap();
    assert_eq!(r.buckets.len(), 0);
    assert_eq!(r.min_timestamp, 0);
    assert_eq!(r.max_timestamp, 0);
}

#[test]
fn malformed_interval_is_rejected_before_aggregation() {
    let entries = vec![entry(0)];
    let err = get_timeline(&entries, &timeline_filter("sideways")).unwrap_err();
    assert_eq!(
        err,
        TimelineError::InvalidInterval {
            interval: "sideways".to_string()
        }
    );
}

#[test]
fn timeline_applies_the_filter_first() {
    let mut a = entry(0);
    a.pid = 1;
    let mut b = entry(100_000_000);
    b.pid = 2;
    let entries = vec![a, b];
    let mut f = timeline_filter("1s");
    f.log_filter.pid = Some(2);
    let r = get_timeline(&entries, &f).unwrap();
    assert_eq!(r.min_timestamp, 100);
    assert_eq!(r.max_timestamp, 100);
    assert_eq!(r.buckets.len(), 1);
    assert_eq!((r.buckets[0].timestamp, r.buckets[0].count), (100, 1));
}
