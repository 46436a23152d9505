use gst_log_viewer::parser::{
    build_entries, parse, Entry, Level, ParsingError, TimestampField, Token,
};

fn lines(v: &[&str]) -> Vec<String> {
    v.iter().map(|s| s.to_string()).collect()
}

#[test]
fn parses_reference_line() {
    let line = "0:00:00.123456789  1234   0x55d5c3a1b6e0 DEBUG videodecoder gstvideodecoder.c:1200:gst_video_decoder_finish_frame:<dec0> some message";
    let e = Entry::new(line).unwrap();
    assert_eq!(e.ts, 123456789);
    assert_eq!(e.pid, 1234);
    assert_eq!(e.thread, "0x55d5c3a1b6e0");
    assert_eq!(e.level, Level::Debug);
    assert_eq!(e.category, "videodecoder");
    assert_eq!(e.file, "gstvideodecoder.c");
    assert_eq!(e.line, 1200);
    assert_eq!(e.function, "gst_video_decoder_finish_frame");
    assert_eq!(e.object, Some("dec0".to_string()));
    assert_eq!(e.message, "some message");
}

#[test]
fn parses_line_with_color_codes() {
    let line = "\u{1b}[0;33m0:00:01.000000002\u{1b}[m  42 0xabc WARNING mycat \u{1b}[0;1;31mfile.c:7:do_it: \u{1b}[00m hello";
    let e = Entry::new(line).unwrap();
    assert_eq!(e.ts, 1_000_000_002);
    assert_eq!(e.pid, 42);
    assert_eq!(e.level, Level::Warning);
    assert_eq!(e.category, "mycat");
    assert_eq!(e.file, "file.c");
    assert_eq!(e.line, 7);
    assert_eq!(e.function, "do_it");
    assert_eq!(e.object, None);
    assert_eq!(e.message, "hello");
}

#[test]
fn timestamp_composes_hours_minutes_seconds() {
    let e = Entry::new("1:02:03.000000004 1 t LOG c f.c:1:fn: m").unwrap();
    assert_eq!(e.ts, ((1 * 3600 + 2 * 60 + 3) as u64) * 1_000_000_000 + 4);
    assert_eq!(e.level, Level::Log);
}

#[test]
fn message_whitespace_collapses() {
    let e = Entry::new("0:00:00.0 1 t TRACE c f:1:fn: a   b  c ").unwrap();
    assert_eq!(e.message, "a b c");
}

#[test]
fn empty_message_is_empty_string() {
    let e = Entry::new("0:00:00.0 1 t FIXME c f:1:fn:").unwrap();
    assert_eq!(e.message, "");
    assert_eq!(e.level, Level::Fixme);
}

#[test]
fn rejects_bad_hour() {
    let err = Entry::new("x:00:00.0 1 t DEBUG c f:1:fn: m").unwrap_err();
    assert_eq!(
        err,
        ParsingError::InvalidTimestamp {
            ts: "x:00:00.0".to_string(),
            field: TimestampField::Hour
        }
    );
}

#[test]
fn rejects_bad_subsecond() {
    let err = Entry::new("0:00:00.12x 1 t DEBUG c f:1:fn: m").unwrap_err();
    assert_eq!(
        err,
        ParsingError::InvalidTimestamp {
            ts: "0:00:00.12x".to_string(),
            field: TimestampField::SubSecond
        }
    );
}

#[test]
fn rejects_timestamp_without_subseconds() {
    let err = Entry::new("0:00:00 1 t DEBUG c f:1:fn: m").unwrap_err();
    assert_eq!(
        err,
        ParsingError::MissingToken {
            t: Token::Timestamp {
                field: Some(TimestampField::SubSecond)
            }
        }
    );
}

#[test]
fn rejects_bad_pid() {
    let err = Entry::new("0:00:00.0 notanumber t DEBUG c f:1:fn: m").unwrap_err();
    assert_eq!(
        err,
        ParsingError::InvalidPID {
            pid: "notanumber".to_string()
        }
    );
}

#[test]
fn rejects_unknown_level() {
    let err = Entry::new("0:00:00.0 1 t LOUD c f:1:fn: m").unwrap_err();
    assert_eq!(
        err,
        ParsingError::InvalidDebugLevel {
            name: "LOUD".to_string()
        }
    );
}

#[test]
fn level_table_is_case_sensitive() {
    let err = Entry::new("0:00:00.0 1 t debug c f:1:fn: m").unwrap_err();
    assert_eq!(
        err,
        ParsingError::InvalidDebugLevel {
            name: "debug".to_string()
        }
    );
}

#[test]
fn rejects_missing_fields() {
    assert_eq!(
        Entry::new("0:00:00.0").unwrap_err(),
        ParsingError::MissingToken { t: Token::PID }
    );
    assert_eq!(
        Entry::new("0:00:00.0 1").unwrap_err(),
        ParsingError::MissingToken { t: Token::Thread }
    );
    assert_eq!(
        Entry::new("0:00:00.0 1 t").unwrap_err(),
        ParsingError::MissingToken { t: Token::Level }
    );
    assert_eq!(
        Entry::new("0:00:00.0 1 t DEBUG").unwrap_err(),
        ParsingError::MissingToken { t: Token::Category }
    );
    assert_eq!(
        Entry::new("0:00:00.0 1 t DEBUG c").unwrap_err(),
        ParsingError::MissingLocation
    );
}

#[test]
fn rejects_bad_line_number() {
    let err = Entry::new("0:00:00.0 1 t DEBUG c f:xx:fn: m").unwrap_err();
    assert_eq!(
        err,
        ParsingError::InvalidLineNumber {
            line: "xx".to_string()
        }
    );
}

#[test]
fn location_requires_trailing_colon() {
    let err = Entry::new("0:00:00.0 1 t DEBUG c f:1:fn m").unwrap_err();
    assert_eq!(err, ParsingError::MissingToken { t: Token::Object });
}

#[test]
fn object_keeps_extra_colons() {
    let e = Entry::new("0:00:00.0 1 t DEBUG c f:1:fn:<a:b> m").unwrap();
    assert_eq!(e.object, Some("a:b".to_string()));
}

#[test]
fn empty_object_segment_is_none() {
    let e = Entry::new("0:00:00.0 1 t DEBUG c f:1:fn: m").unwrap();
    assert_eq!(e.object, None);
}

#[test]
fn all_eight_levels_parse() {
    let cases = [
        ("ERROR", Level::Error),
        ("WARNING", Level::Warning),
        ("FIXME", Level::Fixme),
        ("INFO", Level::Info),
        ("DEBUG", Level::Debug),
        ("LOG", Level::Log),
        ("TRACE", Level::Trace),
        ("MEMDUMP", Level::Memdump),
    ];
    for (name, level) in cases {
        let line = format!("0:00:00.0 1 t {} c f:1:fn: m", name);
        let e = Entry::new(&line).unwrap();
        assert_eq!(e.level, level);
        assert_eq!(level.name(), name);
    }
}

#[test]
fn builder_drops_malformed_lines() {
    let input = lines(&[
        "0:00:00.1 1 t DEBUG c f:1:fn: one",
        "this line is garbage",
        "0:00:00.2 2 t ERROR c f:2:fn: two",
        "",
        "0:00:00.3 3 t INFO c f:3:fn: three",
    ]);
    let total = input.len();
    let entries = build_entries(input);
    assert_eq!(entries.len(), 3);
    assert_eq!(total - entries.len(), 2);
    assert_eq!(entries[0].message, "one");
    assert_eq!(entries[1].message, "two");
    assert_eq!(entries[2].message, "three");
}

#[test]
fn iterator_skips_to_next_parsable_line() {
    let mut it = parse(lines(&[
        "garbage",
        "0:00:00.1 1 t DEBUG c f:1:fn: first",
        "more garbage",
    ]));
    let first = it.next().unwrap();
    assert_eq!(first.message, "first");
    assert!(it.next().is_none());
}

#[test]
fn builder_keeps_input_order() {
    let input = lines(&[
        "0:00:09.0 9 t DEBUG c f:1:fn: late",
        "0:00:01.0 1 t DEBUG c f:1:fn: early",
    ]);
    let entries = build_entries(input);
    assert_eq!(entries.len(), 2);
    assert_eq!(entries[0].message, "late");
    assert_eq!(entries[1].message, "early");
}

#[test]
fn entry_renders_back_to_a_line() {
    let line = "0:00:00.123456789  1234 0x55d5c3a1b6e0 DEBUG videodecoder gstvideodecoder.c:1200:gst_video_decoder_finish_frame:<dec0> some message";
    let e = Entry::new(line).unwrap();
    assert_eq!(e.to_line(), line);
    let bare = Entry::new("0:00:01.000000000 7 t INFO c f.c:3:go:").unwrap();
    assert_eq!(bare.to_line(), "0:00:01.000000000  7 t INFO c f.c:3:go:<> ");
}
