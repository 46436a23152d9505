//! Query parameter and response types, and the display forms entries take
//! in query results.
use vstd::prelude::*;

verus! {

use vstd::string::*;
use crate::parser::{Entry, EntryV, level_symbol};
use crate::text::{dec_str, format_ts, u64_to_dec, u64_to_dec_pad};

/// Filter parameters for a log query. Every criterion is optional; absent
/// criteria restrict nothing.
#[derive(Debug)]
pub struct LogFilter {
    pub session_id: String,
    pub level: Option<String>,
    pub categories: Vec<String>,
    pub message_regex: Option<String>,
    pub pid: Option<u32>,
    pub thread: Option<String>,
    pub object: Option<String>,
    pub function_regex: Option<String>,
    pub page: usize,
    pub per_page: usize,
    pub min_timestamp: Option<u64>,
    pub max_timestamp: Option<u64>,
    pub use_microseconds: bool,
}

/// Mathematical image of a `LogFilter`.
pub struct FilterV {
    pub session_id: Seq<char>,
    pub level: Option<Seq<char>>,
    pub categories: Seq<Seq<char>>,
    pub message_regex: Option<Seq<char>>,
    pub pid: Option<u32>,
    pub thread: Option<Seq<char>>,
    pub object: Option<Seq<char>>,
    pub function_regex: Option<Seq<char>>,
    pub page: usize,
    pub per_page: usize,
    pub min_timestamp: Option<u64>,
    pub max_timestamp: Option<u64>,
    pub use_microseconds: bool,
}

impl DeepView for LogFilter {
    type V = FilterV;

    open spec fn deep_view(&self) -> FilterV {
        FilterV {
            session_id: self.session_id@,
            level: self.level.deep_view(),
            categories: self.categories.deep_view(),
            message_regex: self.message_regex.deep_view(),
            pid: self.pid,
            thread: self.thread.deep_view(),
            object: self.object.deep_view(),
            function_regex: self.function_regex.deep_view(),
            page: self.page,
            per_page: self.per_page,
            min_timestamp: self.min_timestamp,
            max_timestamp: self.max_timestamp,
            use_microseconds: self.use_microseconds,
        }
    }
}

/// The page number used when a query names none.
pub fn default_page() -> (r: usize)
    ensures
        r == 1,
{
    1
}

/// The page size used when a query names none.
pub fn default_per_page() -> (r: usize)
    ensures
        r == 100,
{
    100
}

/// An entry in the display form query results carry: the timestamp as its
/// `H:MM:SS.fffffffff` string and the level as its symbol.
#[derive(Debug)]
pub struct SerializableEntry {
    pub ts: String,
    pub pid: u32,
    pub thread: String,
    pub level: String,
    pub category: String,
    pub file: String,
    pub line: u32,
    pub function: String,
    pub message: String,
    pub object: Option<String>,
}

/// Mathematical image of a `SerializableEntry`.
#[verifier::ext_equal]
pub struct SerEntryV {
    pub ts: Seq<char>,
    pub pid: u32,
    pub thread: Seq<char>,
    pub level: Seq<char>,
    pub category: Seq<char>,
    pub file: Seq<char>,
    pub line: u32,
    pub function: Seq<char>,
    pub message: Seq<char>,
    pub object: Option<Seq<char>>,
}

impl DeepView for SerializableEntry {
    type V = SerEntryV;

    open spec fn deep_view(&self) -> SerEntryV {
        SerEntryV {
            ts: self.ts@,
            pid: self.pid,
            thread: self.thread@,
            level: self.level@,
            category: self.category@,
            file: self.file@,
            line: self.line,
            function: self.function@,
            message: self.message@,
            object: self.object.deep_view(),
        }
    }
}

/// Render a nanosecond timestamp as `H:MM:SS.fffffffff`.
pub fn format_timestamp(ns: u64) -> (r: String)
    ensures
        r@ == format_ts(ns),
{
    proof {
        reveal_strlit(":");
        reveal_strlit(".");
    }
    let hours = ns / 3_600_000_000_000;
    let minutes = (ns / 60_000_000_000) % 60;
    let seconds = (ns / 1_000_000_000) % 60;
    let subsec = ns % 1_000_000_000;
    let mut out = u64_to_dec(hours);
    out.append(":");
    out.append(u64_to_dec_pad(minutes, 2).as_str());
    out.append(":");
    out.append(u64_to_dec_pad(seconds, 2).as_str());
    out.append(".");
    out.append(u64_to_dec_pad(subsec, 9).as_str());
    proof {
        assert(out@ =~= format_ts(ns));
    }
    out
}

/// The display image of an entry.
pub open spec fn serial_of(e: EntryV) -> SerEntryV {
    SerEntryV {
        ts: format_ts(e.ts),
        pid: e.pid,
        thread: e.thread,
        level: level_symbol(e.level),
        category: e.category,
        file: e.file,
        line: e.line,
        function: e.function,
        message: e.message,
        object: e.object,
    }
}

impl SerializableEntry {
    /// Put an entry into its display form.
    pub fn from_entry(entry: &Entry) -> (r: SerializableEntry)
        ensures
            r.deep_view() == serial_of(entry.deep_view()),
    {
        let r = SerializableEntry {
            ts: format_timestamp(entry.ts),
            pid: entry.pid,
            thread: entry.thread.clone(),
            level: String::from_str(entry.level.name()),
            category: entry.category.clone(),
            file: entry.file.clone(),
            line: entry.line,
            function: entry.function.clone(),
            message: entry.message.clone(),
            object: match &entry.object {
                Some(o) => Some(o.clone()),
                None => None,
            },
        };
        proof {
            assert(r.deep_view() =~= serial_of(entry.deep_view()));
        }
        r
    }
}

/// The one-line display form of an entry, as the program prints it: two
/// spaces after the timestamp, and the object brackets present even when
/// no object is.
pub open spec fn display_line(e: EntryV) -> Seq<char> {
    format_ts(e.ts) + seq![' ', ' '] + dec_str(e.pid as nat) + seq![' '] + e.thread + seq![' ']
        + level_symbol(e.level) + seq![' '] + e.category + seq![' '] + e.file + seq![':'] + dec_str(
        e.line as nat,
    ) + seq![':'] + e.function + seq![':', '<'] + (match e.object {
        Some(o) => o,
        None => Seq::<char>::empty(),
    }) + seq!['>', ' '] + e.message
}

impl Entry {
    /// Render this entry as its one-line display form.
    pub fn to_line(&self) -> (r: String)
        ensures
            r@ == display_line(self.deep_view()),
    {
        proof {
            reveal_strlit("  ");
            reveal_strlit(" ");
            reveal_strlit(":");
            reveal_strlit(":<");
            reveal_strlit("> ");
        }
        let mut out = format_timestamp(self.ts);
        out.append("  ");
        out.append(u64_to_dec(self.pid as u64).as_str());
        out.append(" ");
        out.append(self.thread.as_str());
        out.append(" ");
        out.append(self.level.name());
        out.append(" ");
        out.append(self.category.as_str());
        out.append(" ");
        out.append(self.file.as_str());
        out.append(":");
        out.append(u64_to_dec(self.line as u64).as_str());
        out.append(":");
        out.append(self.function.as_str());
        out.append(":<");
        match &self.object {
            Some(o) => out.append(o.as_str()),
            None => {},
        }
        out.append("> ");
        out.append(self.message.as_str());
        proof {
            assert(out@ =~= display_line(self.deep_view()));
        }
        out
    }
}

/// A page of matching entries, with the totals a caller needs to page on.
#[derive(Debug)]
pub struct LogResponse {
    pub entries: Vec<SerializableEntry>,
    pub total: usize,
    pub page: usize,
    pub total_pages: usize,
}

/// The distinct values each filterable field takes over a session, for
/// building filter controls.
#[derive(Debug)]
pub struct FilterOptionsResponse {
    pub categories: Vec<String>,
    pub levels: Vec<String>,
    pub pids: Vec<u32>,
    pub threads: Vec<String>,
    pub objects: Vec<String>,
}

} // verus!
