//! Parser for multimedia-framework debug logs.
//!
//! One log line holds, in order: a timestamp `H:MM:SS.fffffffff`, a process
//! id, a thread id, a level symbol, a category, a location
//! `file:line:function:<object>`, and the message. Fields are separated by
//! runs of spaces, and lines may carry ANSI color escapes, which are
//! stripped before tokenizing. `spec_parse_entry` states the grammar;
//! `Entry::new` is the verified tokenizer.
use vstd::prelude::*;

verus! {

use vstd::string::*;
use vstd::arithmetic::div_mod::lemma_fundamental_div_mod;
use crate::text::{
    is_digit, digits_val, valid_u64_digits, valid_u32_digits, find_from, lemma_find_from,
    skip_spaces, lemma_skip_spaces, lemma_skip_spaces_idem, token_end, lemma_token_end,
    find_char_from, skip_spaces_x,
    token_end_x, str_eq, parse_dec_u64, parse_dec_u32, trim_start_by, trim_end_by,
    lemma_trim_start_by, lemma_trim_end_by,
    dec_str, dec_str_pad, lemma_dec_str_val, lemma_dec_str_pad_val, lemma_find_from_is,
    lemma_token_end_is, lemma_skip_spaces_is, lemma_skip_spaces_shift,
    lemma_token_end_shift, no_space, spaces, lemma_spaces_chars, lemma_skip_spaces_through,
};

/// The fixed table of debug levels a line can carry.
#[derive(Debug, Clone, Copy, PartialEq, Eq, Hash)]
pub enum Level {
    Error,
    Warning,
    Fixme,
    Info,
    Debug,
    Log,
    Trace,
    Memdump,
}

/// Which sub-field of the timestamp a failure concerns.
#[derive(Debug, Clone, Copy, PartialEq, Eq)]
pub enum TimestampField {
    Hour,
    Minute,
    Second,
    SubSecond,
}

/// The structured fields of a line, used to say which one was missing.
#[derive(Debug, Clone, Copy, PartialEq, Eq)]
pub enum Token {
    Timestamp { field: Option<TimestampField> },
    PID,
    Thread,
    Level,
    Category,
    File,
    LineNumber,
    Function,
    Message,
    Object,
}

/// A classified per-line parse failure.
#[derive(Debug, PartialEq, Eq)]
pub enum ParsingError {
    InvalidDebugLevel { name: String },
    InvalidTimestamp { ts: String, field: TimestampField },
    MissingToken { t: Token },
    InvalidPID { pid: String },
    MissingLocation,
    InvalidLineNumber { line: String },
}

/// Mathematical image of a `ParsingError`, with strings as `Seq<char>`.
#[verifier::ext_equal]
pub enum ParseErrV {
    InvalidDebugLevel { name: Seq<char> },
    InvalidTimestamp { ts: Seq<char>, field: TimestampField },
    MissingToken { t: Token },
    InvalidPID { pid: Seq<char> },
    MissingLocation,
    InvalidLineNumber { line: Seq<char> },
}

impl DeepView for ParsingError {
    type V = ParseErrV;

    open spec fn deep_view(&self) -> ParseErrV {
        match self {
            ParsingError::InvalidDebugLevel { name } => ParseErrV::InvalidDebugLevel {
                name: name@,
            },
            ParsingError::InvalidTimestamp { ts, field } => ParseErrV::InvalidTimestamp {
                ts: ts@,
                field: *field,
            },
            ParsingError::MissingToken { t } => ParseErrV::MissingToken { t: *t },
            ParsingError::InvalidPID { pid } => ParseErrV::InvalidPID { pid: pid@ },
            ParsingError::MissingLocation => ParseErrV::MissingLocation,
            ParsingError::InvalidLineNumber { line } => ParseErrV::InvalidLineNumber {
                line: line@,
            },
        }
    }
}

/// One parsed log line. The timestamp is monotonic device time in
/// nanoseconds.
#[derive(Debug)]
pub struct Entry {
    pub ts: u64,
    pub pid: u32,
    pub thread: String,
    pub level: Level,
    pub category: String,
    pub file: String,
    pub line: u32,
    pub function: String,
    pub message: String,
    pub object: Option<String>,
}

/// Mathematical image of an `Entry`.
#[verifier::ext_equal]
pub struct EntryV {
    pub ts: u64,
    pub pid: u32,
    pub thread: Seq<char>,
    pub level: Level,
    pub category: Seq<char>,
    pub file: Seq<char>,
    pub line: u32,
    pub function: Seq<char>,
    pub message: Seq<char>,
    pub object: Option<Seq<char>>,
}

impl DeepView for Entry {
    type V = EntryV;

    open spec fn deep_view(&self) -> EntryV {
        EntryV {
            ts: self.ts,
            pid: self.pid,
            thread: self.thread@,
            level: self.level,
            category: self.category@,
            file: self.file@,
            line: self.line,
            function: self.function@,
            message: self.message@,
            object: self.object.deep_view(),
        }
    }
}

/// The symbol under which a level appears in a line and in query results.
pub open spec fn level_symbol(l: Level) -> Seq<char> {
    match l {
        Level::Error => "ERROR"@,
        Level::Warning => "WARNING"@,
        Level::Fixme => "FIXME"@,
        Level::Info => "INFO"@,
        Level::Debug => "DEBUG"@,
        Level::Log => "LOG"@,
        Level::Trace => "TRACE"@,
        Level::Memdump => "MEMDUMP"@,
    }
}

impl Level {
    /// The display name of this level.
    pub fn name(&self) -> (r: &'static str)
        ensures
            r@ == level_symbol(*self),
    {
        match self {
            Level::Error => "ERROR",
            Level::Warning => "WARNING",
            Level::Fixme => "FIXME",
            Level::Info => "INFO",
            Level::Debug => "DEBUG",
            Level::Log => "LOG",
            Level::Trace => "TRACE",
            Level::Memdump => "MEMDUMP",
        }
    }
}

/// Level lookup: a token names a level exactly when it equals one of the
/// eight symbols.
pub open spec fn spec_parse_level(tok: Seq<char>) -> Result<Level, ParseErrV> {
    if tok == "ERROR"@ {
        Ok(Level::Error)
    } else if tok == "WARNING"@ {
        Ok(Level::Warning)
    } else if tok == "FIXME"@ {
        Ok(Level::Fixme)
    } else if tok == "INFO"@ {
        Ok(Level::Info)
    } else if tok == "DEBUG"@ {
        Ok(Level::Debug)
    } else if tok == "LOG"@ {
        Ok(Level::Log)
    } else if tok == "TRACE"@ {
        Ok(Level::Trace)
    } else if tok == "MEMDUMP"@ {
        Ok(Level::Memdump)
    } else {
        Err(ParseErrV::InvalidDebugLevel { name: tok })
    }
}

pub open spec fn level_result_view(r: Result<Level, ParsingError>) -> Result<Level, ParseErrV> {
    match r {
        Ok(l) => Ok(l),
        Err(e) => Err(e.deep_view()),
    }
}

/// Match a token case-sensitively against the fixed table of level symbols.
pub fn parse_debug_level(s: &str) -> (r: Result<Level, ParsingError>)
    ensures
        level_result_view(r) == spec_parse_level(s@),
{
    if str_eq(s, "ERROR") {
        Ok(Level::Error)
    } else if str_eq(s, "WARNING") {
        Ok(Level::Warning)
    } else if str_eq(s, "FIXME") {
        Ok(Level::Fixme)
    } else if str_eq(s, "INFO") {
        Ok(Level::Info)
    } else if str_eq(s, "DEBUG") {
        Ok(Level::Debug)
    } else if str_eq(s, "LOG") {
        Ok(Level::Log)
    } else if str_eq(s, "TRACE") {
        Ok(Level::Trace)
    } else if str_eq(s, "MEMDUMP") {
        Ok(Level::Memdump)
    } else {
        Err(ParsingError::InvalidDebugLevel { name: String::from_str(s) })
    }
}

/// The escape character that opens an ANSI color code.
pub open spec fn esc_char() -> char {
    '\u{1b}'
}

/// Characters allowed in the parameter run of a color code.
pub open spec fn is_color_param(c: char) -> bool {
    is_digit(c) || c == ';'
}

/// End position (exclusive) of a color code's parameter run and final `m`,
/// scanning from `j`; `None` when the code is unterminated.
pub open spec fn color_end(s: Seq<char>, j: int) -> Option<int>
    decreases s.len() - j,
{
    if j < 0 || j >= s.len() {
        None
    } else if s[j] == 'm' {
        Some(j + 1)
    } else if is_color_param(s[j]) {
        color_end(s, j + 1)
    } else {
        None
    }
}

pub proof fn lemma_color_end(s: Seq<char>, j: int)
    requires
        0 <= j <= s.len(),
    ensures
        match color_end(s, j) {
            Some(e) => j < e <= s.len(),
            None => true,
        },
    decreases s.len() - j,
{
    if j < s.len() && s[j] != 'm' && is_color_param(s[j]) {
        lemma_color_end(s, j + 1);
    }
}

/// The characters of `s` from `i` on, with ANSI color escapes
/// (`ESC` `[` digits/semicolons `m`) removed.
pub open spec fn strip_from(s: Seq<char>, i: int) -> Seq<char>
    decreases s.len() - i,
    via strip_from_dec
{
    if i < 0 || i >= s.len() {
        Seq::empty()
    } else if i + 1 < s.len() && s[i] == esc_char() && s[i + 1] == '[' {
        match color_end(s, i + 2) {
            Some(e) => strip_from(s, e),
            None => seq![s[i]] + strip_from(s, i + 1),
        }
    } else {
        seq![s[i]] + strip_from(s, i + 1)
    }
}

#[via_fn]
proof fn strip_from_dec(s: Seq<char>, i: int) {
    if 0 <= i && i + 1 < s.len() && s[i] == esc_char() && s[i + 1] == '[' {
        lemma_color_end(s, i + 2);
    }
}

fn is_color_param_x(c: char) -> (r: bool)
    ensures
        r == is_color_param(c),
{
    ('0' <= c && c <= '9') || c == ';'
}

/// Remove ANSI color escapes from a line.
pub fn strip_colors(s: &str) -> (r: String)
    ensures
        r@ == strip_from(s@, 0),
{
    let len = s.unicode_len();
    let mut out = String::new();
    let mut i: usize = 0;
    while i < len
        invariant
            0 <= i <= len,
            len == s@.len(),
            strip_from(s@, 0) == out@ + strip_from(s@, i as int),
        decreases len - i,
    {
        let c = s.get_char(i);
        if c == '\u{1b}' && i + 1 < len && s.get_char(i + 1) == '[' {
            let mut j = i + 2;
            while j < len && is_color_param_x(s.get_char(j))
                invariant
                    i + 2 <= j <= len,
                    len == s@.len(),
                    color_end(s@, (i + 2) as int) == color_end(s@, j as int),
                decreases len - j,
            {
                proof {
                    assert(s@[j as int] != 'm');
                    assert(color_end(s@, j as int) == color_end(s@, j + 1));
                }
                j = j + 1;
            }
            if j < len && s.get_char(j) == 'm' {
                proof {
                    assert(color_end(s@, j as int) == Some(j + 1));
                    assert(strip_from(s@, i as int) == strip_from(s@, j + 1));
                }
                i = j + 1;
            } else {
                proof {
                    assert(color_end(s@, j as int) is None);
                    assert(strip_from(s@, i as int) == seq![s@[i as int]] + strip_from(
                        s@,
                        i + 1,
                    ));
                }
                let piece = s.substring_char(i, i + 1);
                proof {
                    assert(piece@ =~= seq![s@[i as int]]);
                }
                out.append(piece);
                i = i + 1;
            }
        } else {
            proof {
                assert(strip_from(s@, i as int) == seq![s@[i as int]] + strip_from(s@, i + 1));
            }
            let piece = s.substring_char(i, i + 1);
            proof {
                assert(piece@ =~= seq![s@[i as int]]);
            }
            out.append(piece);
            i = i + 1;
        }
    }
    proof {
        assert(strip_from(s@, len as int) =~= Seq::<char>::empty());
        assert(out@ + Seq::<char>::empty() =~= out@);
    }
    out
}

/// The timestamp grammar `H:MM:SS.fffffffff`: three colon-separated parts,
/// the last split on a dot, each an unsigned integer; the whole composes to
/// nanoseconds.
pub open spec fn spec_parse_time(ts: Seq<char>) -> Result<u64, ParseErrV> {
    match find_from(ts, ':', 0) {
        None => if !valid_u64_digits(ts) {
            Err(ParseErrV::InvalidTimestamp { ts, field: TimestampField::Hour })
        } else {
            Err(
                ParseErrV::MissingToken {
                    t: Token::Timestamp { field: Some(TimestampField::Minute) },
                },
            )
        },
        Some(i1) => {
            let h_tok = ts.take(i1);
            let r1 = ts.skip(i1 + 1);
            if !valid_u64_digits(h_tok) {
                Err(ParseErrV::InvalidTimestamp { ts, field: TimestampField::Hour })
            } else {
                match find_from(r1, ':', 0) {
                    None => if !valid_u64_digits(r1) {
                        Err(ParseErrV::InvalidTimestamp { ts, field: TimestampField::Minute })
                    } else {
                        Err(
                            ParseErrV::MissingToken {
                                t: Token::Timestamp { field: Some(TimestampField::Second) },
                            },
                        )
                    },
                    Some(i2) => {
                        let m_tok = r1.take(i2);
                        let rest = r1.skip(i2 + 1);
                        if !valid_u64_digits(m_tok) {
                            Err(
                                ParseErrV::InvalidTimestamp {
                                    ts,
                                    field: TimestampField::Minute,
                                },
                            )
                        } else {
                            match find_from(rest, '.', 0) {
                                None => if !valid_u64_digits(rest) {
                                    Err(
                                        ParseErrV::InvalidTimestamp {
                                            ts,
                                            field: TimestampField::Second,
                                        },
                                    )
                                } else {
                                    Err(
                                        ParseErrV::MissingToken {
                                            t: Token::Timestamp {
                                                field: Some(TimestampField::SubSecond),
                                            },
                                        },
                                    )
                                },
                                Some(i3) => {
                                    let s_tok = rest.take(i3);
                                    let sub_tok = rest.skip(i3 + 1);
                                    if !valid_u64_digits(s_tok) {
                                        Err(
                                            ParseErrV::InvalidTimestamp {
                                                ts,
                                                field: TimestampField::Second,
                                            },
                                        )
                                    } else if !valid_u64_digits(sub_tok) {
                                        Err(
                                            ParseErrV::InvalidTimestamp {
                                                ts,
                                                field: TimestampField::SubSecond,
                                            },
                                        )
                                    } else {
                                        let total = (digits_val(h_tok) * 3600 + digits_val(m_tok)
                                            * 60 + digits_val(s_tok)) * 1_000_000_000
                                            + digits_val(sub_tok);
                                        if total <= u64::MAX {
                                            Ok(total as u64)
                                        } else {
                                            Err(
                                                ParseErrV::InvalidTimestamp {
                                                    ts,
                                                    field: TimestampField::Second,
                                                },
                                            )
                                        }
                                    }
                                },
                            }
                        }
                    },
                }
            }
        },
    }
}

pub open spec fn time_result_view(r: Result<u64, ParsingError>) -> Result<u64, ParseErrV> {
    match r {
        Ok(v) => Ok(v),
        Err(e) => Err(e.deep_view()),
    }
}

/// Parse a `H:MM:SS.fffffffff` timestamp token into nanoseconds.
pub fn parse_time(ts: &str) -> (r: Result<u64, ParsingError>)
    ensures
        time_result_view(r) == spec_parse_time(ts@),
{
    let len = ts.unicode_len();
    let c1 = find_char_from(ts, ':', 0);
    proof {
        lemma_find_from(ts@, ':', 0);
    }
    match c1 {
        None => {
            match parse_dec_u64(ts) {
                None => Err(
                    ParsingError::InvalidTimestamp {
                        ts: String::from_str(ts),
                        field: TimestampField::Hour,
                    },
                ),
                Some(_) => Err(
                    ParsingError::MissingToken {
                        t: Token::Timestamp { field: Some(TimestampField::Minute) },
                    },
                ),
            }
        },
        Some(i1) => {
            let h_tok = ts.substring_char(0, i1);
            proof {
                assert(h_tok@ =~= ts@.take(i1 as int));
            }
            match parse_dec_u64(h_tok) {
                None => Err(
                    ParsingError::InvalidTimestamp {
                        ts: String::from_str(ts),
                        field: TimestampField::Hour,
                    },
                ),
                Some(h) => {
                    let r1 = ts.substring_char(i1 + 1, len);
                    proof {
                        assert(r1@ =~= ts@.skip(i1 + 1));
                    }
                    let c2 = find_char_from(r1, ':', 0);
                    proof {
                        lemma_find_from(r1@, ':', 0);
                    }
                    match c2 {
                        None => {
                            match parse_dec_u64(r1) {
                                None => Err(
                                    ParsingError::InvalidTimestamp {
                                        ts: String::from_str(ts),
                                        field: TimestampField::Minute,
                                    },
                                ),
                                Some(_) => Err(
                                    ParsingError::MissingToken {
                                        t: Token::Timestamp {
                                            field: Some(TimestampField::Second),
                                        },
                                    },
                                ),
                            }
                        },
                        Some(i2) => {
                            let r1_len = r1.unicode_len();
                            let m_tok = r1.substring_char(0, i2);
                            proof {
                                assert(m_tok@ =~= r1@.take(i2 as int));
                            }
                            match parse_dec_u64(m_tok) {
                                None => Err(
                                    ParsingError::InvalidTimestamp {
                                        ts: String::from_str(ts),
                                        field: TimestampField::Minute,
                                    },
                                ),
                                Some(m) => {
                                    let rest = r1.substring_char(i2 + 1, r1_len);
                                    proof {
                                        assert(rest@ =~= r1@.skip(i2 + 1));
                                    }
                                    let c3 = find_char_from(rest, '.', 0);
                                    proof {
                                        lemma_find_from(rest@, '.', 0);
                                    }
                                    match c3 {
                                        None => {
                                            match parse_dec_u64(rest) {
                                                None => Err(
                                                    ParsingError::InvalidTimestamp {
                                                        ts: String::from_str(ts),
                                                        field: TimestampField::Second,
                                                    },
                                                ),
                                                Some(_) => Err(
                                                    ParsingError::MissingToken {
                                                        t: Token::Timestamp {
                                                            field: Some(TimestampField::SubSecond),
                                                        },
                                                    },
                                                ),
                                            }
                                        },
                                        Some(i3) => {
                                            let rest_len = rest.unicode_len();
                                            let s_tok = rest.substring_char(0, i3);
                                            let sub_tok = rest.substring_char(i3 + 1, rest_len);
                                            proof {
                                                assert(s_tok@ =~= rest@.take(i3 as int));
                                                assert(sub_tok@ =~= rest@.skip(i3 + 1));
                                            }
                                            match parse_dec_u64(s_tok) {
                                                None => Err(
                                                    ParsingError::InvalidTimestamp {
                                                        ts: String::from_str(ts),
                                                        field: TimestampField::Second,
                                                    },
                                                ),
                                                Some(secs) => {
                                                    match parse_dec_u64(sub_tok) {
                                                        None => Err(
                                                            ParsingError::InvalidTimestamp {
                                                                ts: String::from_str(ts),
                                                                field: TimestampField::SubSecond,
                                                            },
                                                        ),
                                                        Some(sub) => compose_time(
                                                            ts,
                                                            h,
                                                            m,
                                                            secs,
                                                            sub,
                                                        ),
                                                    }
                                                },
                                            }
                                        },
                                    }
                                },
                            }
                        },
                    }
                },
            }
        },
    }
}

/// Compose hour, minute, second, and subsecond values into nanoseconds,
/// rejecting values whose total does not fit the representation.
fn compose_time(ts: &str, h: u64, m: u64, secs: u64, sub: u64) -> (r: Result<u64, ParsingError>)
    ensures
        ({
            let total = (h * 3600 + m * 60 + secs) * 1_000_000_000 + sub;
            time_result_view(r) == if total <= u64::MAX {
                Ok::<u64, ParseErrV>(total as u64)
            } else {
                Err::<u64, ParseErrV>(
                    ParseErrV::InvalidTimestamp { ts: ts@, field: TimestampField::Second },
                )
            }
        }),
{
    let ghost total = (h * 3600 + m * 60 + secs) * 1_000_000_000 + sub;
    let fail = || -> (e: ParsingError)
        ensures
            e.deep_view() == (ParseErrV::InvalidTimestamp { ts: ts@, field: TimestampField::Second }),
        { ParsingError::InvalidTimestamp { ts: String::from_str(ts), field: TimestampField::Second } };
    match h.checked_mul(3600) {
        None => {
            proof {
                assert(total > u64::MAX) by (nonlinear_arith)
                    requires
                        total == (h * 3600 + m * 60 + secs) * 1_000_000_000 + sub,
                        h * 3600 > u64::MAX,
                ;
            }
            Err(fail())
        },
        Some(a) => match a.checked_add(match m.checked_mul(60) {
            None => {
                proof {
                    assert(total > u64::MAX) by (nonlinear_arith)
                        requires
                            total == (h * 3600 + m * 60 + secs) * 1_000_000_000 + sub,
                            m * 60 > u64::MAX,
                    ;
                }
                return Err(fail());
            },
            Some(b) => b,
        }) {
            None => {
                proof {
                    assert(total > u64::MAX) by (nonlinear_arith)
                        requires
                            total == (h * 3600 + m * 60 + secs) * 1_000_000_000 + sub,
                            h * 3600 + m * 60 > u64::MAX,
                    ;
                }
                Err(fail())
            },
            Some(c) => match c.checked_add(secs) {
                None => {
                    proof {
                        assert(total > u64::MAX) by (nonlinear_arith)
                            requires
                                total == (h * 3600 + m * 60 + secs) * 1_000_000_000 + sub,
                                h * 3600 + m * 60 + secs > u64::MAX,
                        ;
                    }
                    Err(fail())
                },
                Some(d) => match d.checked_mul(1_000_000_000) {
                    None => {
                        proof {
                            assert(total > u64::MAX) by (nonlinear_arith)
                                requires
                                    total == (h * 3600 + m * 60 + secs) * 1_000_000_000 + sub,
                                    d == h * 3600 + m * 60 + secs,
                                    d * 1_000_000_000 > u64::MAX,
                            ;
                        }
                        Err(fail())
                    },
                    Some(e) => match e.checked_add(sub) {
                        None => Err(fail()),
                        Some(t) => Ok(t),
                    },
                },
            },
        },
    }
}

/// The location grammar `file:line:function:<object>`: split into at most
/// four parts on `:`; the object keeps any further colons, loses its angle
/// brackets, and is absent when its segment is empty.
pub open spec fn spec_split_location(loc: Seq<char>) -> Result<
    (Seq<char>, u32, Seq<char>, Option<Seq<char>>),
    ParseErrV,
> {
    match find_from(loc, ':', 0) {
        None => Err(ParseErrV::MissingToken { t: Token::LineNumber }),
        Some(i1) => {
            let file = loc.take(i1);
            let r1 = loc.skip(i1 + 1);
            match find_from(r1, ':', 0) {
                None => if !valid_u32_digits(r1) {
                    Err(ParseErrV::InvalidLineNumber { line: r1 })
                } else {
                    Err(ParseErrV::MissingToken { t: Token::Function })
                },
                Some(i2) => {
                    let line_tok = r1.take(i2);
                    let r2 = r1.skip(i2 + 1);
                    if !valid_u32_digits(line_tok) {
                        Err(ParseErrV::InvalidLineNumber { line: line_tok })
                    } else {
                        match find_from(r2, ':', 0) {
                            None => Err(ParseErrV::MissingToken { t: Token::Object }),
                            Some(i3) => {
                                let function = r2.take(i3);
                                let obj = r2.skip(i3 + 1);
                                let object = if obj.len() == 0 {
                                    None
                                } else {
                                    Some(trim_angle(obj))
                                };
                                Ok((file, digits_val(line_tok) as u32, function, object))
                            },
                        }
                    }
                },
            }
        },
    }
}

/// An object segment with its leading `<` and trailing `>` brackets removed.
pub open spec fn trim_angle(s: Seq<char>) -> Seq<char> {
    trim_end_by(trim_start_by(s, |c: char| c == '<'), |c: char| c == '>')
}

/// Exec counterpart of `trim_angle`.
fn trim_angle_x(s: &str) -> (r: &str)
    ensures
        r@ == trim_angle(s@),
{
    let len = s.unicode_len();
    let mut a: usize = 0;
    while a < len && s.get_char(a) == '<'
        invariant
            0 <= a <= len,
            len == s@.len(),
            forall|k: int| 0 <= k < a ==> s@[k] == '<',
        decreases len - a,
    {
        a = a + 1;
    }
    proof {
        lemma_trim_start_by(s@, |c: char| c == '<', a as int);
    }
    let mut b: usize = len;
    while b > a && s.get_char(b - 1) == '>'
        invariant
            a <= b <= len,
            len == s@.len(),
            forall|k: int| b <= k < len ==> s@[k] == '>',
        decreases b,
    {
        b = b - 1;
    }
    let r = s.substring_char(a, b);
    proof {
        let t = s@.skip(a as int);
        if b > a {
            lemma_trim_end_by(t, |c: char| c == '>', b - a);
        } else {
            lemma_trim_end_by(t, |c: char| c == '>', 0);
        }
        assert(t.take(b - a) =~= s@.subrange(a as int, b as int));
    }
    r
}

pub open spec fn loc_result_view(r: Result<(String, u32, String, Option<String>), ParsingError>)
    -> Result<(Seq<char>, u32, Seq<char>, Option<Seq<char>>), ParseErrV> {
    match r {
        Ok(t) => Ok((t.0@, t.1, t.2@, t.3.deep_view())),
        Err(e) => Err(e.deep_view()),
    }
}

/// Split a location token `file:line:function:<object>` into its parts.
pub fn split_location(location: &str) -> (r: Result<
    (String, u32, String, Option<String>),
    ParsingError,
>)
    ensures
        loc_result_view(r) == spec_split_location(location@),
{
    let len = location.unicode_len();
    let c1 = find_char_from(location, ':', 0);
    proof {
        lemma_find_from(location@, ':', 0);
    }
    match c1 {
        None => Err(ParsingError::MissingToken { t: Token::LineNumber }),
        Some(i1) => {
            let file = location.substring_char(0, i1);
            let r1 = location.substring_char(i1 + 1, len);
            proof {
                assert(file@ =~= location@.take(i1 as int));
                assert(r1@ =~= location@.skip(i1 + 1));
            }
            let r1_len = r1.unicode_len();
            let c2 = find_char_from(r1, ':', 0);
            proof {
                lemma_find_from(r1@, ':', 0);
            }
            match c2 {
                None => {
                    match parse_dec_u32(r1) {
                        None => Err(
                            ParsingError::InvalidLineNumber { line: String::from_str(r1) },
                        ),
                        Some(_) => Err(ParsingError::MissingToken { t: Token::Function }),
                    }
                },
                Some(i2) => {
                    let line_tok = r1.substring_char(0, i2);
                    let r2 = r1.substring_char(i2 + 1, r1_len);
                    proof {
                        assert(line_tok@ =~= r1@.take(i2 as int));
                        assert(r2@ =~= r1@.skip(i2 + 1));
                    }
                    match parse_dec_u32(line_tok) {
                        None => Err(
                            ParsingError::InvalidLineNumber {
                                line: String::from_str(line_tok),
                            },
                        ),
                        Some(lineno) => {
                            let r2_len = r2.unicode_len();
                            let c3 = find_char_from(r2, ':', 0);
                            proof {
                                lemma_find_from(r2@, ':', 0);
                            }
                            match c3 {
                                None => Err(ParsingError::MissingToken { t: Token::Object }),
                                Some(i3) => {
                                    let function = r2.substring_char(0, i3);
                                    let obj = r2.substring_char(i3 + 1, r2_len);
                                    proof {
                                        assert(function@ =~= r2@.take(i3 as int));
                                        assert(obj@ =~= r2@.skip(i3 + 1));
                                    }
                                    let object = if obj.unicode_len() == 0 {
                                        None
                                    } else {
                                        Some(String::from_str(trim_angle_x(obj)))
                                    };
                                    Ok(
                                        (
                                            String::from_str(file),
                                            lineno,
                                            String::from_str(function),
                                            object,
                                        ),
                                    )
                                },
                            }
                        },
                    }
                },
            }
        },
    }
}

/// The message: the remaining tokens from `i` on, joined with single
/// spaces, so that runs of separating spaces collapse.
pub open spec fn collapse_from(s: Seq<char>, i: int) -> Seq<char>
    decreases s.len() - i,
    via collapse_from_dec
{
    if i < 0 || i >= s.len() {
        Seq::empty()
    } else {
        let p = skip_spaces(s, i);
        if p >= s.len() {
            Seq::empty()
        } else {
            let e = token_end(s, p);
            let rest = collapse_from(s, e);
            if rest.len() == 0 {
                s.subrange(p, e)
            } else {
                s.subrange(p, e) + seq![' '] + rest
            }
        }
    }
}

#[via_fn]
proof fn collapse_from_dec(s: Seq<char>, i: int) {
    if 0 <= i < s.len() {
        lemma_skip_spaces(s, i);
        let p = skip_spaces(s, i);
        if p < s.len() {
            lemma_token_end(s, p);
        }
    }
}

/// Skipping spaces first does not change the collapsed message.
proof fn lemma_collapse_skip(s: Seq<char>, i: int)
    requires
        0 <= i <= s.len(),
    ensures
        collapse_from(s, i) == collapse_from(s, skip_spaces(s, i)),
{
    lemma_skip_spaces(s, i);
    let p = skip_spaces(s, i);
    if p < s.len() {
        assert(skip_spaces(s, p) == p);
    }
}

/// Build the message from the tokens at or after `i`.
fn collapse_message(s: &str, i: usize) -> (r: String)
    requires
        i <= s@.len(),
    ensures
        r@ == collapse_from(s@, i as int),
{
    let len = s.unicode_len();
    let mut out = String::new();
    let mut p = skip_spaces_x(s, i);
    proof {
        lemma_collapse_skip(s@, i as int);
        lemma_skip_spaces(s@, i as int);
        lemma_skip_spaces_idem(s@, i as int);
    }
    while p < len
        invariant
            0 <= p <= len,
            len == s@.len(),
            skip_spaces(s@, p as int) == p as int,
            out@.len() == 0 ==> collapse_from(s@, i as int) == collapse_from(s@, p as int),
            out@.len() > 0 ==> collapse_from(s@, i as int) == out@ + (if collapse_from(
                s@,
                p as int,
            ).len() == 0 {
                Seq::<char>::empty()
            } else {
                seq![' '] + collapse_from(s@, p as int)
            }),
        decreases len - p,
    {
        proof {
            lemma_token_end(s@, p as int);
            if s@[p as int] == ' ' {
                lemma_skip_spaces(s@, p + 1);
                assert(skip_spaces(s@, p as int) == skip_spaces(s@, p + 1));
                assert(false);
            }
        }
        let e = token_end_x(s, p);
        let tok = s.substring_char(p, e);
        proof {
            assert(s@[p as int] != ' ');
            assert(e > p);
            lemma_collapse_skip(s@, e as int);
            lemma_skip_spaces(s@, e as int);
            // unfold collapse at p: its leading skip stays at p
            assert(collapse_from(s@, p as int) == (if collapse_from(s@, e as int).len() == 0 {
                s@.subrange(p as int, e as int)
            } else {
                s@.subrange(p as int, e as int) + seq![' '] + collapse_from(s@, e as int)
            }));
        }
        let was_empty = out.as_str().unicode_len() == 0;
        if !was_empty {
            out.append(" ");
            proof {
                reveal_strlit(" ");
            }
        }
        out.append(tok);
        let p2 = skip_spaces_x(s, e);
        proof {
            lemma_skip_spaces_idem(s@, e as int);
            assert(collapse_from(s@, e as int) == collapse_from(s@, p2 as int));
            assert(s@.subrange(p as int, e as int).len() > 0);
        }
        p = p2;
    }
    proof {
        assert(collapse_from(s@, p as int) == Seq::<char>::empty());
        if out@.len() > 0 {
            assert(out@ + Seq::<char>::empty() =~= out@);
        }
    }
    out
}

pub open spec fn entry_result_view(r: Result<Entry, ParsingError>) -> Result<EntryV, ParseErrV> {
    match r {
        Ok(e) => Ok(e.deep_view()),
        Err(x) => Err(x.deep_view()),
    }
}

/// The whole line grammar: color stripping, then the ordered fields —
/// timestamp, pid, thread, level, category, location — then the collapsed
/// message.
pub open spec fn spec_parse_entry(line: Seq<char>) -> Result<EntryV, ParseErrV> {
    let s = strip_from(line, 0);
    let e0 = token_end(s, 0);
    match spec_parse_time(s.take(e0)) {
        Err(er) => Err(er),
        Ok(ts) => spec_after_time(s, ts, e0),
    }
}

/// The grammar from the pid field on, with `e0` just past the timestamp.
pub open spec fn spec_after_time(s: Seq<char>, ts: u64, e0: int) -> Result<EntryV, ParseErrV> {
    let p1 = skip_spaces(s, e0);
    if p1 >= s.len() {
        Err(ParseErrV::MissingToken { t: Token::PID })
    } else {
        let e1 = token_end(s, p1);
        let pid_tok = s.subrange(p1, e1);
        if !valid_u32_digits(pid_tok) {
            Err(ParseErrV::InvalidPID { pid: pid_tok })
        } else {
            spec_after_pid(s, ts, digits_val(pid_tok) as u32, e1)
        }
    }
}

/// The grammar from the thread field on.
pub open spec fn spec_after_pid(s: Seq<char>, ts: u64, pid: u32, e1: int) -> Result<
    EntryV,
    ParseErrV,
> {
    let p2 = skip_spaces(s, e1);
    if p2 >= s.len() {
        Err(ParseErrV::MissingToken { t: Token::Thread })
    } else {
        let e2 = token_end(s, p2);
        spec_after_thread(s, ts, pid, s.subrange(p2, e2), e2)
    }
}

/// The grammar from the level field on.
pub open spec fn spec_after_thread(
    s: Seq<char>,
    ts: u64,
    pid: u32,
    thread: Seq<char>,
    e2: int,
) -> Result<EntryV, ParseErrV> {
    let p3 = skip_spaces(s, e2);
    if p3 >= s.len() {
        Err(ParseErrV::MissingToken { t: Token::Level })
    } else {
        let e3 = token_end(s, p3);
        match spec_parse_level(s.subrange(p3, e3)) {
            Err(er) => Err(er),
            Ok(level) => spec_after_level(s, ts, pid, thread, level, e3),
        }
    }
}

/// The grammar from the category field on.
pub open spec fn spec_after_level(
    s: Seq<char>,
    ts: u64,
    pid: u32,
    thread: Seq<char>,
    level: Level,
    e3: int,
) -> Result<EntryV, ParseErrV> {
    let p4 = skip_spaces(s, e3);
    if p4 >= s.len() {
        Err(ParseErrV::MissingToken { t: Token::Category })
    } else {
        let e4 = token_end(s, p4);
        spec_after_category(s, ts, pid, thread, level, s.subrange(p4, e4), e4)
    }
}

/// The grammar from the location field on, ending in the message.
pub open spec fn spec_after_category(
    s: Seq<char>,
    ts: u64,
    pid: u32,
    thread: Seq<char>,
    level: Level,
    category: Seq<char>,
    e4: int,
) -> Result<EntryV, ParseErrV> {
    let p5 = skip_spaces(s, e4);
    if p5 >= s.len() {
        Err(ParseErrV::MissingLocation)
    } else {
        let e5 = token_end(s, p5);
        match spec_split_location(s.subrange(p5, e5)) {
            Err(er) => Err(er),
            Ok(loc) => Ok(
                EntryV {
                    ts,
                    pid,
                    thread,
                    level,
                    category,
                    file: loc.0,
                    line: loc.1,
                    function: loc.2,
                    object: loc.3,
                    message: collapse_from(s, e5),
                },
            ),
        }
    }
}

impl Entry {
    /// Tokenize one line into an `Entry`, or classify why it cannot be.
    pub fn new(line: &str) -> (r: Result<Entry, ParsingError>)
        ensures
            entry_result_view(r) == spec_parse_entry(line@),
    {
        let stripped = strip_colors(line);
        let s = stripped.as_str();
        let ghost sv = strip_from(line@, 0);
        let len = s.unicode_len();
        let e0 = token_end_x(s, 0);
        let ts_tok = s.substring_char(0, e0);
        proof {
            assert(ts_tok@ =~= sv.take(e0 as int));
        }
        let ts = match parse_time(ts_tok) {
            Ok(v) => v,
            Err(er) => {
                return Err(er);
            },
        };
        let p1 = skip_spaces_x(s, e0);
        if p1 >= len {
            return Err(ParsingError::MissingToken { t: Token::PID });
        }
        let e1 = token_end_x(s, p1);
        let pid_tok = s.substring_char(p1, e1);
        let pid = match parse_dec_u32(pid_tok) {
            Some(v) => v,
            None => {
                return Err(ParsingError::InvalidPID { pid: String::from_str(pid_tok) });
            },
        };
        let p2 = skip_spaces_x(s, e1);
        if p2 >= len {
            return Err(ParsingError::MissingToken { t: Token::Thread });
        }
        let e2 = token_end_x(s, p2);
        let thread = String::from_str(s.substring_char(p2, e2));
        let p3 = skip_spaces_x(s, e2);
        if p3 >= len {
            return Err(ParsingError::MissingToken { t: Token::Level });
        }
        let e3 = token_end_x(s, p3);
        let level = match parse_debug_level(s.substring_char(p3, e3)) {
            Ok(l) => l,
            Err(er) => {
                return Err(er);
            },
        };
        let p4 = skip_spaces_x(s, e3);
        if p4 >= len {
            return Err(ParsingError::MissingToken { t: Token::Category });
        }
        let e4 = token_end_x(s, p4);
        let category = String::from_str(s.substring_char(p4, e4));
        let p5 = skip_spaces_x(s, e4);
        if p5 >= len {
            return Err(ParsingError::MissingLocation);
        }
        let e5 = token_end_x(s, p5);
        let loc = match split_location(s.substring_char(p5, e5)) {
            Ok(t) => t,
            Err(er) => {
                return Err(er);
            },
        };
        let message = collapse_message(s, e5);
        let entry = Entry {
            ts,
            pid,
            thread,
            level,
            category,
            file: loc.0,
            line: loc.1,
            function: loc.2,
            object: loc.3,
            message,
        };
        proof {
            assert(entry.deep_view() =~= spec_parse_entry(line@)->Ok_0);
        }
        Ok(entry)
    }
}

/// The entries of a sequence of lines, in order, with unparsable lines
/// dropped.
pub open spec fn entries_of(lines: Seq<Seq<char>>) -> Seq<EntryV>
    decreases lines.len(),
{
    if lines.len() == 0 {
        Seq::empty()
    } else {
        match spec_parse_entry(lines[0]) {
            Ok(e) => seq![e] + entries_of(lines.drop_first()),
            Err(_) => entries_of(lines.drop_first()),
        }
    }
}

/// The number of lines a parse would reject.
pub open spec fn malformed_count(lines: Seq<Seq<char>>) -> nat
    decreases lines.len(),
{
    if lines.len() == 0 {
        0
    } else {
        (if spec_parse_entry(lines[0]) is Err {
            1nat
        } else {
            0nat
        }) + malformed_count(lines.drop_first())
    }
}

/// The stream builder drops exactly the malformed lines: entries produced
/// plus lines rejected equals lines given.
pub proof fn lemma_entries_dropped(lines: Seq<Seq<char>>)
    ensures
        entries_of(lines).len() + malformed_count(lines) == lines.len(),
    decreases lines.len(),
{
    if lines.len() > 0 {
        lemma_entries_dropped(lines.drop_first());
    }
}

/// A one-pass cursor over a sequence of lines that yields parsed entries
/// and skips lines that do not parse.
pub struct ParserIterator {
    pub lines: Vec<String>,
    pub pos: usize,
}

impl ParserIterator {
    /// The lines not yet consumed.
    pub open spec fn remaining(self) -> Seq<Seq<char>> {
        self.lines.deep_view().skip(self.pos as int)
    }

    pub fn new(lines: Vec<String>) -> (r: Self)
        ensures
            r.lines == lines,
            r.pos == 0,
    {
        Self { lines, pos: 0 }
    }

    /// Yield the next parsable entry, advancing past any malformed lines
    /// before it; `None` once no parsable line remains.
    pub fn next(&mut self) -> (r: Option<Entry>)
        requires
            old(self).pos <= old(self).lines@.len(),
        ensures
            final(self).lines == old(self).lines,
            old(self).pos <= final(self).pos <= final(self).lines@.len(),
            match r {
                Some(e) => entries_of(old(self).remaining()) == seq![e.deep_view()]
                    + entries_of(final(self).remaining()),
                None => entries_of(old(self).remaining()) == Seq::<EntryV>::empty()
                    && final(self).pos == final(self).lines@.len(),
            },
        decreases old(self).lines@.len() - old(self).pos,
    {
        if self.pos == self.lines.len() {
            return None;
        }
        let ghost old_rem = self.remaining();
        proof {
            assert(old_rem[0] == self.lines.deep_view()[self.pos as int]);
        }
        let res = Entry::new(self.lines[self.pos].as_str());
        self.pos = self.pos + 1;
        proof {
            assert(old_rem.drop_first() =~= self.remaining());
        }
        match res {
            Ok(e) => Some(e),
            Err(_) => self.next(),
        }
    }
}

/// Begin a parse over the given lines.
pub fn parse(lines: Vec<String>) -> (r: ParserIterator)
    ensures
        r.lines == lines,
        r.pos == 0,
{
    ParserIterator::new(lines)
}

/// The entry stream builder: tokenize every line, keep the entries in
/// input order, and silently drop lines that do not parse.
pub fn build_entries(lines: Vec<String>) -> (r: Vec<Entry>)
    ensures
        r.deep_view() == entries_of(lines.deep_view()),
{
    let mut it = parse(lines);
    let mut out: Vec<Entry> = Vec::new();
    proof {
        assert(it.remaining() =~= lines.deep_view());
        assert(out.deep_view() =~= Seq::<EntryV>::empty());
        assert(Seq::<EntryV>::empty() + entries_of(lines.deep_view()) =~= entries_of(
            lines.deep_view(),
        ));
    }
    let mut done = false;
    while !done
        invariant
            it.pos <= it.lines@.len(),
            it.lines.deep_view() == lines.deep_view(),
            out.deep_view() + entries_of(it.remaining()) =~= entries_of(lines.deep_view()),
            done ==> entries_of(it.remaining()) == Seq::<EntryV>::empty(),
        decreases it.lines@.len() - it.pos + (if done {
            0int
        } else {
            1int
        }),
    {
        let ghost prev = out.deep_view();
        let ghost prev_rem = it.remaining();
        match it.next() {
            Some(e) => {
                out.push(e);
                proof {
                    assert(out.deep_view() =~= prev.push(e.deep_view()));
                    assert(prev.push(e.deep_view()) =~= prev + seq![e.deep_view()]);
                    assert((prev + seq![e.deep_view()]) + entries_of(it.remaining()) =~= prev + (
                    seq![e.deep_view()] + entries_of(it.remaining())));
                }
            },
            None => {
                done = true;
            },
        }
    }
    proof {
        assert(out.deep_view() + Seq::<EntryV>::empty() =~= out.deep_view());
    }
    out
}


// ---------------------------------------------------------------------
// The grammar laws: a line rendered from a well-formed entry parses back
// to that entry.
// ---------------------------------------------------------------------

/// No member is the escape character.
pub open spec fn esc_free(s: Seq<char>) -> bool {
    forall|i: int| 0 <= i < s.len() ==> (#[trigger] s[i]) != esc_char()
}

/// A token field as the grammar delimits it: nonempty, without spaces or
/// escapes.
pub open spec fn plain_field(s: Seq<char>) -> bool {
    s.len() > 0 && forall|i: int|
        0 <= i < s.len() ==> (#[trigger] s[i]) != ' ' && s[i] != esc_char()
}

/// A location part as its colon-split delimits it: without spaces,
/// escapes, or colons; it may be empty.
pub open spec fn loc_field(s: Seq<char>) -> bool {
    forall|i: int|
        0 <= i < s.len() ==> (#[trigger] s[i]) != ' ' && s[i] != esc_char() && s[i] != ':'
}

/// An object name as its brackets delimit it: without spaces, escapes, or
/// angle brackets; it may be empty.
pub open spec fn object_field(s: Seq<char>) -> bool {
    forall|i: int|
        0 <= i < s.len() ==> (#[trigger] s[i]) != ' ' && s[i] != esc_char() && s[i] != '<'
            && s[i] != '>'
}

/// An entry whose fields fit the places the grammar gives them.
pub open spec fn wf_entry(e: EntryV) -> bool {
    &&& plain_field(e.thread)
    &&& plain_field(e.category)
    &&& loc_field(e.file)
    &&& loc_field(e.function)
    &&& (match e.object {
        Some(name) => object_field(name),
        None => true,
    })
    &&& esc_free(e.message)
}

/// The location token an entry renders to.
pub open spec fn render_location(
    file: Seq<char>,
    line: u32,
    function: Seq<char>,
    object: Option<Seq<char>>,
) -> Seq<char> {
    file + seq![':'] + dec_str(line as nat) + seq![':'] + function + seq![':'] + (match object {
        Some(name) => seq!['<'] + name + seq!['>'],
        None => Seq::<char>::empty(),
    })
}

/// The line an entry renders to, with a run of spaces of the given width
/// between each pair of fields and before a nonempty message: the grammar
/// tolerates variable inter-field padding.
pub open spec fn render_line_padded(
    e: EntryV,
    w1: int,
    w2: int,
    w3: int,
    w4: int,
    w5: int,
    wm: int,
) -> Seq<char>
    recommends
        1 <= w1,
        1 <= w2,
        1 <= w3,
        1 <= w4,
        1 <= w5,
        1 <= wm,
{
    crate::text::format_ts(e.ts) + spaces(w1 as nat) + dec_str(e.pid as nat) + spaces(w2 as nat)
        + e.thread + spaces(w3 as nat) + level_symbol(e.level) + spaces(w4 as nat) + e.category
        + spaces(w5 as nat) + render_location(e.file, e.line, e.function, e.object) + (
    if e.message.len() == 0 {
        Seq::<char>::empty()
    } else {
        spaces(wm as nat) + e.message
    })
}

/// The canonical rendering: every separator a single space.
pub open spec fn render_line(e: EntryV) -> Seq<char> {
    render_line_padded(e, 1, 1, 1, 1, 1, 1)
}

proof fn lemma_no_space_concat(a: Seq<char>, b: Seq<char>)
    requires
        no_space(a),
        no_space(b),
    ensures
        no_space(a + b),
{
    assert forall|i: int| 0 <= i < (a + b).len() implies (#[trigger] (a + b)[i]) != ' ' by {
        if i < a.len() {
            assert((a + b)[i] == a[i]);
        } else {
            assert((a + b)[i] == b[i - a.len()]);
        }
    }
}

proof fn lemma_esc_free_concat(a: Seq<char>, b: Seq<char>)
    requires
        esc_free(a),
        esc_free(b),
    ensures
        esc_free(a + b),
{
    assert forall|i: int| 0 <= i < (a + b).len() implies (#[trigger] (a + b)[i]) != esc_char() by {
        if i < a.len() {
            assert((a + b)[i] == a[i]);
        } else {
            assert((a + b)[i] == b[i - a.len()]);
        }
    }
}

/// A line without escape characters comes through color stripping
/// unchanged.
proof fn lemma_strip_no_esc(s: Seq<char>, i: int)
    requires
        0 <= i <= s.len(),
        esc_free(s),
    ensures
        strip_from(s, i) == s.skip(i),
    decreases s.len() - i,
{
    if i >= s.len() {
        assert(s.skip(i) =~= Seq::<char>::empty());
    } else {
        lemma_strip_no_esc(s, i + 1);
        assert(seq![s[i]] + s.skip(i + 1) =~= s.skip(i));
    }
}

/// Each level symbol is a nonempty token of plain characters, and looking
/// it up in the level table gives its level back.
proof fn lemma_level_symbol_wf(l: Level)
    ensures
        plain_field(level_symbol(l)),
        spec_parse_level(level_symbol(l)) == Ok::<Level, ParseErrV>(l),
{
    reveal_strlit("ERROR");
    reveal_strlit("WARNING");
    reveal_strlit("FIXME");
    reveal_strlit("INFO");
    reveal_strlit("DEBUG");
    reveal_strlit("LOG");
    reveal_strlit("TRACE");
    reveal_strlit("MEMDUMP");
    assert(("ERROR"@)[0] == 'E' && ("FIXME"@)[0] == 'F' && ("DEBUG"@)[0] == 'D' && ("TRACE"@)[0]
        == 'T');
    assert(("WARNING"@)[0] == 'W' && ("MEMDUMP"@)[0] == 'M');
}

/// The rendered timestamp consists of digits, colons, and one dot.
proof fn lemma_format_ts_chars(ns: u64)
    ensures
        plain_field(crate::text::format_ts(ns)),
        no_space(crate::text::format_ts(ns)),
{
    let a = dec_str((ns / 3_600_000_000_000) as nat);
    let b = dec_str_pad(((ns / 60_000_000_000) % 60) as nat, 2);
    let c = dec_str_pad(((ns / 1_000_000_000) % 60) as nat, 2);
    let d = dec_str_pad((ns % 1_000_000_000) as nat, 9);
    lemma_dec_str_val((ns / 3_600_000_000_000) as nat);
    lemma_dec_str_pad_val(((ns / 60_000_000_000) % 60) as nat, 2);
    lemma_dec_str_pad_val(((ns / 1_000_000_000) % 60) as nat, 2);
    lemma_dec_str_pad_val((ns % 1_000_000_000) as nat, 9);
    let ts = crate::text::format_ts(ns);
    assert forall|i: int| 0 <= i < ts.len() implies (#[trigger] ts[i]) != ' ' && ts[i]
        != esc_char() by {
        let o1 = a.len();
        let o2 = o1 + 1 + b.len();
        let o3 = o2 + 1 + c.len();
        if i < o1 {
            assert(ts[i] == a[i]);
            assert(is_digit(a[i]));
        } else if i == o1 {
            assert(ts[i] == ':');
        } else if i < o2 {
            assert(ts[i] == b[i - o1 - 1]);
            assert(is_digit(b[i - o1 - 1]));
        } else if i == o2 {
            assert(ts[i] == ':');
        } else if i < o3 {
            assert(ts[i] == c[i - o2 - 1]);
            assert(is_digit(c[i - o2 - 1]));
        } else if i == o3 {
            assert(ts[i] == '.');
        } else {
            assert(ts[i] == d[i - o3 - 1]);
            assert(is_digit(d[i - o3 - 1]));
        }
    }
}

/// The second-and-finer parts of a timestamp recompose to the whole.
proof fn lemma_ns_decompose(ns: u64)
    ensures
        ((ns / 3_600_000_000_000) * 3600 + ((ns / 60_000_000_000) % 60) * 60 + ((ns
            / 1_000_000_000) % 60)) * 1_000_000_000 + (ns % 1_000_000_000) == ns,
{
    let x = ns as int / 1_000_000_000;
    lemma_fundamental_div_mod(ns as int, 1_000_000_000);
    vstd::arithmetic::div_mod::lemma_div_denominator(ns as int, 1_000_000_000, 3600);
    vstd::arithmetic::div_mod::lemma_div_denominator(ns as int, 1_000_000_000, 60);
    let xm = x / 60;
    lemma_fundamental_div_mod(x, 60);
    lemma_fundamental_div_mod(xm, 60);
    vstd::arithmetic::div_mod::lemma_div_denominator(x, 60, 60);
}

/// Rendering a timestamp and tokenizing it again gives the same
/// nanosecond value.
pub proof fn lemma_parse_time_roundtrip(ns: u64)
    ensures
        spec_parse_time(crate::text::format_ts(ns)) == Ok::<u64, ParseErrV>(ns),
{
    let hv = (ns / 3_600_000_000_000) as nat;
    let mv = ((ns / 60_000_000_000) % 60) as nat;
    let sv = ((ns / 1_000_000_000) % 60) as nat;
    let dv = (ns % 1_000_000_000) as nat;
    let a = dec_str(hv);
    let b = dec_str_pad(mv, 2);
    let c = dec_str_pad(sv, 2);
    let d = dec_str_pad(dv, 9);
    lemma_dec_str_val(hv);
    lemma_dec_str_pad_val(mv, 2);
    lemma_dec_str_pad_val(sv, 2);
    lemma_dec_str_pad_val(dv, 9);
    let ts = crate::text::format_ts(ns);
    let o1 = a.len() as int;
    let o2 = o1 + 1 + b.len();
    let o3 = o2 + 1 + c.len();
    assert(ts[o1] == ':');
    assert(ts[o2] == ':');
    assert(ts[o3] == '.');
    assert forall|k: int| 0 <= k < o1 implies (#[trigger] ts[k]) != ':' by {
        assert(ts[k] == a[k]);
        assert(is_digit(a[k]));
    }
    lemma_find_from_is(ts, ':', 0, o1);
    assert(ts.take(o1) =~= a);
    let r1 = ts.skip(o1 + 1int);
    assert(r1 =~= b + seq![':'] + c + seq!['.'] + d);
    assert(r1[b.len() as int] == ':');
    assert forall|k: int| 0 <= k < b.len() implies (#[trigger] r1[k]) != ':' by {
        assert(r1[k] == b[k]);
        assert(is_digit(b[k]));
    }
    lemma_find_from_is(r1, ':', 0, b.len() as int);
    assert(r1.take(b.len() as int) =~= b);
    let r2 = r1.skip(b.len() + 1int);
    assert(r2 =~= c + seq!['.'] + d);
    assert(r2[c.len() as int] == '.');
    assert forall|k: int| 0 <= k < c.len() implies (#[trigger] r2[k]) != '.' by {
        assert(r2[k] == c[k]);
        assert(is_digit(c[k]));
    }
    lemma_find_from_is(r2, '.', 0, c.len() as int);
    assert(r2.take(c.len() as int) =~= c);
    assert(r2.skip(c.len() + 1int) =~= d);
    lemma_ns_decompose(ns);
    assert(valid_u64_digits(a));
    assert(valid_u64_digits(b));
    assert(valid_u64_digits(c));
    assert(valid_u64_digits(d));
}

/// Rendering a location and splitting it again gives the same parts.
pub proof fn lemma_split_location_roundtrip(
    file: Seq<char>,
    lineno: u32,
    function: Seq<char>,
    object: Option<Seq<char>>,
)
    requires
        loc_field(file),
        loc_field(function),
        match object {
            Some(name) => object_field(name),
            None => true,
        },
    ensures
        spec_split_location(render_location(file, lineno, function, object)) == Ok::<
            (Seq<char>, u32, Seq<char>, Option<Seq<char>>),
            ParseErrV,
        >((file, lineno, function, object)),
{
    let ln = dec_str(lineno as nat);
    lemma_dec_str_val(lineno as nat);
    let obj_part = match object {
        Some(name) => seq!['<'] + name + seq!['>'],
        None => Seq::<char>::empty(),
    };
    let loc = render_location(file, lineno, function, object);
    assert(loc =~= file + seq![':'] + ln + seq![':'] + function + seq![':'] + obj_part);
    let o1 = file.len() as int;
    let o2 = o1 + 1 + ln.len();
    let o3 = o2 + 1 + function.len();
    assert(loc[o1] == ':');
    assert forall|k: int| 0 <= k < o1 implies (#[trigger] loc[k]) != ':' by {
        assert(loc[k] == file[k]);
    }
    lemma_find_from_is(loc, ':', 0, o1);
    assert(loc.take(o1) =~= file);
    let r1 = loc.skip(o1 + 1);
    assert(r1 =~= ln + seq![':'] + function + seq![':'] + obj_part);
    assert(r1[ln.len() as int] == ':');
    assert forall|k: int| 0 <= k < ln.len() implies (#[trigger] r1[k]) != ':' by {
        assert(r1[k] == ln[k]);
        assert(is_digit(ln[k]));
    }
    lemma_find_from_is(r1, ':', 0, ln.len() as int);
    assert(r1.take(ln.len() as int) =~= ln);
    assert(valid_u32_digits(ln));
    let r2 = r1.skip(ln.len() + 1int);
    assert(r2 =~= function + seq![':'] + obj_part);
    assert(r2[function.len() as int] == ':');
    assert forall|k: int| 0 <= k < function.len() implies (#[trigger] r2[k]) != ':' by {
        assert(r2[k] == function[k]);
    }
    lemma_find_from_is(r2, ':', 0, function.len() as int);
    assert(r2.take(function.len() as int) =~= function);
    let obj = r2.skip(function.len() + 1int);
    assert(obj =~= obj_part);
    match object {
        None => {
            assert(obj.len() == 0);
        },
        Some(name) => {
            assert(obj.len() > 0);
            let p_lt = |ch: char| ch == '<';
            let p_gt = |ch: char| ch == '>';
            assert(obj_part[0] == '<');
            assert forall|k: int| 0 <= k < 1 implies p_lt(obj_part[k]) by {}
            if name.len() > 0 {
                assert(obj_part[1] == name[0]);
                assert(!p_lt(obj_part[1]));
            } else {
                assert(obj_part[1] == '>');
                assert(!p_lt(obj_part[1]));
            }
            lemma_trim_start_by(obj_part, p_lt, 1);
            let inner = obj_part.skip(1);
            assert(inner =~= name + seq!['>']);
            assert(inner[name.len() as int] == '>');
            assert forall|k: int| name.len() <= k < inner.len() implies p_gt(inner[k]) by {}
            if name.len() > 0 {
                assert(inner[name.len() - 1] == name[name.len() - 1]);
                assert(!p_gt(inner[name.len() - 1]));
            }
            lemma_trim_end_by(inner, p_gt, name.len() as int);
            assert(inner.take(name.len() as int) =~= name);
            assert(trim_angle(obj) == name);
        },
    }
}

/// One field and its separating space at the head of a suffix: the token
/// ends at its length, the scan resumes one past the space, and the rest
/// follows.
proof fn lemma_field_step(s: Seq<char>, tok: Seq<char>, w: int, rest: Seq<char>)
    requires
        s == tok + spaces(w as nat) + rest,
        1 <= w,
        tok.len() > 0,
        no_space(tok),
        rest.len() == 0 || rest[0] != ' ',
    ensures
        token_end(s, 0) == tok.len(),
        s.take(tok.len() as int) == tok,
        skip_spaces(s, tok.len() as int) == tok.len() + w,
        s.skip(tok.len() + w) == rest,
{
    lemma_spaces_chars(w as nat);
    let n = tok.len() as int;
    assert forall|k: int| 0 <= k < n implies (#[trigger] s[k]) != ' ' by {
        assert(s[k] == tok[k]);
    }
    assert forall|k: int| n <= k < n + w implies (#[trigger] s[k]) == ' ' by {
        assert(s[k] == spaces(w as nat)[k - n]);
    }
    lemma_token_end_is(s, 0, n);
    assert(s.take(n) =~= tok);
    if rest.len() == 0 {
        lemma_skip_spaces_is(s, n, n + w);
    } else {
        assert(s[n + w] == rest[0]);
        lemma_skip_spaces_is(s, n, n + w);
    }
    assert(s.skip(n + w) =~= rest);
}

/// The last field of a line: the token ends at its length and only the
/// message part follows.
proof fn lemma_last_token(s: Seq<char>, tok: Seq<char>, m: Seq<char>)
    requires
        s == tok + m,
        tok.len() > 0,
        no_space(tok),
        m.len() == 0 || m[0] == ' ',
    ensures
        token_end(s, 0) == tok.len(),
        s.take(tok.len() as int) == tok,
        s.skip(tok.len() as int) == m,
{
    let n = tok.len() as int;
    assert forall|k: int| 0 <= k < n implies (#[trigger] s[k]) != ' ' by {
        assert(s[k] == tok[k]);
    }
    if m.len() > 0 {
        assert(s[n] == m[0]);
    }
    lemma_token_end_is(s, 0, n);
    assert(s.take(n) =~= tok);
    assert(s.skip(n) =~= m);
}

/// The rendered location token is one nonempty, space- and escape-free
/// run.
proof fn lemma_render_location_chars(
    file: Seq<char>,
    lineno: u32,
    function: Seq<char>,
    object: Option<Seq<char>>,
)
    requires
        loc_field(file),
        loc_field(function),
        match object {
            Some(name) => object_field(name),
            None => true,
        },
    ensures
        render_location(file, lineno, function, object).len() > 0,
        no_space(render_location(file, lineno, function, object)),
        esc_free(render_location(file, lineno, function, object)),
{
    let ln_s = dec_str(lineno as nat);
    lemma_dec_str_val(lineno as nat);
    let obj_part = match object {
        Some(name) => seq!['<'] + name + seq!['>'],
        None => Seq::<char>::empty(),
    };
    let loc = render_location(file, lineno, function, object);
    assert forall|k: int| 0 <= k < loc.len() implies (#[trigger] loc[k]) != ' ' && loc[k]
        != esc_char() by {
        let q1 = file.len() as int;
        let q2 = q1 + 1 + ln_s.len();
        let q3 = q2 + 1 + function.len();
        if k < q1 {
            assert(loc[k] == file[k]);
        } else if k == q1 {
            assert(loc[k] == ':');
        } else if k < q2 {
            assert(loc[k] == ln_s[k - q1 - 1]);
            assert(is_digit(ln_s[k - q1 - 1]));
        } else if k == q2 {
            assert(loc[k] == ':');
        } else if k < q3 {
            assert(loc[k] == function[k - q2 - 1]);
        } else if k == q3 {
            assert(loc[k] == ':');
        } else {
            let j = k - q3 - 1;
            assert(loc[k] == obj_part[j]);
            match object {
                Some(name) => {
                    if j == 0 {
                        assert(obj_part[j] == '<');
                    } else if j < 1 + name.len() {
                        assert(obj_part[j] == name[j - 1]);
                    } else {
                        assert(obj_part[j] == '>');
                    }
                },
                None => {},
            }
        }
    }
}

/// The rendered line, reassociated so that each field heads its own
/// suffix.
proof fn lemma_render_assoc(e: EntryV, w1: int, w2: int, w3: int, w4: int, w5: int, wm: int)
    ensures
        render_line_padded(e, w1, w2, w3, w4, w5, wm) == crate::text::format_ts(e.ts) + spaces(
            w1 as nat,
        ) + (dec_str(e.pid as nat) + spaces(w2 as nat) + (e.thread + spaces(w3 as nat) + (
        level_symbol(e.level) + spaces(w4 as nat) + (e.category + spaces(w5 as nat) + (
        render_location(e.file, e.line, e.function, e.object) + (if e.message.len() == 0 {
            Seq::<char>::empty()
        } else {
            spaces(wm as nat) + e.message
        })))))),
{
    let a = crate::text::format_ts(e.ts);
    let b = dec_str(e.pid as nat);
    let c = e.thread;
    let d = level_symbol(e.level);
    let f = e.category;
    let g = render_location(e.file, e.line, e.function, e.object);
    let sp1 = spaces(w1 as nat);
    let sp2 = spaces(w2 as nat);
    let sp3 = spaces(w3 as nat);
    let sp4 = spaces(w4 as nat);
    let sp5 = spaces(w5 as nat);
    let m = if e.message.len() == 0 {
        Seq::<char>::empty()
    } else {
        spaces(wm as nat) + e.message
    };
    let t5 = g + m;
    let t4 = f + sp5 + t5;
    let t3 = d + sp4 + t4;
    let t2 = c + sp3 + t3;
    let t1 = b + sp2 + t2;
    let l1 = a + sp1;
    let l2 = l1 + b + sp2;
    let l3 = l2 + c + sp3;
    let l4 = l3 + d + sp4;
    let l5 = l4 + f + sp5;
    assert(render_line_padded(e, w1, w2, w3, w4, w5, wm) == l5 + g + m);
    assert(l5 + g + m =~= l5 + t5);
    assert(l5 + t5 =~= l4 + t4);
    assert(l4 + t4 =~= l3 + t3);
    assert(l3 + t3 =~= l2 + t2);
    assert(l2 + t2 =~= l1 + t1);
}

/// One field read at an absolute position: its token, the following space
/// run, and the suffix after them.
proof fn lemma_step_at(line: Seq<char>, p: int, tok: Seq<char>, w: int, rest: Seq<char>)
    requires
        0 <= p <= line.len(),
        line.skip(p) == tok + spaces(w as nat) + rest,
        1 <= w,
        tok.len() > 0,
        no_space(tok),
        rest.len() == 0 || rest[0] != ' ',
    ensures
        token_end(line, p) == p + tok.len(),
        line.subrange(p, p + tok.len()) == tok,
        skip_spaces(line, p + tok.len()) == p + tok.len() + w,
        line.skip(p + tok.len() + w) == rest,
        p + tok.len() + w <= line.len(),
{
    lemma_spaces_chars(w as nat);
    let t = line.skip(p);
    lemma_field_step(t, tok, w, rest);
    lemma_token_end_shift(line, p, p);
    lemma_skip_spaces_shift(line, p, p + tok.len());
    assert(line.subrange(p, p + tok.len()) =~= t.take(tok.len() as int));
    assert(line.skip(p + tok.len() + w) =~= t.skip(tok.len() + w));
}

/// The last field read at an absolute position: its token and the message
/// part after it.
proof fn lemma_last_at(line: Seq<char>, p: int, tok: Seq<char>, m: Seq<char>)
    requires
        0 <= p <= line.len(),
        line.skip(p) == tok + m,
        tok.len() > 0,
        no_space(tok),
        m.len() == 0 || m[0] == ' ',
    ensures
        token_end(line, p) == p + tok.len(),
        line.subrange(p, p + tok.len()) == tok,
        line.skip(p + tok.len()) == m,
        p + tok.len() <= line.len(),
{
    let t = line.skip(p);
    lemma_last_token(t, tok, m);
    lemma_token_end_shift(line, p, p);
    assert(line.subrange(p, p + tok.len()) =~= t.take(tok.len() as int));
    assert(line.skip(p + tok.len()) =~= t.skip(tok.len() as int));
}

/// The scan positions over a rendered line: each field's token sits where
/// the renderer put it, whatever the separator widths.
#[verifier::rlimit(100)]
#[verifier::spinoff_prover]
proof fn lemma_render_walk(e: EntryV, w1: int, w2: int, w3: int, w4: int, w5: int, wm: int)
    requires
        wf_entry(e),
        1 <= w1,
        1 <= w2,
        1 <= w3,
        1 <= w4,
        1 <= w5,
        1 <= wm,
    ensures
        ({
            let line = render_line_padded(e, w1, w2, w3, w4, w5, wm);
            let ts_s = crate::text::format_ts(e.ts);
            let pid_s = dec_str(e.pid as nat);
            let sym = level_symbol(e.level);
            let loc = render_location(e.file, e.line, e.function, e.object);
            let o1 = ts_s.len() as int;
            let p1 = o1 + w1;
            let e1 = p1 + pid_s.len();
            let p2 = e1 + w2;
            let e2 = p2 + e.thread.len();
            let p3 = e2 + w3;
            let e3 = p3 + sym.len();
            let p4 = e3 + w4;
            let e4 = p4 + e.category.len();
            let p5 = e4 + w5;
            let e5 = p5 + loc.len();
            &&& strip_from(line, 0) == line
            &&& token_end(line, 0) == o1
            &&& line.take(o1) == ts_s
            &&& skip_spaces(line, o1) == p1
            &&& p1 < line.len()
            &&& token_end(line, p1) == e1
            &&& line.subrange(p1, e1) == pid_s
            &&& skip_spaces(line, e1) == p2
            &&& p2 < line.len()
            &&& token_end(line, p2) == e2
            &&& line.subrange(p2, e2) == e.thread
            &&& skip_spaces(line, e2) == p3
            &&& p3 < line.len()
            &&& token_end(line, p3) == e3
            &&& line.subrange(p3, e3) == sym
            &&& skip_spaces(line, e3) == p4
            &&& p4 < line.len()
            &&& token_end(line, p4) == e4
            &&& line.subrange(p4, e4) == e.category
            &&& skip_spaces(line, e4) == p5
            &&& p5 < line.len()
            &&& token_end(line, p5) == e5
            &&& line.subrange(p5, e5) == loc
            &&& collapse_from(line, e5) == collapse_from(e.message, 0)
        }),
{
    let sp1 = spaces(w1 as nat);
    let sp2 = spaces(w2 as nat);
    let sp3 = spaces(w3 as nat);
    let sp4 = spaces(w4 as nat);
    let sp5 = spaces(w5 as nat);
    let spm = spaces(wm as nat);
    let ts_s = crate::text::format_ts(e.ts);
    let pid_s = dec_str(e.pid as nat);
    let sym = level_symbol(e.level);
    let loc = render_location(e.file, e.line, e.function, e.object);
    let msg_part = if e.message.len() == 0 {
        Seq::<char>::empty()
    } else {
        spm + e.message
    };
    let line = render_line_padded(e, w1, w2, w3, w4, w5, wm);
    lemma_spaces_chars(w1 as nat);
    lemma_spaces_chars(w2 as nat);
    lemma_spaces_chars(w3 as nat);
    lemma_spaces_chars(w4 as nat);
    lemma_spaces_chars(w5 as nat);
    lemma_spaces_chars(wm as nat);
    lemma_format_ts_chars(e.ts);
    lemma_dec_str_val(e.pid as nat);
    lemma_level_symbol_wf(e.level);
    lemma_render_location_chars(e.file, e.line, e.function, e.object);
    assert(no_space(pid_s) && esc_free(pid_s)) by {
        assert forall|k: int| 0 <= k < pid_s.len() implies (#[trigger] pid_s[k]) != ' ' && pid_s[k]
            != esc_char() by {
            assert(is_digit(pid_s[k]));
        }
    }
    assert(esc_free(msg_part)) by {
        if e.message.len() > 0 {
            assert forall|k: int| 0 <= k < msg_part.len() implies (#[trigger] msg_part[k])
                != esc_char() by {
                if k >= wm {
                    assert(msg_part[k] == e.message[k - wm]);
                } else {
                    assert(msg_part[k] == ' ');
                }
            }
        }
    }
    assert(esc_free(sp1) && esc_free(sp2) && esc_free(sp3) && esc_free(sp4) && esc_free(sp5));
    // the suffix under each field
    let t5 = loc + msg_part;
    let t4 = e.category + sp5 + t5;
    let t3 = sym + sp4 + t4;
    let t2 = e.thread + sp3 + t3;
    let t1 = pid_s + sp2 + t2;
    lemma_render_assoc(e, w1, w2, w3, w4, w5, wm);
    assert(line == ts_s + sp1 + t1);
    // no escape anywhere, so stripping is the identity
    assert(esc_free(line)) by {
        lemma_esc_free_concat(loc, msg_part);
        lemma_esc_free_concat(e.category + sp5, t5);
        lemma_esc_free_concat(e.category, sp5);
        lemma_esc_free_concat(sym + sp4, t4);
        lemma_esc_free_concat(sym, sp4);
        lemma_esc_free_concat(e.thread + sp3, t3);
        lemma_esc_free_concat(e.thread, sp3);
        lemma_esc_free_concat(pid_s + sp2, t2);
        lemma_esc_free_concat(pid_s, sp2);
        lemma_esc_free_concat(ts_s + sp1, t1);
        lemma_esc_free_concat(ts_s, sp1);
    }
    lemma_strip_no_esc(line, 0);
    assert(line.skip(0) =~= line);
    // the six fields in order
    let o1 = ts_s.len() as int;
    let p1 = o1 + w1;
    let e1 = p1 + pid_s.len();
    let p2 = e1 + w2;
    let e2 = p2 + e.thread.len();
    let p3 = e2 + w3;
    let e3 = p3 + sym.len();
    let p4 = e3 + w4;
    let e4 = p4 + e.category.len();
    let p5 = e4 + w5;
    let e5 = p5 + loc.len();
    assert(t1[0] == pid_s[0]);
    lemma_step_at(line, 0, ts_s, w1, t1);
    assert(line.take(o1) == line.subrange(0, o1));
    assert(t2[0] == e.thread[0]);
    lemma_step_at(line, p1, pid_s, w2, t2);
    assert(t3[0] == sym[0]);
    lemma_step_at(line, p2, e.thread, w3, t3);
    assert(t4[0] == e.category[0]);
    lemma_step_at(line, p3, sym, w4, t4);
    assert(t5[0] == loc[0]);
    lemma_step_at(line, p4, e.category, w5, t5);
    assert(msg_part.len() == 0 || msg_part[0] == ' ');
    lemma_last_at(line, p5, loc, msg_part);
    assert(p1 < line.len() && p2 < line.len() && p3 < line.len() && p4 < line.len() && p5
        < line.len()) by {
        assert(line[p1] == t1[0] && line[p2] == t2[0] && line[p3] == t3[0] && line[p4] == t4[0]
            && line[p5] == t5[0]);
    }
    // the message
    lemma_collapse_suffix(line, e5);
    if e.message.len() == 0 {
        assert(line.skip(e5) == msg_part);
        assert(line.skip(e5).len() == 0);
        assert(collapse_from(line.skip(e5), 0) == Seq::<char>::empty());
        assert(collapse_from(e.message, 0) == Seq::<char>::empty());
    } else {
        let tail = line.skip(e5);
        assert(tail == msg_part);
        assert forall|k: int| 0 <= k < wm implies (#[trigger] tail[k]) == ' ' by {
            assert(tail[k] == spm[k]);
        }
        lemma_collapse_skip(tail, 0);
        lemma_collapse_skip(tail, wm);
        lemma_skip_spaces_through(tail, 0, wm);
        lemma_collapse_suffix(tail, wm);
        assert(tail.skip(wm) =~= e.message);
        assert(collapse_from(line, e5) == collapse_from(e.message, 0));
    }
}

/// Every line rendered from a well-formed entry — whatever the widths of
/// its separating space runs — tokenizes back to that entry, with the
/// message's space runs collapsed; each structured field returns exactly.
#[verifier::rlimit(100)]
#[verifier::spinoff_prover]
pub proof fn lemma_render_parse_roundtrip_padded(
    e: EntryV,
    w1: int,
    w2: int,
    w3: int,
    w4: int,
    w5: int,
    wm: int,
)
    requires
        wf_entry(e),
        1 <= w1,
        1 <= w2,
        1 <= w3,
        1 <= w4,
        1 <= w5,
        1 <= wm,
    ensures
        spec_parse_entry(render_line_padded(e, w1, w2, w3, w4, w5, wm)) == Ok::<EntryV, ParseErrV>(
            EntryV {
                ts: e.ts,
                pid: e.pid,
                thread: e.thread,
                level: e.level,
                category: e.category,
                file: e.file,
                line: e.line,
                function: e.function,
                object: e.object,
                message: collapse_from(e.message, 0),
            },
        ),
{
    let line = render_line_padded(e, w1, w2, w3, w4, w5, wm);
    let ts_s = crate::text::format_ts(e.ts);
    let pid_s = dec_str(e.pid as nat);
    let sym = level_symbol(e.level);
    let loc = render_location(e.file, e.line, e.function, e.object);
    let o1 = ts_s.len() as int;
    let p1 = o1 + w1;
    let e1 = p1 + pid_s.len();
    let p2 = e1 + w2;
    let e2 = p2 + e.thread.len();
    let p3 = e2 + w3;
    let e3 = p3 + sym.len();
    let p4 = e3 + w4;
    let e4 = p4 + e.category.len();
    let p5 = e4 + w5;
    let e5 = p5 + loc.len();
    lemma_render_walk(e, w1, w2, w3, w4, w5, wm);
    lemma_parse_time_roundtrip(e.ts);
    lemma_dec_str_val(e.pid as nat);
    lemma_level_symbol_wf(e.level);
    lemma_split_location_roundtrip(e.file, e.line, e.function, e.object);
    assert(spec_parse_time(line.take(o1)) == Ok::<u64, ParseErrV>(e.ts));
    assert(spec_parse_entry(line) == spec_after_time(line, e.ts, o1));
    assert(valid_u32_digits(pid_s));
    assert(digits_val(line.subrange(p1, e1)) == e.pid);
    assert(spec_after_time(line, e.ts, o1) == spec_after_pid(line, e.ts, e.pid, e1));
    assert(spec_after_pid(line, e.ts, e.pid, e1) == spec_after_thread(
        line,
        e.ts,
        e.pid,
        e.thread,
        e2,
    ));
    assert(spec_parse_level(line.subrange(p3, e3)) == Ok::<Level, ParseErrV>(e.level));
    assert(spec_after_thread(line, e.ts, e.pid, e.thread, e2) == spec_after_level(
        line,
        e.ts,
        e.pid,
        e.thread,
        e.level,
        e3,
    ));
    assert(spec_after_level(line, e.ts, e.pid, e.thread, e.level, e3) == spec_after_category(
        line,
        e.ts,
        e.pid,
        e.thread,
        e.level,
        e.category,
        e4,
    ));
    assert(spec_split_location(line.subrange(p5, e5)) == Ok::<
        (Seq<char>, u32, Seq<char>, Option<Seq<char>>),
        ParseErrV,
    >((e.file, e.line, e.function, e.object)));
}

/// The round trip at the canonical single-space rendering.
pub proof fn lemma_render_parse_roundtrip(e: EntryV)
    requires
        wf_entry(e),
    ensures
        spec_parse_entry(render_line(e)) == Ok::<EntryV, ParseErrV>(
            EntryV {
                ts: e.ts,
                pid: e.pid,
                thread: e.thread,
                level: e.level,
                category: e.category,
                file: e.file,
                line: e.line,
                function: e.function,
                object: e.object,
                message: collapse_from(e.message, 0),
            },
        ),
{
    lemma_render_parse_roundtrip_padded(e, 1, 1, 1, 1, 1, 1);
}

/// The collapsed message of a suffix is the collapsed message of that
/// suffix taken alone.
proof fn lemma_collapse_suffix(s: Seq<char>, i: int)
    requires
        0 <= i <= s.len(),
    ensures
        collapse_from(s, i) == collapse_from(s.skip(i), 0),
    decreases s.len() - i,
{
    let t = s.skip(i);
    if i >= s.len() {
        assert(collapse_from(t, 0) == Seq::<char>::empty());
    } else {
        lemma_skip_spaces_shift(s, i, i);
        let p = skip_spaces(s, i);
        let pt = p - i;
        lemma_skip_spaces(s, i);
        if p >= s.len() {
            assert(collapse_from(t, 0) == Seq::<char>::empty());
        } else {
            lemma_token_end_shift(s, i, p);
            let ev = token_end(s, p);
            let et = ev - i;
            lemma_token_end(s, p);
            assert(ev > p) by {
                if ev == p {
                    assert(s[p] != ' ');
                }
            }
            lemma_collapse_suffix(s, ev);
            lemma_collapse_suffix(t, et);
            assert(t.skip(et) =~= s.skip(ev));
            assert(s.subrange(p, ev) =~= t.subrange(pt, et));
        }
    }
}

/// An entry whose message is already collapsed round-trips exactly,
/// under any separator widths: rendering it and tokenizing the line gives
/// the entry back, every structured field equal to its input token.
pub proof fn lemma_render_parse_exact_padded(
    e: EntryV,
    w1: int,
    w2: int,
    w3: int,
    w4: int,
    w5: int,
    wm: int,
)
    requires
        wf_entry(e),
        collapse_from(e.message, 0) == e.message,
        1 <= w1,
        1 <= w2,
        1 <= w3,
        1 <= w4,
        1 <= w5,
        1 <= wm,
    ensures
        spec_parse_entry(render_line_padded(e, w1, w2, w3, w4, w5, wm)) == Ok::<
            EntryV,
            ParseErrV,
        >(e),
{
    lemma_render_parse_roundtrip_padded(e, w1, w2, w3, w4, w5, wm);
}

/// The exact round trip at the canonical single-space rendering.
pub proof fn lemma_render_parse_exact(e: EntryV)
    requires
        wf_entry(e),
        collapse_from(e.message, 0) == e.message,
    ensures
        spec_parse_entry(render_line(e)) == Ok::<EntryV, ParseErrV>(e),
{
    lemma_render_parse_roundtrip(e);
}

} // verus!
