//! Core data: log levels, log records and their fields, record filters,
//! output formats and ranked items.
use vstd::prelude::*;
use vstd::std_specs::cmp::PartialOrdSpecImpl;
use core::cmp::Ordering;
use crate::error::{AppError, ErrorView};
use crate::strmap::{lookup, seq_lt, str_less, StrMap};
use crate::text::{
    chars_equal, chars_of, contains_chars, contains_seq, copy_str, lower_of, lower_seq, lowercase,
    str_equals, trim, trim_bounds, upper_of, upper_seq,
};

verus! {

#[derive(Debug, Clone, Copy, PartialEq, Eq, Structural, Hash, Ord)]
pub enum LogLevel {
    Trace,
    Debug,
    Info,
    Warn,
    Error,
    Fatal,
    Unknown,
}

pub open spec fn severity_of(level: LogLevel) -> u8 {
    match level {
        LogLevel::Trace => 0,
        LogLevel::Debug => 1,
        LogLevel::Info => 2,
        LogLevel::Warn => 3,
        LogLevel::Error => 4,
        LogLevel::Fatal => 5,
        LogLevel::Unknown => 6,
    }
}

/// The upper-case name of a level.
pub open spec fn level_name(level: LogLevel) -> Seq<char> {
    match level {
        LogLevel::Trace => "TRACE"@,
        LogLevel::Debug => "DEBUG"@,
        LogLevel::Info => "INFO"@,
        LogLevel::Warn => "WARN"@,
        LogLevel::Error => "ERROR"@,
        LogLevel::Fatal => "FATAL"@,
        LogLevel::Unknown => "UNKNOWN"@,
    }
}

/// The level that an upper-case, trimmed name denotes.
pub open spec fn level_from_name(t: Seq<char>) -> Option<LogLevel> {
    if t == "TRACE"@ {
        Some(LogLevel::Trace)
    } else if t == "DEBUG"@ {
        Some(LogLevel::Debug)
    } else if t == "INFO"@ {
        Some(LogLevel::Info)
    } else if t == "WARN"@ || t == "WARNING"@ {
        Some(LogLevel::Warn)
    } else if t == "ERROR"@ || t == "ERR"@ {
        Some(LogLevel::Error)
    } else if t == "FATAL"@ {
        Some(LogLevel::Fatal)
    } else if t == "UNKNOWN"@ || t.len() == 0 {
        Some(LogLevel::Unknown)
    } else {
        None
    }
}

/// What reading `s` as a level gives: case and surrounding whitespace are ignored.
pub open spec fn parse_level_spec(s: Seq<char>) -> Result<LogLevel, ErrorView> {
    let t = upper_seq(trim(s));
    match level_from_name(t) {
        Some(level) => Ok(level),
        None => Err(ErrorView::Parse("unsupported log level `"@ + t + "`"@)),
    }
}

impl View for LogLevel {
    type V = LogLevel;

    open spec fn view(&self) -> LogLevel {
        *self
    }
}

/// The order of two levels by severity, from `Trace` up to `Unknown`, the
/// order in which the levels are declared.
pub open spec fn level_order(a: LogLevel, b: LogLevel) -> Option<Ordering> {
    if severity_of(a) < severity_of(b) {
        Some(Ordering::Less)
    } else if severity_of(a) == severity_of(b) {
        Some(Ordering::Equal)
    } else {
        Some(Ordering::Greater)
    }
}

impl PartialOrd for LogLevel {
    fn partial_cmp(&self, other: &LogLevel) -> (r: Option<Ordering>) {
        let a = self.severity();
        let b = other.severity();
        if a < b {
            Some(Ordering::Less)
        } else if a == b {
            Some(Ordering::Equal)
        } else {
            Some(Ordering::Greater)
        }
    }
}

impl PartialOrdSpecImpl for LogLevel {
    open spec fn obeys_partial_cmp_spec() -> bool {
        true
    }

    open spec fn partial_cmp_spec(&self, other: &LogLevel) -> Option<Ordering> {
        level_order(*self, *other)
    }
}

impl LogLevel {
    pub fn severity(&self) -> (r: u8)
        ensures
            r == severity_of(*self),
    {
        match self {
            LogLevel::Trace => 0,
            LogLevel::Debug => 1,
            LogLevel::Info => 2,
            LogLevel::Warn => 3,
            LogLevel::Error => 4,
            LogLevel::Fatal => 5,
            LogLevel::Unknown => 6,
        }
    }

    pub fn as_str(&self) -> (r: &'static str)
        ensures
            r@ == level_name(*self),
    {
        match self {
            LogLevel::Trace => "TRACE",
            LogLevel::Debug => "DEBUG",
            LogLevel::Info => "INFO",
            LogLevel::Warn => "WARN",
            LogLevel::Error => "ERROR",
            LogLevel::Fatal => "FATAL",
            LogLevel::Unknown => "UNKNOWN",
        }
    }

    /// Reads a level name, ignoring case and surrounding whitespace; the empty
    /// name is `Unknown`.
    pub fn parse_name(s: &str) -> (r: Result<LogLevel, AppError>)
        ensures
            match parse_level_spec(s@) {
                Ok(level) => r matches Ok(x) && x == level,
                Err(e) => r matches Err(x) && x@ == e,
            },
    {
        let v = chars_of(s);
        let (a, b) = trim_bounds(v.as_slice(), 0, v.len());
        assert(v@.subrange(0, v@.len() as int) =~= v@);
        let t = upper_of(v.as_slice(), a, b);
        let ts = t.as_str();
        if str_equals(ts, "TRACE") {
            Ok(LogLevel::Trace)
        } else if str_equals(ts, "DEBUG") {
            Ok(LogLevel::Debug)
        } else if str_equals(ts, "INFO") {
            Ok(LogLevel::Info)
        } else if str_equals(ts, "WARN") || str_equals(ts, "WARNING") {
            Ok(LogLevel::Warn)
        } else if str_equals(ts, "ERROR") || str_equals(ts, "ERR") {
            Ok(LogLevel::Error)
        } else if str_equals(ts, "FATAL") {
            Ok(LogLevel::Fatal)
        } else if str_equals(ts, "UNKNOWN") || b == a {
            Ok(LogLevel::Unknown)
        } else {
            let mut msg = copy_str("unsupported log level `");
            msg.append(ts);
            msg.append("`");
            Err(AppError::Parse(msg))
        }
    }
}

impl std::str::FromStr for LogLevel {
    type Err = AppError;

    fn from_str(s: &str) -> (r: Result<LogLevel, AppError>)
        ensures
            match parse_level_spec(s@) {
                Ok(level) => r matches Ok(x) && x == level,
                Err(e) => r matches Err(x) && x@ == e,
            },
    {
        LogLevel::parse_name(s)
    }
}

/// The fields of a log line, by lower-case key.
pub type FieldMap = StrMap<String>;

#[derive(Debug)]
pub struct LogRecord {
    pub line_number: usize,
    pub service: String,
    pub level: LogLevel,
    pub latency_ms: Option<u64>,
    pub message: String,
    pub fields: FieldMap,
    pub raw: String,
}

/// A record with its strings taken as characters.
pub struct RecordView {
    pub line_number: usize,
    pub service: Seq<char>,
    pub level: LogLevel,
    pub latency_ms: Option<u64>,
    pub message: Seq<char>,
    pub fields: Seq<(Seq<char>, Seq<char>)>,
    pub raw: Seq<char>,
}

impl View for LogRecord {
    type V = RecordView;

    open spec fn view(&self) -> RecordView {
        RecordView {
            line_number: self.line_number,
            service: self.service@,
            level: self.level,
            latency_ms: self.latency_ms,
            message: self.message@,
            fields: self.fields.entries(),
            raw: self.raw@,
        }
    }
}

pub open spec fn is_error_level(level: LogLevel) -> bool {
    level is Error || level is Fatal
}

impl LogRecord {
    pub fn new(
        line_number: usize,
        service: String,
        level: LogLevel,
        latency_ms: Option<u64>,
        message: String,
        fields: FieldMap,
        raw: String,
    ) -> (r: Self)
        ensures
            r.line_number == line_number,
            r.service == service,
            r.level == level,
            r.latency_ms == latency_ms,
            r.message == message,
            r.fields == fields,
            r.raw == raw,
    {
        LogRecord { line_number, service, level, latency_ms, message, fields, raw }
    }

    pub fn is_error_like(&self) -> (r: bool)
        ensures
            r == is_error_level(self.level),
    {
        matches!(self.level, LogLevel::Error | LogLevel::Fatal)
    }

    /// The value of the field `key` (keys are stored in lower case).
    pub fn field(&self, key: &str) -> (r: Option<&str>)
        ensures
            match lookup(self.fields.entries(), key@) {
                Some(v) => r matches Some(x) && x@ == v,
                None => r is None,
            },
    {
        match self.fields.get(key) {
            Some(v) => Some(v.as_str()),
            None => None,
        }
    }

    /// A copy of the record.
    pub fn duplicate(&self) -> (r: Self)
        ensures
            r@ == self@,
    {
        LogRecord {
            line_number: self.line_number,
            service: self.service.clone(),
            level: self.level,
            latency_ms: self.latency_ms,
            message: self.message.clone(),
            fields: self.fields.duplicate(),
            raw: self.raw.clone(),
        }
    }
}

impl Clone for LogRecord {
    fn clone(&self) -> (r: Self)
        ensures
            r@ == self@,
    {
        self.duplicate()
    }
}

#[derive(Debug, Clone)]
pub struct LogFilter {
    pub min_level: Option<LogLevel>,
    pub service: Option<String>,
    pub keyword: Option<String>,
}

pub struct FilterView {
    pub min_level: Option<LogLevel>,
    pub service: Option<Seq<char>>,
    pub keyword: Option<Seq<char>>,
}

impl View for LogFilter {
    type V = FilterView;

    open spec fn view(&self) -> FilterView {
        FilterView {
            min_level: self.min_level,
            service: match self.service {
                Some(s) => Some(s@),
                None => None,
            },
            keyword: match self.keyword {
                Some(k) => Some(k@),
                None => None,
            },
        }
    }
}

/// A record passes a filter when its level is at least the minimum level, its
/// service equals the wanted one up to ASCII case, and the keyword occurs, up
/// to ASCII case, in its message or its raw line.
pub open spec fn accepts(f: FilterView, r: RecordView) -> bool {
    &&& (f.min_level matches Some(level) ==> severity_of(r.level) >= severity_of(level))
    &&& (f.service matches Some(s) ==> lower_seq(r.service) == lower_seq(s))
    &&& (f.keyword matches Some(k) ==> contains_seq(lower_seq(r.message), lower_seq(k))
        || contains_seq(lower_seq(r.raw), lower_seq(k)))
}

/// Whether two strings are equal up to ASCII case.
pub fn eq_ignore_case(a: &str, b: &str) -> (r: bool)
    ensures
        r == (lower_seq(a@) == lower_seq(b@)),
{
    let x = lowercase(a);
    let y = lowercase(b);
    let xs = chars_of(x.as_str());
    let ys = chars_of(y.as_str());
    chars_equal(xs.as_slice(), ys.as_slice())
}

/// Whether `needle` occurs in `hay` up to ASCII case.
pub fn contains_ignore_case(hay: &str, needle: &str) -> (r: bool)
    ensures
        r == contains_seq(lower_seq(hay@), lower_seq(needle@)),
{
    let h = lowercase(hay);
    let n = lowercase(needle);
    let hs = chars_of(h.as_str());
    let ns = chars_of(n.as_str());
    contains_chars(hs.as_slice(), ns.as_slice())
}

impl LogFilter {
    pub fn accept(&self, record: &LogRecord) -> (r: bool)
        ensures
            r == accepts(self@, record@),
    {
        if let Some(level) = self.min_level {
            if record.level.severity() < level.severity() {
                return false;
            }
        }
        if let Some(service) = &self.service {
            if !eq_ignore_case(record.service.as_str(), service.as_str()) {
                return false;
            }
        }
        if let Some(keyword) = &self.keyword {
            let in_message = contains_ignore_case(record.message.as_str(), keyword.as_str());
            let in_raw = contains_ignore_case(record.raw.as_str(), keyword.as_str());
            if !in_message && !in_raw {
                return false;
            }
        }
        true
    }
}

#[derive(Debug, Clone, Copy, PartialEq, Eq, Structural)]
pub enum OutputFormat {
    Text,
    Markdown,
    Json,
    Csv,
}

/// The format that a lower-case, trimmed name denotes.
pub open spec fn format_from_name(t: Seq<char>) -> Option<OutputFormat> {
    if t == "text"@ || t == "txt"@ {
        Some(OutputFormat::Text)
    } else if t == "markdown"@ || t == "md"@ {
        Some(OutputFormat::Markdown)
    } else if t == "json"@ {
        Some(OutputFormat::Json)
    } else if t == "csv"@ {
        Some(OutputFormat::Csv)
    } else {
        None
    }
}

/// What reading `s` as a format gives: case and surrounding whitespace are ignored.
pub open spec fn parse_format_spec(s: Seq<char>) -> Result<OutputFormat, ErrorView> {
    let t = lower_seq(trim(s));
    match format_from_name(t) {
        Some(f) => Ok(f),
        None => Err(ErrorView::InvalidArgument(
            "unknown format `"@ + t + "`, expected text/markdown/json/csv"@,
        )),
    }
}

impl OutputFormat {
    /// Reads a format name, ignoring case and surrounding whitespace.
    pub fn parse_name(s: &str) -> (r: Result<OutputFormat, AppError>)
        ensures
            match parse_format_spec(s@) {
                Ok(f) => r matches Ok(x) && x == f,
                Err(e) => r matches Err(x) && x@ == e,
            },
    {
        let v = chars_of(s);
        let (a, b) = trim_bounds(v.as_slice(), 0, v.len());
        assert(v@.subrange(0, v@.len() as int) =~= v@);
        let t = lower_of(v.as_slice(), a, b);
        let ts = t.as_str();
        if str_equals(ts, "text") || str_equals(ts, "txt") {
            Ok(OutputFormat::Text)
        } else if str_equals(ts, "markdown") || str_equals(ts, "md") {
            Ok(OutputFormat::Markdown)
        } else if str_equals(ts, "json") {
            Ok(OutputFormat::Json)
        } else if str_equals(ts, "csv") {
            Ok(OutputFormat::Csv)
        } else {
            let mut msg = copy_str("unknown format `");
            msg.append(ts);
            msg.append("`, expected text/markdown/json/csv");
            Err(AppError::InvalidArgument(msg))
        }
    }
}

impl std::str::FromStr for OutputFormat {
    type Err = AppError;

    fn from_str(s: &str) -> (r: Result<OutputFormat, AppError>)
        ensures
            match parse_format_spec(s@) {
                Ok(f) => r matches Ok(x) && x == f,
                Err(e) => r matches Err(x) && x@ == e,
            },
    {
        OutputFormat::parse_name(s)
    }
}

/// A key with the number of times it occurred.
#[derive(Debug, Clone, PartialEq, Eq)]
pub struct TopItem<K> {
    pub key: K,
    pub count: usize,
}

/// Whether an entry with count `c1` and key `k1` is ranked above one with
/// count `c2` and key `k2`: a higher count ranks higher, and of equal counts
/// the smaller key.
pub open spec fn ranks_above(k1: Seq<char>, c1: usize, k2: Seq<char>, c2: usize) -> bool {
    c1 > c2 || (c1 == c2 && seq_lt(k1, k2))
}

impl TopItem<String> {
    /// Whether this item is ranked above `other`.
    pub fn ranks_before(&self, other: &TopItem<String>) -> (r: bool)
        ensures
            r == ranks_above(self.key@, self.count, other.key@, other.count),
    {
        self.count > other.count || (self.count == other.count && str_less(self.key.as_str(), other.key.as_str()))
    }
}

} // verus!
