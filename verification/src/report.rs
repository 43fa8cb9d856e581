//! Report rendering (text, Markdown, JSON, CSV) and the integer part of the
//! health assessment: penalties, score and health level.
use vstd::prelude::*;
use crate::analyzer::{AnalysisResult, AnalysisView, LevelCounts, item_views, keep_first, rec_views, str_views};
use crate::model::{LogLevel, LogRecord, OutputFormat, RecordView, TopItem, level_name};
use crate::strmap::{lookup, StrMap};
use crate::text::{chars_of, copy_str, is_digit, str_equals, opt_text_view, dec, has_char, has_char_in, push_decimal};

verus! {

#[derive(Debug, Clone, Copy, PartialEq, Eq, Structural)]
pub enum HealthLevel {
    Healthy,
    Notice,
    Risky,
    Critical,
}

pub open spec fn health_name(h: HealthLevel) -> Seq<char> {
    match h {
        HealthLevel::Healthy => "HEALTHY"@,
        HealthLevel::Notice => "NOTICE"@,
        HealthLevel::Risky => "RISKY"@,
        HealthLevel::Critical => "CRITICAL"@,
    }
}

impl HealthLevel {
    pub fn as_str(&self) -> (r: &'static str)
        ensures
            r@ == health_name(*self),
    {
        match self {
            HealthLevel::Healthy => "HEALTHY",
            HealthLevel::Notice => "NOTICE",
            HealthLevel::Risky => "RISKY",
            HealthLevel::Critical => "CRITICAL",
        }
    }
}

/// The score left after a penalty: 100 less the penalty, at least 0.
pub open spec fn score_for(penalty: u8) -> u8 {
    if penalty >= 100 { 0 } else { (100 - penalty) as u8 }
}

/// The health level a score falls in.
pub open spec fn health_for(score: u8) -> HealthLevel {
    if 85 <= score && score <= 100 {
        HealthLevel::Healthy
    } else if 70 <= score && score <= 84 {
        HealthLevel::Notice
    } else if 45 <= score && score <= 69 {
        HealthLevel::Risky
    } else {
        HealthLevel::Critical
    }
}

pub fn score_for_penalty(penalty: u8) -> (r: u8)
    ensures
        r == score_for(penalty),
{
    100u8.saturating_sub(penalty)
}

pub fn health_for_score(score: u8) -> (r: HealthLevel)
    ensures
        r == health_for(score),
{
    if 85 <= score && score <= 100 {
        HealthLevel::Healthy
    } else if 70 <= score && score <= 84 {
        HealthLevel::Notice
    } else if 45 <= score && score <= 69 {
        HealthLevel::Risky
    } else {
        HealthLevel::Critical
    }
}

/// The suggestion given when no rule found anything to say.
pub open spec fn all_clear_text() -> Seq<char> {
    "整体日志状态较好，未发现明显错误或慢请求集中问题。"@
}

/// Penalties and suggestions gathered by the health rules.
#[derive(Debug, Default)]
pub struct InsightDraft {
    penalty: u8,
    suggestions: Vec<String>,
}

/// The conclusion of a draft.
#[derive(Debug, Clone)]
pub struct Verdict {
    pub health: HealthLevel,
    pub score: u8,
    pub suggestions: Vec<String>,
}

impl InsightDraft {
    pub closed spec fn penalty_view(&self) -> u8 {
        self.penalty
    }

    pub closed spec fn suggestions_view(&self) -> Seq<Seq<char>> {
        str_views(self.suggestions@)
    }

    pub fn new() -> (r: Self)
        ensures
            r.penalty_view() == 0,
            r.suggestions_view() == Seq::<Seq<char>>::empty(),
    {
        let r = InsightDraft { penalty: 0, suggestions: Vec::new() };
        assert(r.suggestions_view() =~= Seq::<Seq<char>>::empty());
        r
    }

    /// Adds a penalty; the total stops at 255.
    pub fn penalize(&mut self, value: u8)
        ensures
            final(self).penalty_view() == (if old(self).penalty_view() + value > 255 { 255 } else { (old(self).penalty_view() + value) as u8 }),
            final(self).suggestions_view() == old(self).suggestions_view(),
    {
        self.penalty = self.penalty.saturating_add(value);
    }

    pub fn suggest(&mut self, suggestion: String)
        ensures
            final(self).penalty_view() == old(self).penalty_view(),
            final(self).suggestions_view() == old(self).suggestions_view().push(suggestion@),
    {
        let ghost before = self.suggestions@;
        let ghost s = suggestion@;
        self.suggestions.push(suggestion);
        assert(str_views(self.suggestions@) =~= str_views(before).push(s));
    }

    pub fn penalty(&self) -> (r: u8)
        ensures
            r == self.penalty_view(),
    {
        self.penalty
    }

    /// The score, health level and suggestions of the draft; with no
    /// suggestion, the all-clear one.
    pub fn conclude(self) -> (r: Verdict)
        ensures
            r.score == score_for(self.penalty_view()),
            r.health == health_for(r.score),
            str_views(r.suggestions@) == (if self.suggestions_view().len() == 0 {
                seq![all_clear_text()]
            } else {
                self.suggestions_view()
            }),
    {
        let InsightDraft { penalty, mut suggestions } = self;
        if suggestions.len() == 0 {
            suggestions.push(copy_str("整体日志状态较好，未发现明显错误或慢请求集中问题。"));
            assert(str_views(suggestions@) =~= seq![all_clear_text()]);
        }
        let score = score_for_penalty(penalty);
        Verdict { health: health_for_score(score), score, suggestions }
    }
}

/// A rule of the health assessment: it reads an analysis and may add a
/// penalty and a suggestion to the draft.
pub trait Rule {
    fn apply(&self, result: &AnalysisResult, draft: &mut InsightDraft);
}

/// The parts of a report that come from the health assessment and from
/// floating-point figures, already written out.
#[derive(Debug, Clone)]
pub struct ReportFigures {
    /// Mean latency with two decimals, if there is any sample.
    pub average: Option<String>,
    pub health: HealthLevel,
    pub score: u8,
    /// Error ratio in percent, one decimal.
    pub error_percent: String,
    /// Slow ratio in percent, one decimal.
    pub slow_percent: String,
    /// Error ratio, four decimals.
    pub error_ratio: String,
    /// Slow ratio, four decimals.
    pub slow_ratio: String,
    pub dominant_service: Option<String>,
    pub suggestions: Vec<String>,
}

pub struct FiguresView {
    pub average: Option<Seq<char>>,
    pub health: HealthLevel,
    pub score: u8,
    pub error_percent: Seq<char>,
    pub slow_percent: Seq<char>,
    pub error_ratio: Seq<char>,
    pub slow_ratio: Seq<char>,
    pub dominant_service: Option<Seq<char>>,
    pub suggestions: Seq<Seq<char>>,
}

impl View for ReportFigures {
    type V = FiguresView;

    open spec fn view(&self) -> FiguresView {
        FiguresView {
            average: match self.average {
                Some(a) => Some(a@),
                None => None,
            },
            health: self.health,
            score: self.score,
            error_percent: self.error_percent@,
            slow_percent: self.slow_percent@,
            error_ratio: self.error_ratio@,
            slow_ratio: self.slow_ratio@,
            dominant_service: match self.dominant_service {
                Some(d) => Some(d@),
                None => None,
            },
            suggestions: str_views(self.suggestions@),
        }
    }
}

/// Lines, each followed by a newline.
pub open spec fn join_lines(ls: Seq<Seq<char>>) -> Seq<char>
    decreases ls.len(),
{
    if ls.len() == 0 {
        Seq::empty()
    } else {
        join_lines(ls.drop_last()) + ls.last().push('\n')
    }
}

pub proof fn lemma_join_push(ls: Seq<Seq<char>>, l: Seq<char>)
    ensures
        join_lines(ls.push(l)) == join_lines(ls) + l.push('\n'),
{
    assert(ls.push(l).drop_last() =~= ls);
}

pub proof fn lemma_join_concat(a: Seq<Seq<char>>, b: Seq<Seq<char>>)
    ensures
        join_lines(a + b) == join_lines(a) + join_lines(b),
    decreases b.len(),
{
    if b.len() == 0 {
        assert(a + b =~= a);
        assert(join_lines(a) + join_lines(b) =~= join_lines(a));
    } else {
        lemma_join_concat(a, b.drop_last());
        assert((a + b).drop_last() =~= a + b.drop_last());
        assert((a + b).last() == b.last());
        assert(join_lines(a + b) =~= join_lines(a) + join_lines(b));
    }
}

/// Appends `line` and a newline.
fn push_line(out: &mut String, line: &str)
    ensures
        final(out)@ == old(out)@ + line@.push('\n'),
{
    out.append(line);
    out.push('\n');
    assert(final(out)@ =~= old(out)@ + line@.push('\n'));
}

/// Writes `line` and a line break to `out`, which holds the lines `ls`
/// written after `o`; then it holds those lines followed by `line`.
fn push_after(out: &mut String, line: &str, Ghost(o): Ghost<Seq<char>>, Ghost(ls): Ghost<Seq<Seq<char>>>)
    requires
        old(out)@ == o + join_lines(ls),
    ensures
        final(out)@ == o + join_lines(ls.push(line@)),
{
    push_line(out, line);
    proof {
        lemma_join_push(ls, line@);
    }
    assert(out@ =~= o + join_lines(ls.push(line@)));
}

/// `s` padded with spaces on the right to `w` characters, as `{:<w}` writes a string.
pub open spec fn pad_right(s: Seq<char>, w: nat) -> Seq<char> {
    if s.len() >= w {
        s
    } else {
        s + Seq::new((w - s.len()) as nat, |i: int| ' ')
    }
}

fn push_padded(out: &mut String, s: &str, w: usize)
    ensures
        final(out)@ == old(out)@ + pad_right(s@, w as nat),
{
    let v = chars_of(s);
    out.append(s);
    let mut k = v.len();
    while k < w
        invariant
            v@ == s@,
            v@.len() <= k <= w || (k == v@.len() && k >= w),
            out@ == old(out)@ + s@ + Seq::new((k - v@.len()) as nat, |i: int| ' '),
        decreases w - k,
    {
        out.push(' ');
        k += 1;
        assert(out@ =~= old(out)@ + s@ + Seq::new((k - v@.len()) as nat, |i: int| ' '));
    }
    if v.len() >= w {
        assert(out@ =~= old(out)@ + s@);
    } else {
        assert(out@ =~= old(out)@ + pad_right(s@, w as nat));
    }
}

/// The decimal digits of `n` padded on the right to `w` characters.
fn push_padded_decimal(out: &mut String, n: u64, w: usize)
    ensures
        final(out)@ == old(out)@ + pad_right(dec(n as nat), w as nat),
{
    let mut digits = String::new();
    push_decimal(&mut digits, n);
    assert(digits@ =~= dec(n as nat));
    push_padded(out, digits.as_str(), w);
}

/// `Debug` of an optional integer.
pub open spec fn debug_opt(o: Option<u64>) -> Seq<char> {
    match o {
        Some(v) => "Some("@ + dec(v as nat) + ")"@,
        None => "None"@,
    }
}

/// An optional integer in JSON.
pub open spec fn json_opt(o: Option<u64>) -> Seq<char> {
    match o {
        Some(v) => dec(v as nat),
        None => "null"@,
    }
}

fn push_debug_opt(out: &mut String, o: Option<u64>)
    ensures
        final(out)@ == old(out)@ + debug_opt(o),
{
    match o {
        Some(v) => {
            out.append("Some(");
            push_decimal(out, v);
            out.append(")");
        },
        None => out.append("None"),
    }
}

fn push_json_opt(out: &mut String, o: Option<u64>)
    ensures
        final(out)@ == old(out)@ + json_opt(o),
{
    match o {
        Some(v) => push_decimal(out, v),
        None => out.append("null"),
    }
}

/// Escape of one character in a JSON string.
pub open spec fn json_char(c: char) -> Seq<char> {
    if c == '\\' {
        seq!['\\', '\\']
    } else if c == '"' {
        seq!['\\', '"']
    } else if c == '\n' {
        seq!['\\', 'n']
    } else if c == '\r' {
        seq!['\\', 'r']
    } else {
        seq![c]
    }
}

/// Escape of one character in Markdown text.
pub open spec fn markdown_char(c: char) -> Seq<char> {
    if c == '\\' || c == '|' || c == '`' || c == '*' || c == '_' {
        seq!['\\', c]
    } else {
        seq![c]
    }
}

/// Doubling of quotes inside a CSV field.
pub open spec fn csv_char(c: char) -> Seq<char> {
    if c == '"' {
        seq!['"', '"']
    } else {
        seq![c]
    }
}

/// Backslash, quote, newline and carriage return escaped.
pub open spec fn escape_json_spec(s: Seq<char>) -> Seq<char>
    decreases s.len(),
{
    if s.len() == 0 {
        Seq::empty()
    } else {
        escape_json_spec(s.drop_last()) + json_char(s.last())
    }
}

/// Backslash, `|`, backtick, `*` and `_` escaped with a backslash.
pub open spec fn escape_markdown_spec(s: Seq<char>) -> Seq<char>
    decreases s.len(),
{
    if s.len() == 0 {
        Seq::empty()
    } else {
        escape_markdown_spec(s.drop_last()) + markdown_char(s.last())
    }
}

/// Quotes doubled.
pub open spec fn double_quotes(s: Seq<char>) -> Seq<char>
    decreases s.len(),
{
    if s.len() == 0 {
        Seq::empty()
    } else {
        double_quotes(s.drop_last()) + csv_char(s.last())
    }
}

/// A CSV field: quoted, with quotes doubled, when it holds a comma, a quote or
/// a newline; else as it is.
pub open spec fn escape_csv_spec(s: Seq<char>) -> Seq<char> {
    if has_char(s, ',') || has_char(s, '"') || has_char(s, '\n') {
        seq!['"'] + double_quotes(s) + seq!['"']
    } else {
        s
    }
}

fn push_escaped_json(out: &mut String, s: &str)
    ensures
        final(out)@ == old(out)@ + escape_json_spec(s@),
{
    let v = chars_of(s);
    let mut i: usize = 0;
    while i < v.len()
        invariant
            v@ == s@,
            0 <= i <= v@.len(),
            out@ == old(out)@ + escape_json_spec(v@.take(i as int)),
        decreases v@.len() - i,
    {
        let c = v[i];
        if c == '\\' {
            out.push('\\');
            out.push('\\');
        } else if c == '"' {
            out.push('\\');
            out.push('"');
        } else if c == '\n' {
            out.push('\\');
            out.push('n');
        } else if c == '\r' {
            out.push('\\');
            out.push('r');
        } else {
            out.push(c);
        }
        assert(v@.take(i + 1).drop_last() =~= v@.take(i as int));
        i += 1;
        assert(out@ =~= old(out)@ + escape_json_spec(v@.take(i as int)));
    }
    assert(v@.take(v@.len() as int) =~= v@);
}

fn push_escaped_markdown(out: &mut String, s: &str)
    ensures
        final(out)@ == old(out)@ + escape_markdown_spec(s@),
{
    let v = chars_of(s);
    let mut i: usize = 0;
    while i < v.len()
        invariant
            v@ == s@,
            0 <= i <= v@.len(),
            out@ == old(out)@ + escape_markdown_spec(v@.take(i as int)),
        decreases v@.len() - i,
    {
        let c = v[i];
        if c == '\\' || c == '|' || c == '`' || c == '*' || c == '_' {
            out.push('\\');
        }
        out.push(c);
        assert(v@.take(i + 1).drop_last() =~= v@.take(i as int));
        i += 1;
        assert(out@ =~= old(out)@ + escape_markdown_spec(v@.take(i as int)));
    }
    assert(v@.take(v@.len() as int) =~= v@);
}

fn push_escaped_csv(out: &mut String, s: &str)
    ensures
        final(out)@ == old(out)@ + escape_csv_spec(s@),
{
    let v = chars_of(s);
    if has_char_in(v.as_slice(), ',') || has_char_in(v.as_slice(), '"') || has_char_in(v.as_slice(), '\n') {
        out.push('"');
        let mut i: usize = 0;
        while i < v.len()
            invariant
                v@ == s@,
                0 <= i <= v@.len(),
                out@ == old(out)@ + seq!['"'] + double_quotes(v@.take(i as int)),
            decreases v@.len() - i,
        {
            let c = v[i];
            if c == '"' {
                out.push('"');
            }
            out.push(c);
            assert(v@.take(i + 1).drop_last() =~= v@.take(i as int));
            i += 1;
            assert(out@ =~= old(out)@ + seq!['"'] + double_quotes(v@.take(i as int)));
        }
        assert(v@.take(v@.len() as int) =~= v@);
        out.push('"');
        assert(out@ =~= old(out)@ + escape_csv_spec(s@));
    } else {
        out.append(s);
    }
}

/// `s` with backslash, quote, newline and carriage return escaped for JSON.
pub fn escape_json(s: &str) -> (r: String)
    ensures
        r@ == escape_json_spec(s@),
{
    let mut out = String::new();
    push_escaped_json(&mut out, s);
    assert(out@ =~= escape_json_spec(s@));
    out
}

/// `s` as a CSV field.
pub fn escape_csv(s: &str) -> (r: String)
    ensures
        r@ == escape_csv_spec(s@),
{
    let mut out = String::new();
    push_escaped_csv(&mut out, s);
    assert(out@ =~= escape_csv_spec(s@));
    out
}

/// `s` with Markdown's special characters escaped.
pub fn escape_markdown(s: &str) -> (r: String)
    ensures
        r@ == escape_markdown_spec(s@),
{
    let mut out = String::new();
    push_escaped_markdown(&mut out, s);
    assert(out@ =~= escape_markdown_spec(s@));
    out
}

/// An optional integer as JSON: its digits, or `null`.
pub fn option_u64(value: Option<u64>) -> (r: String)
    ensures
        r@ == json_opt(value),
{
    let mut out = String::new();
    push_json_opt(&mut out, value);
    assert(out@ =~= json_opt(value));
    out
}


/// The request identifier of a record: its `request_id` field, else `trace_id`.
pub open spec fn request_of(r: RecordView) -> Option<Seq<char>> {
    match lookup(r.fields, "request_id"@) {
        Some(v) => Some(v),
        None => lookup(r.fields, "trace_id"@),
    }
}

/// The latency of a record between two texts, or nothing where it has none.
pub open spec fn latency_part(latency: Option<u64>, pre: Seq<char>, post: Seq<char>) -> Seq<char> {
    match latency {
        Some(v) => pre + dec(v as nat) + post,
        None => Seq::empty(),
    }
}

/// The request identifier of a record as the text report shows it.
pub open spec fn request_text(q: Option<Seq<char>>) -> Seq<char> {
    match q {
        Some(q) => " request="@ + q,
        None => Seq::empty(),
    }
}

/// The request identifier of a record as the Markdown report shows it.
pub open spec fn request_markdown(q: Option<Seq<char>>) -> Seq<char> {
    match q {
        Some(q) => ", request `"@ + escape_markdown_spec(q) + "`"@,
        None => Seq::empty(),
    }
}

/// Line number, service and level of a record in the text report.
pub open spec fn record_text_head(r: RecordView) -> Seq<char> {
    "  line "@ + pad_right(dec(r.line_number as nat), 4) + " "@ + pad_right(r.service, 8) + " "@
        + level_name(r.level)
}

/// A record as a line of the text report.
pub open spec fn record_text(r: RecordView) -> Seq<char> {
    record_text_head(r) + latency_part(r.latency_ms, " "@, "ms"@) + request_text(request_of(r)) + " "@
        + r.message
}

/// Line number, service and level of a record in the Markdown report.
pub open spec fn record_markdown_head(r: RecordView) -> Seq<char> {
    "第 "@ + dec(r.line_number as nat) + " 行，服务 `"@ + escape_markdown_spec(r.service) + "`，等级 `"@
        + level_name(r.level) + "`"@
}

/// A record as an item of the Markdown report.
pub open spec fn record_markdown(r: RecordView) -> Seq<char> {
    record_markdown_head(r) + latency_part(r.latency_ms, ", 耗时 `"@, "ms`"@)
        + request_markdown(request_of(r)) + "，消息："@ + escape_markdown_spec(r.message)
}

fn request_field(record: &LogRecord) -> (r: Option<&str>)
    ensures
        match request_of(record@) {
            Some(q) => r matches Some(x) && x@ == q,
            None => r is None,
        },
{
    match record.field("request_id") {
        Some(v) => Some(v),
        None => record.field("trace_id"),
    }
}

fn push_latency_part(out: &mut String, latency: Option<u64>, pre: &str, post: &str)
    ensures
        final(out)@ == old(out)@ + latency_part(latency, pre@, post@),
{
    let ghost o = out@;
    match latency {
        Some(v) => {
            out.append(pre);
            push_decimal(out, v);
            out.append(post);
        },
        None => {},
    }
    assert(out@ =~= o + latency_part(latency, pre@, post@));
}

fn push_record_text(out: &mut String, record: &LogRecord)
    ensures
        final(out)@ == old(out)@ + record_text(record@),
{
    let ghost o = out@;
    out.append("  line ");
    push_padded_decimal(out, record.line_number as u64, 4);
    out.append(" ");
    push_padded(out, record.service.as_str(), 8);
    out.append(" ");
    out.append(record.level.as_str());
    assert(out@ =~= o + record_text_head(record@));
    push_latency_part(out, record.latency_ms, " ", "ms");
    let ghost o2 = out@;
    match request_field(record) {
        Some(q) => {
            out.append(" request=");
            out.append(q);
        },
        None => {},
    }
    assert(out@ =~= o2 + request_text(request_of(record@)));
    out.append(" ");
    out.append(record.message.as_str());
    assert(out@ =~= o + record_text(record@));
}

fn push_record_markdown(out: &mut String, record: &LogRecord)
    ensures
        final(out)@ == old(out)@ + record_markdown(record@),
{
    let ghost o = out@;
    out.append("第 ");
    push_decimal(out, record.line_number as u64);
    out.append(" 行，服务 `");
    push_escaped_markdown(out, record.service.as_str());
    out.append("`，等级 `");
    out.append(record.level.as_str());
    out.append("`");
    assert(out@ =~= o + record_markdown_head(record@));
    push_latency_part(out, record.latency_ms, ", 耗时 `", "ms`");
    let ghost o2 = out@;
    match request_field(record) {
        Some(q) => {
            out.append(", request `");
            push_escaped_markdown(out, q);
            out.append("`");
        },
        None => {},
    }
    assert(out@ =~= o2 + request_markdown(request_of(record@)));
    out.append("，消息：");
    push_escaped_markdown(out, record.message.as_str());
    assert(out@ =~= o + record_markdown(record@));
}

/// A record as a line of the text report.
pub fn format_record_text(record: &LogRecord) -> (r: String)
    ensures
        r@ == record_text(record@),
{
    let mut out = String::new();
    push_record_text(&mut out, record);
    assert(out@ =~= record_text(record@));
    out
}

/// A record as an item of the Markdown report.
pub fn format_record_markdown(record: &LogRecord) -> (r: String)
    ensures
        r@ == record_markdown(record@),
{
    let mut out = String::new();
    push_record_markdown(&mut out, record);
    assert(out@ =~= record_markdown(record@));
    out
}

/// The levels that have records, in ascending order, with their counts.
pub open spec fn level_entries(c: LevelCounts) -> Seq<(LogLevel, usize)> {
    level_entry(c, LogLevel::Trace) + level_entry(c, LogLevel::Debug) + level_entry(c, LogLevel::Info)
        + level_entry(c, LogLevel::Warn) + level_entry(c, LogLevel::Error) + level_entry(c, LogLevel::Fatal)
        + level_entry(c, LogLevel::Unknown)
}

pub open spec fn level_entry(c: LevelCounts, l: LogLevel) -> Seq<(LogLevel, usize)> {
    if c.count(l) > 0 {
        seq![(l, c.count(l))]
    } else {
        Seq::empty()
    }
}

fn push_level_entry(v: &mut Vec<(LogLevel, usize)>, c: &LevelCounts, l: LogLevel)
    ensures
        final(v)@ == old(v)@ + level_entry(*c, l),
{
    let n = c.count_of(l);
    if n > 0 {
        v.push((l, n));
    }
    assert(final(v)@ =~= old(v)@ + level_entry(*c, l));
}

/// The levels that have records, in ascending order, with their counts.
pub fn level_entries_of(c: &LevelCounts) -> (r: Vec<(LogLevel, usize)>)
    ensures
        r@ == level_entries(*c),
{
    let mut v: Vec<(LogLevel, usize)> = Vec::new();
    push_level_entry(&mut v, c, LogLevel::Trace);
    push_level_entry(&mut v, c, LogLevel::Debug);
    push_level_entry(&mut v, c, LogLevel::Info);
    push_level_entry(&mut v, c, LogLevel::Warn);
    push_level_entry(&mut v, c, LogLevel::Error);
    push_level_entry(&mut v, c, LogLevel::Fatal);
    push_level_entry(&mut v, c, LogLevel::Unknown);
    assert(v@ =~= level_entries(*c));
    v
}

/// A row for each level that has records: `pre`, the level, `mid`, the count, `post`.
pub open spec fn level_rows(c: LevelCounts, pre: Seq<char>, mid: Seq<char>, post: Seq<char>) -> Seq<Seq<char>> {
    level_entries(c).map_values(|e: (LogLevel, usize)| pre + level_name(e.0) + mid + dec(e.1 as nat) + post)
}

fn push_level_rows(out: &mut String, c: &LevelCounts, pre: &str, mid: &str, post: &str)
    ensures
        final(out)@ == old(out)@ + join_lines(level_rows(*c, pre@, mid@, post@)),
{
    let entries = level_entries_of(c);
    let ghost rows = level_rows(*c, pre@, mid@, post@);
    let mut i: usize = 0;
    while i < entries.len()
        invariant
            entries@ == level_entries(*c),
            rows == level_rows(*c, pre@, mid@, post@),
            0 <= i <= entries@.len(),
            out@ == old(out)@ + join_lines(rows.take(i as int)),
        decreases entries@.len() - i,
    {
        let (level, n) = entries[i];
        let mut line = copy_str(pre);
        line.append(level.as_str());
        line.append(mid);
        push_decimal(&mut line, n as u64);
        line.append(post);
        push_line(out, line.as_str());
        proof {
            assert(rows.take(i + 1) =~= rows.take(i as int).push(rows[i as int]));
            lemma_join_push(rows.take(i as int), rows[i as int]);
        }
        i += 1;
    }
    assert(rows.take(entries@.len() as int) =~= rows);
}

/// Each string after `prefix`.
pub open spec fn prefixed(prefix: Seq<char>, ss: Seq<Seq<char>>) -> Seq<Seq<char>> {
    ss.map_values(|s: Seq<char>| prefix + s)
}

/// Appends a line `prefix` + `s` for each of the first `limit` strings `s`.
fn push_prefixed_lines(out: &mut String, prefix: &str, items: &Vec<String>, limit: usize)
    ensures
        final(out)@ == old(out)@ + join_lines(prefixed(prefix@, keep_first(str_views(items@), limit as nat))),
{
    let ghost all = str_views(items@);
    let ghost ls = prefixed(prefix@, keep_first(all, limit as nat));
    let n = if items.len() < limit { items.len() } else { limit };
    let mut i: usize = 0;
    while i < n
        invariant
            all == str_views(items@),
            ls == prefixed(prefix@, keep_first(all, limit as nat)),
            n == (if items@.len() < limit { items@.len() } else { limit as nat }),
            0 <= i <= n,
            out@ == old(out)@ + join_lines(ls.take(i as int)),
        decreases n - i,
    {
        let mut line = copy_str(prefix);
        line.append(items[i].as_str());
        push_line(out, line.as_str());
        proof {
            assert(ls.take(i + 1) =~= ls.take(i as int).push(ls[i as int]));
            lemma_join_push(ls.take(i as int), ls[i as int]);
        }
        i += 1;
    }
    assert(ls.take(n as int) =~= ls);
}

pub open spec fn record_text_lines(rs: Seq<RecordView>) -> Seq<Seq<char>> {
    rs.map_values(|r: RecordView| record_text(r))
}

pub open spec fn record_markdown_lines(rs: Seq<RecordView>) -> Seq<Seq<char>> {
    rs.map_values(|r: RecordView| "- "@ + record_markdown(r))
}

fn push_record_lines(out: &mut String, recs: &Vec<LogRecord>, limit: usize, markdown: bool)
    ensures
        final(out)@ == old(out)@ + join_lines(
            if markdown {
                record_markdown_lines(keep_first(rec_views(recs@), limit as nat))
            } else {
                record_text_lines(keep_first(rec_views(recs@), limit as nat))
            },
        ),
{
    let ghost all = rec_views(recs@);
    let ghost ls = if markdown {
        record_markdown_lines(keep_first(all, limit as nat))
    } else {
        record_text_lines(keep_first(all, limit as nat))
    };
    let n = if recs.len() < limit { recs.len() } else { limit };
    let mut i: usize = 0;
    while i < n
        invariant
            all == rec_views(recs@),
            ls == (if markdown {
                record_markdown_lines(keep_first(all, limit as nat))
            } else {
                record_text_lines(keep_first(all, limit as nat))
            }),
            n == (if recs@.len() < limit { recs@.len() } else { limit as nat }),
            0 <= i <= n,
            out@ == old(out)@ + join_lines(ls.take(i as int)),
        decreases n - i,
    {
        let mut line = String::new();
        if markdown {
            line.append("- ");
            push_record_markdown(&mut line, &recs[i]);
        } else {
            push_record_text(&mut line, &recs[i]);
        }
        push_line(out, line.as_str());
        proof {
            assert(all[i as int] == recs@[i as int]@);
            assert(ls.take(i + 1) =~= ls.take(i as int).push(ls[i as int]));
            lemma_join_push(ls.take(i as int), ls[i as int]);
        }
        i += 1;
    }
    assert(ls.take(n as int) =~= ls);
}

/// One line for an optional value, after `prefix`; none when it is absent.
pub open spec fn opt_line(prefix: Seq<char>, v: Option<Seq<char>>) -> Seq<Seq<char>> {
    match v {
        Some(x) => seq![prefix + x],
        None => Seq::empty(),
    }
}

/// The value, or `default` when it is absent.
pub open spec fn or_text(v: Option<Seq<char>>, default: Seq<char>) -> Seq<char> {
    match v {
        Some(x) => x,
        None => default,
    }
}

/// Top services in the text report: the name padded to 16 characters, then the count.
pub open spec fn top_rows_text(items: Seq<(Seq<char>, usize)>) -> Seq<Seq<char>> {
    items.map_values(|e: (Seq<char>, usize)| "  "@ + pad_right(e.0, 16) + " "@ + dec(e.1 as nat))
}

/// Top services in the Markdown report, as table rows.
pub open spec fn top_rows_markdown(items: Seq<(Seq<char>, usize)>) -> Seq<Seq<char>> {
    items.map_values(|e: (Seq<char>, usize)| "| "@ + escape_markdown_spec(e.0) + " | "@ + dec(e.1 as nat) + " |"@)
}

fn push_top_rows(out: &mut String, items: &Vec<crate::model::TopItem<String>>, markdown: bool)
    ensures
        final(out)@ == old(out)@ + join_lines(
            if markdown { top_rows_markdown(item_views(items@)) } else { top_rows_text(item_views(items@)) },
        ),
{
    let ghost ls = if markdown { top_rows_markdown(item_views(items@)) } else { top_rows_text(item_views(items@)) };
    let mut i: usize = 0;
    while i < items.len()
        invariant
            ls == (if markdown { top_rows_markdown(item_views(items@)) } else { top_rows_text(item_views(items@)) }),
            0 <= i <= items@.len(),
            out@ == old(out)@ + join_lines(ls.take(i as int)),
        decreases items@.len() - i,
    {
        let mut line = String::new();
        if markdown {
            line.append("| ");
            push_escaped_markdown(&mut line, items[i].key.as_str());
            line.append(" | ");
            push_decimal(&mut line, items[i].count as u64);
            line.append(" |");
        } else {
            line.append("  ");
            push_padded(&mut line, items[i].key.as_str(), 16);
            line.append(" ");
            push_decimal(&mut line, items[i].count as u64);
        }
        push_line(out, line.as_str());
        proof {
            assert(ls.take(i + 1) =~= ls.take(i as int).push(ls[i as int]));
            lemma_join_push(ls.take(i as int), ls[i as int]);
        }
        i += 1;
    }
    assert(ls.take(items@.len() as int) =~= ls);
}

/// `prefix` followed by the digits of `n`.
fn with_decimal(prefix: &str, n: u64) -> (r: String)
    ensures
        r@ == prefix@ + dec(n as nat),
{
    let mut s = copy_str(prefix);
    push_decimal(&mut s, n);
    s
}

/// `prefix` then `text`.
fn joined(prefix: &str, text: &str) -> (r: String)
    ensures
        r@ == prefix@ + text@,
{
    let mut s = copy_str(prefix);
    s.append(text);
    s
}

/// `prefix`, `text` and `suffix` one after the other.
fn between(prefix: &str, text: &str, suffix: &str) -> (r: String)
    ensures
        r@ == prefix@ + text@ + suffix@,
{
    let mut s = copy_str(prefix);
    s.append(text);
    s.append(suffix);
    s
}

/// `prefix`, the digits of `n` and `suffix` one after the other.
fn between_decimal(prefix: &str, n: u64, suffix: &str) -> (r: String)
    ensures
        r@ == prefix@ + dec(n as nat) + suffix@,
{
    let mut s = copy_str(prefix);
    push_decimal(&mut s, n);
    s.append(suffix);
    s
}

fn text_or<'a>(v: &'a Option<String>, default: &'a str) -> (r: &'a str)
    ensures
        r@ == or_text(opt_text_view(*v), default@),
{
    match v {
        Some(x) => x.as_str(),
        None => default,
    }
}

fn push_opt_line(out: &mut String, prefix: &str, v: &Option<String>)
    ensures
        final(out)@ == old(out)@ + join_lines(opt_line(prefix@, opt_text_view(*v))),
{
    match v {
        Some(x) => {
            let l = joined(prefix, x.as_str());
            push_line(out, l.as_str());
            proof {
                lemma_join_push(Seq::empty(), l@);
                assert(seq![l@] =~= Seq::<Seq<char>>::empty().push(l@));
                assert(join_lines(Seq::empty()) =~= Seq::<char>::empty());
            }
        },
        None => {
            assert(join_lines(opt_line(prefix@, opt_text_view(*v))) =~= Seq::<char>::empty());
        },
    }
}

/// `line` alone where `cond` holds, else no line.
pub open spec fn line_if(cond: bool, line: Seq<char>) -> Seq<Seq<char>> {
    if cond {
        seq![line]
    } else {
        Seq::empty()
    }
}

fn push_line_if(out: &mut String, cond: bool, line: &str)
    ensures
        final(out)@ == old(out)@ + join_lines(line_if(cond, line@)),
{
    if cond {
        push_line(out, line);
        proof {
            lemma_join_push(Seq::empty(), line@);
            assert(seq![line@] =~= Seq::<Seq<char>>::empty().push(line@));
            assert(join_lines(Seq::empty()) =~= Seq::<char>::empty());
        }
    } else {
        assert(out@ =~= old(out)@ + join_lines(line_if(cond, line@)));
    }
}

/// Markdown samples of records: `none` where there is no record, else an item
/// for each of the first `limit`.
pub open spec fn record_samples(rs: Seq<RecordView>, limit: usize, none: Seq<char>) -> Seq<Seq<char>> {
    if rs.len() == 0 {
        seq![none]
    } else {
        record_markdown_lines(keep_first(rs, limit as nat))
    }
}

fn push_record_samples(out: &mut String, recs: &Vec<LogRecord>, limit: usize, none: &str)
    ensures
        final(out)@ == old(out)@ + join_lines(record_samples(rec_views(recs@), limit, none@)),
{
    if recs.len() == 0 {
        push_line_if(out, true, none);
    } else {
        push_record_lines(out, recs, limit, true);
    }
}

/// The lines of a JSON list: a comma after each line but the last.
pub open spec fn comma_list(items: Seq<Seq<char>>) -> Seq<Seq<char>> {
    Seq::new(items.len(), |i: int| if i + 1 < items.len() { items[i] + ","@ } else { items[i] })
}

fn push_comma_lines(out: &mut String, items: &Vec<String>)
    ensures
        final(out)@ == old(out)@ + join_lines(comma_list(str_views(items@))),
{
    let ghost ls = comma_list(str_views(items@));
    let mut i: usize = 0;
    while i < items.len()
        invariant
            ls == comma_list(str_views(items@)),
            0 <= i <= items@.len(),
            out@ == old(out)@ + join_lines(ls.take(i as int)),
        decreases items@.len() - i,
    {
        let mut line = copy_str(items[i].as_str());
        if i + 1 < items.len() {
            line.append(",");
        }
        push_line(out, line.as_str());
        proof {
            assert(line@ == ls[i as int]);
            assert(ls.take(i + 1) =~= ls.take(i as int).push(ls[i as int]));
            lemma_join_push(ls.take(i as int), ls[i as int]);
        }
        i += 1;
    }
    assert(ls.take(items@.len() as int) =~= ls);
}

/// The rows of `level_rows` as strings.
fn level_row_strings(c: &LevelCounts, pre: &str, mid: &str, post: &str) -> (r: Vec<String>)
    ensures
        str_views(r@) == level_rows(*c, pre@, mid@, post@),
{
    let entries = level_entries_of(c);
    let ghost rows = level_rows(*c, pre@, mid@, post@);
    let mut r: Vec<String> = Vec::new();
    let mut i: usize = 0;
    while i < entries.len()
        invariant
            entries@ == level_entries(*c),
            rows == level_rows(*c, pre@, mid@, post@),
            0 <= i <= entries@.len(),
            str_views(r@) == rows.take(i as int),
        decreases entries@.len() - i,
    {
        let (level, n) = entries[i];
        let mut line = copy_str(pre);
        line.append(level.as_str());
        line.append(mid);
        push_decimal(&mut line, n as u64);
        line.append(post);
        let ghost before = r@;
        r.push(line);
        proof {
            assert(str_views(r@) =~= str_views(before).push(rows[i as int]));
            assert(rows.take(i + 1) =~= rows.take(i as int).push(rows[i as int]));
        }
        i += 1;
    }
    assert(rows.take(entries@.len() as int) =~= rows);
    r
}

/// The level block of the JSON report: one line per level with records, a
/// comma after all but the last; a single empty line where there is none.
pub open spec fn json_levels(c: LevelCounts) -> Seq<Seq<char>> {
    if level_entries(c).len() == 0 {
        seq![""@]
    } else {
        comma_list(level_rows(c, "    \""@, "\": "@, ""@))
    }
}

fn push_json_levels(out: &mut String, c: &LevelCounts)
    ensures
        final(out)@ == old(out)@ + join_lines(json_levels(*c)),
{
    let rows = level_row_strings(c, "    \"", "\": ", "");
    if rows.len() == 0 {
        push_line_if(out, true, "");
    } else {
        push_comma_lines(out, &rows);
    }
}

/// The top services as items of the JSON list, at most `limit` of them.
pub open spec fn json_top_rows(items: Seq<(Seq<char>, usize)>, limit: usize) -> Seq<Seq<char>> {
    comma_list(
        keep_first(items, limit as nat).map_values(
            |e: (Seq<char>, usize)|
                "    {\"service\": \""@ + escape_json_spec(e.0) + "\", \"count\": "@ + dec(e.1 as nat) + "}"@,
        ),
    )
}

fn push_json_top_rows(out: &mut String, items: &Vec<TopItem<String>>, limit: usize)
    ensures
        final(out)@ == old(out)@ + join_lines(json_top_rows(item_views(items@), limit)),
{
    let ghost rows = keep_first(item_views(items@), limit as nat).map_values(
        |e: (Seq<char>, usize)|
            "    {\"service\": \""@ + escape_json_spec(e.0) + "\", \"count\": "@ + dec(e.1 as nat) + "}"@,
    );
    let n = if items.len() < limit { items.len() } else { limit };
    let mut v: Vec<String> = Vec::new();
    let mut i: usize = 0;
    while i < n
        invariant
            rows == keep_first(item_views(items@), limit as nat).map_values(
                |e: (Seq<char>, usize)|
                    "    {\"service\": \""@ + escape_json_spec(e.0) + "\", \"count\": "@ + dec(e.1 as nat)
                        + "}"@,
            ),
            n == (if items@.len() < limit { items@.len() } else { limit as nat }),
            0 <= i <= n,
            str_views(v@) == rows.take(i as int),
        decreases n - i,
    {
        let mut line = copy_str("    {\"service\": \"");
        push_escaped_json(&mut line, items[i].key.as_str());
        line.append("\", \"count\": ");
        push_decimal(&mut line, items[i].count as u64);
        line.append("}");
        let ghost before = v@;
        v.push(line);
        proof {
            assert(str_views(v@) =~= str_views(before).push(rows[i as int]));
            assert(rows.take(i + 1) =~= rows.take(i as int).push(rows[i as int]));
        }
        i += 1;
    }
    assert(rows.take(n as int) =~= rows);
    push_comma_lines(out, &v);
}

/// The parse errors as items of the JSON list, at most `limit` of them.
pub open spec fn json_error_rows(errors: Seq<Seq<char>>, limit: usize) -> Seq<Seq<char>> {
    comma_list(keep_first(errors, limit as nat).map_values(|s: Seq<char>| "    \""@ + escape_json_spec(s) + "\""@))
}

fn push_json_error_rows(out: &mut String, errors: &Vec<String>, limit: usize)
    ensures
        final(out)@ == old(out)@ + join_lines(json_error_rows(str_views(errors@), limit)),
{
    let ghost rows = keep_first(str_views(errors@), limit as nat).map_values(
        |s: Seq<char>| "    \""@ + escape_json_spec(s) + "\""@,
    );
    let n = if errors.len() < limit { errors.len() } else { limit };
    let mut v: Vec<String> = Vec::new();
    let mut i: usize = 0;
    while i < n
        invariant
            rows == keep_first(str_views(errors@), limit as nat).map_values(
                |s: Seq<char>| "    \""@ + escape_json_spec(s) + "\""@,
            ),
            n == (if errors@.len() < limit { errors@.len() } else { limit as nat }),
            0 <= i <= n,
            str_views(v@) == rows.take(i as int),
        decreases n - i,
    {
        let mut line = copy_str("    \"");
        push_escaped_json(&mut line, errors[i].as_str());
        line.append("\"");
        let ghost before = v@;
        v.push(line);
        proof {
            assert(str_views(v@) =~= str_views(before).push(rows[i as int]));
            assert(rows.take(i + 1) =~= rows.take(i as int).push(rows[i as int]));
        }
        i += 1;
    }
    assert(rows.take(n as int) =~= rows);
    push_comma_lines(out, &v);
}

/// The services of the CSV report, one row each, in key order.
pub open spec fn csv_service_rows(es: Seq<(Seq<char>, usize)>) -> Seq<Seq<char>> {
    es.map_values(|e: (Seq<char>, usize)| "service,"@ + escape_csv_spec(e.0) + ","@ + dec(e.1 as nat))
}

fn push_csv_service_rows(out: &mut String, services: &StrMap<usize>)
    ensures
        final(out)@ == old(out)@ + join_lines(csv_service_rows(services.entries())),
{
    let ghost ls = csv_service_rows(services.entries());
    let n = services.len();
    let mut i: usize = 0;
    while i < n
        invariant
            ls == csv_service_rows(services.entries()),
            n == services.entries().len(),
            0 <= i <= n,
            out@ == old(out)@ + join_lines(ls.take(i as int)),
        decreases n - i,
    {
        let mut line = copy_str("service,");
        push_escaped_csv(&mut line, services.key_at(i).as_str());
        line.append(",");
        push_decimal(&mut line, *services.value_at(i) as u64);
        push_line(out, line.as_str());
        proof {
            assert(ls.take(i + 1) =~= ls.take(i as int).push(ls[i as int]));
            lemma_join_push(ls.take(i as int), ls[i as int]);
        }
        i += 1;
    }
    assert(ls.take(n as int) =~= ls);
}

/// Title and line counts of the text report.
pub open spec fn text_head(a: AnalysisView) -> Seq<Seq<char>> {
    seq![
        "Rust Log Lab - Analysis Report"@,
        "================================"@,
        "total lines      : "@ + dec(a.total_lines as nat),
        "parsed records   : "@ + dec(a.parsed_records as nat),
        "skipped lines    : "@ + dec(a.skipped_lines as nat),
        "parse errors     : "@ + dec(a.parse_errors.len()),
        Seq::empty(),
        "Level distribution"@,
    ]
}

fn push_text_head(out: &mut String, a: &AnalysisResult)
    ensures
        final(out)@ == old(out)@ + join_lines(text_head(a@)),
{
    let ghost o = out@;
    let ghost mut ls: Seq<Seq<char>> = Seq::empty();
    assert(out@ =~= o + join_lines(ls));
    let l = copy_str("Rust Log Lab - Analysis Report");
    push_after(out, l.as_str(), Ghost(o), Ghost(ls));
    proof { ls = ls.push(l@); }
    let l = copy_str("================================");
    push_after(out, l.as_str(), Ghost(o), Ghost(ls));
    proof { ls = ls.push(l@); }
    let l = with_decimal("total lines      : ", a.total_lines as u64);
    push_after(out, l.as_str(), Ghost(o), Ghost(ls));
    proof { ls = ls.push(l@); }
    let l = with_decimal("parsed records   : ", a.parsed_records as u64);
    push_after(out, l.as_str(), Ghost(o), Ghost(ls));
    proof { ls = ls.push(l@); }
    let l = with_decimal("skipped lines    : ", a.skipped_lines as u64);
    push_after(out, l.as_str(), Ghost(o), Ghost(ls));
    proof { ls = ls.push(l@); }
    let l = with_decimal("parse errors     : ", a.parse_errors.len() as u64);
    push_after(out, l.as_str(), Ghost(o), Ghost(ls));
    proof { ls = ls.push(l@); }
    let l = String::new();
    push_after(out, l.as_str(), Ghost(o), Ghost(ls));
    proof { ls = ls.push(l@); }
    let l = copy_str("Level distribution");
    push_after(out, l.as_str(), Ghost(o), Ghost(ls));
    proof { ls = ls.push(l@); }
    assert(ls =~= text_head(a@));
}

/// Latency figures of the text report.
pub open spec fn text_latency(a: AnalysisView, fg: FiguresView) -> Seq<Seq<char>> {
    seq![
        Seq::empty(),
        "Latency"@,
        "  samples : "@ + dec(a.latency.count as nat),
        "  min/max : "@ + debug_opt(a.latency.min) + "/"@ + debug_opt(a.latency.max) + " ms"@,
        "  average : "@ + or_text(fg.average, "N/A"@) + " ms"@,
        "  slow    : "@ + dec(a.latency.slow_count as nat),
        Seq::empty(),
    ]
}

fn push_text_latency(out: &mut String, a: &AnalysisResult, fg: &ReportFigures)
    ensures
        final(out)@ == old(out)@ + join_lines(text_latency(a@, fg@)),
{
    let ghost o = out@;
    let ghost mut ls: Seq<Seq<char>> = Seq::empty();
    assert(out@ =~= o + join_lines(ls));
    let l = String::new();
    push_after(out, l.as_str(), Ghost(o), Ghost(ls));
    proof { ls = ls.push(l@); }
    let l = copy_str("Latency");
    push_after(out, l.as_str(), Ghost(o), Ghost(ls));
    proof { ls = ls.push(l@); }
    let l = with_decimal("  samples : ", a.latency.count as u64);
    push_after(out, l.as_str(), Ghost(o), Ghost(ls));
    proof { ls = ls.push(l@); }
    let mut l = copy_str("  min/max : ");
    push_debug_opt(&mut l, a.latency.min);
    l.append("/");
    push_debug_opt(&mut l, a.latency.max);
    l.append(" ms");
    push_after(out, l.as_str(), Ghost(o), Ghost(ls));
    proof { ls = ls.push(l@); }
    let l = between("  average : ", text_or(&fg.average, "N/A"), " ms");
    push_after(out, l.as_str(), Ghost(o), Ghost(ls));
    proof { ls = ls.push(l@); }
    let l = with_decimal("  slow    : ", a.latency.slow_count as u64);
    push_after(out, l.as_str(), Ghost(o), Ghost(ls));
    proof { ls = ls.push(l@); }
    let l = String::new();
    push_after(out, l.as_str(), Ghost(o), Ghost(ls));
    proof { ls = ls.push(l@); }
    assert(ls =~= text_latency(a@, fg@));
}

/// Health assessment of the text report.
pub open spec fn text_health(fg: FiguresView) -> Seq<Seq<char>> {
    seq![
        "Health insight"@,
        "  health  : "@ + health_name(fg.health),
        "  score   : "@ + dec(fg.score as nat),
        "  errors  : "@ + fg.error_percent + "%"@,
        "  slow    : "@ + fg.slow_percent + "%"@,
    ]
    + opt_line("  main svc: "@, fg.dominant_service)
    + prefixed("  - "@, fg.suggestions)
    + seq![
        Seq::empty(),
    ]
}

fn push_text_health(out: &mut String, fg: &ReportFigures)
    ensures
        final(out)@ == old(out)@ + join_lines(text_health(fg@)),
{
    let ghost o = out@;
    let ghost mut ls: Seq<Seq<char>> = Seq::empty();
    assert(out@ =~= o + join_lines(ls));
    let l = copy_str("Health insight");
    push_after(out, l.as_str(), Ghost(o), Ghost(ls));
    proof { ls = ls.push(l@); }
    let l = joined("  health  : ", fg.health.as_str());
    push_after(out, l.as_str(), Ghost(o), Ghost(ls));
    proof { ls = ls.push(l@); }
    let l = with_decimal("  score   : ", fg.score as u64);
    push_after(out, l.as_str(), Ghost(o), Ghost(ls));
    proof { ls = ls.push(l@); }
    let l = between("  errors  : ", fg.error_percent.as_str(), "%");
    push_after(out, l.as_str(), Ghost(o), Ghost(ls));
    proof { ls = ls.push(l@); }
    let l = between("  slow    : ", fg.slow_percent.as_str(), "%");
    push_after(out, l.as_str(), Ghost(o), Ghost(ls));
    proof { ls = ls.push(l@); }
    push_opt_line(out, "  main svc: ", &fg.dominant_service);
    proof {
        let sec = opt_line("  main svc: "@, fg@.dominant_service);
        lemma_join_concat(ls, sec);
        ls = ls + sec;
    }
    assert(out@ =~= o + join_lines(ls));
    push_prefixed_lines(out, "  - ", &fg.suggestions, fg.suggestions.len());
    proof {
        let sec = prefixed("  - "@, keep_first(str_views(fg.suggestions@), fg.suggestions@.len()));
        lemma_join_concat(ls, sec);
        ls = ls + sec;
    }
    assert(out@ =~= o + join_lines(ls));
    let l = String::new();
    push_after(out, l.as_str(), Ghost(o), Ghost(ls));
    proof { ls = ls.push(l@); }
    assert(keep_first(str_views(fg.suggestions@), fg.suggestions@.len()) == str_views(fg.suggestions@));
    assert(ls =~= text_health(fg@));
}

/// Top services and sample records of the text report.
pub open spec fn text_samples(a: AnalysisView, top_n: usize) -> Seq<Seq<char>> {
    seq![
        "Top "@ + dec(top_n as nat) + " services"@,
    ]
    + top_rows_text(a.top_services)
    + seq![
        Seq::empty(),
        "Error-like records"@,
    ]
    + record_text_lines(keep_first(a.error_records, top_n as nat))
    + seq![
        Seq::empty(),
        "Slow records"@,
    ]
    + record_text_lines(keep_first(a.slow_records, top_n as nat))
}

fn push_text_samples(out: &mut String, a: &AnalysisResult, top_n: usize)
    ensures
        final(out)@ == old(out)@ + join_lines(text_samples(a@, top_n)),
{
    let ghost o = out@;
    let ghost mut ls: Seq<Seq<char>> = Seq::empty();
    assert(out@ =~= o + join_lines(ls));
    let mut l = with_decimal("Top ", top_n as u64);
    l.append(" services");
    push_after(out, l.as_str(), Ghost(o), Ghost(ls));
    proof { ls = ls.push(l@); }
    push_top_rows(out, &a.top_services, false);
    proof {
        let sec = top_rows_text(item_views(a.top_services@));
        lemma_join_concat(ls, sec);
        ls = ls + sec;
    }
    assert(out@ =~= o + join_lines(ls));
    let l = String::new();
    push_after(out, l.as_str(), Ghost(o), Ghost(ls));
    proof { ls = ls.push(l@); }
    let l = copy_str("Error-like records");
    push_after(out, l.as_str(), Ghost(o), Ghost(ls));
    proof { ls = ls.push(l@); }
    push_record_lines(out, &a.error_records, top_n, false);
    proof {
        let sec = record_text_lines(keep_first(rec_views(a.error_records@), top_n as nat));
        lemma_join_concat(ls, sec);
        ls = ls + sec;
    }
    assert(out@ =~= o + join_lines(ls));
    let l = String::new();
    push_after(out, l.as_str(), Ghost(o), Ghost(ls));
    proof { ls = ls.push(l@); }
    let l = copy_str("Slow records");
    push_after(out, l.as_str(), Ghost(o), Ghost(ls));
    proof { ls = ls.push(l@); }
    push_record_lines(out, &a.slow_records, top_n, false);
    proof {
        let sec = record_text_lines(keep_first(rec_views(a.slow_records@), top_n as nat));
        lemma_join_concat(ls, sec);
        ls = ls + sec;
    }
    assert(out@ =~= o + join_lines(ls));
    assert(ls =~= text_samples(a@, top_n));
}

/// Parse errors of the text report.
pub open spec fn text_parse_errors(a: AnalysisView, top_n: usize) -> Seq<Seq<char>> {
    seq![
        Seq::empty(),
        "Parse errors"@,
    ]
    + prefixed("  "@, keep_first(a.parse_errors, top_n as nat))
}

fn push_text_parse_errors(out: &mut String, a: &AnalysisResult, top_n: usize)
    ensures
        final(out)@ == old(out)@ + join_lines(text_parse_errors(a@, top_n)),
{
    let ghost o = out@;
    let ghost mut ls: Seq<Seq<char>> = Seq::empty();
    assert(out@ =~= o + join_lines(ls));
    let l = String::new();
    push_after(out, l.as_str(), Ghost(o), Ghost(ls));
    proof { ls = ls.push(l@); }
    let l = copy_str("Parse errors");
    push_after(out, l.as_str(), Ghost(o), Ghost(ls));
    proof { ls = ls.push(l@); }
    push_prefixed_lines(out, "  ", &a.parse_errors, top_n);
    proof {
        let sec = prefixed("  "@, keep_first(str_views(a.parse_errors@), top_n as nat));
        lemma_join_concat(ls, sec);
        ls = ls + sec;
    }
    assert(out@ =~= o + join_lines(ls));
    assert(ls =~= text_parse_errors(a@, top_n));
}


/// The lines of the text report.
pub open spec fn text_lines(a: AnalysisView, top_n: usize, fg: FiguresView) -> Seq<Seq<char>> {
    text_head(a) + level_rows(a.levels, "  "@, " "@, Seq::empty()) + text_latency(a, fg) + text_health(fg)
        + text_samples(a, top_n) + (if a.parse_errors.len() > 0 {
        text_parse_errors(a, top_n)
    } else {
        Seq::empty()
    })
}
/// Title, counts and the head of the level table of the Markdown report.
pub open spec fn markdown_head(a: AnalysisView) -> Seq<Seq<char>> {
    seq![
        "# Rust Log Lab 日志分析报告"@,
        Seq::empty(),
        "## 1. 基本信息"@,
        Seq::empty(),
        "- 总日志行数："@ + dec(a.total_lines as nat),
        "- 成功解析记录："@ + dec(a.parsed_records as nat),
        "- 跳过行数："@ + dec(a.skipped_lines as nat),
        "- 解析错误："@ + dec(a.parse_errors.len()),
        "- WARN 数量："@ + dec(a.levels.count(LogLevel::Warn) as nat),
        "- ERROR/FATAL 数量："@ + dec((a.levels.count(LogLevel::Error) + a.levels.count(LogLevel::Fatal)) as nat),
        Seq::empty(),
        "## 2. 日志等级分布"@,
        Seq::empty(),
        "| 等级 | 数量 |"@,
        "|---|---:|"@,
    ]
}

fn push_markdown_head(out: &mut String, a: &AnalysisResult)
    requires
        a.level_stats.by_level.count(LogLevel::Error) + a.level_stats.by_level.count(LogLevel::Fatal) <= usize::MAX,
    ensures
        final(out)@ == old(out)@ + join_lines(markdown_head(a@)),
{
    let ghost o = out@;
    let ghost mut ls: Seq<Seq<char>> = Seq::empty();
    assert(out@ =~= o + join_lines(ls));
    let l = copy_str("# Rust Log Lab 日志分析报告");
    push_after(out, l.as_str(), Ghost(o), Ghost(ls));
    proof { ls = ls.push(l@); }
    let l = String::new();
    push_after(out, l.as_str(), Ghost(o), Ghost(ls));
    proof { ls = ls.push(l@); }
    let l = copy_str("## 1. 基本信息");
    push_after(out, l.as_str(), Ghost(o), Ghost(ls));
    proof { ls = ls.push(l@); }
    let l = String::new();
    push_after(out, l.as_str(), Ghost(o), Ghost(ls));
    proof { ls = ls.push(l@); }
    let l = with_decimal("- 总日志行数：", a.total_lines as u64);
    push_after(out, l.as_str(), Ghost(o), Ghost(ls));
    proof { ls = ls.push(l@); }
    let l = with_decimal("- 成功解析记录：", a.parsed_records as u64);
    push_after(out, l.as_str(), Ghost(o), Ghost(ls));
    proof { ls = ls.push(l@); }
    let l = with_decimal("- 跳过行数：", a.skipped_lines as u64);
    push_after(out, l.as_str(), Ghost(o), Ghost(ls));
    proof { ls = ls.push(l@); }
    let l = with_decimal("- 解析错误：", a.parse_errors.len() as u64);
    push_after(out, l.as_str(), Ghost(o), Ghost(ls));
    proof { ls = ls.push(l@); }
    let l = with_decimal("- WARN 数量：", a.warning_count() as u64);
    push_after(out, l.as_str(), Ghost(o), Ghost(ls));
    proof { ls = ls.push(l@); }
    let l = with_decimal("- ERROR/FATAL 数量：", a.error_like_count() as u64);
    push_after(out, l.as_str(), Ghost(o), Ghost(ls));
    proof { ls = ls.push(l@); }
    let l = String::new();
    push_after(out, l.as_str(), Ghost(o), Ghost(ls));
    proof { ls = ls.push(l@); }
    let l = copy_str("## 2. 日志等级分布");
    push_after(out, l.as_str(), Ghost(o), Ghost(ls));
    proof { ls = ls.push(l@); }
    let l = String::new();
    push_after(out, l.as_str(), Ghost(o), Ghost(ls));
    proof { ls = ls.push(l@); }
    let l = copy_str("| 等级 | 数量 |");
    push_after(out, l.as_str(), Ghost(o), Ghost(ls));
    proof { ls = ls.push(l@); }
    let l = copy_str("|---|---:|");
    push_after(out, l.as_str(), Ghost(o), Ghost(ls));
    proof { ls = ls.push(l@); }
    assert(ls =~= markdown_head(a@));
}

/// Health assessment of the Markdown report.
pub open spec fn markdown_health(a: AnalysisView, fg: FiguresView) -> Seq<Seq<char>> {
    seq![
        Seq::empty(),
        "## 3. 健康评估"@,
        Seq::empty(),
        "- 健康状态："@ + health_name(fg.health),
        "- 健康分数："@ + dec(fg.score as nat),
        "- 错误占比："@ + fg.error_percent + "%"@,
        "- 慢请求占比："@ + fg.slow_percent + "%"@,
    ]
    + line_if(!(a.levels.count(LogLevel::Error) > 0 || a.levels.count(LogLevel::Fatal) > 0 || a.levels.count(LogLevel::Warn) > 0), "- 当前过滤结果中没有 WARN/ERROR/FATAL 日志。"@)
    + opt_line("- 主要服务："@, fg.dominant_service)
    + prefixed("- 建议："@, fg.suggestions)
    + seq![
        Seq::empty(),
    ]
}

fn push_markdown_health(out: &mut String, a: &AnalysisResult, fg: &ReportFigures)
    requires
        a.level_stats.by_level.count(LogLevel::Error) + a.level_stats.by_level.count(LogLevel::Fatal) <= usize::MAX,
    ensures
        final(out)@ == old(out)@ + join_lines(markdown_health(a@, fg@)),
{
    let ghost o = out@;
    let ghost mut ls: Seq<Seq<char>> = Seq::empty();
    assert(out@ =~= o + join_lines(ls));
    let l = String::new();
    push_after(out, l.as_str(), Ghost(o), Ghost(ls));
    proof { ls = ls.push(l@); }
    let l = copy_str("## 3. 健康评估");
    push_after(out, l.as_str(), Ghost(o), Ghost(ls));
    proof { ls = ls.push(l@); }
    let l = String::new();
    push_after(out, l.as_str(), Ghost(o), Ghost(ls));
    proof { ls = ls.push(l@); }
    let l = joined("- 健康状态：", fg.health.as_str());
    push_after(out, l.as_str(), Ghost(o), Ghost(ls));
    proof { ls = ls.push(l@); }
    let l = with_decimal("- 健康分数：", fg.score as u64);
    push_after(out, l.as_str(), Ghost(o), Ghost(ls));
    proof { ls = ls.push(l@); }
    let l = between("- 错误占比：", fg.error_percent.as_str(), "%");
    push_after(out, l.as_str(), Ghost(o), Ghost(ls));
    proof { ls = ls.push(l@); }
    let l = between("- 慢请求占比：", fg.slow_percent.as_str(), "%");
    push_after(out, l.as_str(), Ghost(o), Ghost(ls));
    proof { ls = ls.push(l@); }
    push_line_if(out, !a.has_warnings_or_errors(), "- 当前过滤结果中没有 WARN/ERROR/FATAL 日志。");
    proof {
        let sec = line_if(!(a@.levels.count(LogLevel::Error) > 0 || a@.levels.count(LogLevel::Fatal) > 0 || a@.levels.count(LogLevel::Warn) > 0), "- 当前过滤结果中没有 WARN/ERROR/FATAL 日志。"@);
        lemma_join_concat(ls, sec);
        ls = ls + sec;
    }
    assert(out@ =~= o + join_lines(ls));
    push_opt_line(out, "- 主要服务：", &fg.dominant_service);
    proof {
        let sec = opt_line("- 主要服务："@, fg@.dominant_service);
        lemma_join_concat(ls, sec);
        ls = ls + sec;
    }
    assert(out@ =~= o + join_lines(ls));
    push_prefixed_lines(out, "- 建议：", &fg.suggestions, fg.suggestions.len());
    proof {
        let sec = prefixed("- 建议："@, keep_first(str_views(fg.suggestions@), fg.suggestions@.len()));
        lemma_join_concat(ls, sec);
        ls = ls + sec;
    }
    assert(out@ =~= o + join_lines(ls));
    let l = String::new();
    push_after(out, l.as_str(), Ghost(o), Ghost(ls));
    proof { ls = ls.push(l@); }
    assert(keep_first(str_views(fg.suggestions@), fg.suggestions@.len()) == str_views(fg.suggestions@));
    assert(ls =~= markdown_health(a@, fg@));
}

/// Top services of the Markdown report.
pub open spec fn markdown_top(a: AnalysisView, top_n: usize) -> Seq<Seq<char>> {
    seq![
        "## 4. Top "@ + dec(top_n as nat) + " 服务"@,
        Seq::empty(),
        "| 服务 | 数量 |"@,
        "|---|---:|"@,
    ]
    + top_rows_markdown(a.top_services)
    + seq![
        Seq::empty(),
    ]
}

fn push_markdown_top(out: &mut String, a: &AnalysisResult, top_n: usize)
    ensures
        final(out)@ == old(out)@ + join_lines(markdown_top(a@, top_n)),
{
    let ghost o = out@;
    let ghost mut ls: Seq<Seq<char>> = Seq::empty();
    assert(out@ =~= o + join_lines(ls));
    let mut l = with_decimal("## 4. Top ", top_n as u64);
    l.append(" 服务");
    push_after(out, l.as_str(), Ghost(o), Ghost(ls));
    proof { ls = ls.push(l@); }
    let l = String::new();
    push_after(out, l.as_str(), Ghost(o), Ghost(ls));
    proof { ls = ls.push(l@); }
    let l = copy_str("| 服务 | 数量 |");
    push_after(out, l.as_str(), Ghost(o), Ghost(ls));
    proof { ls = ls.push(l@); }
    let l = copy_str("|---|---:|");
    push_after(out, l.as_str(), Ghost(o), Ghost(ls));
    proof { ls = ls.push(l@); }
    push_top_rows(out, &a.top_services, true);
    proof {
        let sec = top_rows_markdown(item_views(a.top_services@));
        lemma_join_concat(ls, sec);
        ls = ls + sec;
    }
    assert(out@ =~= o + join_lines(ls));
    let l = String::new();
    push_after(out, l.as_str(), Ghost(o), Ghost(ls));
    proof { ls = ls.push(l@); }
    assert(ls =~= markdown_top(a@, top_n));
}

/// Sample records of the Markdown report.
pub open spec fn markdown_samples(a: AnalysisView, top_n: usize) -> Seq<Seq<char>> {
    seq![
        "## 5. 错误日志样例"@,
        Seq::empty(),
    ]
    + record_samples(a.error_records, top_n, "暂无错误日志样例。"@)
    + seq![
        Seq::empty(),
        "## 6. 慢请求样例"@,
        Seq::empty(),
    ]
    + record_samples(a.slow_records, top_n, "暂无慢请求样例。"@)
}

fn push_markdown_samples(out: &mut String, a: &AnalysisResult, top_n: usize)
    ensures
        final(out)@ == old(out)@ + join_lines(markdown_samples(a@, top_n)),
{
    let ghost o = out@;
    let ghost mut ls: Seq<Seq<char>> = Seq::empty();
    assert(out@ =~= o + join_lines(ls));
    let l = copy_str("## 5. 错误日志样例");
    push_after(out, l.as_str(), Ghost(o), Ghost(ls));
    proof { ls = ls.push(l@); }
    let l = String::new();
    push_after(out, l.as_str(), Ghost(o), Ghost(ls));
    proof { ls = ls.push(l@); }
    push_record_samples(out, &a.error_records, top_n, "暂无错误日志样例。");
    proof {
        let sec = record_samples(rec_views(a.error_records@), top_n, "暂无错误日志样例。"@);
        lemma_join_concat(ls, sec);
        ls = ls + sec;
    }
    assert(out@ =~= o + join_lines(ls));
    let l = String::new();
    push_after(out, l.as_str(), Ghost(o), Ghost(ls));
    proof { ls = ls.push(l@); }
    let l = copy_str("## 6. 慢请求样例");
    push_after(out, l.as_str(), Ghost(o), Ghost(ls));
    proof { ls = ls.push(l@); }
    let l = String::new();
    push_after(out, l.as_str(), Ghost(o), Ghost(ls));
    proof { ls = ls.push(l@); }
    push_record_samples(out, &a.slow_records, top_n, "暂无慢请求样例。");
    proof {
        let sec = record_samples(rec_views(a.slow_records@), top_n, "暂无慢请求样例。"@);
        lemma_join_concat(ls, sec);
        ls = ls + sec;
    }
    assert(out@ =~= o + join_lines(ls));
    assert(ls =~= markdown_samples(a@, top_n));
}

/// Counts and levels of the JSON report.
pub open spec fn json_head(a: AnalysisView) -> Seq<Seq<char>> {
    seq![
        "{"@,
        "  \"total_lines\": "@ + dec(a.total_lines as nat) + ","@,
        "  \"parsed_records\": "@ + dec(a.parsed_records as nat) + ","@,
        "  \"skipped_lines\": "@ + dec(a.skipped_lines as nat) + ","@,
        "  \"levels\": {"@,
    ]
    + json_levels(a.levels)
}

fn push_json_head(out: &mut String, a: &AnalysisResult)
    ensures
        final(out)@ == old(out)@ + join_lines(json_head(a@)),
{
    let ghost o = out@;
    let ghost mut ls: Seq<Seq<char>> = Seq::empty();
    assert(out@ =~= o + join_lines(ls));
    let l = copy_str("{");
    push_after(out, l.as_str(), Ghost(o), Ghost(ls));
    proof { ls = ls.push(l@); }
    let l = between_decimal("  \"total_lines\": ", a.total_lines as u64, ",");
    push_after(out, l.as_str(), Ghost(o), Ghost(ls));
    proof { ls = ls.push(l@); }
    let l = between_decimal("  \"parsed_records\": ", a.parsed_records as u64, ",");
    push_after(out, l.as_str(), Ghost(o), Ghost(ls));
    proof { ls = ls.push(l@); }
    let l = between_decimal("  \"skipped_lines\": ", a.skipped_lines as u64, ",");
    push_after(out, l.as_str(), Ghost(o), Ghost(ls));
    proof { ls = ls.push(l@); }
    let l = copy_str("  \"levels\": {");
    push_after(out, l.as_str(), Ghost(o), Ghost(ls));
    proof { ls = ls.push(l@); }
    push_json_levels(out, &a.level_stats.by_level);
    proof {
        let sec = json_levels(a@.levels);
        lemma_join_concat(ls, sec);
        ls = ls + sec;
    }
    assert(out@ =~= o + join_lines(ls));
    assert(ls =~= json_head(a@));
}

/// Latency figures of the JSON report.
pub open spec fn json_latency(a: AnalysisView, fg: FiguresView) -> Seq<Seq<char>> {
    seq![
        "  },"@,
        "  \"latency\": {"@,
        "    \"count\": "@ + dec(a.latency.count as nat) + ","@,
        "    \"min\": "@ + json_opt(a.latency.min) + ","@,
        "    \"max\": "@ + json_opt(a.latency.max) + ","@,
        "    \"average\": "@ + or_text(fg.average, "null"@) + ","@,
        "    \"slow_count\": "@ + dec(a.latency.slow_count as nat),
        "  },"@,
    ]
}

fn push_json_latency(out: &mut String, a: &AnalysisResult, fg: &ReportFigures)
    ensures
        final(out)@ == old(out)@ + join_lines(json_latency(a@, fg@)),
{
    let ghost o = out@;
    let ghost mut ls: Seq<Seq<char>> = Seq::empty();
    assert(out@ =~= o + join_lines(ls));
    let l = copy_str("  },");
    push_after(out, l.as_str(), Ghost(o), Ghost(ls));
    proof { ls = ls.push(l@); }
    let l = copy_str("  \"latency\": {");
    push_after(out, l.as_str(), Ghost(o), Ghost(ls));
    proof { ls = ls.push(l@); }
    let l = between_decimal("    \"count\": ", a.latency.count as u64, ",");
    push_after(out, l.as_str(), Ghost(o), Ghost(ls));
    proof { ls = ls.push(l@); }
    let mut l = copy_str("    \"min\": ");
    push_json_opt(&mut l, a.latency.min);
    l.append(",");
    push_after(out, l.as_str(), Ghost(o), Ghost(ls));
    proof { ls = ls.push(l@); }
    let mut l = copy_str("    \"max\": ");
    push_json_opt(&mut l, a.latency.max);
    l.append(",");
    push_after(out, l.as_str(), Ghost(o), Ghost(ls));
    proof { ls = ls.push(l@); }
    let l = between("    \"average\": ", text_or(&fg.average, "null"), ",");
    push_after(out, l.as_str(), Ghost(o), Ghost(ls));
    proof { ls = ls.push(l@); }
    let l = with_decimal("    \"slow_count\": ", a.latency.slow_count as u64);
    push_after(out, l.as_str(), Ghost(o), Ghost(ls));
    proof { ls = ls.push(l@); }
    let l = copy_str("  },");
    push_after(out, l.as_str(), Ghost(o), Ghost(ls));
    proof { ls = ls.push(l@); }
    assert(ls =~= json_latency(a@, fg@));
}

/// Insight, top services and parse errors of the JSON report.
pub open spec fn json_tail(a: AnalysisView, top_n: usize, fg: FiguresView) -> Seq<Seq<char>> {
    seq![
        "  \"insight\": {"@,
        "    \"health\": \""@ + health_name(fg.health) + "\","@,
        "    \"score\": "@ + dec(fg.score as nat) + ","@,
        "    \"error_ratio\": "@ + fg.error_ratio + ","@,
        "    \"slow_ratio\": "@ + fg.slow_ratio,
        "  },"@,
        "  \"top_services\": ["@,
    ]
    + json_top_rows(a.top_services, top_n)
    + seq![
        "  ],"@,
        "  \"parse_errors\": ["@,
    ]
    + json_error_rows(a.parse_errors, top_n)
    + seq![
        "  ]"@,
        "}"@,
    ]
}

fn push_json_tail(out: &mut String, a: &AnalysisResult, top_n: usize, fg: &ReportFigures)
    ensures
        final(out)@ == old(out)@ + join_lines(json_tail(a@, top_n, fg@)),
{
    let ghost o = out@;
    let ghost mut ls: Seq<Seq<char>> = Seq::empty();
    assert(out@ =~= o + join_lines(ls));
    let l = copy_str("  \"insight\": {");
    push_after(out, l.as_str(), Ghost(o), Ghost(ls));
    proof { ls = ls.push(l@); }
    let l = between("    \"health\": \"", fg.health.as_str(), "\",");
    push_after(out, l.as_str(), Ghost(o), Ghost(ls));
    proof { ls = ls.push(l@); }
    let l = between_decimal("    \"score\": ", fg.score as u64, ",");
    push_after(out, l.as_str(), Ghost(o), Ghost(ls));
    proof { ls = ls.push(l@); }
    let l = between("    \"error_ratio\": ", fg.error_ratio.as_str(), ",");
    push_after(out, l.as_str(), Ghost(o), Ghost(ls));
    proof { ls = ls.push(l@); }
    let l = joined("    \"slow_ratio\": ", fg.slow_ratio.as_str());
    push_after(out, l.as_str(), Ghost(o), Ghost(ls));
    proof { ls = ls.push(l@); }
    let l = copy_str("  },");
    push_after(out, l.as_str(), Ghost(o), Ghost(ls));
    proof { ls = ls.push(l@); }
    let l = copy_str("  \"top_services\": [");
    push_after(out, l.as_str(), Ghost(o), Ghost(ls));
    proof { ls = ls.push(l@); }
    push_json_top_rows(out, &a.top_services, top_n);
    proof {
        let sec = json_top_rows(item_views(a.top_services@), top_n);
        lemma_join_concat(ls, sec);
        ls = ls + sec;
    }
    assert(out@ =~= o + join_lines(ls));
    let l = copy_str("  ],");
    push_after(out, l.as_str(), Ghost(o), Ghost(ls));
    proof { ls = ls.push(l@); }
    let l = copy_str("  \"parse_errors\": [");
    push_after(out, l.as_str(), Ghost(o), Ghost(ls));
    proof { ls = ls.push(l@); }
    push_json_error_rows(out, &a.parse_errors, top_n);
    proof {
        let sec = json_error_rows(str_views(a.parse_errors@), top_n);
        lemma_join_concat(ls, sec);
        ls = ls + sec;
    }
    assert(out@ =~= o + join_lines(ls));
    let l = copy_str("  ]");
    push_after(out, l.as_str(), Ghost(o), Ghost(ls));
    proof { ls = ls.push(l@); }
    let l = copy_str("}");
    push_after(out, l.as_str(), Ghost(o), Ghost(ls));
    proof { ls = ls.push(l@); }
    assert(ls =~= json_tail(a@, top_n, fg@));
}

/// The lines of the CSV report.
pub open spec fn csv_lines(a: AnalysisView, fg: FiguresView) -> Seq<Seq<char>> {
    seq![
        "metric,key,value"@,
        "summary,total_lines,"@ + dec(a.total_lines as nat),
        "summary,parsed_records,"@ + dec(a.parsed_records as nat),
        "summary,skipped_lines,"@ + dec(a.skipped_lines as nat),
    ]
    + level_rows(a.levels, "level,"@, ","@, ""@)
    + csv_service_rows(a.services)
    + seq![
        "latency,count,"@ + dec(a.latency.count as nat),
    ]
    + opt_line("latency,average,"@, fg.average)
    + seq![
        "latency,slow_count,"@ + dec(a.latency.slow_count as nat),
    ]
}

fn push_csv_lines(out: &mut String, a: &AnalysisResult, fg: &ReportFigures)
    ensures
        final(out)@ == old(out)@ + join_lines(csv_lines(a@, fg@)),
{
    let ghost o = out@;
    let ghost mut ls: Seq<Seq<char>> = Seq::empty();
    assert(out@ =~= o + join_lines(ls));
    let l = copy_str("metric,key,value");
    push_after(out, l.as_str(), Ghost(o), Ghost(ls));
    proof { ls = ls.push(l@); }
    let l = with_decimal("summary,total_lines,", a.total_lines as u64);
    push_after(out, l.as_str(), Ghost(o), Ghost(ls));
    proof { ls = ls.push(l@); }
    let l = with_decimal("summary,parsed_records,", a.parsed_records as u64);
    push_after(out, l.as_str(), Ghost(o), Ghost(ls));
    proof { ls = ls.push(l@); }
    let l = with_decimal("summary,skipped_lines,", a.skipped_lines as u64);
    push_after(out, l.as_str(), Ghost(o), Ghost(ls));
    proof { ls = ls.push(l@); }
    push_level_rows(out, &a.level_stats.by_level, "level,", ",", "");
    proof {
        let sec = level_rows(a@.levels, "level,"@, ","@, ""@);
        lemma_join_concat(ls, sec);
        ls = ls + sec;
    }
    assert(out@ =~= o + join_lines(ls));
    push_csv_service_rows(out, &a.service_count);
    proof {
        let sec = csv_service_rows(a@.services);
        lemma_join_concat(ls, sec);
        ls = ls + sec;
    }
    assert(out@ =~= o + join_lines(ls));
    let l = with_decimal("latency,count,", a.latency.count as u64);
    push_after(out, l.as_str(), Ghost(o), Ghost(ls));
    proof { ls = ls.push(l@); }
    push_opt_line(out, "latency,average,", &fg.average);
    proof {
        let sec = opt_line("latency,average,"@, fg@.average);
        lemma_join_concat(ls, sec);
        ls = ls + sec;
    }
    assert(out@ =~= o + join_lines(ls));
    let l = with_decimal("latency,slow_count,", a.latency.slow_count as u64);
    push_after(out, l.as_str(), Ghost(o), Ghost(ls));
    proof { ls = ls.push(l@); }
    assert(ls =~= csv_lines(a@, fg@));
}


/// The lines of the Markdown report.
pub open spec fn markdown_lines(a: AnalysisView, top_n: usize, fg: FiguresView) -> Seq<Seq<char>> {
    markdown_head(a) + level_rows(a.levels, "| "@, " | "@, " |"@) + markdown_health(a, fg) + markdown_top(a, top_n)
        + markdown_samples(a, top_n)
}

/// The lines of the JSON report.
pub open spec fn json_lines(a: AnalysisView, top_n: usize, fg: FiguresView) -> Seq<Seq<char>> {
    json_head(a) + json_latency(a, fg) + json_tail(a, top_n, fg)
}

/// The `Error` and `Fatal` counts of an analysis add up within `usize`.
pub open spec fn alerts_fit(a: AnalysisView) -> bool {
    a.levels.count(LogLevel::Error) + a.levels.count(LogLevel::Fatal) <= usize::MAX
}

/// The figures belong to the analysis `a`: there is an average exactly when
/// there is a latency sample; the dominant service is the key of the busiest
/// service once any record was parsed, and there is none before; the score
/// is at most 100 and its health level is the one it falls in; and there is
/// at least one suggestion.
pub open spec fn figures_match(a: AnalysisView, fg: FiguresView) -> bool {
    &&& (fg.average is Some) == (a.latency.count > 0)
    &&& fg.dominant_service == (if a.parsed_records > 0 && a.top_services.len() > 0 {
        Some(a.top_services[0].0)
    } else {
        None
    })
    &&& fg.score <= 100
    &&& fg.health == health_for(fg.score)
    &&& fg.suggestions.len() > 0
    &&& (fg.average matches Some(t) ==> fixed_point(t, 2))
    &&& fixed_point(fg.error_percent, 1)
    &&& fixed_point(fg.slow_percent, 1)
    &&& fixed_point(fg.error_ratio, 4)
    &&& fixed_point(fg.slow_ratio, 4)
}

/// `s` is a decimal numeral with `places` digits after its point, as
/// `{:.places}` writes a finite number that is not negative: digits, at
/// least one of them, a point, and then exactly `places` digits.
pub open spec fn fixed_point(s: Seq<char>, places: nat) -> bool {
    &&& s.len() >= places + 2
    &&& forall|i: int| 0 <= i < s.len() ==> (if i == s.len() - places - 1 {
        #[trigger] s[i] == '.'
    } else {
        is_digit(s[i])
    })
}

/// Whether `s` is a decimal numeral with `places` digits after its point.
pub fn fixed_point_text(s: &str, places: usize) -> (r: bool)
    ensures
        r == fixed_point(s@, places as nat),
{
    let v = chars_of(s);
    let n = v.len();
    if n < 2 || n - 2 < places {
        return false;
    }
    let dot = n - places - 1;
    let mut i: usize = 0;
    while i < n
        invariant
            n == v@.len(),
            v@ == s@,
            n >= places + 2,
            dot == n - places - 1,
            0 <= i <= n,
            forall|j: int| 0 <= j < i ==> (if j == dot { #[trigger] v@[j] == '.' } else { is_digit(v@[j]) }),
        decreases n - i,
    {
        let c = v[i];
        let ok = if i == dot { c == '.' } else { '0' <= c && c <= '9' };
        if !ok {
            assert(!(if i == dot { v@[i as int] == '.' } else { is_digit(v@[i as int]) }));
            return false;
        }
        i += 1;
    }
    true
}

/// Whether the `Error` and `Fatal` counts of `result` add up within `usize`.
pub fn alerts_fit_for(result: &AnalysisResult) -> (r: bool)
    ensures
        r == alerts_fit(result@),
{
    result.level_stats.by_level.error.checked_add(result.level_stats.by_level.fatal).is_some()
}

/// Whether `figures` belong to the analysis `result`.
pub fn figures_match_for(result: &AnalysisResult, figures: &ReportFigures) -> (r: bool)
    ensures
        r == figures_match(result@, figures@),
{
    let average_ok = match &figures.average {
        Some(t) => result.latency.count > 0 && fixed_point_text(t.as_str(), 2),
        None => result.latency.count == 0,
    };
    let dominant_ok = if result.parsed_records > 0 && result.top_services.len() > 0 {
        match &figures.dominant_service {
            Some(d) => str_equals(d.as_str(), result.top_services[0].key.as_str()),
            None => false,
        }
    } else {
        figures.dominant_service.is_none()
    };
    let score_ok = figures.score <= 100 && figures.health == health_for_score(figures.score);
    let numbers_ok = fixed_point_text(figures.error_percent.as_str(), 1)
        && fixed_point_text(figures.slow_percent.as_str(), 1)
        && fixed_point_text(figures.error_ratio.as_str(), 4)
        && fixed_point_text(figures.slow_ratio.as_str(), 4);
    let r = average_ok && dominant_ok && score_ok && figures.suggestions.len() > 0 && numbers_ok;
    proof {
        if result.parsed_records > 0 && result.top_services.len() > 0 {
            assert(result@.top_services[0].0 == result.top_services@[0].key@);
        }
    }
    r
}

/// Renders a report from an analysis and its figures.
pub trait ReportRenderer {
    fn render(&self, result: &AnalysisResult, figures: &ReportFigures) -> String
        requires
            alerts_fit(result@),
            figures_match(result@, figures@),
    ;
}

#[derive(Debug, Clone)]
pub struct TextRenderer {
    pub top_n: usize,
}

#[derive(Debug, Clone)]
pub struct MarkdownRenderer {
    pub top_n: usize,
}

#[derive(Debug, Clone)]
pub struct JsonRenderer {
    pub top_n: usize,
}

#[derive(Debug, Clone)]
pub struct CsvRenderer;

impl ReportRenderer for TextRenderer {
    fn render(&self, result: &AnalysisResult, figures: &ReportFigures) -> (r: String)
        ensures
            r@ == join_lines(text_lines(result@, self.top_n, figures@)),
    {
        let ghost a = result@;
        let ghost fg = figures@;
        let mut out = String::new();
        push_text_head(&mut out, result);
        push_level_rows(&mut out, &result.level_stats.by_level, "  ", " ", "");
        push_text_latency(&mut out, result, figures);
        push_text_health(&mut out, figures);
        push_text_samples(&mut out, result, self.top_n);
        let ghost tail: Seq<Seq<char>> = Seq::empty();
        if result.parse_errors.len() > 0 {
            push_text_parse_errors(&mut out, result, self.top_n);
            proof { tail = text_parse_errors(a, self.top_n); }
        }
        proof {
            reveal_strlit("");
            assert(""@ =~= Seq::<char>::empty());
            let s1 = text_head(a);
            let s2 = level_rows(a.levels, "  "@, " "@, Seq::empty());
            let s3 = text_latency(a, fg);
            let s4 = text_health(fg);
            let s5 = text_samples(a, self.top_n);
            lemma_join_concat(s1, s2);
            lemma_join_concat(s1 + s2, s3);
            lemma_join_concat(s1 + s2 + s3, s4);
            lemma_join_concat(s1 + s2 + s3 + s4, s5);
            lemma_join_concat(s1 + s2 + s3 + s4 + s5, tail);
            assert(join_lines(Seq::<Seq<char>>::empty()) =~= Seq::<char>::empty());
            assert(out@ =~= join_lines(s1 + s2 + s3 + s4 + s5 + tail));
            assert(s1 + s2 + s3 + s4 + s5 + tail =~= text_lines(a, self.top_n, fg));
        }
        out
    }
}

impl ReportRenderer for MarkdownRenderer {
    fn render(&self, result: &AnalysisResult, figures: &ReportFigures) -> (r: String)
        ensures
            r@ == join_lines(markdown_lines(result@, self.top_n, figures@)),
    {
        let ghost a = result@;
        let ghost fg = figures@;
        let mut out = String::new();
        push_markdown_head(&mut out, result);
        push_level_rows(&mut out, &result.level_stats.by_level, "| ", " | ", " |");
        push_markdown_health(&mut out, result, figures);
        push_markdown_top(&mut out, result, self.top_n);
        push_markdown_samples(&mut out, result, self.top_n);
        proof {
            let s1 = markdown_head(a);
            let s2 = level_rows(a.levels, "| "@, " | "@, " |"@);
            let s3 = markdown_health(a, fg);
            let s4 = markdown_top(a, self.top_n);
            let s5 = markdown_samples(a, self.top_n);
            lemma_join_concat(s1, s2);
            lemma_join_concat(s1 + s2, s3);
            lemma_join_concat(s1 + s2 + s3, s4);
            lemma_join_concat(s1 + s2 + s3 + s4, s5);
            assert(join_lines(Seq::<Seq<char>>::empty()) =~= Seq::<char>::empty());
            assert(out@ =~= join_lines(s1 + s2 + s3 + s4 + s5));
        }
        out
    }
}

impl ReportRenderer for JsonRenderer {
    fn render(&self, result: &AnalysisResult, figures: &ReportFigures) -> (r: String)
        ensures
            r@ == join_lines(json_lines(result@, self.top_n, figures@)),
    {
        let mut out = String::new();
        push_json_head(&mut out, result);
        push_json_latency(&mut out, result, figures);
        push_json_tail(&mut out, result, self.top_n, figures);
        proof {
            lemma_join_concat(json_head(result@), json_latency(result@, figures@));
            lemma_join_concat(json_head(result@) + json_latency(result@, figures@), json_tail(result@, self.top_n, figures@));
            assert(join_lines(Seq::<Seq<char>>::empty()) =~= Seq::<char>::empty());
            assert(out@ =~= join_lines(json_lines(result@, self.top_n, figures@)));
        }
        out
    }
}

impl ReportRenderer for CsvRenderer {
    fn render(&self, result: &AnalysisResult, figures: &ReportFigures) -> (r: String)
        ensures
            r@ == join_lines(csv_lines(result@, figures@)),
    {
        let mut out = String::new();
        push_csv_lines(&mut out, result, figures);
        assert(join_lines(Seq::<Seq<char>>::empty()) =~= Seq::<char>::empty());
        assert(out@ =~= join_lines(csv_lines(result@, figures@)));
        out
    }
}

/// The lines of the report in `format`.
pub open spec fn report_lines(a: AnalysisView, format: OutputFormat, top_n: usize, fg: FiguresView) -> Seq<Seq<char>> {
    match format {
        OutputFormat::Text => text_lines(a, top_n, fg),
        OutputFormat::Markdown => markdown_lines(a, top_n, fg),
        OutputFormat::Json => json_lines(a, top_n, fg),
        OutputFormat::Csv => csv_lines(a, fg),
    }
}

/// Renders the report of `result` in `format`, with at most `top_n` samples per list.
pub fn render_report(result: &AnalysisResult, format: OutputFormat, top_n: usize, figures: &ReportFigures) -> (r: String)
    requires
        alerts_fit(result@),
        figures_match(result@, figures@),
    ensures
        r@ == join_lines(report_lines(result@, format, top_n, figures@)),
{
    match format {
        OutputFormat::Text => TextRenderer { top_n }.render(result, figures),
        OutputFormat::Markdown => MarkdownRenderer { top_n }.render(result, figures),
        OutputFormat::Json => JsonRenderer { top_n }.render(result, figures),
        OutputFormat::Csv => CsvRenderer.render(result, figures),
    }
}

} // verus!
