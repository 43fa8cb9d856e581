//! Statistics over parsed records: level distribution, per-service counts,
//! latency figures, slow and error-like samples, and the analysis of a whole
//! input.
use vstd::prelude::*;
use crate::error::{AppError, ErrorView, error_text};
use crate::model::{accepts, is_error_level, ranks_above, FilterView, LogFilter, LogLevel, LogRecord, RecordView, TopItem};
use crate::parser::{parse_line_spec, KeyValueParser, RecordParser};
use crate::strmap::{insert_entry, keys_sorted, lookup, seq_lt, StrMap};
use crate::text::{copy_str, dec, push_decimal};

verus! {

#[derive(Debug, Clone)]
pub struct AnalyzeOptions {
    pub threads: usize,
    pub top_n: usize,
    pub slow_threshold_ms: u64,
    pub filter: LogFilter,
}

impl Default for AnalyzeOptions {
    fn default() -> (r: Self)
        ensures
            r.threads == 4,
            r.top_n == 5,
            r.slow_threshold_ms == 500,
            r.filter.min_level is None,
            r.filter.service is None,
            r.filter.keyword is None,
    {
        AnalyzeOptions {
            threads: 4,
            top_n: 5,
            slow_threshold_ms: 500,
            filter: LogFilter { min_level: None, service: None, keyword: None },
        }
    }
}

/// Number of records seen at each level.
#[derive(Debug, Clone, Copy, PartialEq, Eq, Structural)]
pub struct LevelCounts {
    pub trace: usize,
    pub debug: usize,
    pub info: usize,
    pub warn: usize,
    pub error: usize,
    pub fatal: usize,
    pub unknown: usize,
}

/// The levels in ascending order.
pub open spec fn all_levels() -> Seq<LogLevel> {
    seq![
        LogLevel::Trace,
        LogLevel::Debug,
        LogLevel::Info,
        LogLevel::Warn,
        LogLevel::Error,
        LogLevel::Fatal,
        LogLevel::Unknown,
    ]
}

impl LevelCounts {
    pub open spec fn count(self, level: LogLevel) -> usize {
        match level {
            LogLevel::Trace => self.trace,
            LogLevel::Debug => self.debug,
            LogLevel::Info => self.info,
            LogLevel::Warn => self.warn,
            LogLevel::Error => self.error,
            LogLevel::Fatal => self.fatal,
            LogLevel::Unknown => self.unknown,
        }
    }

    /// The counts after adding `n` records at `level`.
    pub open spec fn added(self, level: LogLevel, n: usize) -> LevelCounts {
        match level {
            LogLevel::Trace => LevelCounts { trace: (self.trace + n) as usize, ..self },
            LogLevel::Debug => LevelCounts { debug: (self.debug + n) as usize, ..self },
            LogLevel::Info => LevelCounts { info: (self.info + n) as usize, ..self },
            LogLevel::Warn => LevelCounts { warn: (self.warn + n) as usize, ..self },
            LogLevel::Error => LevelCounts { error: (self.error + n) as usize, ..self },
            LogLevel::Fatal => LevelCounts { fatal: (self.fatal + n) as usize, ..self },
            LogLevel::Unknown => LevelCounts { unknown: (self.unknown + n) as usize, ..self },
        }
    }

    /// The counts of `self` and `other` added level by level.
    pub open spec fn sum(self, other: LevelCounts) -> LevelCounts {
        LevelCounts {
            trace: (self.trace + other.trace) as usize,
            debug: (self.debug + other.debug) as usize,
            info: (self.info + other.info) as usize,
            warn: (self.warn + other.warn) as usize,
            error: (self.error + other.error) as usize,
            fatal: (self.fatal + other.fatal) as usize,
            unknown: (self.unknown + other.unknown) as usize,
        }
    }

    pub proof fn lemma_added(self, level: LogLevel, n: usize)
        requires
            self.count(level) + n <= usize::MAX,
        ensures
            self.added(level, n).count(level) == self.count(level) + n,
            forall|l: LogLevel| l != level ==> #[trigger] self.added(level, n).count(l) == self.count(l),
    {
    }

    pub proof fn lemma_sum(self, other: LevelCounts)
        requires
            forall|l: LogLevel| #[trigger] self.count(l) + other.count(l) <= usize::MAX,
        ensures
            forall|l: LogLevel| #[trigger] self.sum(other).count(l) == self.count(l) + other.count(l),
    {
        assert forall|l: LogLevel| #[trigger] self.sum(other).count(l) == self.count(l) + other.count(l) by {
            assert(self.count(l) + other.count(l) <= usize::MAX);
        }
    }

    pub fn new() -> (r: Self)
        ensures
            forall|l: LogLevel| #[trigger] r.count(l) == 0,
    {
        LevelCounts { trace: 0, debug: 0, info: 0, warn: 0, error: 0, fatal: 0, unknown: 0 }
    }

    /// The number of records at `level`, where there is at least one.
    pub fn get(&self, level: &LogLevel) -> (r: Option<&usize>)
        ensures
            r is Some <==> self.count(*level) > 0,
            r matches Some(x) ==> *x == self.count(*level),
    {
        let c = match level {
            LogLevel::Trace => &self.trace,
            LogLevel::Debug => &self.debug,
            LogLevel::Info => &self.info,
            LogLevel::Warn => &self.warn,
            LogLevel::Error => &self.error,
            LogLevel::Fatal => &self.fatal,
            LogLevel::Unknown => &self.unknown,
        };
        if *c > 0 {
            Some(c)
        } else {
            None
        }
    }

    /// The number of records at `level` (zero where there is none).
    pub fn count_of(&self, level: LogLevel) -> (r: usize)
        ensures
            r == self.count(level),
    {
        match level {
            LogLevel::Trace => self.trace,
            LogLevel::Debug => self.debug,
            LogLevel::Info => self.info,
            LogLevel::Warn => self.warn,
            LogLevel::Error => self.error,
            LogLevel::Fatal => self.fatal,
            LogLevel::Unknown => self.unknown,
        }
    }

    pub fn add(&mut self, level: LogLevel, n: usize)
        requires
            old(self).count(level) + n <= usize::MAX,
        ensures
            *final(self) == old(self).added(level, n),
    {
        match level {
            LogLevel::Trace => self.trace = self.trace + n,
            LogLevel::Debug => self.debug = self.debug + n,
            LogLevel::Info => self.info = self.info + n,
            LogLevel::Warn => self.warn = self.warn + n,
            LogLevel::Error => self.error = self.error + n,
            LogLevel::Fatal => self.fatal = self.fatal + n,
            LogLevel::Unknown => self.unknown = self.unknown + n,
        }
    }
}

impl Default for LevelCounts {
    fn default() -> (r: Self)
        ensures
            forall|l: LogLevel| #[trigger] r.count(l) == 0,
    {
        LevelCounts::new()
    }
}

#[derive(Debug, Clone, Copy, PartialEq, Eq, Structural)]
pub struct LevelStats {
    pub total: usize,
    pub by_level: LevelCounts,
}

impl Default for LevelStats {
    fn default() -> (r: Self)
        ensures
            r.total == 0,
            forall|l: LogLevel| #[trigger] r.by_level.count(l) == 0,
    {
        LevelStats { total: 0, by_level: LevelCounts::new() }
    }
}

#[derive(Debug, Clone, Copy, PartialEq, Eq, Structural)]
pub struct LatencyStats {
    pub count: usize,
    pub sum: u64,
    pub min: Option<u64>,
    pub max: Option<u64>,
    pub slow_count: usize,
}

pub open spec fn min_u64(a: u64, b: u64) -> u64 {
    if a <= b { a } else { b }
}

pub open spec fn max_u64(a: u64, b: u64) -> u64 {
    if a >= b { a } else { b }
}

/// The smaller of two optional values, an absent one being no constraint.
pub open spec fn opt_min(a: Option<u64>, b: Option<u64>) -> Option<u64> {
    match (a, b) {
        (Some(x), Some(y)) => Some(min_u64(x, y)),
        (Some(x), None) => Some(x),
        (None, Some(y)) => Some(y),
        (None, None) => None,
    }
}

/// The larger of two optional values, an absent one being no constraint.
pub open spec fn opt_max(a: Option<u64>, b: Option<u64>) -> Option<u64> {
    match (a, b) {
        (Some(x), Some(y)) => Some(max_u64(x, y)),
        (Some(x), None) => Some(x),
        (None, Some(y)) => Some(y),
        (None, None) => None,
    }
}

/// The statistics after one more sample `v`; a sample at or above the
/// threshold is slow.
pub open spec fn latency_added(s: LatencyStats, v: u64, slow_threshold_ms: u64) -> LatencyStats {
    LatencyStats {
        count: (s.count + 1) as usize,
        sum: (s.sum + v) as u64,
        min: opt_min(s.min, Some(v)),
        max: opt_max(s.max, Some(v)),
        slow_count: if v >= slow_threshold_ms { (s.slow_count + 1) as usize } else { s.slow_count },
    }
}

/// The statistics of the samples of `a` and of `b` together.
pub open spec fn latency_merged(a: LatencyStats, b: LatencyStats) -> LatencyStats {
    LatencyStats {
        count: (a.count + b.count) as usize,
        sum: (a.sum + b.sum) as u64,
        min: opt_min(a.min, b.min),
        max: opt_max(a.max, b.max),
        slow_count: (a.slow_count + b.slow_count) as usize,
    }
}

/// No sample yet.
pub open spec fn latency_empty() -> LatencyStats {
    LatencyStats { count: 0, sum: 0, min: None, max: None, slow_count: 0 }
}

impl Default for LatencyStats {
    fn default() -> (r: Self)
        ensures
            r == latency_empty(),
    {
        LatencyStats { count: 0, sum: 0, min: None, max: None, slow_count: 0 }
    }
}

impl LatencyStats {
    pub fn add(&mut self, value: u64, slow_threshold_ms: u64)
        requires
            old(self).count < usize::MAX,
            old(self).sum + value <= u64::MAX,
            old(self).slow_count < usize::MAX,
        ensures
            *final(self) == latency_added(*old(self), value, slow_threshold_ms),
    {
        self.count = self.count + 1;
        self.sum = self.sum + value;
        self.min = Some(match self.min {
            Some(old) => if old <= value { old } else { value },
            None => value,
        });
        self.max = Some(match self.max {
            Some(old) => if old >= value { old } else { value },
            None => value,
        });
        if value >= slow_threshold_ms {
            self.slow_count = self.slow_count + 1;
        }
    }

    pub fn merge(&mut self, other: &LatencyStats)
        requires
            old(self).count + other.count <= usize::MAX,
            old(self).sum + other.sum <= u64::MAX,
            old(self).slow_count + other.slow_count <= usize::MAX,
        ensures
            *final(self) == latency_merged(*old(self), *other),
    {
        self.count = self.count + other.count;
        self.sum = self.sum + other.sum;
        self.slow_count = self.slow_count + other.slow_count;
        self.min = match (self.min, other.min) {
            (Some(a), Some(b)) => Some(if a <= b { a } else { b }),
            (Some(a), None) => Some(a),
            (None, Some(b)) => Some(b),
            (None, None) => None,
        };
        self.max = match (self.max, other.max) {
            (Some(a), Some(b)) => Some(if a >= b { a } else { b }),
            (Some(a), None) => Some(a),
            (None, Some(b)) => Some(b),
            (None, None) => None,
        };
    }
}


/// The count stored under `k`, zero where there is none.
pub open spec fn count_of(es: Seq<(Seq<char>, usize)>, k: Seq<char>) -> nat {
    match lookup(es, k) {
        Some(v) => v as nat,
        None => 0,
    }
}

/// The counts after `n` more occurrences of `k`.
pub open spec fn count_added(es: Seq<(Seq<char>, usize)>, k: Seq<char>, n: usize) -> Seq<(Seq<char>, usize)> {
    insert_entry(es, k, (count_of(es, k) + n) as usize)
}

/// The counts of `a` with those of `t` added key by key.
pub open spec fn merge_counts(a: Seq<(Seq<char>, usize)>, t: Seq<(Seq<char>, usize)>) -> Seq<(Seq<char>, usize)>
    decreases t.len(),
{
    if t.len() == 0 {
        a
    } else {
        count_added(merge_counts(a, t.drop_last()), t.last().0, t.last().1)
    }
}

pub proof fn lemma_count_added(es: Seq<(Seq<char>, usize)>, k: Seq<char>, n: usize)
    requires
        keys_sorted(es),
        count_of(es, k) + n <= usize::MAX,
    ensures
        keys_sorted(count_added(es, k, n)),
        count_of(count_added(es, k, n), k) == count_of(es, k) + n,
        forall|k2: Seq<char>| k2 != k ==> #[trigger] count_of(count_added(es, k, n), k2) == count_of(es, k2),
{
    crate::strmap::lemma_insert_entry(es, k, (count_of(es, k) + n) as usize);
    let r = count_added(es, k, n);
    assert forall|k2: Seq<char>| k2 != k implies #[trigger] count_of(r, k2) == count_of(es, k2) by {
        assert(lookup(r, k2) == lookup(es, k2));
    }
}

proof fn lemma_lookup_push(s: Seq<(Seq<char>, usize)>, x: (Seq<char>, usize), k: Seq<char>)
    ensures
        lookup(s.push(x), k) == (if lookup(s, k) is Some { lookup(s, k) } else if x.0 == k { Some(x.1) } else { None::<usize> }),
    decreases s.len(),
{
    if s.len() > 0 {
        assert(s.push(x)[0] == s[0]);
        assert(s.push(x).drop_first() =~= s.drop_first().push(x));
        lemma_lookup_push(s.drop_first(), x, k);
    } else {
        assert(s.push(x)[0] == x);
        assert(s.push(x).drop_first() =~= Seq::<(Seq<char>, usize)>::empty());
        assert(lookup(s.push(x).drop_first(), k) is None);
        assert(lookup(s, k) is None);
    }
}

pub proof fn lemma_merge_counts(a: Seq<(Seq<char>, usize)>, t: Seq<(Seq<char>, usize)>)
    requires
        keys_sorted(a),
        keys_sorted(t),
        forall|k: Seq<char>| #[trigger] count_of(a, k) + count_of(t, k) <= usize::MAX,
    ensures
        keys_sorted(merge_counts(a, t)),
        forall|k: Seq<char>| #[trigger] count_of(merge_counts(a, t), k) == count_of(a, k) + count_of(t, k),
    decreases t.len(),
{
    if t.len() > 0 {
        let u = t.drop_last();
        let x = t.last();
        assert(keys_sorted(u));
        assert forall|k: Seq<char>| #[trigger] count_of(a, k) + count_of(u, k) <= usize::MAX by {
            assert(t =~= u.push(x));
            lemma_lookup_push(u, x, k);
            assert(count_of(a, k) + count_of(t, k) <= usize::MAX);
        }
        lemma_merge_counts(a, u);
        let m = merge_counts(a, u);
        assert(t =~= u.push(x));
        assert(lookup(u, x.0) is None) by {
            crate::strmap::lemma_lookup_index(u, x.0);
            if lookup(u, x.0) is Some {
                let i = choose|i: int| 0 <= i < u.len() && #[trigger] u[i].0 == x.0;
                assert(t[i].0 == x.0);
                assert(seq_lt(t[i].0, t[t.len() - 1].0));
                crate::strmap::lemma_seq_lt_irreflexive(x.0);
            }
        }
        lemma_lookup_push(u, x, x.0);
        assert(count_of(a, x.0) + count_of(t, x.0) <= usize::MAX);
        lemma_count_added(m, x.0, x.1);
        assert forall|k: Seq<char>| #[trigger] count_of(merge_counts(a, t), k) == count_of(a, k) + count_of(t, k) by {
            lemma_lookup_push(u, x, k);
        }
    }
}

/// Stable insertion of `x` into `s`: after the last element whose key is not above `x`'s.
pub open spec fn insert_by<T>(s: Seq<T>, x: T, key: spec_fn(T) -> int) -> Seq<T>
    decreases s.len(),
{
    if s.len() == 0 || key(s.last()) <= key(x) {
        s.push(x)
    } else {
        insert_by(s.drop_last(), x, key).push(s.last())
    }
}

/// Stable sort of `s` by `key`, ascending.
pub open spec fn sort_by<T>(s: Seq<T>, key: spec_fn(T) -> int) -> Seq<T>
    decreases s.len(),
{
    if s.len() == 0 {
        s
    } else {
        insert_by(sort_by(s.drop_last(), key), s.last(), key)
    }
}

pub proof fn lemma_insert_by_at<T>(s: Seq<T>, x: T, key: spec_fn(T) -> int, p: int)
    requires
        0 <= p <= s.len(),
        forall|j: int| p <= j < s.len() ==> key(#[trigger] s[j]) > key(x),
        p == 0 || key(s[p - 1]) <= key(x),
    ensures
        insert_by(s, x, key) == s.insert(p, x),
    decreases s.len(),
{
    if p == s.len() {
        assert(s.insert(p, x) =~= s.push(x));
    } else {
        let u = s.drop_last();
        assert forall|j: int| p <= j < u.len() implies key(#[trigger] u[j]) > key(x) by {
            assert(u[j] == s[j]);
        }
        lemma_insert_by_at(u, x, key, p);
        assert(s.insert(p, x) =~= u.insert(p, x).push(s.last()));
    }
}

pub proof fn lemma_insert_by_len<T>(s: Seq<T>, x: T, key: spec_fn(T) -> int)
    ensures
        insert_by(s, x, key).len() == s.len() + 1,
    decreases s.len(),
{
    if s.len() > 0 && key(s.last()) > key(x) {
        lemma_insert_by_len(s.drop_last(), x, key);
    }
}

pub proof fn lemma_sort_by_len<T>(s: Seq<T>, key: spec_fn(T) -> int)
    ensures
        sort_by(s, key).len() == s.len(),
    decreases s.len(),
{
    if s.len() > 0 {
        lemma_sort_by_len(s.drop_last(), key);
        lemma_insert_by_len(sort_by(s.drop_last(), key), s.last(), key);
    }
}

/// Inserting keeps every element and adds `x`.
pub proof fn lemma_insert_by_contains<T>(s: Seq<T>, x: T, key: spec_fn(T) -> int, y: T)
    ensures
        insert_by(s, x, key).contains(y) <==> (s.contains(y) || y == x),
    decreases s.len(),
{
    if s.len() > 0 && key(s.last()) > key(x) {
        let u = s.drop_last();
        lemma_insert_by_contains(u, x, key, y);
        let w = insert_by(u, x, key);
        assert(s =~= u.push(s.last()));
        lemma_push_contains(u, s.last(), y);
        lemma_push_contains(w, s.last(), y);
    } else {
        lemma_push_contains(s, x, y);
    }
}

proof fn lemma_push_contains<T>(s: Seq<T>, x: T, y: T)
    ensures
        s.push(x).contains(y) <==> (s.contains(y) || y == x),
{
    let w = s.push(x);
    if s.contains(y) {
        let j = choose|j: int| 0 <= j < s.len() && s[j] == y;
        assert(w[j] == y);
    }
    if y == x {
        assert(w[s.len() as int] == y);
    }
    if w.contains(y) && y != x {
        let j = choose|j: int| 0 <= j < w.len() && w[j] == y;
        assert(s[j] == y);
    }
}

/// Sorting keeps exactly the elements of `s`.
pub proof fn lemma_sort_by_contains<T>(s: Seq<T>, key: spec_fn(T) -> int, y: T)
    ensures
        sort_by(s, key).contains(y) <==> s.contains(y),
    decreases s.len(),
{
    if s.len() > 0 {
        let u = s.drop_last();
        lemma_sort_by_contains(u, key, y);
        lemma_insert_by_contains(sort_by(u, key), s.last(), key, y);
        assert(s =~= u.push(s.last()));
        lemma_push_contains(u, s.last(), y);
    }
}

/// Elements in ascending order of `key`.
pub open spec fn sorted_by<T>(s: Seq<T>, key: spec_fn(T) -> int) -> bool {
    forall|i: int, j: int| 0 <= i < j < s.len() ==> key(#[trigger] s[i]) <= key(#[trigger] s[j])
}

proof fn lemma_insert_by_sorted<T>(s: Seq<T>, x: T, key: spec_fn(T) -> int)
    requires
        sorted_by(s, key),
    ensures
        sorted_by(insert_by(s, x, key), key),
    decreases s.len(),
{
    if s.len() > 0 && key(s.last()) > key(x) {
        let u = s.drop_last();
        assert(sorted_by(u, key)) by {
            assert forall|i: int, j: int| 0 <= i < j < u.len() implies key(#[trigger] u[i]) <= key(#[trigger] u[j]) by {
                assert(u[i] == s[i] && u[j] == s[j]);
            }
        }
        lemma_insert_by_sorted(u, x, key);
        let w = insert_by(u, x, key);
        lemma_insert_by_len(u, x, key);
        assert forall|i: int| 0 <= i < w.len() implies key(#[trigger] w[i]) <= key(s.last()) by {
            lemma_insert_by_contains(u, x, key, w[i]);
            assert(w.contains(w[i]));
            if u.contains(w[i]) {
                let j = choose|j: int| 0 <= j < u.len() && u[j] == w[i];
                assert(s[j] == w[i]);
                assert(key(s[j]) <= key(s[s.len() - 1]));
            }
        }
        let r = w.push(s.last());
        assert forall|i: int, j: int| 0 <= i < j < r.len() implies key(#[trigger] r[i]) <= key(#[trigger] r[j]) by {
            if j == r.len() - 1 {
                assert(r[i] == w[i]);
            } else {
                assert(r[i] == w[i] && r[j] == w[j]);
            }
        }
    } else {
        let r = s.push(x);
        assert forall|i: int, j: int| 0 <= i < j < r.len() implies key(#[trigger] r[i]) <= key(#[trigger] r[j]) by {
            if j == r.len() - 1 {
                assert(r[i] == s[i]);
                if i < s.len() - 1 {
                    assert(key(s[i]) <= key(s[s.len() - 1]));
                }
            } else {
                assert(r[i] == s[i] && r[j] == s[j]);
            }
        }
    }
}

/// Sorting puts the elements in ascending order of `key`.
pub proof fn lemma_sort_by_sorted<T>(s: Seq<T>, key: spec_fn(T) -> int)
    ensures
        sorted_by(sort_by(s, key), key),
    decreases s.len(),
{
    if s.len() > 0 {
        lemma_sort_by_sorted(s.drop_last(), key);
        lemma_insert_by_sorted(sort_by(s.drop_last(), key), s.last(), key);
    }
}

/// Counts in descending order; among equal counts the earlier entry first.
pub open spec fn sort_counts(es: Seq<(Seq<char>, usize)>) -> Seq<(Seq<char>, usize)> {
    sort_by(es, |e: (Seq<char>, usize)| -(e.1 as int))
}

/// The `limit` most frequent keys, most frequent first, ties in ascending key
/// order (the entries being in ascending key order).
pub open spec fn top_spec(es: Seq<(Seq<char>, usize)>, limit: usize) -> Seq<(Seq<char>, usize)> {
    let s = sort_counts(es);
    if limit < s.len() {
        s.take(limit as int)
    } else {
        s
    }
}

/// Every entry ranks above each entry after it.
pub open spec fn ranked(t: Seq<(Seq<char>, usize)>) -> bool {
    forall|i: int, j: int| #![trigger t[i], t[j]] 0 <= i < j < t.len() ==> ranks_above(t[i].0, t[i].1, t[j].0, t[j].1)
}

proof fn lemma_insert_count_ranked(s: Seq<(Seq<char>, usize)>, x: (Seq<char>, usize), key: spec_fn((Seq<char>, usize)) -> int)
    requires
        ranked(s),
        forall|e: (Seq<char>, usize)| #[trigger] key(e) == -(e.1 as int),
        forall|i: int| 0 <= i < s.len() ==> seq_lt(#[trigger] s[i].0, x.0),
    ensures
        ranked(insert_by(s, x, key)),
    decreases s.len(),
{
    if s.len() > 0 && key(s.last()) > key(x) {
        let u = s.drop_last();
        assert(ranked(u)) by {
            assert forall|i: int, j: int| #![trigger u[i], u[j]] 0 <= i < j < u.len() implies ranks_above(u[i].0, u[i].1, u[j].0, u[j].1) by {
                assert(u[i] == s[i] && u[j] == s[j]);
            }
        }
        assert forall|i: int| 0 <= i < u.len() implies seq_lt(#[trigger] u[i].0, x.0) by {
            assert(u[i] == s[i]);
        }
        lemma_insert_count_ranked(u, x, key);
        let w = insert_by(u, x, key);
        let last = s.last();
        lemma_insert_by_len(u, x, key);
        assert forall|i: int| 0 <= i < w.len() implies ranks_above(#[trigger] w[i].0, w[i].1, last.0, last.1) by {
            lemma_insert_by_contains(u, x, key, w[i]);
            assert(w.contains(w[i]));
            if u.contains(w[i]) {
                let j = choose|j: int| 0 <= j < u.len() && u[j] == w[i];
                assert(s[j] == w[i]);
                assert(ranks_above(s[j].0, s[j].1, s[s.len() - 1].0, s[s.len() - 1].1));
            }
        }
        let r = w.push(last);
        assert forall|i: int, j: int| #![trigger r[i], r[j]] 0 <= i < j < r.len() implies ranks_above(r[i].0, r[i].1, r[j].0, r[j].1) by {
            if j == r.len() - 1 {
                assert(r[i] == w[i]);
            } else {
                assert(r[i] == w[i] && r[j] == w[j]);
            }
        }
    } else {
        let r = s.push(x);
        assert forall|i: int, j: int| #![trigger r[i], r[j]] 0 <= i < j < r.len() implies ranks_above(r[i].0, r[i].1, r[j].0, r[j].1) by {
            if j == r.len() - 1 {
                assert(r[i] == s[i]);
                assert(seq_lt(s[i].0, x.0));
                if i < s.len() - 1 {
                    assert(ranks_above(s[i].0, s[i].1, s[s.len() - 1].0, s[s.len() - 1].1));
                }
            } else {
                assert(r[i] == s[i] && r[j] == s[j]);
            }
        }
    }
}

/// Entries with ascending keys, sorted by count, come out ranked.
pub proof fn lemma_sort_counts_ranked(es: Seq<(Seq<char>, usize)>)
    requires
        keys_sorted(es),
    ensures
        ranked(sort_counts(es)),
    decreases es.len(),
{
    let key = |e: (Seq<char>, usize)| -(e.1 as int);
    if es.len() > 0 {
        let u = es.drop_last();
        assert(keys_sorted(u)) by {
            assert forall|i: int, j: int| 0 <= i < j < u.len() implies seq_lt(#[trigger] u[i].0, #[trigger] u[j].0) by {
                assert(u[i] == es[i] && u[j] == es[j]);
            }
        }
        lemma_sort_counts_ranked(u);
        let t = sort_by(u, key);
        assert(t == sort_counts(u));
        assert forall|i: int| 0 <= i < t.len() implies seq_lt(#[trigger] t[i].0, es.last().0) by {
            lemma_sort_by_contains(u, key, t[i]);
            assert(t.contains(t[i]));
            let j = choose|j: int| 0 <= j < u.len() && u[j] == t[i];
            assert(es[j] == t[i]);
            assert(seq_lt(es[j].0, es[es.len() - 1].0));
        }
        lemma_insert_count_ranked(t, es.last(), key);
        assert(sort_counts(es) == insert_by(t, es.last(), key));
    }
}

pub open spec fn item_views(s: Seq<TopItem<String>>) -> Seq<(Seq<char>, usize)> {
    s.map_values(|t: TopItem<String>| (t.key@, t.count))
}

/// The `limit` keys of `map` with the highest counts, highest first; equal
/// counts come in ascending key order.
pub fn top_items(map: &StrMap<usize>, limit: usize) -> (r: Vec<TopItem<String>>)
    ensures
        item_views(r@) == top_spec(map.entries(), limit),
{
    let n = map.len();
    let ghost es = map.entries();
    let ghost key = |e: (Seq<char>, usize)| -(e.1 as int);
    let mut items: Vec<TopItem<String>> = Vec::new();
    let mut i: usize = 0;
    while i < n
        invariant
            n == es.len(),
            es == map.entries(),
            key == |e: (Seq<char>, usize)| -(e.1 as int),
            0 <= i <= n,
            item_views(items@) == sort_by(es.take(i as int), key),
        decreases n - i,
    {
        let item = TopItem { key: map.key_at(i).clone(), count: *map.value_at(i) };
        let mut p = items.len();
        while p > 0 && items[p - 1].count < item.count
            invariant
                0 <= p <= items@.len(),
                forall|j: int| p <= j < items@.len() ==> #[trigger] items@[j].count < item.count,
            decreases p,
        {
            p -= 1;
        }
        proof {
            let sv = item_views(items@);
            let xv = (item.key@, item.count);
            assert forall|j: int| p <= j < sv.len() implies key(#[trigger] sv[j]) > key(xv) by {
                assert(sv[j] == (items@[j].key@, items@[j].count));
            }
            lemma_insert_by_at(sv, xv, key, p as int);
            assert(es.take(i + 1).drop_last() =~= es.take(i as int));
            assert(es.take(i + 1).last() == xv);
        }
        let ghost before = items@;
        let ghost xv = (item.key@, item.count);
        items.insert(p, item);
        assert(item_views(items@) =~= item_views(before).insert(p as int, xv));
        i += 1;
    }
    assert(es.take(n as int) =~= es);
    items.truncate(limit);
    proof {
        lemma_sort_by_len(es, key);
    }
    assert(item_views(items@) =~= top_spec(es, limit));
    items
}


pub open spec fn rec_views(s: Seq<LogRecord>) -> Seq<RecordView> {
    s.map_values(|r: LogRecord| r@)
}

/// Records in ascending line order; records of one line keep their order.
pub open spec fn sort_records(s: Seq<RecordView>) -> Seq<RecordView> {
    sort_by(s, |r: RecordView| r.line_number as int)
}

/// The first `k` elements of `s` (all of them where there are fewer).
pub open spec fn keep_first<T>(s: Seq<T>, k: nat) -> Seq<T> {
    if k < s.len() {
        s.take(k as int)
    } else {
        s
    }
}

/// Stable sort of records by line number.
fn sort_records_by_line(v: Vec<LogRecord>) -> (r: Vec<LogRecord>)
    ensures
        rec_views(r@) == sort_records(rec_views(v@)),
{
    let ghost src = rec_views(v@);
    let ghost key = |r: RecordView| r.line_number as int;
    let mut out: Vec<LogRecord> = Vec::new();
    for x in it: v.into_iter()
        invariant
            src == rec_views(it.seq()),
            key == |r: RecordView| r.line_number as int,
            rec_views(out@) == sort_by(src.take(it.index() as int), key),
    {
        let ghost i = it.index();
        let mut p = out.len();
        while p > 0 && out[p - 1].line_number > x.line_number
            invariant
                0 <= p <= out@.len(),
                forall|j: int| p <= j < out@.len() ==> #[trigger] out@[j].line_number > x.line_number,
            decreases p,
        {
            p -= 1;
        }
        proof {
            let sv = rec_views(out@);
            assert forall|j: int| p <= j < sv.len() implies key(#[trigger] sv[j]) > key(x@) by {
                assert(sv[j] == out@[j]@);
            }
            lemma_insert_by_at(sv, x@, key, p as int);
            assert(src.take(i + 1).drop_last() =~= src.take(i as int));
            assert(src.take(i + 1).last() == x@);
        }
        let ghost before = out@;
        let ghost xv = x@;
        out.insert(p, x);
        assert(rec_views(out@) =~= rec_views(before).insert(p as int, xv));
    }
    assert(src.take(src.len() as int) =~= src);
    out
}

/// The outcome of an analysis.
#[derive(Debug, Clone)]
pub struct AnalysisResult {
    pub total_lines: usize,
    pub parsed_records: usize,
    pub skipped_lines: usize,
    pub parse_errors: Vec<String>,
    pub level_stats: LevelStats,
    pub service_count: StrMap<usize>,
    pub latency: LatencyStats,
    pub top_services: Vec<TopItem<String>>,
    pub slow_records: Vec<LogRecord>,
    pub error_records: Vec<LogRecord>,
}

/// An analysis outcome with its strings taken as characters.
pub struct AnalysisView {
    pub total_lines: usize,
    pub parsed_records: usize,
    pub skipped_lines: usize,
    pub parse_errors: Seq<Seq<char>>,
    pub level_total: usize,
    pub levels: LevelCounts,
    pub services: Seq<(Seq<char>, usize)>,
    pub latency: LatencyStats,
    pub top_services: Seq<(Seq<char>, usize)>,
    pub slow_records: Seq<RecordView>,
    pub error_records: Seq<RecordView>,
}

pub open spec fn str_views(s: Seq<String>) -> Seq<Seq<char>> {
    s.map_values(|m: String| m@)
}

impl View for AnalysisResult {
    type V = AnalysisView;

    open spec fn view(&self) -> AnalysisView {
        AnalysisView {
            total_lines: self.total_lines,
            parsed_records: self.parsed_records,
            skipped_lines: self.skipped_lines,
            parse_errors: str_views(self.parse_errors@),
            level_total: self.level_stats.total,
            levels: self.level_stats.by_level,
            services: self.service_count.entries(),
            latency: self.latency,
            top_services: item_views(self.top_services@),
            slow_records: rec_views(self.slow_records@),
            error_records: rec_views(self.error_records@),
        }
    }
}

/// Nothing analysed yet.
pub open spec fn empty_view() -> AnalysisView {
    AnalysisView {
        total_lines: 0,
        parsed_records: 0,
        skipped_lines: 0,
        parse_errors: Seq::empty(),
        level_total: 0,
        levels: LevelCounts { trace: 0, debug: 0, info: 0, warn: 0, error: 0, fatal: 0, unknown: 0 },
        services: Seq::empty(),
        latency: latency_empty(),
        top_services: Seq::empty(),
        slow_records: Seq::empty(),
        error_records: Seq::empty(),
    }
}

/// How many slow and error-like samples a merged outcome keeps.
pub open spec fn sample_limit(top_n: usize) -> nat {
    (if top_n > 1 { top_n as nat } else { 1 }) * 10
}

/// No count of the merge of `a` and `b` exceeds its integer type.
pub open spec fn merge_fits(a: AnalysisView, b: AnalysisView, top_n: usize) -> bool {
    &&& a.total_lines + b.total_lines <= usize::MAX
    &&& a.parsed_records + b.parsed_records <= usize::MAX
    &&& a.skipped_lines + b.skipped_lines <= usize::MAX
    &&& a.level_total + b.level_total <= usize::MAX
    &&& forall|l: LogLevel| #[trigger] a.levels.count(l) + b.levels.count(l) <= usize::MAX
    &&& forall|k: Seq<char>| #[trigger] count_of(a.services, k) + count_of(b.services, k) <= usize::MAX
    &&& a.latency.count + b.latency.count <= usize::MAX
    &&& a.latency.sum + b.latency.sum <= u64::MAX
    &&& a.latency.slow_count + b.latency.slow_count <= usize::MAX
    &&& sample_limit(top_n) <= usize::MAX
}

/// The outcome of `a` and `b` together: counts add up, errors of `b` follow
/// those of `a`, samples are put in line order and cut to the sample limit,
/// and the top services are ranked again.
pub open spec fn merge_spec(a: AnalysisView, b: AnalysisView, top_n: usize) -> AnalysisView {
    let services = merge_counts(a.services, b.services);
    AnalysisView {
        total_lines: (a.total_lines + b.total_lines) as usize,
        parsed_records: (a.parsed_records + b.parsed_records) as usize,
        skipped_lines: (a.skipped_lines + b.skipped_lines) as usize,
        parse_errors: a.parse_errors + b.parse_errors,
        level_total: (a.level_total + b.level_total) as usize,
        levels: a.levels.sum(b.levels),
        services,
        latency: latency_merged(a.latency, b.latency),
        top_services: top_spec(services, top_n),
        slow_records: keep_first(sort_records(a.slow_records + b.slow_records), sample_limit(top_n)),
        error_records: keep_first(sort_records(a.error_records + b.error_records), sample_limit(top_n)),
    }
}

impl LevelCounts {
    /// Adds the counts of `other`, level by level.
    pub fn add_all(&mut self, other: &LevelCounts)
        requires
            forall|l: LogLevel| #[trigger] old(self).count(l) + other.count(l) <= usize::MAX,
        ensures
            *final(self) == old(self).sum(*other),
    {
        proof {
            assert(old(self).count(LogLevel::Trace) + other.count(LogLevel::Trace) <= usize::MAX);
            assert(old(self).count(LogLevel::Debug) + other.count(LogLevel::Debug) <= usize::MAX);
            assert(old(self).count(LogLevel::Info) + other.count(LogLevel::Info) <= usize::MAX);
            assert(old(self).count(LogLevel::Warn) + other.count(LogLevel::Warn) <= usize::MAX);
            assert(old(self).count(LogLevel::Error) + other.count(LogLevel::Error) <= usize::MAX);
            assert(old(self).count(LogLevel::Fatal) + other.count(LogLevel::Fatal) <= usize::MAX);
            assert(old(self).count(LogLevel::Unknown) + other.count(LogLevel::Unknown) <= usize::MAX);
        }
        self.trace = self.trace + other.trace;
        self.debug = self.debug + other.debug;
        self.info = self.info + other.info;
        self.warn = self.warn + other.warn;
        self.error = self.error + other.error;
        self.fatal = self.fatal + other.fatal;
        self.unknown = self.unknown + other.unknown;
    }
}

/// Adds `n` occurrences of `key` to `map`.
fn add_count(map: &mut StrMap<usize>, key: String, n: usize)
    requires
        count_of(old(map).entries(), key@) + n <= usize::MAX,
    ensures
        final(map).entries() == count_added(old(map).entries(), key@, n),
{
    let current = match map.get(key.as_str()) {
        Some(c) => *c,
        None => 0,
    };
    map.insert(key, current + n);
}

/// Adds the counts of `other` to `map`, key by key.
fn merge_counts_into(map: &mut StrMap<usize>, other: &StrMap<usize>)
    requires
        forall|k: Seq<char>| #[trigger] count_of(old(map).entries(), k) + count_of(other.entries(), k) <= usize::MAX,
    ensures
        final(map).entries() == merge_counts(old(map).entries(), other.entries()),
{
    let ghost a = map.entries();
    let _ = map.len();
    let n = other.len();
    let ghost t = other.entries();
    let mut i: usize = 0;
    while i < n
        invariant
            n == t.len(),
            t == other.entries(),
            keys_sorted(t),
            keys_sorted(a),
            0 <= i <= n,
            forall|k: Seq<char>| #[trigger] count_of(a, k) + count_of(t, k) <= usize::MAX,
            map.entries() == merge_counts(a, t.take(i as int)),
        decreases n - i,
    {
        proof {
            let u = t.take(i as int);
            let k = t[i as int].0;
            assert(keys_sorted(u));
            assert forall|k2: Seq<char>| #[trigger] count_of(a, k2) + count_of(u, k2) <= usize::MAX by {
                lemma_count_prefix(t, i as int, k2);
            }
            lemma_merge_counts(a, u);
            lemma_count_prefix(t, i as int, k);
            crate::strmap::lemma_lookup_index(t, k);
            assert(count_of(t, k) == t[i as int].1);
            assert(count_of(a, k) + count_of(t, k) <= usize::MAX);
            assert(t.take(i + 1).drop_last() =~= u);
            assert(t.take(i + 1).last() == t[i as int]);
        }
        let key = other.key_at(i).clone();
        let c = *other.value_at(i);
        add_count(map, key, c);
        i += 1;
    }
    assert(t.take(n as int) =~= t);
}

/// Sorts `v` by line number and keeps the first `limit` records.
fn sorted_sample(v: Vec<LogRecord>, limit: usize) -> (r: Vec<LogRecord>)
    ensures
        rec_views(r@) == keep_first(sort_records(rec_views(v@)), limit as nat),
{
    let mut sorted = sort_records_by_line(v);
    let ghost before = sorted@;
    sorted.truncate(limit);
    proof {
        lemma_sort_by_len(rec_views(v@), |r: RecordView| r.line_number as int);
        if (limit as nat) < before.len() {
            assert(rec_views(sorted@) =~= rec_views(before).take(limit as int));
        }
    }
    sorted
}

impl Default for AnalysisResult {
    fn default() -> (r: Self)
        ensures
            r@ == empty_view(),
    {
        AnalysisResult::new()
    }
}

impl AnalysisResult {
    pub fn new() -> (r: Self)
        ensures
            r@ == empty_view(),
    {
        let r = AnalysisResult {
            total_lines: 0,
            parsed_records: 0,
            skipped_lines: 0,
            parse_errors: Vec::new(),
            level_stats: LevelStats {
                total: 0,
                by_level: LevelCounts { trace: 0, debug: 0, info: 0, warn: 0, error: 0, fatal: 0, unknown: 0 },
            },
            service_count: StrMap::new(),
            latency: LatencyStats { count: 0, sum: 0, min: None, max: None, slow_count: 0 },
            top_services: Vec::new(),
            slow_records: Vec::new(),
            error_records: Vec::new(),
        };
        assert(r@.parse_errors =~= Seq::<Seq<char>>::empty());
        assert(r@.top_services =~= Seq::<(Seq<char>, usize)>::empty());
        assert(r@.slow_records =~= Seq::<RecordView>::empty());
        assert(r@.error_records =~= Seq::<RecordView>::empty());
        r
    }

    /// Records at level `Error` or `Fatal`.
    pub fn error_like_count(&self) -> (r: usize)
        requires
            self.level_stats.by_level.count(LogLevel::Error) + self.level_stats.by_level.count(LogLevel::Fatal) <= usize::MAX,
        ensures
            r == self.level_stats.by_level.count(LogLevel::Error) + self.level_stats.by_level.count(LogLevel::Fatal),
    {
        let e = match self.level_stats.by_level.get(&LogLevel::Error) {
            Some(c) => *c,
            None => 0,
        };
        let f = match self.level_stats.by_level.get(&LogLevel::Fatal) {
            Some(c) => *c,
            None => 0,
        };
        e + f
    }

    /// Records at level `Warn`.
    pub fn warning_count(&self) -> (r: usize)
        ensures
            r == self.level_stats.by_level.count(LogLevel::Warn),
    {
        match self.level_stats.by_level.get(&LogLevel::Warn) {
            Some(c) => *c,
            None => 0,
        }
    }

    /// Whether any record is at level `Warn`, `Error` or `Fatal`.
    pub fn has_warnings_or_errors(&self) -> (r: bool)
        requires
            self.level_stats.by_level.count(LogLevel::Error) + self.level_stats.by_level.count(LogLevel::Fatal) <= usize::MAX,
        ensures
            r == (self.level_stats.by_level.count(LogLevel::Error) > 0
                || self.level_stats.by_level.count(LogLevel::Fatal) > 0
                || self.level_stats.by_level.count(LogLevel::Warn) > 0),
    {
        self.error_like_count() > 0 || self.warning_count() > 0
    }

    /// Adds the outcome `other` to this one.
    pub fn merge(&mut self, other: AnalysisResult, top_n: usize)
        requires
            merge_fits(old(self)@, other@, top_n),
        ensures
            final(self)@ == merge_spec(old(self)@, other@, top_n),
    {
        let ghost a = self@;
        let ghost b = other@;
        let AnalysisResult {
            total_lines,
            parsed_records,
            skipped_lines,
            mut parse_errors,
            level_stats,
            service_count,
            latency,
            top_services: _,
            slow_records,
            error_records,
        } = other;
        self.total_lines = self.total_lines + total_lines;
        self.parsed_records = self.parsed_records + parsed_records;
        self.skipped_lines = self.skipped_lines + skipped_lines;
        let ghost errs_before = self.parse_errors@;
        let ghost errs_other = parse_errors@;
        self.parse_errors.append(&mut parse_errors);
        assert(str_views(self.parse_errors@) =~= str_views(errs_before) + str_views(errs_other));

        self.level_stats.total = self.level_stats.total + level_stats.total;
        self.level_stats.by_level.add_all(&level_stats.by_level);

        merge_counts_into(&mut self.service_count, &service_count);

        self.latency.merge(&latency);

        let limit = (if top_n > 1 { top_n } else { 1 }) * 10;
        let mut slow: Vec<LogRecord> = Vec::new();
        std::mem::swap(&mut slow, &mut self.slow_records);
        let mut slow_other = slow_records;
        let ghost s1 = slow@;
        let ghost s2 = slow_other@;
        slow.append(&mut slow_other);
        assert(rec_views(slow@) =~= rec_views(s1) + rec_views(s2));
        self.slow_records = sorted_sample(slow, limit);

        let mut errs: Vec<LogRecord> = Vec::new();
        std::mem::swap(&mut errs, &mut self.error_records);
        let mut errs_other_recs = error_records;
        let ghost e1 = errs@;
        let ghost e2 = errs_other_recs@;
        errs.append(&mut errs_other_recs);
        assert(rec_views(errs@) =~= rec_views(e1) + rec_views(e2));
        self.error_records = sorted_sample(errs, limit);

        self.top_services = top_items(&self.service_count, top_n);
    }
}

/// The count of `k` in the first `i` entries of `t` is its count in `t` when
/// `k` is among them, else zero.
proof fn lemma_count_prefix(t: Seq<(Seq<char>, usize)>, i: int, k: Seq<char>)
    requires
        keys_sorted(t),
        0 <= i <= t.len(),
    ensures
        count_of(t.take(i), k) <= count_of(t, k),
        i < t.len() && t[i].0 == k ==> count_of(t.take(i), k) == 0,
        i < t.len() && t[i].0 == k ==> count_of(t.take(i + 1), k) == count_of(t, k),
{
    let u = t.take(i);
    crate::strmap::lemma_lookup_index(t, k);
    crate::strmap::lemma_lookup_index(u, k);
    assert(keys_sorted(u));
    if lookup(u, k) is Some {
        let j = choose|j: int| 0 <= j < u.len() && #[trigger] u[j].0 == k;
        assert(t[j].0 == k);
        if i < t.len() && t[i].0 == k {
            assert(seq_lt(t[j].0, t[i].0));
            crate::strmap::lemma_seq_lt_irreflexive(k);
        }
    }
    if i < t.len() && t[i].0 == k {
        let w = t.take(i + 1);
        assert(keys_sorted(w));
        crate::strmap::lemma_lookup_index(w, k);
        assert(w[i].0 == k);
    }
}


/// The outcome after one more record: a record the filter rejects changes
/// nothing; an accepted one is counted by level and service, its latency is a
/// sample (a slow one also kept as a slow record), and an error-like one is
/// kept as an error record.
pub open spec fn collect_spec(a: AnalysisView, r: RecordView, f: FilterView, slow_threshold_ms: u64) -> AnalysisView {
    if !accepts(f, r) {
        a
    } else {
        let a1 = AnalysisView {
            parsed_records: (a.parsed_records + 1) as usize,
            level_total: (a.level_total + 1) as usize,
            levels: a.levels.added(r.level, 1),
            services: count_added(a.services, r.service, 1),
            ..a
        };
        let a2 = match r.latency_ms {
            Some(v) => AnalysisView {
                latency: latency_added(a1.latency, v, slow_threshold_ms),
                slow_records: if v >= slow_threshold_ms { a1.slow_records.push(r) } else { a1.slow_records },
                ..a1
            },
            None => a1,
        };
        if is_error_level(r.level) {
            AnalysisView { error_records: a2.error_records.push(r), ..a2 }
        } else {
            a2
        }
    }
}

/// No count that collecting `r` increases is at the top of its integer type.
pub open spec fn collect_fits(a: AnalysisView, r: RecordView, f: FilterView) -> bool {
    accepts(f, r) ==> {
        &&& a.parsed_records < usize::MAX
        &&& a.level_total < usize::MAX
        &&& a.levels.count(r.level) < usize::MAX
        &&& count_of(a.services, r.service) < usize::MAX
        &&& (r.latency_ms matches Some(v) ==> {
            &&& a.latency.count < usize::MAX
            &&& a.latency.sum + v <= u64::MAX
            &&& a.latency.slow_count < usize::MAX
        })
    }
}

/// The outcome with its top services ranked.
pub open spec fn finish_spec(a: AnalysisView, top_n: usize) -> AnalysisView {
    AnalysisView { top_services: top_spec(a.services, top_n), ..a }
}

/// The text recorded for an error on line `line_number`.
pub open spec fn error_line(line_number: usize, e: ErrorView) -> Seq<char> {
    "line "@ + dec(line_number as nat) + ": "@ + error_text(e)
}

/// Gathers statistics over records.
pub trait Collector {
    /// `record` can be collected without a count overflowing.
    spec fn can_collect(&self, record: RecordView) -> bool;

    fn collect(&mut self, record: &LogRecord)
        requires
            old(self).can_collect(record@),
    ;

    fn finish(self) -> AnalysisResult;
}

pub struct StatsCollector {
    options: AnalyzeOptions,
    result: AnalysisResult,
}

impl StatsCollector {
    /// What has been gathered so far.
    pub closed spec fn state(&self) -> AnalysisView {
        self.result@
    }

    /// The filter that records pass.
    pub closed spec fn filter(&self) -> FilterView {
        self.options.filter@
    }

    /// The latency from which a record is slow.
    pub closed spec fn threshold(&self) -> u64 {
        self.options.slow_threshold_ms
    }

    /// How many top services are ranked.
    pub closed spec fn top_n(&self) -> usize {
        self.options.top_n
    }

    /// The service counts gathered are in ascending key order.
    pub fn services_sorted(&self)
        ensures
            keys_sorted(self.state().services),
    {
        let _ = self.result.service_count.len();
    }

    pub fn new(options: AnalyzeOptions) -> (r: Self)
        ensures
            r.state() == empty_view(),
            keys_sorted(r.state().services),
            r.filter() == options.filter@,
            r.threshold() == options.slow_threshold_ms,
            r.top_n() == options.top_n,
    {
        StatsCollector { options, result: AnalysisResult::new() }
    }

    pub fn skip_line(&mut self)
        requires
            old(self).state().skipped_lines < usize::MAX,
        ensures
            final(self).state() == (AnalysisView { skipped_lines: (old(self).state().skipped_lines + 1) as usize, ..old(self).state() }),
            keys_sorted(final(self).state().services),
            final(self).filter() == old(self).filter(),
            final(self).threshold() == old(self).threshold(),
            final(self).top_n() == old(self).top_n(),
    {
        self.result.skipped_lines = self.result.skipped_lines + 1;
        self.services_sorted();
    }

    /// Records the error met on line `line_number`.
    pub fn add_parse_error(&mut self, line_number: usize, error: AppError)
        ensures
            final(self).state() == (AnalysisView {
                parse_errors: old(self).state().parse_errors.push(final(self).state().parse_errors.last()),
                ..old(self).state()
            }),
            !(error@ is Io) ==> final(self).state().parse_errors.last() == error_line(line_number, error@),
            error@ is Io ==> final(self).state().parse_errors.last().len() >= error_line(line_number, error@).len()
                && final(self).state().parse_errors.last().take(error_line(line_number, error@).len() as int)
                == error_line(line_number, error@),
            final(self).filter() == old(self).filter(),
            final(self).threshold() == old(self).threshold(),
            keys_sorted(final(self).state().services),
            final(self).top_n() == old(self).top_n(),
    {
        let mut msg = copy_str("line ");
        push_decimal(&mut msg, line_number as u64);
        msg.append(": ");
        let ghost head = msg@;
        let text = error.message();
        msg.append(text.as_str());
        proof {
            if error@ is Io {
                assert(msg@.take(error_line(line_number, error@).len() as int) =~= head + text@.take(11));
            }
        }
        let ghost before = self.result.parse_errors@;
        let ghost m = msg@;
        self.result.parse_errors.push(msg);
        assert(str_views(self.result.parse_errors@) =~= str_views(before).push(m));
        self.services_sorted();
    }
}

impl Collector for StatsCollector {
    open spec fn can_collect(&self, record: RecordView) -> bool {
        collect_fits(self.state(), record, self.filter())
    }

    fn collect(&mut self, record: &LogRecord)
        ensures
            final(self).state() == collect_spec(old(self).state(), record@, old(self).filter(), old(self).threshold()),
            keys_sorted(final(self).state().services),
            final(self).filter() == old(self).filter(),
            final(self).threshold() == old(self).threshold(),
            final(self).top_n() == old(self).top_n(),
    {
        if !self.options.filter.accept(record) {
            self.services_sorted();
            return;
        }
        let ghost a = self.result@;
        self.result.parsed_records = self.result.parsed_records + 1;
        self.result.level_stats.total = self.result.level_stats.total + 1;
        self.result.level_stats.by_level.add(record.level, 1);
        add_count(&mut self.result.service_count, record.service.clone(), 1);
        if let Some(latency) = record.latency_ms {
            self.result.latency.add(latency, self.options.slow_threshold_ms);
            if latency >= self.options.slow_threshold_ms {
                let ghost before = self.result.slow_records@;
                self.result.slow_records.push(record.duplicate());
                assert(rec_views(self.result.slow_records@) =~= rec_views(before).push(record@));
            }
        }
        if record.is_error_like() {
            let ghost before = self.result.error_records@;
            self.result.error_records.push(record.duplicate());
            assert(rec_views(self.result.error_records@) =~= rec_views(before).push(record@));
        }
        self.services_sorted();
    }

    fn finish(self) -> (r: AnalysisResult)
        ensures
            r@ == finish_spec(self.state(), self.top_n()),
    {
        let StatsCollector { options, mut result } = self;
        result.top_services = top_items(&result.service_count, options.top_n);
        result
    }
}


/// The outcome after line `line_number`, whose text is `line`: the line is
/// counted; a record is collected, a blank or comment line skipped, and an
/// error recorded with its line number.
pub open spec fn line_step(a: AnalysisView, line_number: usize, line: Seq<char>, f: FilterView, slow_threshold_ms: u64) -> AnalysisView {
    let a1 = AnalysisView { total_lines: (a.total_lines + 1) as usize, ..a };
    match parse_line_spec(line_number, line) {
        Ok(Some(r)) => collect_spec(a1, r, f, slow_threshold_ms),
        Ok(None) => AnalysisView { skipped_lines: (a1.skipped_lines + 1) as usize, ..a1 },
        Err(e) => AnalysisView { parse_errors: a1.parse_errors.push(error_line(line_number, e)), ..a1 },
    }
}

/// The outcome after the first `n` of `lines`, the one at position `k`
/// (counting from 1) being line `base + k`.
pub open spec fn fold_from(lines: Seq<Seq<char>>, base: nat, n: nat, f: FilterView, slow_threshold_ms: u64) -> AnalysisView
    decreases n,
{
    if n == 0 || n > lines.len() {
        empty_view()
    } else {
        line_step(
            fold_from(lines, base, (n - 1) as nat, f, slow_threshold_ms),
            (base + n) as usize,
            lines[n - 1],
            f,
            slow_threshold_ms,
        )
    }
}

/// The outcome after the first `n` lines, numbered from 1.
pub open spec fn fold_lines(lines: Seq<Seq<char>>, n: nat, f: FilterView, slow_threshold_ms: u64) -> AnalysisView {
    fold_from(lines, 0, n, f, slow_threshold_ms)
}

/// The latency that the line at position `n` contributes, numbered
/// `base + n`: that of its record, where it reads as a record the filter
/// accepts.
pub open spec fn line_latency_from(lines: Seq<Seq<char>>, base: nat, n: nat, f: FilterView) -> nat {
    match parse_line_spec((base + n) as usize, lines[n - 1]) {
        Ok(Some(r)) => if accepts(f, r) {
            match r.latency_ms {
                Some(v) => v as nat,
                None => 0,
            }
        } else {
            0
        },
        _ => 0,
    }
}

/// The total latency of the records of the first `n` lines, numbered from
/// `base + 1`.
pub open spec fn latency_total_from(lines: Seq<Seq<char>>, base: nat, n: nat, f: FilterView) -> nat
    decreases n,
{
    if n == 0 || n > lines.len() {
        0
    } else {
        latency_total_from(lines, base, (n - 1) as nat, f) + line_latency_from(lines, base, n, f)
    }
}

/// The total latency of the records of the first `n` lines, numbered from 1.
pub open spec fn latency_total(lines: Seq<Seq<char>>, n: nat, f: FilterView) -> nat {
    latency_total_from(lines, 0, n, f)
}

/// The analysis of `lines`: the lines are read in order and the outcome is
/// merged into an empty one, as a single worker's result is.
pub open spec fn analyze_spec(lines: Seq<Seq<char>>, f: FilterView, slow_threshold_ms: u64, top_n: usize) -> AnalysisView {
    merge_spec(empty_view(), finish_spec(fold_lines(lines, lines.len(), f, slow_threshold_ms), top_n), top_n)
}

/// Every figure of the outcome after `n` lines is bounded by `n`.
pub open spec fn bounded_by(a: AnalysisView, n: nat) -> bool {
    &&& a.total_lines == n
    &&& a.parsed_records <= n
    &&& a.skipped_lines <= n
    &&& a.level_total <= n
    &&& forall|l: LogLevel| #[trigger] a.levels.count(l) <= n
    &&& forall|k: Seq<char>| #[trigger] count_of(a.services, k) <= n
    &&& keys_sorted(a.services)
    &&& a.latency.count <= n
    &&& a.latency.slow_count <= n
}

pub proof fn lemma_latency_total_from_monotone(lines: Seq<Seq<char>>, base: nat, n: nat, m: nat, f: FilterView)
    requires
        n <= m <= lines.len(),
    ensures
        latency_total_from(lines, base, n, f) <= latency_total_from(lines, base, m, f),
    decreases m,
{
    if n < m {
        lemma_latency_total_from_monotone(lines, base, n, (m - 1) as nat, f);
    }
}

pub proof fn lemma_latency_total_monotone(lines: Seq<Seq<char>>, n: nat, m: nat, f: FilterView)
    requires
        n <= m <= lines.len(),
    ensures
        latency_total(lines, n, f) <= latency_total(lines, m, f),
{
    lemma_latency_total_from_monotone(lines, 0, n, m, f);
}

pub proof fn lemma_fold_from_bounds(lines: Seq<Seq<char>>, base: nat, n: nat, f: FilterView, thr: u64)
    requires
        n <= lines.len(),
        lines.len() <= usize::MAX,
        latency_total_from(lines, base, n, f) <= u64::MAX,
    ensures
        bounded_by(fold_from(lines, base, n, f, thr), n),
        fold_from(lines, base, n, f, thr).latency.sum == latency_total_from(lines, base, n, f),
    decreases n,
{
    if n > 0 {
        let m = (n - 1) as nat;
        lemma_latency_total_from_monotone(lines, base, m, n, f);
        lemma_fold_from_bounds(lines, base, m, f, thr);
        let a = fold_from(lines, base, m, f, thr);
        match parse_line_spec((base + n) as usize, lines[n - 1]) {
            Ok(Some(r)) => {
                if accepts(f, r) {
                    a.levels.lemma_added(r.level, 1);
                    lemma_count_added(a.services, r.service, 1);
                    let b = fold_from(lines, base, n, f, thr);
                    assert forall|k: Seq<char>| #[trigger] count_of(b.services, k) <= n by {
                        if k != r.service {
                            assert(count_of(b.services, k) == count_of(a.services, k));
                        }
                    }
                    assert forall|l: LogLevel| #[trigger] b.levels.count(l) <= n by {
                        if l != r.level {
                            assert(b.levels.count(l) == a.levels.count(l));
                        }
                    }
                }
            },
            _ => {},
        }
    }
}

pub proof fn lemma_fold_bounds(lines: Seq<Seq<char>>, n: nat, f: FilterView, thr: u64)
    requires
        n <= lines.len(),
        lines.len() <= usize::MAX,
        latency_total(lines, n, f) <= u64::MAX,
    ensures
        bounded_by(fold_lines(lines, n, f, thr), n),
        fold_lines(lines, n, f, thr).latency.sum == latency_total(lines, n, f),
{
    lemma_fold_from_bounds(lines, 0, n, f, thr);
}

pub proof fn lemma_step_fits(lines: Seq<Seq<char>>, base: nat, i: nat, f: FilterView, thr: u64)
    requires
        i < lines.len(),
        lines.len() <= usize::MAX,
        latency_total_from(lines, base, lines.len(), f) <= u64::MAX,
    ensures
        ({
            let a = fold_from(lines, base, i, f, thr);
            let a1 = AnalysisView { total_lines: (a.total_lines + 1) as usize, ..a };
            &&& a.total_lines + 1 <= usize::MAX
            &&& bounded_by(a, i)
            &&& parse_line_spec((base + i + 1) as usize, lines[i as int]) matches Ok(Some(r)) ==> collect_fits(a1, r, f)
        }),
{
    lemma_latency_total_from_monotone(lines, base, i, i + 1, f);
    lemma_latency_total_from_monotone(lines, base, i + 1, lines.len(), f);
    lemma_fold_from_bounds(lines, base, i, f, thr);
    let a = fold_from(lines, base, i, f, thr);
    match parse_line_spec((base + i + 1) as usize, lines[i as int]) {
        Ok(Some(r)) => {
            assert(latency_total_from(lines, base, i + 1, f) == latency_total_from(lines, base, i, f)
                + line_latency_from(lines, base, i + 1, f));
            assert(a.levels.count(r.level) <= i);
            assert(count_of(a.services, r.service) <= i);
        },
        _ => {},
    }
}

/// The analysis of `lines` fits the integer types of its figures.
pub open spec fn analysis_fits(lines: Seq<Seq<char>>, f: FilterView, top_n: usize) -> bool {
    &&& latency_total(lines, lines.len(), f) <= u64::MAX
    &&& sample_limit(top_n) <= usize::MAX
}

/// The count stored under `k` is a `usize`.
proof fn lemma_count_of_bound(es: Seq<(Seq<char>, usize)>, k: Seq<char>)
    ensures
        count_of(es, k) <= usize::MAX,
{
}

/// Whether the counts of `a` and `b` add up within `usize` at every level.
fn levels_fit(a: &LevelCounts, b: &LevelCounts) -> (r: bool)
    ensures
        r == (forall|l: LogLevel| #[trigger] a.count(l) + b.count(l) <= usize::MAX),
{
    if (a.trace as u128) + (b.trace as u128) > usize::MAX as u128 {
        assert(!(a.count(LogLevel::Trace) + b.count(LogLevel::Trace) <= usize::MAX));
        return false;
    }
    if (a.debug as u128) + (b.debug as u128) > usize::MAX as u128 {
        assert(!(a.count(LogLevel::Debug) + b.count(LogLevel::Debug) <= usize::MAX));
        return false;
    }
    if (a.info as u128) + (b.info as u128) > usize::MAX as u128 {
        assert(!(a.count(LogLevel::Info) + b.count(LogLevel::Info) <= usize::MAX));
        return false;
    }
    if (a.warn as u128) + (b.warn as u128) > usize::MAX as u128 {
        assert(!(a.count(LogLevel::Warn) + b.count(LogLevel::Warn) <= usize::MAX));
        return false;
    }
    if (a.error as u128) + (b.error as u128) > usize::MAX as u128 {
        assert(!(a.count(LogLevel::Error) + b.count(LogLevel::Error) <= usize::MAX));
        return false;
    }
    if (a.fatal as u128) + (b.fatal as u128) > usize::MAX as u128 {
        assert(!(a.count(LogLevel::Fatal) + b.count(LogLevel::Fatal) <= usize::MAX));
        return false;
    }
    if (a.unknown as u128) + (b.unknown as u128) > usize::MAX as u128 {
        assert(!(a.count(LogLevel::Unknown) + b.count(LogLevel::Unknown) <= usize::MAX));
        return false;
    }
    assert forall|l: LogLevel| #[trigger] a.count(l) + b.count(l) <= usize::MAX by {
        match l {
            LogLevel::Trace => {},
            LogLevel::Debug => {},
            LogLevel::Info => {},
            LogLevel::Warn => {},
            LogLevel::Error => {},
            LogLevel::Fatal => {},
            LogLevel::Unknown => {},
        }
    }
    true
}

impl AnalysisResult {
    /// Whether `other` can be merged into this outcome, keeping `top_n` top
    /// services, with no count leaving its integer type.
    pub fn can_merge(&self, other: &AnalysisResult, top_n: usize) -> (r: bool)
        ensures
            r == merge_fits(self@, other@, top_n),
    {
        let levels_fit = levels_fit(&self.level_stats.by_level, &other.level_stats.by_level);
        let services_fit = self.services_fit(other);
        let least = if top_n > 1 { top_n } else { 1 };
        let limit_fits = (least as u128) * 10 <= usize::MAX as u128;
        let totals_fit = (self.total_lines as u128) + (other.total_lines as u128) <= usize::MAX as u128
            && (self.parsed_records as u128) + (other.parsed_records as u128) <= usize::MAX as u128
            && (self.skipped_lines as u128) + (other.skipped_lines as u128) <= usize::MAX as u128
            && (self.level_stats.total as u128) + (other.level_stats.total as u128) <= usize::MAX as u128;
        let latency_fits = (self.latency.count as u128) + (other.latency.count as u128) <= usize::MAX as u128
            && (self.latency.sum as u128) + (other.latency.sum as u128) <= u64::MAX as u128
            && (self.latency.slow_count as u128) + (other.latency.slow_count as u128) <= usize::MAX as u128;
        let r = totals_fit && levels_fit && services_fit && latency_fits && limit_fits;
        proof {
            let x = self@;
            let y = other@;
            assert(limit_fits == (sample_limit(top_n) <= usize::MAX));
            assert(x.levels == self.level_stats.by_level && y.levels == other.level_stats.by_level);
            assert(services_fit == (forall|k: Seq<char>| #[trigger] count_of(x.services, k) + count_of(y.services, k) <= usize::MAX));
        }
        r
    }

    /// Whether every service count of `other` added to this one's fits `usize`.
    fn services_fit(&self, other: &AnalysisResult) -> (r: bool)
        ensures
            r == (forall|k: Seq<char>| #[trigger] count_of(self@.services, k) + count_of(other@.services, k) <= usize::MAX),
    {
        let ghost a = self@.services;
        let ghost t = other@.services;
        let n = other.service_count.len();
        let mut i: usize = 0;
        while i < n
            invariant
                n == t.len(),
                t == other.service_count.entries(),
                a == self.service_count.entries(),
                keys_sorted(t),
                0 <= i <= n,
                forall|j: int| 0 <= j < i ==> count_of(a, #[trigger] t[j].0) + t[j].1 <= usize::MAX,
            decreases n - i,
        {
            let key = other.service_count.key_at(i);
            let c = *other.service_count.value_at(i);
            let mine = match self.service_count.get(key.as_str()) {
                Some(x) => *x,
                None => 0,
            };
            proof {
                crate::strmap::lemma_lookup_index(t, t[i as int].0);
                assert(key@ == t[i as int].0);
                assert(c == t[i as int].1);
                assert(count_of(a, t[i as int].0) == mine);
                assert(count_of(t, t[i as int].0) == t[i as int].1);
            }
            if (mine as u128) + (c as u128) > usize::MAX as u128 {
                proof {
                    let k = t[i as int].0;
                    assert(!(count_of(self@.services, k) + count_of(other@.services, k) <= usize::MAX));
                }
                return false;
            }
            i += 1;
        }
        proof {
            assert forall|k: Seq<char>| #[trigger] count_of(a, k) + count_of(t, k) <= usize::MAX by {
                crate::strmap::lemma_lookup_index(t, k);
                lemma_count_of_bound(a, k);
                if lookup(t, k) is Some {
                    let j = choose|j: int| 0 <= j < t.len() && #[trigger] t[j].0 == k;
                    assert(count_of(a, t[j].0) + t[j].1 <= usize::MAX);
                }
            }
        }
        true
    }
}

/// The outcome of merging the `parts` in turn into an empty outcome, where
/// every step fits.
pub open spec fn merge_all_spec(parts: Seq<AnalysisView>, top_n: usize) -> Option<AnalysisView>
    decreases parts.len(),
{
    if parts.len() == 0 {
        Some(empty_view())
    } else {
        match merge_all_spec(parts.drop_last(), top_n) {
            Some(a) => if merge_fits(a, parts.last(), top_n) {
                Some(merge_spec(a, parts.last(), top_n))
            } else {
                None
            },
            None => None,
        }
    }
}

pub open spec fn result_views(s: Seq<AnalysisResult>) -> Seq<AnalysisView> {
    s.map_values(|r: AnalysisResult| r@)
}

/// Merges the partial outcomes `parts`, in order, into one; `None` where a
/// count of the merged outcome would leave its integer type.
pub fn merge_all(parts: Vec<AnalysisResult>, top_n: usize) -> (r: Option<AnalysisResult>)
    ensures
        match merge_all_spec(result_views(parts@), top_n) {
            Some(v) => r matches Some(x) && x@ == v,
            None => r is None,
        },
{
    let ghost views = result_views(parts@);
    let mut result = AnalysisResult::new();
    let n = parts.len();
    let mut rest = parts;
    let mut taken: Vec<AnalysisResult> = Vec::new();
    let mut i: usize = 0;
    while i < n
        invariant
            views == result_views(parts@),
            n == views.len(),
            0 <= i <= n,
            rest@.len() == n - i,
            result_views(rest@) == views.subrange(i as int, n as int),
            merge_all_spec(views.take(i as int), top_n) == Some(result@),
        decreases n - i,
    {
        let ghost before = rest@;
        let part = rest.remove(0);
        proof {
            assert(result_views(before)[0] == before[0]@);
            assert(views.subrange(i as int, n as int)[0] == views[i as int]);
            assert(part@ == views[i as int]);
            assert forall|j: int| 0 <= j < rest@.len() implies #[trigger] result_views(rest@)[j] == views.subrange(
                i + 1,
                n as int,
            )[j] by {
                assert(rest@[j] == before[j + 1]);
                assert(result_views(before)[j + 1] == views.subrange(i as int, n as int)[j + 1]);
            }
            assert(result_views(rest@) =~= views.subrange(i + 1, n as int));
            assert(views.take(i + 1).drop_last() =~= views.take(i as int));
            assert(views.take(i + 1).last() == views[i as int]);
        }
        if !result.can_merge(&part, top_n) {
            proof {
                assert(!merge_fits(result@, views[i as int], top_n));
                assert(merge_all_spec(views.take(i + 1), top_n) is None);
                lemma_merge_all_none(views, i as int + 1, top_n);
            }
            return None;
        }
        result.merge(part, top_n);
        i += 1;
    }
    assert(views.take(n as int) =~= views);
    Some(result)
}

proof fn lemma_merge_all_none(views: Seq<AnalysisView>, i: int, top_n: usize)
    requires
        0 < i <= views.len(),
        merge_all_spec(views.take(i), top_n) is None,
    ensures
        merge_all_spec(views, top_n) is None,
    decreases views.len() - i,
{
    if i < views.len() {
        assert(views.take(i + 1).drop_last() =~= views.take(i));
        lemma_merge_all_none(views, i + 1, top_n);
    } else {
        assert(views.take(i) =~= views);
    }
}

/// How the lines are split among workers: the number of workers, at least
/// one and at most one per line, and the number of lines each takes (the
/// last may take fewer).
pub open spec fn chunk_plan_spec(len: nat, threads: nat) -> (nat, nat) {
    let count: nat = if threads < 1 { 1 } else if threads > len { len } else { threads };
    (count, ((len + count - 1) as int / count as int) as nat)
}

/// Splits `len` lines among `threads` workers.
pub fn chunk_plan(len: usize, threads: usize) -> (r: (usize, usize))
    requires
        len > 0,
    ensures
        r.0 == chunk_plan_spec(len as nat, threads as nat).0,
        r.1 == chunk_plan_spec(len as nat, threads as nat).1,
        r.0 >= 1,
        r.1 >= 1,
        r.0 * r.1 >= len,
{
    let count = if threads < 1 { 1 } else if threads > len { len } else { threads };
    let q = len / count;
    proof {
        assert(len % count != 0 ==> q < len) by (nonlinear_arith)
            requires
                count >= 1,
                q == len / count,
        ;
    }
    let size = if len % count == 0 { q } else { q + 1 };
    proof {
        assert(size == (len as int + count as int - 1) / (count as int)) by (nonlinear_arith)
            requires
                count >= 1,
                size == (if len % count == 0 { q as int } else { q + 1 }),
                q == len / count,
        ;
        assert(count * size >= len) by (nonlinear_arith)
            requires
                count >= 1,
                size == (if len % count == 0 { q as int } else { q + 1 }),
                q == len / count,
        ;
        assert(size >= 1) by (nonlinear_arith)
            requires
                count >= 1,
                count <= len,
                size == (if len % count == 0 { q as int } else { q + 1 }),
                q == len / count,
        ;
    }
    (count, size)
}

/// Analyses a run of log lines whose first is line `first_line + 1`: each
/// line is parsed, filtered and counted, and the top services are ranked.
pub fn analyze_chunk(lines: &[String], first_line: usize, options: AnalyzeOptions) -> (r: AnalysisResult)
    requires
        first_line + lines@.len() <= usize::MAX,
        latency_total_from(str_views(lines@), first_line as nat, lines@.len(), options.filter@) <= u64::MAX,
    ensures
        r@ == finish_spec(
            fold_from(str_views(lines@), first_line as nat, lines@.len(), options.filter@, options.slow_threshold_ms),
            options.top_n,
        ),
{
    let ghost views = str_views(lines@);
    let ghost f = options.filter@;
    let ghost base = first_line as nat;
    let thr = options.slow_threshold_ms;
    let top_n = options.top_n;
    let parser = KeyValueParser::new();
    let mut collector = StatsCollector::new(options);
    let n = lines.len();
    let mut i: usize = 0;
    while i < n
        invariant
            n == lines@.len(),
            views == str_views(lines@),
            base == first_line,
            first_line + n <= usize::MAX,
            0 <= i <= n,
            latency_total_from(views, base, n as nat, f) <= u64::MAX,
            collector.filter() == f,
            collector.threshold() == thr,
            collector.top_n() == top_n,
            collector.state() == fold_from(views, base, i as nat, f, thr),
        decreases n - i,
    {
        proof {
            lemma_step_fits(views, base, i as nat, f, thr);
            assert(views[i as int] == lines@[i as int]@);
        }
        collector.result.total_lines = collector.result.total_lines + 1;
        let line_number = first_line + i + 1;
        match parser.parse_line(line_number, lines[i].as_str()) {
            Ok(Some(record)) => collector.collect(&record),
            Ok(None) => collector.skip_line(),
            Err(err) => collector.add_parse_error(line_number, err),
        }
        i += 1;
    }
    collector.finish()
}

/// Whether the latencies of the records among `lines`, numbered from
/// `first_line + 1`, that the filter keeps add up within `u64`.
pub fn latency_fits(lines: &[String], first_line: usize, options: &AnalyzeOptions) -> (r: bool)
    requires
        first_line + lines@.len() <= usize::MAX,
    ensures
        r == (latency_total_from(str_views(lines@), first_line as nat, lines@.len(), options.filter@) <= u64::MAX),
{
    let ghost views = str_views(lines@);
    let ghost f = options.filter@;
    let ghost base = first_line as nat;
    let parser = KeyValueParser::new();
    let n = lines.len();
    let mut total: u64 = 0;
    let mut i: usize = 0;
    while i < n
        invariant
            n == lines@.len(),
            views == str_views(lines@),
            base == first_line,
            f == options.filter@,
            first_line + n <= usize::MAX,
            0 <= i <= n,
            total == latency_total_from(views, base, i as nat, f),
        decreases n - i,
    {
        proof {
            assert(views[i as int] == lines@[i as int]@);
        }
        let line_number = first_line + i + 1;
        let mut add: u64 = 0;
        match parser.parse_line(line_number, lines[i].as_str()) {
            Ok(Some(record)) => {
                if options.filter.accept(&record) {
                    if let Some(v) = record.latency_ms {
                        add = v;
                    }
                }
            },
            _ => {},
        }
        assert(add == line_latency_from(views, base, (i + 1) as nat, f));
        match total.checked_add(add) {
            Some(t) => total = t,
            None => {
                proof {
                    lemma_latency_total_from_monotone(views, base, (i + 1) as nat, n as nat, f);
                }
                return false;
            },
        }
        i += 1;
    }
    true
}

/// Whether `lines` can be analysed with `options` without a figure leaving
/// its integer type: the kept latencies add up within `u64`, and the number
/// of samples kept fits `usize`.
pub fn analysis_fits_for(lines: &[String], options: &AnalyzeOptions) -> (r: bool)
    ensures
        r == analysis_fits(str_views(lines@), options.filter@, options.top_n),
{
    let per = if options.top_n > 1 { options.top_n } else { 1 };
    let limit_fits = per.checked_mul(10).is_some();
    let n = lines.len();
    assert(0 + n <= usize::MAX);
    let sum_fits = latency_fits(lines, 0, options);
    limit_fits && sum_fits
}

/// Analyses log lines: each line is parsed, filtered and counted.
pub fn analyze_lines(lines: &[String], options: AnalyzeOptions) -> (r: Result<AnalysisResult, AppError>)
    requires
        analysis_fits(str_views(lines@), options.filter@, options.top_n),
    ensures
        lines@.len() == 0 ==> (r matches Err(e) && e@ == ErrorView::EmptyInput),
        lines@.len() > 0 ==> (r matches Ok(res) && res@ == analyze_spec(
            str_views(lines@),
            options.filter@,
            options.slow_threshold_ms,
            options.top_n,
        )),
{
    if lines.len() == 0 {
        return Err(AppError::EmptyInput);
    }
    let ghost views = str_views(lines@);
    let ghost f = options.filter@;
    let ghost thr = options.slow_threshold_ms;
    let top_n = options.top_n;
    let partial = analyze_chunk(lines, 0, options);
    proof {
        lemma_fold_bounds(views, views.len(), f, thr);
    }
    let mut result = AnalysisResult::new();
    proof {
        empty_view().levels.lemma_sum(partial@.levels);
        assert forall|k: Seq<char>| #[trigger] count_of(empty_view().services, k) == 0 by {}
    }
    result.merge(partial, top_n);
    result.top_services = top_items(&result.service_count, top_n);
    Ok(result)
}

} // verus!
