//! Parser for `key=value` log lines.
use vstd::prelude::*;
use crate::error::{AppError, ErrorView};
use crate::model::{parse_level_spec, FieldMap, LogLevel, LogRecord, RecordView};
use crate::strmap::{insert_entry, lookup, StrMap};
use crate::text::{
    chars_of, copy_str, dec, int_error_message, int_error_text, is_whitespace, is_ws, lower_of,
    lower_seq, parse_unsigned, parse_unsigned_chars, push_decimal, string_of, trim, trim_bounds,
};

verus! {

/// First position at or after `pos` that is not whitespace.
pub open spec fn skip_ws(s: Seq<char>, pos: int) -> int
    decreases s.len() - pos,
{
    if 0 <= pos < s.len() && is_ws(s[pos]) {
        skip_ws(s, pos + 1)
    } else {
        pos
    }
}

/// First position at or after `pos` holding `=` or whitespace, or the end.
pub open spec fn key_end(s: Seq<char>, pos: int) -> int
    decreases s.len() - pos,
{
    if 0 <= pos < s.len() && s[pos] != '=' && !is_ws(s[pos]) {
        key_end(s, pos + 1)
    } else {
        pos
    }
}

/// First position at or after `pos` holding whitespace, or the end.
pub open spec fn word_end(s: Seq<char>, pos: int) -> int
    decreases s.len() - pos,
{
    if 0 <= pos < s.len() && !is_ws(s[pos]) {
        word_end(s, pos + 1)
    } else {
        pos
    }
}

/// Scans a quoted value from `pos` (after the opening quote), a backslash
/// taking the next character literally: the position of the closing quote (or
/// the end), and the characters read.
pub open spec fn quoted(s: Seq<char>, pos: int, escaped: bool) -> (int, Seq<char>)
    decreases s.len() - pos,
{
    if pos < 0 || pos >= s.len() {
        (pos, Seq::empty())
    } else if escaped {
        let (e, t) = quoted(s, pos + 1, false);
        (e, seq![s[pos]] + t)
    } else if s[pos] == '\\' {
        quoted(s, pos + 1, true)
    } else if s[pos] == '"' {
        (pos, Seq::empty())
    } else {
        let (e, t) = quoted(s, pos + 1, false);
        (e, seq![s[pos]] + t)
    }
}

pub proof fn lemma_quoted_bounds(s: Seq<char>, pos: int, escaped: bool)
    requires
        0 <= pos,
    ensures
        pos <= quoted(s, pos, escaped).0,
        quoted(s, pos, escaped).0 <= s.len() || pos > s.len(),
        quoted(s, pos, escaped).0 < s.len() ==> s[quoted(s, pos, escaped).0] == '"',
    decreases s.len() - pos,
{
    if pos < s.len() {
        if escaped || s[pos] != '"' {
            lemma_quoted_bounds(s, pos + 1, false);
            lemma_quoted_bounds(s, pos + 1, true);
        }
    }
}

pub proof fn lemma_scan_bounds(s: Seq<char>, pos: int)
    requires
        0 <= pos <= s.len(),
    ensures
        pos <= skip_ws(s, pos) <= s.len(),
        pos <= key_end(s, pos) <= s.len(),
        pos <= word_end(s, pos) <= s.len(),
    decreases s.len() - pos,
{
    if pos < s.len() {
        lemma_scan_bounds(s, pos + 1);
    }
}

/// The fields of `s` from `pos` on, added to `acc`, or the message of the
/// first error met.
pub open spec fn fields_from(s: Seq<char>, pos: int, acc: Seq<(Seq<char>, Seq<char>)>) -> Result<Seq<(Seq<char>, Seq<char>)>, Seq<char>>
    decreases s.len() - pos,
{
    if pos < 0 || pos > s.len() {
        Ok(acc)
    } else {
        let p = skip_ws(s, pos);
        if p >= s.len() {
            if acc.len() == 0 {
                Err("no key=value fields found"@)
            } else {
                Ok(acc)
            }
        } else {
            let ke = key_end(s, p);
            if ke >= s.len() || s[ke] != '=' {
                Err("line contains token without `=` near `"@ + s.subrange(p, s.len() as int) + "`"@)
            } else if ke == p {
                Err("empty key"@)
            } else {
                let key = lower_seq(s.subrange(p, ke));
                let vs = ke + 1;
                if vs < s.len() && s[vs] == '"' {
                    let (e, content) = quoted(s, vs + 1, false);
                    if e >= s.len() {
                        Err("unclosed quote starting at column "@ + dec((vs + 1) as nat))
                    } else {
                        proof {
                            lemma_scan_bounds(s, pos);
                            lemma_scan_bounds(s, p);
                            lemma_quoted_bounds(s, vs + 1, false);
                        }
                        fields_from(s, e + 1, insert_entry(acc, key, content))
                    }
                } else {
                    proof {
                        lemma_scan_bounds(s, pos);
                        lemma_scan_bounds(s, p);
                        lemma_scan_bounds(s, vs);
                    }
                    let we = word_end(s, vs);
                    fields_from(s, we, insert_entry(acc, key, s.subrange(vs, we)))
                }
            }
        }
    }
}

proof fn lemma_skip_ws_run(s: Seq<char>, pos: int, q: int)
    requires
        0 <= pos <= q < s.len(),
        forall|i: int| pos <= i < q ==> is_ws(#[trigger] s[i]),
        !is_ws(s[q]),
    ensures
        skip_ws(s, pos) == q,
    decreases q - pos,
{
    if pos < q {
        lemma_skip_ws_run(s, pos + 1, q);
    }
}

proof fn lemma_key_end_run(s: Seq<char>, pos: int, q: int)
    requires
        0 <= pos <= q < s.len(),
        forall|i: int| pos <= i < q ==> #[trigger] s[i] != '=' && !is_ws(s[i]),
        s[q] == '=',
    ensures
        key_end(s, pos) == q,
    decreases q - pos,
{
    if pos < q {
        lemma_key_end_run(s, pos + 1, q);
    }
}

proof fn lemma_word_end_run(s: Seq<char>, pos: int, q: int)
    requires
        0 <= pos <= q <= s.len(),
        forall|i: int| pos <= i < q ==> !is_ws(#[trigger] s[i]),
        q == s.len() || is_ws(s[q]),
    ensures
        word_end(s, pos) == q,
    decreases q - pos,
{
    if pos < q {
        lemma_word_end_run(s, pos + 1, q);
    }
}

/// A key that reads back as written, up to case: not empty, without `=` or
/// whitespace.
pub open spec fn plain_key(k: Seq<char>) -> bool {
    k.len() > 0 && forall|i: int| 0 <= i < k.len() ==> #[trigger] k[i] != '=' && !is_ws(k[i])
}

/// A value that reads back as written without quotes: no whitespace, and no
/// quote at its start.
pub open spec fn plain_value(v: Seq<char>) -> bool {
    &&& forall|i: int| 0 <= i < v.len() ==> !is_ws(#[trigger] v[i])
    &&& (v.len() == 0 || v[0] != '"')
}

/// Reading a field `k=v` that starts at `start`, after whitespace from `pos`,
/// and ends at whitespace or at the end of the line.
pub proof fn lemma_field_step(
    s: Seq<char>,
    pos: int,
    start: int,
    k: Seq<char>,
    v: Seq<char>,
    acc: Seq<(Seq<char>, Seq<char>)>,
)
    requires
        0 <= pos <= start,
        forall|i: int| pos <= i < start ==> is_ws(#[trigger] s[i]),
        start + k.len() + 1 + v.len() <= s.len(),
        s.subrange(start, start + k.len() + 1 + v.len()) == k + seq!['='] + v,
        plain_key(k),
        plain_value(v),
        start + k.len() + 1 + v.len() == s.len() || is_ws(s[start + k.len() + 1 + v.len()]),
    ensures
        fields_from(s, pos, acc) == fields_from(s, start + k.len() + 1 + v.len(), insert_entry(acc, lower_seq(k), v)),
{
    let t = k + seq!['='] + v;
    let ke = start + k.len();
    let vs = ke + 1;
    let end = vs + v.len();
    assert forall|i: int| start <= i < ke implies #[trigger] s[i] != '=' && !is_ws(s[i]) by {
        assert(s[i] == t[i - start]);
        assert(t[i - start] == k[i - start]);
    }
    assert(s[start] == t[0]);
    assert(s[ke] == t[k.len() as int]);
    assert forall|i: int| vs <= i < end implies !is_ws(#[trigger] s[i]) by {
        assert(s[i] == t[i - start]);
        assert(t[i - start] == v[i - vs]);
    }
    lemma_skip_ws_run(s, pos, start);
    lemma_key_end_run(s, start, ke);
    lemma_word_end_run(s, vs, end);
    assert(s.subrange(start, ke) =~= k) by {
        assert forall|i: int| 0 <= i < k.len() implies s.subrange(start, ke)[i] == k[i] by {
            assert(s[start + i] == t[i]);
        }
    }
    assert(s.subrange(vs, end) =~= v) by {
        assert forall|i: int| 0 <= i < v.len() implies s.subrange(vs, end)[i] == v[i] by {
            assert(s[vs + i] == t[k.len() as int + 1 + i]);
        }
    }
    if v.len() > 0 {
        assert(s[vs] == t[k.len() as int + 1]);
        assert(s[vs] == v[0]);
    }
    lemma_scan_bounds(s, pos);
    lemma_scan_bounds(s, start);
    lemma_scan_bounds(s, vs);
}

/// A value written inside quotes: a backslash before each quote and each
/// backslash.
pub open spec fn escaped_value(v: Seq<char>) -> Seq<char>
    decreases v.len(),
{
    if v.len() == 0 {
        Seq::empty()
    } else if v[0] == '"' || v[0] == '\\' {
        seq!['\\', v[0]] + escaped_value(v.drop_first())
    } else {
        seq![v[0]] + escaped_value(v.drop_first())
    }
}

/// Scanning an escaped value followed by a quote gives the value back, and
/// stops at that quote.
pub proof fn lemma_quoted_escaped(s: Seq<char>, pos: int, v: Seq<char>)
    requires
        0 <= pos,
        pos + escaped_value(v).len() < s.len(),
        s.subrange(pos, pos + escaped_value(v).len()) == escaped_value(v),
        s[pos + escaped_value(v).len()] == '"',
    ensures
        quoted(s, pos, false) == (pos + escaped_value(v).len(), v),
    decreases v.len(),
{
    let e = escaped_value(v);
    if v.len() == 0 {
        assert(v =~= Seq::<char>::empty());
    } else {
        let rest = escaped_value(v.drop_first());
        let w = if v[0] == '"' || v[0] == '\\' { 2int } else { 1int };
        assert(e == (if w == 2 { seq!['\\', v[0]] } else { seq![v[0]] }) + rest);
        assert(s[pos] == e[0]);
        if w == 2 {
            assert(s[pos + 1] == e[1]);
        }
        assert(s.subrange(pos + w, pos + w + rest.len()) =~= rest) by {
            assert forall|i: int| 0 <= i < rest.len() implies s.subrange(pos + w, pos + w + rest.len())[i] == rest[i] by {
                assert(s[pos + w + i] == s.subrange(pos, pos + e.len())[w + i]);
                assert(e[w + i] == rest[i]);
            }
        }
        lemma_quoted_escaped(s, pos + w, v.drop_first());
        assert(seq![v[0]] + v.drop_first() =~= v);
        let inner = quoted(s, pos + w, false);
        assert(inner == (pos + w + rest.len(), v.drop_first()));
        if w == 2 {
            assert(s[pos] == '\\');
            assert(s[pos + 1] == v[0]);
            assert(quoted(s, pos + 1, true) == (inner.0, seq![s[pos + 1]] + inner.1));
            assert(quoted(s, pos, false) == quoted(s, pos + 1, true));
        } else {
            assert(s[pos] == v[0]);
            assert(s[pos] != '\\' && s[pos] != '"');
            assert(quoted(s, pos, false) == (inner.0, seq![s[pos]] + inner.1));
        }
    }
}

/// Reading a field `k="…"`, its value escaped, that starts at `start`, after
/// whitespace from `pos`, and ends at whitespace or at the end of the line.
pub proof fn lemma_quoted_field_step(
    s: Seq<char>,
    pos: int,
    start: int,
    k: Seq<char>,
    v: Seq<char>,
    acc: Seq<(Seq<char>, Seq<char>)>,
)
    requires
        0 <= pos <= start,
        forall|i: int| pos <= i < start ==> is_ws(#[trigger] s[i]),
        start + k.len() + 3 + escaped_value(v).len() <= s.len(),
        s.subrange(start, start + k.len() + 3 + escaped_value(v).len()) == k + seq!['=', '"'] + escaped_value(v)
            + seq!['"'],
        plain_key(k),
        start + k.len() + 3 + escaped_value(v).len() == s.len() || is_ws(
            s[start + k.len() + 3 + escaped_value(v).len()],
        ),
    ensures
        fields_from(s, pos, acc) == fields_from(
            s,
            start + k.len() + 3 + escaped_value(v).len(),
            insert_entry(acc, lower_seq(k), v),
        ),
{
    let ev = escaped_value(v);
    let t = k + seq!['=', '"'] + ev + seq!['"'];
    let ke = start + k.len();
    let vs = ke + 1;
    let close = vs + 1 + ev.len();
    assert forall|i: int| start <= i < ke implies #[trigger] s[i] != '=' && !is_ws(s[i]) by {
        assert(s[i] == t[i - start]);
        assert(t[i - start] == k[i - start]);
    }
    assert(s[start] == t[0]);
    assert(s[ke] == t[k.len() as int]);
    assert(s[vs] == t[k.len() as int + 1]);
    assert(s[close] == t[t.len() - 1]);
    lemma_skip_ws_run(s, pos, start);
    lemma_key_end_run(s, start, ke);
    assert(s.subrange(start, ke) =~= k) by {
        assert forall|i: int| 0 <= i < k.len() implies s.subrange(start, ke)[i] == k[i] by {
            assert(s[start + i] == t[i]);
        }
    }
    assert(s.subrange(vs + 1, close) =~= ev) by {
        assert forall|i: int| 0 <= i < ev.len() implies s.subrange(vs + 1, close)[i] == ev[i] by {
            assert(s[vs + 1 + i] == t[k.len() as int + 2 + i]);
        }
    }
    lemma_quoted_escaped(s, vs + 1, v);
    lemma_scan_bounds(s, pos);
    lemma_scan_bounds(s, start);
    lemma_quoted_bounds(s, vs + 1, false);
}

/// The fields of a line: `key=value` pairs separated by whitespace; a value is
/// a run of non-whitespace, or double-quoted with backslash escapes. Keys are
/// lower-cased; a later key replaces an earlier one.
pub open spec fn fields_spec(s: Seq<char>) -> Result<Seq<(Seq<char>, Seq<char>)>, Seq<char>> {
    fields_from(s, 0, Seq::empty())
}


fn skip_ws_at(v: &[char], pos: usize) -> (r: usize)
    requires
        pos <= v@.len(),
    ensures
        r == skip_ws(v@, pos as int),
        pos <= r <= v@.len(),
{
    let mut i = pos;
    while i < v.len() && is_whitespace(v[i])
        invariant
            pos <= i <= v@.len(),
            skip_ws(v@, pos as int) == skip_ws(v@, i as int),
        decreases v@.len() - i,
    {
        i += 1;
    }
    i
}

fn key_end_at(v: &[char], pos: usize) -> (r: usize)
    requires
        pos <= v@.len(),
    ensures
        r == key_end(v@, pos as int),
        pos <= r <= v@.len(),
{
    let mut i = pos;
    while i < v.len() && v[i] != '=' && !is_whitespace(v[i])
        invariant
            pos <= i <= v@.len(),
            key_end(v@, pos as int) == key_end(v@, i as int),
        decreases v@.len() - i,
    {
        i += 1;
    }
    i
}

fn word_end_at(v: &[char], pos: usize) -> (r: usize)
    requires
        pos <= v@.len(),
    ensures
        r == word_end(v@, pos as int),
        pos <= r <= v@.len(),
{
    let mut i = pos;
    while i < v.len() && !is_whitespace(v[i])
        invariant
            pos <= i <= v@.len(),
            word_end(v@, pos as int) == word_end(v@, i as int),
        decreases v@.len() - i,
    {
        i += 1;
    }
    i
}

fn quoted_at(v: &[char], pos: usize) -> (r: (usize, String))
    requires
        pos <= v@.len(),
    ensures
        r.0 == quoted(v@, pos as int, false).0,
        r.1@ == quoted(v@, pos as int, false).1,
        pos <= r.0 <= v@.len(),
{
    proof { lemma_quoted_bounds(v@, pos as int, false); }
    let mut out = String::new();
    let mut i = pos;
    let mut escaped = false;
    while i < v.len()
        invariant
            pos <= i <= v@.len(),
            quoted(v@, pos as int, false).0 == quoted(v@, i as int, escaped).0,
            quoted(v@, pos as int, false).1 == out@ + quoted(v@, i as int, escaped).1,
        decreases v@.len() - i,
    {
        let ch = v[i];
        if escaped {
            out.push(ch);
            escaped = false;
        } else if ch == '\\' {
            escaped = true;
        } else if ch == '"' {
            assert(quoted(v@, i as int, false).1 =~= Seq::<char>::empty());
            assert(out@ + Seq::<char>::empty() =~= out@);
            return (i, out);
        } else {
            out.push(ch);
        }
        i += 1;
    }
    assert(out@ + Seq::<char>::empty() =~= out@);
    (i, out)
}


/// Parses the `key=value` fields of a line.
///
/// Supported examples:
/// - service=auth level=ERROR msg="login failed"
/// - latency=30ms service=order msg=create_order
/// - values can be wrapped in double quotes and may contain spaces
pub fn parse_key_value_fields(line: &str) -> (r: Result<FieldMap, AppError>)
    ensures
        match fields_spec(line@) {
            Ok(es) => r matches Ok(m) && m.entries() == es,
            Err(msg) => r matches Err(e) && e@ == ErrorView::Parse(msg),
        },
{
    let v = chars_of(line);
    let n = v.len();
    let mut pos: usize = 0;
    let mut map: FieldMap = StrMap::new();
    loop
        invariant
            v@ == line@,
            n == v@.len(),
            pos <= n,
            fields_spec(line@) == fields_from(v@, pos as int, map.entries()),
        decreases n - pos,
    {
        let p = skip_ws_at(v.as_slice(), pos);
        if p >= n {
            if map.len() == 0 {
                return Err(AppError::Parse(copy_str("no key=value fields found")));
            }
            return Ok(map);
        }
        let ke = key_end_at(v.as_slice(), p);
        if ke >= n || v[ke] != '=' {
            let mut msg = copy_str("line contains token without `=` near `");
            crate::text::push_chars(&mut msg, v.as_slice(), p, n);
            msg.append("`");
            return Err(AppError::Parse(msg));
        }
        if ke == p {
            return Err(AppError::Parse(copy_str("empty key")));
        }
        let key = lower_of(v.as_slice(), p, ke);
        let vs = ke + 1;
        if vs < n && v[vs] == '"' {
            let (e, content) = quoted_at(v.as_slice(), vs + 1);
            if e >= n {
                let mut msg = copy_str("unclosed quote starting at column ");
                push_decimal(&mut msg, (vs + 1) as u64);
                return Err(AppError::Parse(msg));
            }
            map.insert(key, content);
            pos = e + 1;
        } else {
            let we = word_end_at(v.as_slice(), vs);
            let value = string_of(v.as_slice(), vs, we);
            map.insert(key, value);
            pos = we;
        }
    }
}


/// `s` with every trailing occurrence of `suffix` removed, as
/// `str::trim_end_matches` does.
pub open spec fn strip_suffix_all(s: Seq<char>, suffix: Seq<char>) -> Seq<char>
    decreases s.len(),
{
    if suffix.len() > 0 && s.len() >= suffix.len() && s.subrange(s.len() - suffix.len(), s.len() as int) == suffix {
        strip_suffix_all(s.subrange(0, s.len() - suffix.len()), suffix)
    } else {
        s
    }
}

/// The latency text with its unit removed: trimmed, stripped of trailing
/// `ms`, then of trailing `MS`, and trimmed again.
pub open spec fn latency_digits(text: Seq<char>) -> Seq<char> {
    trim(strip_suffix_all(strip_suffix_all(trim(text), "ms"@), "MS"@))
}

/// The latency field of a record: `latency`, else `latency_ms`, else `cost`.
pub open spec fn latency_field(es: Seq<(Seq<char>, Seq<char>)>) -> Option<Seq<char>> {
    match lookup(es, "latency"@) {
        Some(v) => Some(v),
        None => match lookup(es, "latency_ms"@) {
            Some(v) => Some(v),
            None => lookup(es, "cost"@),
        },
    }
}

/// The latency of a record in milliseconds: absent when there is no latency
/// field or only a unit; an error when the number does not read as a `u64`.
pub open spec fn latency_spec(es: Seq<(Seq<char>, Seq<char>)>) -> Result<Option<u64>, ErrorView> {
    match latency_field(es) {
        None => Ok(None),
        Some(text) => {
            let d = latency_digits(text);
            if d.len() == 0 {
                Ok(None)
            } else {
                match parse_unsigned(d, u64::MAX as nat) {
                    Ok(v) => Ok(Some(v as u64)),
                    Err(e) => Err(ErrorView::Parse(int_error_text(e))),
                }
            }
        }
    }
}

/// Bounds of `strip_suffix_all(s[from..to], [c1, c2])` inside `s`.
fn strip_pair(v: &[char], from: usize, to: usize, c1: char, c2: char) -> (r: usize)
    requires
        from <= to <= v@.len(),
    ensures
        from <= r <= to,
        v@.subrange(from as int, r as int) == strip_suffix_all(v@.subrange(from as int, to as int), seq![c1, c2]),
{
    let mut b = to;
    while b - from >= 2 && v[b - 2] == c1 && v[b - 1] == c2
        invariant
            from <= b <= to <= v@.len(),
            strip_suffix_all(v@.subrange(from as int, to as int), seq![c1, c2])
                == strip_suffix_all(v@.subrange(from as int, b as int), seq![c1, c2]),
        decreases b - from,
    {
        proof {
            let t = v@.subrange(from as int, b as int);
            assert(t.subrange(t.len() - 2, t.len() as int) =~= seq![c1, c2]);
            assert(t.subrange(0, t.len() - 2) =~= v@.subrange(from as int, b - 2));
        }
        b -= 2;
    }
    proof {
        let t = v@.subrange(from as int, b as int);
        if t.len() >= 2 {
            assert(t.subrange(t.len() - 2, t.len() as int) != seq![c1, c2]) by {
                if t.subrange(t.len() - 2, t.len() as int) == seq![c1, c2] {
                    assert(t.subrange(t.len() - 2, t.len() as int)[0] == v@[b - 2]);
                    assert(t.subrange(t.len() - 2, t.len() as int)[1] == v@[b - 1]);
                }
            }
        }
    }
    b
}

fn parse_latency(fields: &FieldMap) -> (r: Result<Option<u64>, AppError>)
    ensures
        match latency_spec(fields.entries()) {
            Ok(x) => r matches Ok(y) && y == x,
            Err(e) => r matches Err(y) && y@ == e,
        },
{
    let candidate = match fields.get("latency") {
        Some(t) => Some(t),
        None => match fields.get("latency_ms") {
            Some(t) => Some(t),
            None => fields.get("cost"),
        },
    };
    match candidate {
        None => Ok(None),
        Some(text) => {
            let v = chars_of(text.as_str());
            let ghost s = v@;
            assert(s.subrange(0, s.len() as int) =~= s);
            let (a, b) = trim_bounds(v.as_slice(), 0, v.len());
            let b1 = strip_pair(v.as_slice(), a, b, 'm', 's');
            let b2 = strip_pair(v.as_slice(), a, b1, 'M', 'S');
            let (c, d) = trim_bounds(v.as_slice(), a, b2);
            proof {
                reveal_strlit("ms");
                reveal_strlit("MS");
                assert("ms"@ =~= seq!['m', 's']);
                assert("MS"@ =~= seq!['M', 'S']);
            }
            if c == d {
                return Ok(None);
            }
            match parse_unsigned_chars(v.as_slice(), c, d, u64::MAX) {
                Ok(n) => Ok(Some(n)),
                Err(e) => Err(AppError::Parse(int_error_message(e))),
            }
        },
    }
}

/// Reads each line into a record.
pub trait RecordParser {
    fn parse_line(&self, line_number: usize, line: &str) -> Result<Option<LogRecord>, AppError>;
}

#[derive(Debug, Default, Clone)]
pub struct KeyValueParser;

impl KeyValueParser {
    pub fn new() -> (r: Self) {
        KeyValueParser
    }
}

/// The level of a record: its `level` field read as a level, else `Unknown`.
pub open spec fn level_spec(es: Seq<(Seq<char>, Seq<char>)>) -> Result<LogLevel, ErrorView> {
    match lookup(es, "level"@) {
        Some(v) => parse_level_spec(v),
        None => Ok(LogLevel::Unknown),
    }
}

/// The service of a record: its `service` field, else `unknown`.
pub open spec fn service_spec(es: Seq<(Seq<char>, Seq<char>)>) -> Seq<char> {
    match lookup(es, "service"@) {
        Some(v) => v,
        None => "unknown"@,
    }
}

/// The message of a record: its `msg` field, else `message`, else empty.
pub open spec fn message_spec(es: Seq<(Seq<char>, Seq<char>)>) -> Seq<char> {
    match lookup(es, "msg"@) {
        Some(v) => v,
        None => match lookup(es, "message"@) {
            Some(v) => v,
            None => Seq::empty(),
        },
    }
}

/// What a line gives: nothing for a blank line or a `#` comment, else the
/// record its fields describe, or the first error among its fields, its level
/// and its latency, in that order.
pub open spec fn parse_line_spec(line_number: usize, line: Seq<char>) -> Result<Option<RecordView>, ErrorView> {
    let t = trim(line);
    if t.len() == 0 || t[0] == '#' {
        Ok(None)
    } else {
        match fields_spec(t) {
            Err(m) => Err(ErrorView::Parse(m)),
            Ok(es) => match level_spec(es) {
                Err(e) => Err(e),
                Ok(level) => match latency_spec(es) {
                    Err(e) => Err(e),
                    Ok(latency) => Ok(Some(RecordView {
                        line_number,
                        service: service_spec(es),
                        level,
                        latency_ms: latency,
                        message: message_spec(es),
                        fields: es,
                        raw: t,
                    })),
                },
            },
        }
    }
}

/// `r` is what `s` describes.
pub open spec fn parsed_as(r: Result<Option<LogRecord>, AppError>, s: Result<Option<RecordView>, ErrorView>) -> bool {
    match s {
        Ok(Some(v)) => r matches Ok(Some(x)) && x@ == v,
        Ok(None) => r matches Ok(None),
        Err(e) => r matches Err(x) && x@ == e,
    }
}

impl RecordParser for KeyValueParser {
    fn parse_line(&self, line_number: usize, line: &str) -> (r: Result<Option<LogRecord>, AppError>)
        ensures
            parsed_as(r, parse_line_spec(line_number, line@)),
    {
        let v = chars_of(line);
        assert(v@.subrange(0, v@.len() as int) =~= v@);
        let (a, b) = trim_bounds(v.as_slice(), 0, v.len());
        if a == b || v[a] == '#' {
            return Ok(None);
        }
        let trimmed = string_of(v.as_slice(), a, b);
        let fields = match parse_key_value_fields(trimmed.as_str()) {
            Ok(m) => m,
            Err(e) => return Err(e),
        };
        let service = match fields.get("service") {
            Some(s) => s.clone(),
            None => copy_str("unknown"),
        };
        let level = match fields.get("level") {
            Some(value) => match LogLevel::parse_name(value.as_str()) {
                Ok(level) => level,
                Err(e) => return Err(e),
            },
            None => LogLevel::Unknown,
        };
        let latency_ms = match parse_latency(&fields) {
            Ok(x) => x,
            Err(e) => return Err(e),
        };
        let message = match fields.get("msg") {
            Some(m) => m.clone(),
            None => match fields.get("message") {
                Some(m) => m.clone(),
                None => String::new(),
            },
        };
        Ok(Some(LogRecord::new(line_number, service, level, latency_ms, message, fields, trimmed)))
    }
}

} // verus!
