//! Character and string primitives shared by the parser, the filter and the
//! report renderers: whitespace, ASCII case folding, trimming, substring
//! search, and decimal conversion in both directions.
use vstd::prelude::*;

verus! {

/// Unicode `White_Space`, the set that `char::is_whitespace` tests.
pub open spec fn is_ws(c: char) -> bool {
    ||| ('\u{9}' <= c && c <= '\u{d}')
    ||| c == ' '
    ||| c == '\u{85}'
    ||| c == '\u{a0}'
    ||| c == '\u{1680}'
    ||| ('\u{2000}' <= c && c <= '\u{200a}')
    ||| c == '\u{2028}'
    ||| c == '\u{2029}'
    ||| c == '\u{202f}'
    ||| c == '\u{205f}'
    ||| c == '\u{3000}'
}

pub fn is_whitespace(c: char) -> (r: bool)
    ensures
        r == is_ws(c),
{
    ('\u{9}' <= c && c <= '\u{d}') || c == ' ' || c == '\u{85}' || c == '\u{a0}' || c == '\u{1680}'
        || ('\u{2000}' <= c && c <= '\u{200a}') || c == '\u{2028}' || c == '\u{2029}'
        || c == '\u{202f}' || c == '\u{205f}' || c == '\u{3000}'
}

pub open spec fn ascii_lower(c: char) -> char {
    if 'A' <= c && c <= 'Z' {
        ((c as u32) + 32) as char
    } else {
        c
    }
}

pub open spec fn ascii_upper(c: char) -> char {
    if 'a' <= c && c <= 'z' {
        ((c as u32) - 32) as char
    } else {
        c
    }
}

pub fn to_lower(c: char) -> (r: char)
    ensures
        r == ascii_lower(c),
{
    if 'A' <= c && c <= 'Z' {
        ((c as u8) + 32) as char
    } else {
        c
    }
}

pub fn to_upper(c: char) -> (r: char)
    ensures
        r == ascii_upper(c),
{
    if 'a' <= c && c <= 'z' {
        ((c as u8) - 32) as char
    } else {
        c
    }
}


pub open spec fn lower_seq(s: Seq<char>) -> Seq<char> {
    s.map_values(|c: char| ascii_lower(c))
}

pub open spec fn upper_seq(s: Seq<char>) -> Seq<char> {
    s.map_values(|c: char| ascii_upper(c))
}

/// `s` with its leading whitespace removed.
pub open spec fn trim_start(s: Seq<char>) -> Seq<char>
    decreases s.len(),
{
    if s.len() > 0 && is_ws(s[0]) {
        trim_start(s.drop_first())
    } else {
        s
    }
}

/// `s` with its trailing whitespace removed.
pub open spec fn trim_end(s: Seq<char>) -> Seq<char>
    decreases s.len(),
{
    if s.len() > 0 && is_ws(s.last()) {
        trim_end(s.drop_last())
    } else {
        s
    }
}

/// What `str::trim` keeps of `s`.
pub open spec fn trim(s: Seq<char>) -> Seq<char> {
    trim_end(trim_start(s))
}

/// Case folding leaves whitespace alone, and whitespace is never a letter.
pub proof fn lemma_case_keeps_ws(c: char)
    ensures
        is_ws(ascii_lower(c)) == is_ws(c),
        is_ws(ascii_upper(c)) == is_ws(c),
        ascii_upper(ascii_lower(c)) == ascii_upper(c),
        ascii_lower(ascii_upper(c)) == ascii_lower(c),
        ascii_upper(ascii_upper(c)) == ascii_upper(c),
        ascii_lower(ascii_lower(c)) == ascii_lower(c),
{
}

pub proof fn lemma_trim_start_lower(s: Seq<char>)
    ensures
        trim_start(lower_seq(s)) == lower_seq(trim_start(s)),
    decreases s.len(),
{
    if s.len() > 0 {
        lemma_case_keeps_ws(s[0]);
        assert(lower_seq(s)[0] == ascii_lower(s[0]));
        if is_ws(s[0]) {
            assert(lower_seq(s).drop_first() =~= lower_seq(s.drop_first()));
            lemma_trim_start_lower(s.drop_first());
        }
    }
}

pub proof fn lemma_trim_end_lower(s: Seq<char>)
    ensures
        trim_end(lower_seq(s)) == lower_seq(trim_end(s)),
    decreases s.len(),
{
    if s.len() > 0 {
        lemma_case_keeps_ws(s.last());
        assert(lower_seq(s).last() == ascii_lower(s.last()));
        if is_ws(s.last()) {
            assert(lower_seq(s).drop_last() =~= lower_seq(s.drop_last()));
            lemma_trim_end_lower(s.drop_last());
        }
    }
}

pub proof fn lemma_trim_start_upper(s: Seq<char>)
    ensures
        trim_start(upper_seq(s)) == upper_seq(trim_start(s)),
    decreases s.len(),
{
    if s.len() > 0 {
        lemma_case_keeps_ws(s[0]);
        assert(upper_seq(s)[0] == ascii_upper(s[0]));
        if is_ws(s[0]) {
            assert(upper_seq(s).drop_first() =~= upper_seq(s.drop_first()));
            lemma_trim_start_upper(s.drop_first());
        }
    }
}

pub proof fn lemma_trim_end_upper(s: Seq<char>)
    ensures
        trim_end(upper_seq(s)) == upper_seq(trim_end(s)),
    decreases s.len(),
{
    if s.len() > 0 {
        lemma_case_keeps_ws(s.last());
        assert(upper_seq(s).last() == ascii_upper(s.last()));
        if is_ws(s.last()) {
            assert(upper_seq(s).drop_last() =~= upper_seq(s.drop_last()));
            lemma_trim_end_upper(s.drop_last());
        }
    }
}

/// Trimming and case folding can be done in either order; folding to one
/// case forgets an earlier fold to the other.
pub proof fn lemma_trim_case(s: Seq<char>)
    ensures
        trim(lower_seq(s)) == lower_seq(trim(s)),
        trim(upper_seq(s)) == upper_seq(trim(s)),
        upper_seq(lower_seq(s)) == upper_seq(s),
        lower_seq(upper_seq(s)) == lower_seq(s),
        upper_seq(upper_seq(s)) == upper_seq(s),
        lower_seq(lower_seq(s)) == lower_seq(s),
{
    lemma_trim_start_lower(s);
    lemma_trim_end_lower(trim_start(s));
    lemma_trim_start_upper(s);
    lemma_trim_end_upper(trim_start(s));
    assert forall|i: int| 0 <= i < s.len() implies upper_seq(lower_seq(s))[i] == upper_seq(s)[i] by {
        lemma_case_keeps_ws(s[i]);
    }
    assert(upper_seq(lower_seq(s)) =~= upper_seq(s));
    assert forall|i: int| 0 <= i < s.len() implies lower_seq(upper_seq(s))[i] == lower_seq(s)[i] by {
        lemma_case_keeps_ws(s[i]);
    }
    assert(lower_seq(upper_seq(s)) =~= lower_seq(s));
    assert forall|i: int| 0 <= i < s.len() implies upper_seq(upper_seq(s))[i] == upper_seq(s)[i] by {
        lemma_case_keeps_ws(s[i]);
    }
    assert(upper_seq(upper_seq(s)) =~= upper_seq(s));
    assert forall|i: int| 0 <= i < s.len() implies lower_seq(lower_seq(s))[i] == lower_seq(s)[i] by {
        lemma_case_keeps_ws(s[i]);
    }
    assert(lower_seq(lower_seq(s)) =~= lower_seq(s));
}

/// `needle` occurs in `hay` as a contiguous run (the empty needle occurs everywhere).
pub open spec fn contains_seq(hay: Seq<char>, needle: Seq<char>) -> bool {
    exists|i: int| 0 <= i && i + needle.len() <= hay.len() && #[trigger] hay.subrange(i, i + needle.len()) == needle
}

/// `c` occurs in `s`.
pub open spec fn has_char(s: Seq<char>, c: char) -> bool {
    exists|i: int| 0 <= i < s.len() && s[i] == c
}

pub open spec fn digit_char(d: nat) -> char {
    ((d + 48) as u32) as char
}

/// Decimal digits of `n`, as `Display` writes an unsigned integer.
pub open spec fn dec(n: nat) -> Seq<char>
    decreases n,
{
    if n < 10 {
        seq![digit_char(n)]
    } else {
        dec(n / 10).push(digit_char(n % 10))
    }
}

/// Copies the characters of `s` into a vector.
pub fn chars_of(s: &str) -> (v: Vec<char>)
    ensures
        v@ == s@,
{
    let mut v: Vec<char> = Vec::new();
    for c in it: s.chars()
        invariant
            v@ == it.seq().take(it.index() as int),
    {
        v.push(c);
    }
    v
}

/// `String::push` appends one character.
pub assume_specification[ String::push ](string: &mut String, ch: char)
    ensures
        final(string)@ == old(string)@.push(ch),
;

/// Appends `s[from..to]` to `out`.
pub fn push_chars(out: &mut String, s: &[char], from: usize, to: usize)
    requires
        from <= to <= s@.len(),
    ensures
        final(out)@ == old(out)@ + s@.subrange(from as int, to as int),
{
    let mut i = from;
    while i < to
        invariant
            from <= i <= to <= s@.len(),
            out@ == old(out)@ + s@.subrange(from as int, i as int),
        decreases to - i,
    {
        out.push(s[i]);
        assert(s@.subrange(from as int, i + 1) =~= s@.subrange(from as int, i as int).push(s@[i as int]));
        i += 1;
    }
}

/// A new string holding `s[from..to]`.
pub fn string_of(s: &[char], from: usize, to: usize) -> (r: String)
    requires
        from <= to <= s@.len(),
    ensures
        r@ == s@.subrange(from as int, to as int),
{
    let mut out = String::new();
    push_chars(&mut out, s, from, to);
    assert(Seq::<char>::empty() + s@.subrange(from as int, to as int) =~= s@.subrange(from as int, to as int));
    out
}

/// Copies a string.
pub fn copy_str(s: &str) -> (r: String)
    ensures
        r@ == s@,
{
    s.to_owned()
}

proof fn lemma_trim_start_step(s: Seq<char>, i: int, j: int)
    requires
        0 <= i < j <= s.len(),
        is_ws(s[i]),
    ensures
        trim_start(s.subrange(i, j)) == trim_start(s.subrange(i + 1, j)),
{
    assert(s.subrange(i, j).drop_first() =~= s.subrange(i + 1, j));
}

proof fn lemma_trim_end_step(s: Seq<char>, i: int, j: int)
    requires
        0 <= i < j <= s.len(),
        is_ws(s[j - 1]),
    ensures
        trim_end(s.subrange(i, j)) == trim_end(s.subrange(i, j - 1)),
{
    assert(s.subrange(i, j).drop_last() =~= s.subrange(i, j - 1));
}

/// Bounds of `trim(s[from..to])` inside `s`.
pub fn trim_bounds(s: &[char], from: usize, to: usize) -> (r: (usize, usize))
    requires
        from <= to <= s@.len(),
    ensures
        from <= r.0 <= r.1 <= to,
        s@.subrange(r.0 as int, r.1 as int) == trim(s@.subrange(from as int, to as int)),
{
    let mut a = from;
    while a < to && is_whitespace(s[a])
        invariant
            from <= a <= to <= s@.len(),
            trim_start(s@.subrange(from as int, to as int)) == trim_start(s@.subrange(a as int, to as int)),
        decreases to - a,
    {
        proof { lemma_trim_start_step(s@, a as int, to as int); }
        a += 1;
    }
    assert(trim_start(s@.subrange(a as int, to as int)) == s@.subrange(a as int, to as int));
    let mut b = to;
    while b > a && is_whitespace(s[b - 1])
        invariant
            from <= a <= b <= to <= s@.len(),
            trim_end(s@.subrange(a as int, to as int)) == trim_end(s@.subrange(a as int, b as int)),
        decreases b - a,
    {
        proof { lemma_trim_end_step(s@, a as int, b as int); }
        b -= 1;
    }
    assert(trim_end(s@.subrange(a as int, b as int)) == s@.subrange(a as int, b as int));
    (a, b)
}

/// `trim` of a string, as a new string.
pub fn trimmed(s: &str) -> (r: String)
    ensures
        r@ == trim(s@),
{
    let v = chars_of(s);
    let (a, b) = trim_bounds(v.as_slice(), 0, v.len());
    assert(v@.subrange(0, v@.len() as int) =~= v@);
    string_of(v.as_slice(), a, b)
}

/// ASCII lower-case copy of `s[from..to]`.
pub fn lower_of(s: &[char], from: usize, to: usize) -> (r: String)
    requires
        from <= to <= s@.len(),
    ensures
        r@ == lower_seq(s@.subrange(from as int, to as int)),
{
    let mut out = String::new();
    let mut i = from;
    while i < to
        invariant
            from <= i <= to <= s@.len(),
            out@ == lower_seq(s@.subrange(from as int, i as int)),
        decreases to - i,
    {
        out.push(to_lower(s[i]));
        assert(lower_seq(s@.subrange(from as int, i + 1)) =~= lower_seq(s@.subrange(from as int, i as int)).push(ascii_lower(s@[i as int])));
        i += 1;
    }
    out
}

/// ASCII upper-case copy of `s[from..to]`.
pub fn upper_of(s: &[char], from: usize, to: usize) -> (r: String)
    requires
        from <= to <= s@.len(),
    ensures
        r@ == upper_seq(s@.subrange(from as int, to as int)),
{
    let mut out = String::new();
    let mut i = from;
    while i < to
        invariant
            from <= i <= to <= s@.len(),
            out@ == upper_seq(s@.subrange(from as int, i as int)),
        decreases to - i,
    {
        out.push(to_upper(s[i]));
        assert(upper_seq(s@.subrange(from as int, i + 1)) =~= upper_seq(s@.subrange(from as int, i as int)).push(ascii_upper(s@[i as int])));
        i += 1;
    }
    out
}

/// ASCII lower-case copy of a string.
pub fn lowercase(s: &str) -> (r: String)
    ensures
        r@ == lower_seq(s@),
{
    let v = chars_of(s);
    assert(v@.subrange(0, v@.len() as int) =~= v@);
    lower_of(v.as_slice(), 0, v.len())
}

/// Whether two character sequences are equal.
pub fn chars_equal(a: &[char], b: &[char]) -> (r: bool)
    ensures
        r == (a@ == b@),
{
    if a.len() != b.len() {
        return false;
    }
    let mut i: usize = 0;
    while i < a.len()
        invariant
            a@.len() == b@.len(),
            0 <= i <= a@.len(),
            forall|k: int| 0 <= k < i ==> a@[k] == b@[k],
        decreases a@.len() - i,
    {
        if a[i] != b[i] {
            return false;
        }
        i += 1;
    }
    assert(a@ =~= b@);
    true
}

/// Whether the string `s` equals the characters `lit`.
pub fn str_equals(s: &str, lit: &str) -> (r: bool)
    ensures
        r == (s@ == lit@),
{
    let a = chars_of(s);
    let b = chars_of(lit);
    chars_equal(a.as_slice(), b.as_slice())
}

/// Whether `needle` occurs in `hay` at position `i`.
fn occurs_at(hay: &[char], needle: &[char], i: usize) -> (r: bool)
    requires
        i + needle@.len() <= hay@.len(),
    ensures
        r == (hay@.subrange(i as int, i + needle@.len()) == needle@),
{
    let mut k: usize = 0;
    let hn = hay.len();
    while k < needle.len()
        invariant
            hn == hay@.len(),
            i + needle@.len() <= hay@.len(),
            0 <= k <= needle@.len(),
            forall|m: int| 0 <= m < k ==> hay@[i + m] == needle@[m],
        decreases needle@.len() - k,
    {
        if hay[i + k] != needle[k] {
            assert(hay@.subrange(i as int, i + needle@.len())[k as int] != needle@[k as int]);
            return false;
        }
        k += 1;
    }
    assert(hay@.subrange(i as int, i + needle@.len()) =~= needle@);
    true
}

/// Substring search: whether `needle` occurs in `hay`.
pub fn contains_chars(hay: &[char], needle: &[char]) -> (r: bool)
    ensures
        r == contains_seq(hay@, needle@),
{
    if needle.len() > hay.len() {
        return false;
    }
    if needle.len() == 0 {
        assert(hay@.subrange(0int, 0int + needle@.len()) =~= needle@);
        return true;
    }
    let last = hay.len() - needle.len();
    let mut i: usize = 0;
    while i <= last
        invariant
            last + needle@.len() == hay@.len(),
            needle@.len() > 0,
            last < hay@.len(),
            hay@.len() == hay.len(),
            0 <= i <= last + 1,
            forall|k: int| 0 <= k < i ==> #[trigger] hay@.subrange(k, k + needle@.len()) != needle@,
        decreases last + 1 - i,
    {
        if occurs_at(hay, needle, i) {
            assert(hay@.subrange(i as int, i + needle@.len()) == needle@);
            return true;
        }
        i += 1;
    }
    assert(!contains_seq(hay@, needle@));
    false
}

/// Whether the character `c` occurs in `s`.
pub fn has_char_in(s: &[char], c: char) -> (r: bool)
    ensures
        r == has_char(s@, c),
{
    let mut i: usize = 0;
    while i < s.len()
        invariant
            0 <= i <= s@.len(),
            forall|k: int| 0 <= k < i ==> s@[k] != c,
        decreases s@.len() - i,
    {
        if s[i] == c {
            return true;
        }
        i += 1;
    }
    false
}

/// Appends the decimal digits of `n` to `out`.
pub fn push_decimal(out: &mut String, n: u64)
    ensures
        final(out)@ == old(out)@ + dec(n as nat),
    decreases n,
{
    if n < 10 {
        out.push(((n as u8) + 48) as char);
        assert(old(out)@ + dec(n as nat) =~= old(out)@.push(digit_char(n as nat)));
    } else {
        push_decimal(out, n / 10);
        out.push(((n % 10) as u8 + 48) as char);
        assert(old(out)@ + dec(n as nat) =~= old(out)@ + dec((n / 10) as nat) + seq![digit_char((n % 10) as nat)]);
    }
}

/// The decimal digits of `n`.
pub fn decimal(n: u64) -> (r: String)
    ensures
        r@ == dec(n as nat),
{
    let mut out = String::new();
    push_decimal(&mut out, n);
    assert(Seq::<char>::empty() + dec(n as nat) =~= dec(n as nat));
    out
}


/// An optional string taken as characters.
pub open spec fn opt_text_view(v: Option<String>) -> Option<Seq<char>> {
    match v {
        Some(x) => Some(x@),
        None => None,
    }
}

/// Why a decimal integer could not be read, in the order that `str::parse`
/// for an unsigned integer reports it.
#[derive(Debug, Clone, Copy, PartialEq, Eq)]
pub enum IntError {
    Empty,
    InvalidDigit,
    PosOverflow,
}

pub open spec fn is_digit(c: char) -> bool {
    '0' <= c && c <= '9'
}

pub open spec fn digit_value(c: char) -> nat {
    ((c as u32) - 48) as nat
}

/// Reads the digits of `s` after the value `acc` already read, failing at the
/// first non-digit, or as soon as the value exceeds `max`.
pub open spec fn digits_value(acc: nat, s: Seq<char>, max: nat) -> Result<nat, IntError>
    decreases s.len(),
{
    if s.len() == 0 {
        Ok(acc)
    } else if !is_digit(s[0]) {
        Err(IntError::InvalidDigit)
    } else if acc * 10 + digit_value(s[0]) > max {
        Err(IntError::PosOverflow)
    } else {
        digits_value(acc * 10 + digit_value(s[0]), s.drop_first(), max)
    }
}

/// What parsing `s` as an unsigned integer of largest value `max` gives:
/// an optional leading `+`, then decimal digits only.
pub open spec fn parse_unsigned(s: Seq<char>, max: nat) -> Result<nat, IntError> {
    if s.len() == 0 {
        Err(IntError::Empty)
    } else if s.len() == 1 && (s[0] == '+' || s[0] == '-') {
        Err(IntError::InvalidDigit)
    } else if s[0] == '+' {
        digits_value(0, s.drop_first(), max)
    } else {
        digits_value(0, s, max)
    }
}

/// The text that `ParseIntError` displays for each kind.
pub open spec fn int_error_text(e: IntError) -> Seq<char> {
    match e {
        IntError::Empty => "cannot parse integer from empty string"@,
        IntError::InvalidDigit => "invalid digit found in string"@,
        IntError::PosOverflow => "number too large to fit in target type"@,
    }
}

pub fn int_error_message(e: IntError) -> (r: String)
    ensures
        r@ == int_error_text(e),
{
    match e {
        IntError::Empty => copy_str("cannot parse integer from empty string"),
        IntError::InvalidDigit => copy_str("invalid digit found in string"),
        IntError::PosOverflow => copy_str("number too large to fit in target type"),
    }
}

proof fn lemma_digits_bound(acc: nat, s: Seq<char>, max: nat)
    ensures
        digits_value(acc, s, max) matches Ok(v) ==> v <= max || (s.len() == 0 && v == acc),
    decreases s.len(),
{
    if s.len() > 0 && is_digit(s[0]) && acc * 10 + digit_value(s[0]) <= max {
        lemma_digits_bound(acc * 10 + digit_value(s[0]), s.drop_first(), max);
    }
}

/// A value that `parse_unsigned` reads is no larger than its bound.
pub proof fn lemma_parse_unsigned_bound(s: Seq<char>, max: nat)
    ensures
        parse_unsigned(s, max) matches Ok(v) ==> v <= max,
{
    if s.len() > 0 {
        lemma_digits_bound(0, s, max);
        lemma_digits_bound(0, s.drop_first(), max);
    }
}

proof fn lemma_digit_char(d: nat)
    requires
        d < 10,
    ensures
        is_digit(digit_char(d)),
        digit_value(digit_char(d)) == d,
{
    assert(digit_char(d) as u32 == (d + 48) as u32);
}

proof fn lemma_digits_push(acc: nat, s: Seq<char>, c: char, max: nat, v: nat)
    requires
        digits_value(acc, s, max) == Ok::<nat, IntError>(v),
        is_digit(c),
        v * 10 + digit_value(c) <= max,
    ensures
        digits_value(acc, s.push(c), max) == Ok::<nat, IntError>(v * 10 + digit_value(c)),
    decreases s.len(),
{
    let t = s.push(c);
    if s.len() == 0 {
        assert(v == acc);
        assert(t.drop_first() =~= Seq::<char>::empty());
        assert(t[0] == c);
        assert(digits_value(acc * 10 + digit_value(c), t.drop_first(), max) == Ok::<nat, IntError>(acc * 10 + digit_value(c)));
    } else {
        assert(t[0] == s[0]);
        assert(t.drop_first() =~= s.drop_first().push(c));
        assert(is_digit(s[0]));
        assert(acc * 10 + digit_value(s[0]) <= max);
        assert(digits_value(acc * 10 + digit_value(s[0]), s.drop_first(), max) == Ok::<nat, IntError>(v));
        lemma_digits_push(acc * 10 + digit_value(s[0]), s.drop_first(), c, max, v);
        assert(digits_value(acc, t, max) == digits_value(acc * 10 + digit_value(s[0]), t.drop_first(), max));
    }
}

proof fn lemma_dec_digits(n: nat, max: nat)
    requires
        n <= max,
    ensures
        dec(n).len() > 0,
        is_digit(dec(n)[0]),
        digits_value(0, dec(n), max) == Ok::<nat, IntError>(n),
    decreases n,
{
    if n < 10 {
        lemma_digit_char(n);
        let s = dec(n);
        assert(s == seq![digit_char(n)]);
        assert(s[0] == digit_char(n));
        assert(s.drop_first() =~= Seq::<char>::empty());
        assert(0 * 10 + digit_value(s[0]) == n);
        assert(digits_value(n, s.drop_first(), max) == Ok::<nat, IntError>(n));
    } else {
        lemma_dec_digits(n / 10, max);
        lemma_digit_char(n % 10);
        assert((n / 10) * 10 + n % 10 == n);
        lemma_digits_push(0, dec(n / 10), digit_char(n % 10), max, n / 10);
        assert(dec(n)[0] == dec(n / 10)[0]);
    }
}

/// What `dec` writes, `parse_unsigned` reads back.
pub proof fn lemma_dec_reads_back(n: nat, max: nat)
    requires
        n <= max,
    ensures
        parse_unsigned(dec(n), max) == Ok::<nat, IntError>(n),
{
    lemma_dec_digits(n, max);
}

/// Reads `s[from..to]` as an unsigned integer no larger than `max`.
pub fn parse_unsigned_chars(s: &[char], from: usize, to: usize, max: u64) -> (r: Result<u64, IntError>)
    requires
        from <= to <= s@.len(),
    ensures
        match parse_unsigned(s@.subrange(from as int, to as int), max as nat) {
            Ok(v) => r == Ok::<u64, IntError>(v as u64),
            Err(e) => r == Err::<u64, IntError>(e),
        },
{
    let ghost t = s@.subrange(from as int, to as int);
    if from == to {
        return Err(IntError::Empty);
    }
    if to - from == 1 && (s[from] == '+' || s[from] == '-') {
        return Err(IntError::InvalidDigit);
    }
    let mut i = from;
    if s[from] == '+' {
        i = from + 1;
        assert(t.drop_first() =~= s@.subrange(i as int, to as int));
    } else {
        assert(t =~= s@.subrange(i as int, to as int));
    }
    let ghost start = i;
    let mut acc: u64 = 0;
    while i < to
        invariant
            from <= start <= i <= to <= s@.len(),
            t == s@.subrange(from as int, to as int),
            acc <= max,
            parse_unsigned(t, max as nat) == digits_value(0, s@.subrange(start as int, to as int), max as nat),
            digits_value(0, s@.subrange(start as int, to as int), max as nat)
                == digits_value(acc as nat, s@.subrange(i as int, to as int), max as nat),
        decreases to - i,
    {
        let c = s[i];
        assert(s@.subrange(i as int, to as int)[0] == c);
        assert(s@.subrange(i as int, to as int).drop_first() =~= s@.subrange(i + 1, to as int));
        if !('0' <= c && c <= '9') {
            assert(digits_value(acc as nat, s@.subrange(i as int, to as int), max as nat) == Err::<nat, IntError>(IntError::InvalidDigit));
            return Err(IntError::InvalidDigit);
        }
        let d = (c as u32 - 48) as u64;
        assert(d == digit_value(c));
        if (acc as u128) * 10 + (d as u128) > (max as u128) {
            assert(digits_value(acc as nat, s@.subrange(i as int, to as int), max as nat) == Err::<nat, IntError>(IntError::PosOverflow));
            return Err(IntError::PosOverflow);
        }
        acc = acc * 10 + d;
        i += 1;
    }
    assert(s@.subrange(i as int, to as int).len() == 0);
    Ok(acc)
}

} // verus!
