//! Where a report goes: the exporters, and the format that an output file's
//! extension asks for.
use vstd::prelude::*;
use crate::model::OutputFormat;
use crate::text::{chars_of, copy_str, lower_of, lower_seq, str_equals, string_of};

verus! {

/// Writes reports to standard output.
#[derive(Debug, Clone, Copy, Default)]
pub struct StdoutExporter;

/// Writes reports to a file.
#[derive(Debug, Clone)]
pub struct FileExporter {
    path: String,
}

impl FileExporter {
    pub closed spec fn path_view(&self) -> Seq<char> {
        self.path@
    }

    pub fn new(path: &str) -> (r: Self)
        ensures
            r.path_view() == path@,
    {
        FileExporter { path: copy_str(path) }
    }

    pub fn path(&self) -> (r: &str)
        ensures
            r@ == self.path_view(),
    {
        self.path.as_str()
    }
}

/// The position of the last `c` in `s`, or -1 where there is none.
pub open spec fn last_index_of(s: Seq<char>, c: char) -> int
    decreases s.len(),
{
    if s.len() == 0 {
        -1
    } else if s.last() == c {
        s.len() - 1
    } else {
        last_index_of(s.drop_last(), c)
    }
}

pub proof fn lemma_last_index_of(s: Seq<char>, c: char)
    ensures
        -1 <= last_index_of(s, c) < s.len(),
        last_index_of(s, c) >= 0 ==> s[last_index_of(s, c)] == c,
        forall|j: int| last_index_of(s, c) < j < s.len() ==> s[j] != c,
    decreases s.len(),
{
    if s.len() > 0 && s.last() != c {
        lemma_last_index_of(s.drop_last(), c);
        assert forall|j: int| last_index_of(s, c) < j < s.len() implies s[j] != c by {
            if j < s.len() - 1 {
                assert(s[j] == s.drop_last()[j]);
            }
        }
    }
}

/// Characters after which `c` does not occur leave its last position alone.
pub proof fn lemma_last_index_concat(a: Seq<char>, b: Seq<char>, c: char)
    requires
        forall|i: int| 0 <= i < b.len() ==> b[i] != c,
    ensures
        last_index_of(a + b, c) == last_index_of(a, c),
    decreases b.len(),
{
    if b.len() > 0 {
        assert((a + b).drop_last() =~= a + b.drop_last());
        assert((a + b).last() == b.last());
        lemma_last_index_concat(a, b.drop_last(), c);
    } else {
        assert(a + b =~= a);
    }
}

/// The last component of a path, as `Path::file_name` reads it on Unix: the
/// last part between slashes that is neither empty nor `.`; none where there
/// is no such part, or where it is `..`.
pub open spec fn file_name_spec(p: Seq<char>) -> Option<Seq<char>>
    decreases p.len(),
{
    let k = last_index_of(p, '/');
    let part = p.subrange(k + 1, p.len() as int);
    if part.len() == 0 || part == seq!['.'] {
        if k < 0 || p.len() == 0 {
            None
        } else {
            proof {
                lemma_last_index_of(p, '/');
            }
            file_name_spec(p.subrange(0, k))
        }
    } else if part == seq!['.', '.'] {
        None
    } else {
        Some(part)
    }
}

/// The extension of a file name, as `Path::extension` reads it: what follows
/// the last dot, where that dot is not the first character.
pub open spec fn extension_spec(name: Seq<char>) -> Option<Seq<char>> {
    let k = last_index_of(name, '.');
    if k <= 0 {
        None
    } else {
        Some(name.subrange(k + 1, name.len() as int))
    }
}

/// The format an extension, in lower case, names.
pub open spec fn format_for_extension(e: Seq<char>) -> Option<OutputFormat> {
    if e == "md"@ || e == "markdown"@ {
        Some(OutputFormat::Markdown)
    } else if e == "json"@ {
        Some(OutputFormat::Json)
    } else if e == "csv"@ {
        Some(OutputFormat::Csv)
    } else if e == "txt"@ || e == "text"@ {
        Some(OutputFormat::Text)
    } else {
        None
    }
}

/// The format the extension of a path asks for, ignoring ASCII case.
pub open spec fn infer_format_spec(p: Seq<char>) -> Option<OutputFormat> {
    match file_name_spec(p) {
        None => None,
        Some(name) => match extension_spec(name) {
            None => None,
            Some(e) => format_for_extension(lower_seq(e)),
        },
    }
}

/// The position of the last `c` in `s[0..to]`, or `to` where there is none.
fn last_index_in(s: &[char], to: usize, c: char) -> (r: usize)
    requires
        to <= s@.len(),
    ensures
        r == to ==> last_index_of(s@.subrange(0, to as int), c) == -1,
        r < to ==> last_index_of(s@.subrange(0, to as int), c) == r,
        r <= to,
{
    let mut m = to;
    while m > 0
        invariant
            m <= to <= s@.len(),
            last_index_of(s@.subrange(0, to as int), c) == last_index_of(s@.subrange(0, m as int), c),
        decreases m,
    {
        assert(s@.subrange(0, m as int).drop_last() =~= s@.subrange(0, m - 1));
        if s[m - 1] == c {
            return m - 1;
        }
        m -= 1;
    }
    to
}

/// The last component of `path[0..to]`, as start and end positions.
fn file_name_bounds(p: &[char], to: usize) -> (r: Option<(usize, usize)>)
    requires
        to <= p@.len(),
    ensures
        match file_name_spec(p@.subrange(0, to as int)) {
            None => r is None,
            Some(name) => r matches Some(b) && b.0 <= b.1 <= to && p@.subrange(b.0 as int, b.1 as int) == name,
        },
    decreases to,
{
    let ghost s = p@.subrange(0, to as int);
    let k = last_index_in(p, to, '/');
    let start = if k == to { 0 } else { k + 1 };
    let ghost part = p@.subrange(start as int, to as int);
    proof {
        lemma_last_index_of(s, '/');
        assert(s.subrange(last_index_of(s, '/') + 1, s.len() as int) =~= part);
    }
    let len = to - start;
    if len == 0 || (len == 1 && p[start] == '.') {
        assert(part.len() == 0 || part =~= seq!['.']);
        if k == to || to == 0 {
            assert(file_name_spec(s) is None);
            None
        } else {
            assert(s.subrange(0, k as int) =~= p@.subrange(0, k as int));
            assert(file_name_spec(s) == file_name_spec(p@.subrange(0, k as int)));
            file_name_bounds(p, k)
        }
    } else if len == 2 && p[start] == '.' && p[start + 1] == '.' {
        assert(part =~= seq!['.', '.']);
        assert(part != seq!['.']);
        assert(file_name_spec(s) is None);
        None
    } else {
        proof {
            if part == seq!['.'] {
                assert(part[0] == '.');
            }
            if part == seq!['.', '.'] {
                assert(part[0] == '.' && part[1] == '.');
            }
            assert(file_name_spec(s) == Some(part));
        }
        Some((start, to))
    }
}

/// The format that the extension of `path` asks for: `md` and `markdown`
/// ask for Markdown, `json` for JSON, `csv` for CSV, `txt` and `text` for
/// text, in any ASCII case; any other extension, or none, asks for nothing.
pub fn infer_format_from_path(path: &str) -> (r: Option<OutputFormat>)
    ensures
        r == infer_format_spec(path@),
{
    let v = chars_of(path);
    assert(v@.subrange(0, v@.len() as int) =~= v@);
    let (a, b) = match file_name_bounds(v.as_slice(), v.len()) {
        None => return None,
        Some(bounds) => bounds,
    };
    let name = string_of(v.as_slice(), a, b);
    let nv = chars_of(name.as_str());
    let k = last_index_in(nv.as_slice(), nv.len(), '.');
    assert(nv@.subrange(0, nv@.len() as int) =~= nv@);
    if k == nv.len() || k == 0 {
        return None;
    }
    proof {
        lemma_last_index_of(nv@, '.');
    }
    let ext = lower_of(nv.as_slice(), k + 1, nv.len());
    format_of_extension(ext.as_str())
}

fn format_of_extension(e: &str) -> (r: Option<OutputFormat>)
    ensures
        r == format_for_extension(e@),
{
    if str_equals(e, "md") || str_equals(e, "markdown") {
        Some(OutputFormat::Markdown)
    } else if str_equals(e, "json") {
        Some(OutputFormat::Json)
    } else if str_equals(e, "csv") {
        Some(OutputFormat::Csv)
    } else if str_equals(e, "txt") || str_equals(e, "text") {
        Some(OutputFormat::Text)
    } else {
        None
    }
}

} // verus!
