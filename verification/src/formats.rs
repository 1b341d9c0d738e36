use vstd::prelude::*;
use crate::text::{str_to_chars, chars_eq_str};

verus! {

/// Tags for the two file encodings the converter knows.
#[derive(Clone, Copy, Debug, PartialEq, Eq, Structural)]
pub enum Format {
    DelimitedText,
    ColumnarBinary,
}

/// Everything that can go wrong in one conversion.
#[derive(Clone, Copy, Debug, PartialEq, Eq, Structural)]
pub enum ConvertError {
    /// The path has no extension, or one that names no known format.
    UnsupportedFormat,
    /// The file system failed; raised only by the surrounding program.
    IoError,
    /// The source content does not describe a well-formed table.
    DecodeError,
    /// The table cannot be represented in the target format.
    EncodeError,
    /// A column's type has no ordering; no supported type lacks one.
    SortError,
}

/// The largest index of `c` in `s`, or `-1` if `c` does not occur.
pub open spec fn last_at(s: Seq<char>, c: char) -> int
    decreases s.len(),
{
    if s.len() == 0 {
        -1
    } else if s.last() == c {
        s.len() - 1
    } else {
        last_at(s.drop_last(), c)
    }
}

pub proof fn lemma_last_at(s: Seq<char>, c: char)
    ensures
        -1 <= last_at(s, c) < s.len(),
        last_at(s, c) >= 0 ==> s[last_at(s, c)] == c,
        forall|k: int| last_at(s, c) < k < s.len() ==> s[k] != c,
    decreases s.len(),
{
    if s.len() > 0 && s.last() != c {
        lemma_last_at(s.drop_last(), c);
        assert forall|k: int| last_at(s, c) < k < s.len() implies s[k] != c by {
            if k < s.len() - 1 {
                assert(s.drop_last()[k] == s[k]);
                assert(s.drop_last()[k] != c);
            }
        }
    }
}

/// The path with its trailing `/` separators removed: path semantics
/// ignore them when naming the final segment.
pub open spec fn spec_trim_seps(s: Seq<char>) -> Seq<char>
    decreases s.len(),
{
    if s.len() > 0 && s.last() == '/' {
        spec_trim_seps(s.drop_last())
    } else {
        s
    }
}

proof fn lemma_trim_seps_take(s: Seq<char>, m: int)
    requires
        0 <= m <= s.len(),
        forall|k: int| m <= k < s.len() ==> s[k] == '/',
        m == 0 || s[m - 1] != '/',
    ensures
        spec_trim_seps(s) == s.take(m),
    decreases s.len(),
{
    if s.len() > 0 && s.last() == '/' {
        assert(m < s.len());
        assert(forall|k: int| m <= k < s.len() - 1 ==> #[trigger] s.drop_last()[k] == s[k]);
        assert(m == 0 || s.drop_last()[m - 1] == s[m - 1]);
        lemma_trim_seps_take(s.drop_last(), m);
        assert(s.drop_last().take(m) =~= s.take(m));
    } else {
        if m < s.len() {
            assert(s[s.len() - 1] == '/');
            assert(false);
        }
        assert(s.take(m) =~= s);
    }
}

/// The extension of a path: the text after the last `.` of the last
/// `/`-separated segment, trailing separators ignored; nothing when that
/// segment has no `.`.
pub open spec fn spec_extension(s: Seq<char>) -> Option<Seq<char>> {
    let b = spec_trim_seps(s);
    let seg = last_at(b, '/') + 1;
    let dot = last_at(b, '.');
    if dot >= seg {
        Option::Some(b.subrange(dot + 1, b.len() as int))
    } else {
        Option::None
    }
}

/// The format a path names: `csv` is delimited text, `parquet` is the
/// columnar binary container, anything else is unsupported.
pub open spec fn spec_resolve(s: Seq<char>) -> Option<Format> {
    match spec_extension(s) {
        Option::None => Option::None,
        Option::Some(e) => if e == "csv"@ {
            Option::Some(Format::DelimitedText)
        } else if e == "parquet"@ {
            Option::Some(Format::ColumnarBinary)
        } else {
            Option::None
        },
    }
}

/// Finds the largest index of `c` before `end`, as `last_at` says of that
/// prefix.
fn find_last(v: &Vec<char>, c: char, end: usize) -> (r: Option<usize>)
    requires
        end <= v@.len(),
    ensures
        match r {
            Option::Some(i) => i as int == last_at(v@.take(end as int), c) && i < end,
            Option::None => last_at(v@.take(end as int), c) == -1,
        },
{
    let mut i: usize = end;
    while i > 0
        invariant
            i <= end,
            end <= v@.len(),
            forall|k: int| i <= k < end ==> (#[trigger] v@[k]) != c,
        decreases i,
    {
        i -= 1;
        if v[i] == c {
            proof {
                let tv = v@.take(end as int);
                lemma_last_at(tv, c);
                let r = last_at(tv, c);
                assert(forall|k: int| 0 <= k < end ==> #[trigger] tv[k] == v@[k]);
                if r > i {
                    assert(tv[r] != c);
                    assert(false);
                }
                if r < i {
                    assert(tv[i as int] != c);
                    assert(false);
                }
            }
            return Some(i);
        }
    }
    proof {
        let tv = v@.take(end as int);
        lemma_last_at(tv, c);
        assert(forall|k: int| 0 <= k < end ==> #[trigger] tv[k] == v@[k]);
        if last_at(tv, c) >= 0 {
            assert(tv[last_at(tv, c)] == c);
            assert(v@[last_at(tv, c)] != c);
        }
    }
    None
}

/// Selects the format a path names, or reports it unsupported.
pub fn resolve_format(path: &str) -> (r: Result<Format, ConvertError>)
    ensures
        match spec_resolve(path@) {
            Option::Some(f) => r == Result::<Format, ConvertError>::Ok(f),
            Option::None => r == Result::<Format, ConvertError>::Err(
                ConvertError::UnsupportedFormat,
            ),
        },
{
    let v = str_to_chars(path);
    let n = v.len();
    let mut m: usize = n;
    while m > 0 && v[m - 1] == '/'
        invariant
            m <= n,
            n == v@.len(),
            forall|k: int| m <= k < n ==> (#[trigger] v@[k]) == '/',
        decreases m,
    {
        m -= 1;
    }
    let ghost b = spec_trim_seps(path@);
    proof {
        lemma_trim_seps_take(v@, m as int);
        assert(b == v@.take(m as int));
    }
    let seg: usize = match find_last(&v, '/', m) {
        Some(i) => i + 1,
        None => 0,
    };
    let dot: usize = match find_last(&v, '.', m) {
        Some(i) => i,
        None => {
            return Err(ConvertError::UnsupportedFormat);
        },
    };
    if dot < seg {
        return Err(ConvertError::UnsupportedFormat);
    }
    let mut ext: Vec<char> = Vec::new();
    let mut i: usize = dot + 1;
    while i < m
        invariant
            dot + 1 <= i <= m,
            m <= v@.len(),
            ext@ == v@.subrange(dot + 1, i as int),
        decreases m - i,
    {
        ext.push(v[i]);
        proof {
            assert(v@.subrange(dot + 1, i + 1) =~= v@.subrange(dot + 1, i as int).push(
                v@[i as int],
            ));
        }
        i += 1;
    }
    proof {
        assert(b.subrange(dot + 1, b.len() as int) =~= v@.subrange(dot + 1, m as int));
        assert(spec_extension(path@) == Option::Some(ext@));
    }
    if chars_eq_str(&ext, "csv") {
        Ok(Format::DelimitedText)
    } else if chars_eq_str(&ext, "parquet") {
        Ok(Format::ColumnarBinary)
    } else {
        Err(ConvertError::UnsupportedFormat)
    }
}

} // verus!
