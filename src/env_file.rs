use vstd::prelude::*;
use vstd::string::StrSliceExecFns;

verus! {

/// Whether a character has the Unicode `White_Space` property.
pub uninterp spec fn white_space(c: char) -> bool;

/// Relies on `char::is_whitespace`, which tests the Unicode `White_Space` property.
#[verifier::external_body]
fn is_white_space(c: char) -> (r: bool)
    ensures
        r == white_space(c),
{
    c.is_whitespace()
}

/// Whether `c` is dropped from the ends: white space, or the quote when `quotes`.
pub open spec fn trimmed_char(c: char, quotes: bool) -> bool {
    if quotes {
        c == '"'
    } else {
        white_space(c)
    }
}

/// The text without leading dropped characters.
pub open spec fn trim_start_text(s: Seq<char>, quotes: bool) -> Seq<char>
    decreases s.len(),
{
    if s.len() > 0 && trimmed_char(s[0], quotes) {
        trim_start_text(s.drop_first(), quotes)
    } else {
        s
    }
}

/// The text without trailing dropped characters.
pub open spec fn trim_end_text(s: Seq<char>, quotes: bool) -> Seq<char>
    decreases s.len(),
{
    if s.len() > 0 && trimmed_char(s.last(), quotes) {
        trim_end_text(s.drop_last(), quotes)
    } else {
        s
    }
}

/// The text without dropped characters at either end.
pub open spec fn trim_text(s: Seq<char>, quotes: bool) -> Seq<char> {
    trim_end_text(trim_start_text(s, quotes), quotes)
}

fn is_trimmed(c: char, quotes: bool) -> (r: bool)
    ensures
        r == trimmed_char(c, quotes),
{
    if quotes {
        c == '"'
    } else {
        is_white_space(c)
    }
}

/// `s` without white space (or, with `quotes`, without `"`) at either end.
pub fn trim(s: &str, quotes: bool) -> (r: String)
    ensures
        r@ == trim_text(s@, quotes),
{
    let n = s.unicode_len();
    let mut lo: usize = 0;
    assert(s@.subrange(0, n as int) =~= s@);
    while lo < n && is_trimmed(s.get_char(lo), quotes)
        invariant
            n == s@.len(),
            lo <= n,
            trim_start_text(s@.subrange(lo as int, n as int), quotes) == trim_start_text(s@, quotes),
        decreases n - lo,
    {
        assert(s@.subrange(lo as int, n as int).drop_first() =~= s@.subrange(lo + 1, n as int));
        lo += 1;
    }
    let ghost start = s@.subrange(lo as int, n as int);
    assert(trim_start_text(start, quotes) == start);
    let mut hi: usize = n;
    while hi > lo && is_trimmed(s.get_char(hi - 1), quotes)
        invariant
            n == s@.len(),
            lo <= hi <= n,
            start == s@.subrange(lo as int, n as int),
            trim_end_text(s@.subrange(lo as int, hi as int), quotes) == trim_end_text(start, quotes),
        decreases hi - lo,
    {
        assert(s@.subrange(lo as int, hi as int).drop_last() =~= s@.subrange(lo as int, hi - 1));
        hi -= 1;
    }
    let r = s.substring_char(lo, hi).to_owned();
    proof {
        let t = s@.subrange(lo as int, hi as int);
        if t.len() > 0 {
            assert(t.last() == s@[hi - 1]);
        }
        assert(trim_end_text(t, quotes) == t);
    }
    r
}

/// The first position of `=` in the text, if any.
pub open spec fn first_equals(s: Seq<char>) -> Option<int>
    decreases s.len(),
{
    if s.len() == 0 {
        None
    } else {
        match first_equals(s.drop_last()) {
            Some(i) => Some(i),
            None => if s.last() == '=' {
                Some(s.len() - 1)
            } else {
                None
            },
        }
    }
}

/// The assignment on one line of an environment file: none for a comment,
/// a blank line or a line without `=`; else the trimmed name before the
/// first `=` and the trimmed, unquoted value after it.
pub open spec fn env_entry(line: Seq<char>) -> Option<(Seq<char>, Seq<char>)> {
    if line.len() > 0 && line[0] == '#' {
        None
    } else if trim_text(line, false).len() == 0 {
        None
    } else {
        match first_equals(line) {
            None => None,
            Some(i) => Some(
                (
                    trim_text(line.take(i), false),
                    trim_text(trim_text(line.skip(i + 1), false), true),
                ),
            ),
        }
    }
}

/// Reads the assignment on one line of an environment file.
pub fn parse_env_line(line: &str) -> (r: Option<(String, String)>)
    ensures
        match r {
            None => env_entry(line@) is None,
            Some((k, v)) => env_entry(line@) == Some((k@, v@)),
        },
{
    let n = line.unicode_len();
    if n > 0 && line.get_char(0) == '#' {
        return None;
    }
    let whole = trim(line, false);
    if whole.as_str().is_empty() {
        return None;
    }
    let mut i: usize = 0;
    while i < n && line.get_char(i) != '='
        invariant
            n == line@.len(),
            i <= n,
            first_equals(line@.take(i as int)) is None,
        decreases n - i,
    {
        assert(line@.take(i + 1).drop_last() =~= line@.take(i as int));
        i += 1;
    }
    if i == n {
        assert(line@.take(n as int) =~= line@);
        return None;
    }
    proof {
        assert(line@.take(i + 1).drop_last() =~= line@.take(i as int));
        lemma_first_equals_prefix(line@, i as int + 1);
    }
    let key = trim(line.substring_char(0, i), false);
    let rest = trim(line.substring_char(i + 1, n), false);
    let value = trim(rest.as_str(), true);
    proof {
        assert(line@.subrange(0, i as int) =~= line@.take(i as int));
        assert(line@.subrange(i + 1, n as int) =~= line@.skip(i + 1));
    }
    Some((key, value))
}

proof fn lemma_first_equals_prefix(s: Seq<char>, k: int)
    requires
        0 < k <= s.len(),
        first_equals(s.take(k)) is Some,
    ensures
        first_equals(s) == first_equals(s.take(k)),
    decreases s.len() - k,
{
    if k < s.len() {
        assert(s.take(k + 1).drop_last() =~= s.take(k));
        lemma_first_equals_prefix(s, k + 1);
    } else {
        assert(s.take(k) =~= s);
    }
}

} // verus!
