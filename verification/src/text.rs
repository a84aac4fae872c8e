//! Text helpers: tag comparison, suffix tests and the one-line summary of a
//! statement's source text.

use vstd::prelude::*;
use vstd::string::{StrSliceExecFns, StringExecFns};

verus! {

/// Whether the code point `c` has the Unicode `White_Space` property.
pub open spec fn is_white_space(c: char) -> bool {
    let p = c as u32;
    ||| 0x09 <= p <= 0x0D
    ||| p == 0x20
    ||| p == 0x85
    ||| p == 0xA0
    ||| p == 0x1680
    ||| 0x2000 <= p <= 0x200A
    ||| p == 0x2028
    ||| p == 0x2029
    ||| p == 0x202F
    ||| p == 0x205F
    ||| p == 0x3000
}

/// The first index at or after `from` that holds a line feed, or the length
/// of `s` if there is none.
pub open spec fn line_end_from(s: Seq<char>, from: int) -> int
    decreases s.len() - from,
{
    if from < 0 || from >= s.len() || s[from] == '\n' {
        from
    } else {
        line_end_from(s, from + 1)
    }
}

/// The first index in `from..to` that holds no white space, or `to`.
pub open spec fn skip_white_space(s: Seq<char>, from: int, to: int) -> int
    decreases to - from,
{
    if from < 0 || from >= to || to > s.len() || !is_white_space(s[from]) {
        from
    } else {
        skip_white_space(s, from + 1, to)
    }
}

/// The least `end` in `from..=to` such that `end..to` holds only white space.
pub open spec fn drop_white_space(s: Seq<char>, from: int, to: int) -> int
    decreases to - from,
{
    if from < 0 || to <= from || to > s.len() || !is_white_space(s[to - 1]) {
        to
    } else {
        drop_white_space(s, from, to - 1)
    }
}

/// The first line of `text` without its surrounding white space.
pub open spec fn summary_of(text: Seq<char>) -> Seq<char> {
    let end = line_end_from(text, 0);
    let first = skip_white_space(text, 0, end);
    let last = drop_white_space(text, first, end);
    text.subrange(first, last)
}

/// Whether `c` is Unicode white space.
pub fn is_whitespace(c: char) -> (r: bool)
    ensures
        r == is_white_space(c),
{
    let p: u32 = c as u32;
    (0x09 <= p && p <= 0x0D) || p == 0x20 || p == 0x85 || p == 0xA0 || p == 0x1680 || (0x2000 <= p
        && p <= 0x200A) || p == 0x2028 || p == 0x2029 || p == 0x202F || p == 0x205F || p == 0x3000
}

/// Whether `s` and `tag` hold the same characters.
pub fn same_text(s: &str, tag: &str) -> (r: bool)
    ensures
        r == (s@ == tag@),
{
    let a = String::from_str(s);
    let b = String::from_str(tag);
    a == b
}

/// Whether `s` ends with `suffix`.
pub fn has_suffix(s: &str, suffix: &str) -> (r: bool)
    ensures
        r == suffix@.is_suffix_of(s@),
{
    let n: usize = s.unicode_len();
    let m: usize = suffix.unicode_len();
    if m > n {
        return false;
    }
    let start: usize = n - m;
    let mut i: usize = 0;
    while i < m
        invariant
            i <= m,
            m <= n,
            n == s@.len(),
            m == suffix@.len(),
            start == n - m,
            forall|j: int| 0 <= j < i ==> s@[start + j] == suffix@[j],
        decreases m - i,
    {
        if s.get_char(start + i) != suffix.get_char(i) {
            assert(s@.subrange(start as int, n as int)[i as int] != suffix@[i as int]);
            return false;
        }
        i = i + 1;
    }
    assert(suffix@ =~= s@.subrange(start as int, n as int));
    true
}

/// The first line of `text`, trimmed: what a basic block records for a
/// statement.
pub fn summary_line(text: &str) -> (line: String)
    ensures
        line@ == summary_of(text@),
{
    let n: usize = text.unicode_len();
    let mut end: usize = 0;
    while end < n && text.get_char(end) != '\n'
        invariant
            end <= n,
            n == text@.len(),
            line_end_from(text@, 0) == line_end_from(text@, end as int),
        decreases n - end,
    {
        end = end + 1;
    }
    let mut first: usize = 0;
    while first < end && is_whitespace(text.get_char(first))
        invariant
            first <= end <= n,
            n == text@.len(),
            skip_white_space(text@, 0, end as int) == skip_white_space(
                text@,
                first as int,
                end as int,
            ),
        decreases end - first,
    {
        first = first + 1;
    }
    let mut last: usize = end;
    while last > first && is_whitespace(text.get_char(last - 1))
        invariant
            first <= last <= end <= n,
            n == text@.len(),
            drop_white_space(text@, first as int, end as int) == drop_white_space(
                text@,
                first as int,
                last as int,
            ),
        decreases last - first,
    {
        last = last - 1;
    }
    String::from_str(text.substring_char(first, last))
}

} // verus!
