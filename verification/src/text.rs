//! Characters and strings: the Unicode `White_Space` property and the
//! conversions between `str` and sequences of `char`.

use vstd::prelude::*;

verus! {

/// The Unicode `White_Space` property (PropList.txt), which
/// `char::is_whitespace` reports.
pub open spec fn is_white_space(c: char) -> bool {
    ||| '\u{9}' <= c <= '\u{d}'
    ||| c == ' '
    ||| c == '\u{85}'
    ||| c == '\u{a0}'
    ||| c == '\u{1680}'
    ||| '\u{2000}' <= c <= '\u{200a}'
    ||| c == '\u{2028}'
    ||| c == '\u{2029}'
    ||| c == '\u{202f}'
    ||| c == '\u{205f}'
    ||| c == '\u{3000}'
}

/// Whether `c` has the Unicode `White_Space` property (`char::is_whitespace`).
pub(crate) fn char_is_whitespace(c: char) -> (b: bool)
    ensures
        b == is_white_space(c),
{
    ('\u{9}' <= c && c <= '\u{d}') || c == ' ' || c == '\u{85}' || c == '\u{a0}' || c == '\u{1680}'
        || ('\u{2000}' <= c && c <= '\u{200a}') || c == '\u{2028}' || c == '\u{2029}' || c
        == '\u{202f}' || c == '\u{205f}' || c == '\u{3000}'
}

/// ASCII letters and digits (`char::is_ascii_alphanumeric`).
pub open spec fn is_ascii_alnum(c: char) -> bool {
    ||| '0' <= c <= '9'
    ||| 'A' <= c <= 'Z'
    ||| 'a' <= c <= 'z'
}

pub fn ascii_alnum(c: char) -> (b: bool)
    ensures
        b == is_ascii_alnum(c),
{
    ('0' <= c && c <= '9') || ('A' <= c && c <= 'Z') || ('a' <= c && c <= 'z')
}

/// Collects `str::chars` of `s`: the characters of the string, in order.
#[verifier::external_body]
pub(crate) fn str_chars(s: &str) -> (v: Vec<char>)
    ensures
        v@ == s@,
{
    s.chars().collect()
}

/// Collects the characters into a `String` (`FromIterator<&char>`), which
/// holds exactly those characters in order.
#[verifier::external_body]
pub(crate) fn string_from_chars(v: &[char]) -> (s: String)
    ensures
        s@ == v@,
{
    v.iter().collect()
}

/// Copies `s[lo..hi]` into `out`.
pub fn push_range(out: &mut Vec<char>, s: &Vec<char>, lo: usize, hi: usize)
    requires
        lo <= hi <= s@.len(),
    ensures
        final(out)@ == old(out)@ + s@.subrange(lo as int, hi as int),
{
    let mut i = lo;
    while i < hi
        invariant
            lo <= i <= hi <= s@.len(),
            out@ == old(out)@ + s@.subrange(lo as int, i as int),
        decreases hi - i,
    {
        out.push(s[i]);
        i = i + 1;
        assert(out@ =~= old(out)@ + s@.subrange(lo as int, i as int));
    }
}

/// Copies all of `t` into `out`.
pub fn push_all(out: &mut Vec<char>, t: &Vec<char>)
    ensures
        final(out)@ == old(out)@ + t@,
{
    push_range(out, t, 0, t.len());
    assert(t@.subrange(0, t@.len() as int) =~= t@);
}

/// Whether `s[lo..hi]` ends with `x`.
pub fn range_ends_with(s: &Vec<char>, lo: usize, hi: usize, x: &Vec<char>) -> (b: bool)
    requires
        lo <= hi <= s@.len(),
    ensures
        b == (x@.len() <= hi - lo && s@.subrange(hi - x@.len(), hi as int) == x@),
{
    if x.len() > hi - lo {
        return false;
    }
    let base = hi - x.len();
    let mut k: usize = 0;
    while k < x.len()
        invariant
            k <= x@.len(),
            base + x@.len() == hi,
            hi <= s@.len(),
            forall|j: int| 0 <= j < k ==> s@[base + j] == x@[j],
        decreases x@.len() - k,
    {
        if s[base + k] != x[k] {
            assert(s@.subrange(base as int, hi as int)[k as int] != x@[k as int]);
            return false;
        }
        k = k + 1;
    }
    assert(s@.subrange(base as int, hi as int) =~= x@);
    true
}

/// Whether `s[lo..hi]` starts with `x`.
pub fn range_starts_with(s: &Vec<char>, lo: usize, hi: usize, x: &Vec<char>) -> (b: bool)
    requires
        lo <= hi <= s@.len(),
    ensures
        b == (x@.len() <= hi - lo && s@.subrange(lo as int, lo + x@.len()) == x@),
{
    if x.len() > hi - lo {
        return false;
    }
    let mut k: usize = 0;
    while k < x.len()
        invariant
            k <= x@.len(),
            lo + x@.len() <= hi,
            hi <= s@.len(),
            forall|j: int| 0 <= j < k ==> s@[lo + j] == x@[j],
        decreases x@.len() - k,
    {
        if s[lo + k] != x[k] {
            assert(s@.subrange(lo as int, lo + x@.len())[k as int] != x@[k as int]);
            return false;
        }
        k = k + 1;
    }
    assert(s@.subrange(lo as int, lo + x@.len()) =~= x@);
    true
}

} // verus!
