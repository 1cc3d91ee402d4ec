//! Normalisation of a whole subscription text.

use vstd::prelude::*;
use crate::text::{char_is_whitespace, is_white_space, str_chars, string_from_chars};
use crate::extra::{extras_outcome, try_normalize_extras};
use crate::lines::normalize_lines;
use crate::xlex::copy_range;

verus! {

/// Where the content of a subscription starts: the first character of the
/// first line that, after its leading whitespace, is neither empty nor a
/// `#` comment (`in_comment`: position `i` lies in a comment line).
pub open spec fn content_start(s: Seq<char>, i: int, in_comment: bool) -> Option<int>
    decreases s.len() - i,
{
    if i < 0 || i >= s.len() {
        None
    } else if in_comment {
        content_start(s, i + 1, s[i] != '\n')
    } else if is_white_space(s[i]) {
        content_start(s, i + 1, false)
    } else if s[i] == '#' {
        content_start(s, i + 1, true)
    } else {
        Some(i)
    }
}

/// The content of `s` from its first line that is neither blank nor a comment.
pub open spec fn subscription_body(s: Seq<char>) -> Option<Seq<char>> {
    match content_start(s, 0, false) {
        Some(i) => Some(s.skip(i)),
        None => None,
    }
}

/// Normalisation of a subscription does not panic on `s`.
pub open spec fn normalizes_without_panic(s: Seq<char>) -> bool {
    match subscription_body(s) {
        Some(body) => extras_outcome(body) is Some,
        None => true,
    }
}

proof fn lemma_content_start_bounds(s: Seq<char>, i: int, in_comment: bool)
    ensures
        content_start(s, i, in_comment) matches Some(k) ==> 0 <= k < s.len(),
    decreases s.len() - i,
{
    if 0 <= i < s.len() {
        lemma_content_start_bounds(s, i + 1, true);
        lemma_content_start_bounds(s, i + 1, false);
    }
}

/// Where the content starts in a text behind a prefix `p`.
proof fn lemma_content_start_shift(p: Seq<char>, c: Seq<char>, j: int, in_comment: bool)
    requires
        0 <= j <= c.len(),
    ensures
        content_start(p + c, p.len() + j, in_comment) == match content_start(c, j, in_comment) {
            Some(k) => Some(p.len() + k),
            None => None,
        },
    decreases c.len() - j,
{
    if j < c.len() {
        assert((p + c)[p.len() + j] == c[j]);
        let next = if in_comment {
            c[j] != '\n'
        } else if is_white_space(c[j]) {
            false
        } else {
            true
        };
        lemma_content_start_shift(p, c, j + 1, next);
    }
}

/// Scanning past a prefix of blank and comment lines that ends with a line
/// break reaches the text behind it as a fresh line.
proof fn lemma_content_start_skip(p: Seq<char>, c: Seq<char>, i: int, in_comment: bool)
    requires
        0 <= i <= p.len(),
        content_start(p, i, in_comment) is None,
        i == p.len() ==> !in_comment,
        p.len() > 0 ==> p.last() == '\n',
    ensures
        content_start(p + c, i, in_comment) == match content_start(c, 0, false) {
            Some(k) => Some(p.len() + k),
            None => None,
        },
    decreases p.len() - i,
{
    if i == p.len() {
        lemma_content_start_shift(p, c, 0, false);
        assert(p.len() + 0 == i);
    } else {
        assert((p + c)[i] == p[i]);
        if i + 1 == p.len() {
            assert(p[i] == p.last());
        }
        if in_comment {
            lemma_content_start_skip(p, c, i + 1, p[i] != '\n');
        } else if is_white_space(p[i]) {
            lemma_content_start_skip(p, c, i + 1, false);
        } else if p[i] == '#' {
            lemma_content_start_skip(p, c, i + 1, true);
        }
    }
}

/// Leading blank and comment lines do not change a subscription: its
/// content is that of the rest, and so is whether normalising it panics.
/// As [`try_normalize_subscription_content`] returns `Some` exactly where
/// normalising does not panic, and then the empty text, it gives the same
/// result on `p + c` as on `c`, whether or not `c` panics.
pub proof fn lemma_leading_comment_lines_ignored(p: Seq<char>, c: Seq<char>)
    requires
        content_start(p, 0, false) is None,
        p.len() > 0 ==> p.last() == '\n',
    ensures
        subscription_body(p + c) == subscription_body(c),
        normalizes_without_panic(p + c) == normalizes_without_panic(c),
{
    lemma_content_start_skip(p, c, 0, false);
    lemma_content_start_bounds(c, 0, false);
    if let Some(k) = content_start(c, 0, false) {
        assert((p + c).skip(p.len() + k) =~= c.skip(k));
    }
}

fn content_start_exec(s: &Vec<char>) -> (r: Option<usize>)
    ensures
        match r {
            Some(i) => content_start(s@, 0, false) == Some(i as int) && i < s@.len(),
            None => content_start(s@, 0, false) is None,
        },
{
    let mut i: usize = 0;
    let mut in_comment = false;
    while i < s.len()
        invariant
            i <= s@.len(),
            content_start(s@, 0, false) == content_start(s@, i as int, in_comment),
        decreases s@.len() - i,
    {
        let c = s[i];
        if in_comment {
            in_comment = c != '\n';
        } else if char_is_whitespace(c) {
        } else if c == '#' {
            in_comment = true;
        } else {
            return Some(i);
        }
        i = i + 1;
    }
    None
}

/// Drops the leading blank and comment lines, normalises the `extra=`
/// parameters and then re-splits the text into links. Returns `None`
/// exactly where normalising the extras panics.
///
/// Every chunk fails the link re-splitting (see
/// [`crate::lines::normalize_lines`]), so the normalised text is empty.
pub fn try_normalize_subscription_content(content: &str) -> (r: Option<String>)
    ensures
        r is Some <==> normalizes_without_panic(content@),
        r matches Some(t) ==> t@ == Seq::<char>::empty(),
{
    let chars = str_chars(content);
    let start = match content_start_exec(&chars) {
        None => {
            return Some(String::new());
        },
        Some(i) => i,
    };
    let body = copy_range(&chars, start, chars.len());
    assert(body@ =~= content@.skip(start as int));
    let body_text = string_from_chars(body.as_slice());
    match try_normalize_extras(body_text.as_str()) {
        None => None,
        Some((_done, _fail, extras)) => {
            let (_done, _fail, lines) = normalize_lines(extras.as_str());
            Some(lines)
        },
    }
}

/// [`try_normalize_subscription_content`] on a text where it does not panic:
/// the normalised content, which is always empty.
pub fn normalize_subscription_content(content: &str) -> (r: String)
    requires
        normalizes_without_panic(content@),
    ensures
        r@ == Seq::<char>::empty(),
{
    match try_normalize_subscription_content(content) {
        Some(t) => t,
        None => String::new(),
    }
}

} // verus!
