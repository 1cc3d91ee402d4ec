//! What the extra-parameter lexer makes of a matched token: the split into
//! key and value, and the conversion of the value.

use vstd::prelude::*;
use vstd::string::StrSliceExecFns;
use crate::text::str_chars;
use crate::json::{Json, JsonValue, decimal_text, push_decimal};

verus! {

/// Characters trimmed from both ends of keys and values.
pub open spec fn is_trim_char(c: char) -> bool {
    c == '+' || c == ' ' || c == '\t' || c == '\n' || c == '\r' || c == '"' || c == '\''
}

/// First index at or after `i` that holds a character that is not trimmed.
pub open spec fn trim_front(t: Seq<char>, i: int) -> int
    decreases t.len() - i,
{
    if 0 <= i < t.len() && is_trim_char(t[i]) {
        trim_front(t, i + 1)
    } else {
        i
    }
}

/// End of `t[lo..j]` once trimmed characters are dropped from its back.
pub open spec fn trim_back(t: Seq<char>, j: int, lo: int) -> int
    decreases j - lo,
{
    if lo < j <= t.len() && is_trim_char(t[j - 1]) {
        trim_back(t, j - 1, lo)
    } else {
        j
    }
}

/// `str::trim_matches` with the trimmed characters.
pub open spec fn trimmed(t: Seq<char>) -> Seq<char> {
    let a = trim_front(t, 0);
    t.subrange(a, trim_back(t, t.len() as int, a))
}

/// Index of the last `c` in `t[..j]`, or -1.
pub open spec fn last_index(t: Seq<char>, c: char, j: int) -> int
    decreases j,
{
    if j <= 0 {
        -1
    } else if t[j - 1] == c {
        j - 1
    } else {
        last_index(t, c, j - 1)
    }
}

/// Index of the first `c` in `t[i..]`, or `t.len()`.
pub open spec fn first_index(t: Seq<char>, c: char, i: int) -> int
    decreases t.len() - i,
{
    if i >= t.len() {
        t.len() as int
    } else if t[i] == c {
        i
    } else {
        first_index(t, c, i + 1)
    }
}

/// Where a token is split into key and value: its last `:`, or, if it has
/// none, its last `=` (`rsplit_once`).
pub open spec fn kv_split_index(t: Seq<char>) -> int {
    let c = last_index(t, ':', t.len() as int);
    if c >= 0 {
        c
    } else {
        last_index(t, '=', t.len() as int)
    }
}

pub open spec fn has_kv_separator(t: Seq<char>) -> bool {
    kv_split_index(t) >= 0
}

/// The trimmed key and value of a token.
pub open spec fn key_value_pair(t: Seq<char>) -> (Seq<char>, Seq<char>) {
    let k = kv_split_index(t);
    (trimmed(t.take(k)), trimmed(t.skip(k + 1)))
}

pub open spec fn is_digit(c: char) -> bool {
    '0' <= c <= '9'
}

/// Value of a sequence of decimal digits.
pub open spec fn digits_value(d: Seq<char>) -> nat
    decreases d.len(),
{
    if d.len() == 0 {
        0
    } else {
        digits_value(d.drop_last()) * 10 + ((d.last() as u32) - ('0' as u32)) as nat
    }
}

/// Every character of `d` is a decimal digit.
pub open spec fn all_digits(d: Seq<char>) -> bool {
    forall|i: int| 0 <= i < d.len() ==> is_digit(#[trigger] d[i])
}

/// `t` without a leading `+`.
pub open spec fn unsigned_part(t: Seq<char>) -> Seq<char> {
    if t.len() > 0 && t[0] == '+' {
        t.drop_first()
    } else {
        t
    }
}

/// `str::parse::<u64>`: an optional `+`, then one or more decimal digits
/// whose value fits in a `u64`.
pub open spec fn parse_u64(t: Seq<char>) -> Option<u64> {
    let d = unsigned_part(t);
    if d.len() > 0 && all_digits(d) && digits_value(d) <= u64::MAX {
        Some(digits_value(d) as u64)
    } else {
        None
    }
}

/// `t` without a final `.0`.
pub open spec fn strip_dot_zero(t: Seq<char>) -> Seq<char> {
    if t.len() >= 2 && t[t.len() - 2] == '.' && t[t.len() - 1] == '0' {
        t.take(t.len() - 2)
    } else {
        t
    }
}

/// The number a value stands for (`to_number`), if it parses.
pub open spec fn number_value(t: Seq<char>) -> Option<u64> {
    parse_u64(strip_dot_zero(t))
}

proof fn lemma_digits_value_prefix(d: Seq<char>, i: int)
    requires
        0 <= i <= d.len(),
        forall|k: int| 0 <= k < d.len() ==> is_digit(#[trigger] d[k]),
    ensures
        digits_value(d.take(i)) <= digits_value(d),
    decreases d.len() - i,
{
    if i < d.len() {
        lemma_digits_value_prefix(d, i + 1);
        assert(d.take(i + 1).drop_last() =~= d.take(i));
    } else {
        assert(d.take(i) =~= d);
    }
}

/// Bounds `[a, b)` of `t[lo..hi]` trimmed.
fn trim_range(t: &Vec<char>, lo: usize, hi: usize) -> (r: (usize, usize))
    requires
        lo <= hi <= t@.len(),
    ensures
        lo <= r.0 <= r.1 <= hi,
        t@.subrange(r.0 as int, r.1 as int) == trimmed(t@.subrange(lo as int, hi as int)),
{
    let ghost sub = t@.subrange(lo as int, hi as int);
    let mut a = lo;
    while a < hi && is_trim(t[a])
        invariant
            lo <= a <= hi <= t@.len(),
            sub == t@.subrange(lo as int, hi as int),
            trim_front(sub, 0) == trim_front(sub, a - lo),
        decreases hi - a,
    {
        a = a + 1;
    }
    let mut b = hi;
    while b > a && is_trim(t[b - 1])
        invariant
            lo <= a <= b <= hi <= t@.len(),
            sub == t@.subrange(lo as int, hi as int),
            trim_front(sub, 0) == a - lo,
            trim_back(sub, sub.len() as int, a - lo) == trim_back(sub, b - lo, a - lo),
        decreases b - a,
    {
        b = b - 1;
    }
    assert(t@.subrange(a as int, b as int) =~= trimmed(sub));
    (a, b)
}

fn is_trim(c: char) -> (b: bool)
    ensures
        b == is_trim_char(c),
{
    c == '+' || c == ' ' || c == '\t' || c == '\n' || c == '\r' || c == '"' || c == '\''
}

/// Index of the last `c` in `t`, if any.
fn find_last(t: &Vec<char>, c: char) -> (r: Option<usize>)
    ensures
        match r {
            Some(k) => k == last_index(t@, c, t@.len() as int) && k < t@.len(),
            None => last_index(t@, c, t@.len() as int) == -1,
        },
{
    let mut j = t.len();
    while j > 0
        invariant
            j <= t@.len(),
            last_index(t@, c, t@.len() as int) == last_index(t@, c, j as int),
        decreases j,
    {
        if t[j - 1] == c {
            return Some(j - 1);
        }
        j = j - 1;
    }
    None
}

/// Index where `t` splits into key and value.
fn kv_split(t: &Vec<char>) -> (k: usize)
    requires
        has_kv_separator(t@),
    ensures
        k == kv_split_index(t@),
        k < t@.len(),
{
    match find_last(t, ':') {
        Some(k) => k,
        None => match find_last(t, '=') {
            Some(k) => k,
            None => 0,
        },
    }
}

/// Bounds of the key and of the value of token `t`.
fn kv_bounds(t: &Vec<char>) -> (r: (usize, usize, usize, usize))
    requires
        has_kv_separator(t@),
    ensures
        r.0 <= r.1 <= r.2 <= r.3 <= t@.len(),
        t@.subrange(r.0 as int, r.1 as int) == key_value_pair(t@).0,
        t@.subrange(r.2 as int, r.3 as int) == key_value_pair(t@).1,
{
    let n = t.len();
    let k = kv_split(t);
    let (a, b) = trim_range(t, 0, k);
    let (c, d) = trim_range(t, k + 1, t.len());
    assert(t@.subrange(0, k as int) =~= t@.take(k as int));
    assert(t@.subrange(k + 1, t@.len() as int) =~= t@.skip(k + 1));
    (a, b, c, d)
}

pub fn copy_range(t: &Vec<char>, lo: usize, hi: usize) -> (r: Vec<char>)
    requires
        lo <= hi <= t@.len(),
    ensures
        r@ == t@.subrange(lo as int, hi as int),
{
    let mut r: Vec<char> = Vec::new();
    let mut i = lo;
    while i < hi
        invariant
            lo <= i <= hi <= t@.len(),
            r@ == t@.subrange(lo as int, i as int),
        decreases hi - i,
    {
        r.push(t[i]);
        i = i + 1;
        assert(r@ =~= t@.subrange(lo as int, i as int));
    }
    r
}

/// The trimmed key and value of token `t`.
pub fn key_value_split(t: &Vec<char>) -> (r: (Vec<char>, Vec<char>))
    requires
        has_kv_separator(t@),
    ensures
        (r.0@, r.1@) == key_value_pair(t@),
{
    let (a, b, c, d) = kv_bounds(t);
    (copy_range(t, a, b), copy_range(t, c, d))
}

/// Splits `s` at its last `:` (or, lacking one, its last `=`) and trims
/// `+`, whitespace and quotes from both parts.
pub fn to_key_value_pair(s: &str) -> (r: (&str, &str))
    requires
        has_kv_separator(s@),
    ensures
        (r.0@, r.1@) == key_value_pair(s@),
{
    let t = str_chars(s);
    let (a, b, c, d) = kv_bounds(&t);
    (s.substring_char(a, b), s.substring_char(c, d))
}

/// The number in `t[lo..hi]` (`str::parse::<u64>`), if it parses.
fn parse_u64_range(t: &Vec<char>, lo: usize, hi: usize) -> (r: Option<u64>)
    requires
        lo <= hi <= t@.len(),
    ensures
        r == parse_u64(t@.subrange(lo as int, hi as int)),
{
    let ghost sub = t@.subrange(lo as int, hi as int);
    let start = if lo < hi && t[lo] == '+' { lo + 1 } else { lo };
    let ghost d = t@.subrange(start as int, hi as int);
    assert(d =~= unsigned_part(sub));
    if start == hi {
        return None;
    }
    let mut value: u64 = 0;
    let mut overflow = false;
    let mut i = start;
    while i < hi
        invariant
            lo <= start <= i <= hi <= t@.len(),
            d == t@.subrange(start as int, hi as int),
            sub == t@.subrange(lo as int, hi as int),
            d == unsigned_part(sub),
            forall|k: int| start <= k < i ==> is_digit(#[trigger] t@[k]),
            !overflow ==> value == digits_value(t@.subrange(start as int, i as int)),
            overflow ==> digits_value(t@.subrange(start as int, i as int)) > u64::MAX,
        decreases hi - i,
    {
        let c = t[i];
        if !('0' <= c && c <= '9') {
            assert(!is_digit(d[i - start]));
            return None;
        }
        let ghost prev = t@.subrange(start as int, i as int);
        assert(t@.subrange(start as int, i + 1).drop_last() =~= prev);
        let digit = (c as u32 - '0' as u32) as u64;
        if !overflow {
            match value.checked_mul(10) {
                Some(m) => match m.checked_add(digit) {
                    Some(v) => {
                        value = v;
                    },
                    None => {
                        overflow = true;
                    },
                },
                None => {
                    overflow = true;
                },
            }
        } else {
            assert(digits_value(t@.subrange(start as int, i + 1)) >= digits_value(prev)) by (nonlinear_arith)
                requires
                    digits_value(t@.subrange(start as int, i + 1)) == digits_value(prev) * 10
                        + ((t@[i as int] as u32) - ('0' as u32)) as nat,
            ;
        }
        i = i + 1;
    }
    assert(t@.subrange(start as int, hi as int) =~= d);
    if overflow {
        None
    } else {
        Some(value)
    }
}

/// The number a value stands for (`to_number`), if it parses.
pub fn number_from(t: &Vec<char>, lo: usize, hi: usize) -> (r: Option<u64>)
    requires
        lo <= hi <= t@.len(),
    ensures
        r == number_value(t@.subrange(lo as int, hi as int)),
{
    let ghost sub = t@.subrange(lo as int, hi as int);
    if hi - lo >= 2 && t[hi - 2] == '.' && t[hi - 1] == '0' {
        assert(t@.subrange(lo as int, hi - 2) =~= strip_dot_zero(sub));
        parse_u64_range(t, lo, hi - 2)
    } else {
        assert(sub =~= strip_dot_zero(sub));
        parse_u64_range(t, lo, hi)
    }
}

/// Parses `s` (without a final `.0`) as a `u64`.
pub fn to_number(s: &str, err: &str) -> (n: u64)
    requires
        number_value(s@) is Some,
    ensures
        Some(n) == number_value(s@),
{
    let t = str_chars(s);
    assert(t@.subrange(0, t@.len() as int) =~= t@);
    match number_from(&t, 0, t.len()) {
        Some(n) => n,
        None => 0,
    }
}

/// The text written for a number is its decimal representation: one or
/// more digits, with no leading zero unless the number is 0, that read back
/// as the number.
pub proof fn lemma_decimal_text_reads_back(n: nat)
    ensures
        decimal_text(n).len() > 0,
        all_digits(decimal_text(n)),
        digits_value(decimal_text(n)) == n,
        decimal_text(n)[0] == '0' ==> n == 0,
    decreases n,
{
    let t = decimal_text(n);
    if n < 10 {
        assert(t.drop_last().len() == 0);
        assert(digits_value(t.drop_last()) == 0);
        assert(((('0' as u32) + n) as char) as u32 == ('0' as u32) + n);
        assert(t.last() == t[0]);
        assert(digits_value(t) == digits_value(t.drop_last()) * 10 + ((t.last() as u32) - ('0' as u32)) as nat);
    } else {
        let q = n / 10;
        let r = n % 10;
        lemma_decimal_text_reads_back(q);
        let c = (('0' as u32) + r) as char;
        assert(t == decimal_text(q) + seq![c]);
        assert(t.drop_last() =~= decimal_text(q));
        assert(c as u32 == ('0' as u32) + r);
        assert(t[0] == decimal_text(q)[0]);
        assert forall|i: int| 0 <= i < t.len() implies is_digit(#[trigger] t[i]) by {
            if i < t.len() - 1 {
                assert(t[i] == decimal_text(q)[i]);
            }
        }
        assert(t.last() == c);
        assert(digits_value(t) == digits_value(t.drop_last()) * 10 + ((t.last() as u32) - ('0' as u32)) as nat);
        assert(q * 10 + r == n);
    }
}

} // verus!
