//! The lexer of extra parameters: the tokens `{`, `}`, `,`, keys (`name:`)
//! and key-value tuples, with blanks, `+` and `.0` skipped. At each position
//! the longest match wins; a boolean value wins over a text value of the
//! same length.

use vstd::prelude::*;
use crate::text::{char_is_whitespace, is_white_space, str_chars};
use crate::json::{Json, JsonValue, decimal_text, push_decimal};
use crate::xlex::{key_value_pair, has_kv_separator, kv_split_index, last_index, first_index,
    number_value, number_from, key_value_split, copy_range};

verus! {

/// A token of the extra-parameter lexer.
pub enum ParamToken {
    Close,
    Begin,
    Comma,
    Tuple(Seq<char>, Json),
    Param(Seq<char>),
}

/// What the lexer does at a position: reach the end, skip up to an index,
/// emit a token ending at an index, fail to match, or panic in a token's
/// conversion.
pub enum LexStep {
    End,
    Skip(int),
    Token(ParamToken, int),
    Error,
    Panic,
}

/// A token as the program holds it.
pub enum ExtraParam {
    Close,
    Begin,
    Comma,
    Tuple(Vec<char>, JsonValue),
    Param(Vec<char>),
}

impl View for ExtraParam {
    type V = ParamToken;

    open spec fn view(&self) -> ParamToken {
        match self {
            ExtraParam::Close => ParamToken::Close,
            ExtraParam::Begin => ParamToken::Begin,
            ExtraParam::Comma => ParamToken::Comma,
            ExtraParam::Tuple(k, v) => ParamToken::Tuple(k@, v@),
            ExtraParam::Param(k) => ParamToken::Param(k@),
        }
    }
}

/// A lexer step as the program holds it.
pub enum LexResult {
    End,
    Skip(usize),
    Token(ExtraParam, usize),
    Error,
    Panic,
}

impl View for LexResult {
    type V = LexStep;

    open spec fn view(&self) -> LexStep {
        match self {
            LexResult::End => LexStep::End,
            LexResult::Skip(e) => LexStep::Skip(*e as int),
            LexResult::Token(t, e) => LexStep::Token(t@, *e as int),
            LexResult::Error => LexStep::Error,
            LexResult::Panic => LexStep::Panic,
        }
    }
}

/// `[A-Za-z_-]`
pub open spec fn is_ident(c: char) -> bool {
    ('A' <= c <= 'Z') || ('a' <= c <= 'z') || c == '_' || c == '-'
}

/// `[[:space:]]`: ASCII blanks.
pub open spec fn is_ascii_space(c: char) -> bool {
    ('\t' <= c <= '\r') || c == ' '
}

/// `[\s\+]`
pub open spec fn is_sep_space(c: char) -> bool {
    is_white_space(c) || c == '+'
}

pub open spec fn is_digit_char(c: char) -> bool {
    '0' <= c <= '9'
}

pub open spec fn ident_end(s: Seq<char>, i: int) -> int
    decreases s.len() - i,
{
    if 0 <= i < s.len() && is_ident(s[i]) {
        ident_end(s, i + 1)
    } else {
        i
    }
}

pub open spec fn ascii_space_end(s: Seq<char>, i: int) -> int
    decreases s.len() - i,
{
    if 0 <= i < s.len() && is_ascii_space(s[i]) {
        ascii_space_end(s, i + 1)
    } else {
        i
    }
}

pub open spec fn sep_space_end(s: Seq<char>, i: int) -> int
    decreases s.len() - i,
{
    if 0 <= i < s.len() && is_sep_space(s[i]) {
        sep_space_end(s, i + 1)
    } else {
        i
    }
}

pub open spec fn digit_end(s: Seq<char>, i: int) -> int
    decreases s.len() - i,
{
    if 0 <= i < s.len() && is_digit_char(s[i]) {
        digit_end(s, i + 1)
    } else {
        i
    }
}

/// First index at or after `i` holding `q`, or `s.len()`.
pub open spec fn quote_close(s: Seq<char>, i: int, q: char) -> int
    decreases s.len() - i,
{
    if i >= s.len() {
        s.len() as int
    } else if 0 <= i && s[i] == q {
        i
    } else {
        quote_close(s, i + 1, q)
    }
}

/// End of a parameter at `p`: `[A-Za-z_-]+`, `'[^']+'` or `"[^"]+"`.
pub open spec fn param_end(s: Seq<char>, p: int) -> Option<int> {
    if p < 0 || p >= s.len() {
        None
    } else if is_ident(s[p]) {
        Some(ident_end(s, p))
    } else if s[p] == '\'' || s[p] == '"' {
        let j = quote_close(s, p + 1, s[p]);
        if p + 1 < j < s.len() {
            Some(j + 1)
        } else {
            None
        }
    } else {
        None
    }
}

/// Index of the `:` or `=` of a key at `p`: a parameter, `[\s\+]*`, then `:` or `=`.
pub open spec fn key_sep(s: Seq<char>, p: int) -> Option<int> {
    match param_end(s, p) {
        Some(a) => {
            let b = sep_space_end(s, a);
            if b < s.len() && (s[b] == ':' || s[b] == '=') {
                Some(b)
            } else {
                None
            }
        },
        None => None,
    }
}

/// End of a key at `p`: its `:` or `=` followed by `[\s\+]*`.
pub open spec fn key_end(s: Seq<char>, p: int) -> Option<int> {
    match key_sep(s, p) {
        Some(b) => Some(sep_space_end(s, b + 1)),
        None => None,
    }
}

/// End of a number at `e`: `0`, or `[1-9][0-9]*` with an optional `.0`.
pub open spec fn number_end(s: Seq<char>, e: int) -> Option<int> {
    if e < 0 || e >= s.len() {
        None
    } else if s[e] == '0' {
        Some(e + 1)
    } else if '1' <= s[e] <= '9' {
        let d = digit_end(s, e);
        if s.len() - d >= 2 && s[d] == '.' && s[d + 1] == '0' {
            Some(d + 2)
        } else {
            Some(d)
        }
    } else {
        None
    }
}

/// End of a range at `e`: a number, `-`, a number.
pub open spec fn range_end(s: Seq<char>, e: int) -> Option<int> {
    match number_end(s, e) {
        Some(u) => if u < s.len() && s[u] == '-' {
            number_end(s, u + 1)
        } else {
            None
        },
        None => None,
    }
}

/// `s` holds `w` at `e`.
pub open spec fn word_at(s: Seq<char>, e: int, w: Seq<char>) -> bool {
    0 <= e && e + w.len() <= s.len() && s.subrange(e, e + w.len()) == w
}

/// Length of the boolean word at `e` (`[Ff]alse`, `[Tt]rue`, `null`, `None`), or 0.
pub open spec fn bool_word_len(s: Seq<char>, e: int) -> int {
    if word_at(s, e, "False"@) || word_at(s, e, "false"@) {
        5
    } else if word_at(s, e, "True"@) || word_at(s, e, "true"@) || word_at(s, e, "null"@)
        || word_at(s, e, "None"@) {
        4
    } else {
        0
    }
}

/// ASCII upper-case letters lowered; other characters kept.
pub open spec fn ascii_lower(c: char) -> char {
    if 'A' <= c <= 'Z' {
        ((c as u32) + 32) as char
    } else {
        c
    }
}

/// `t.to_lowercase() == w` for an ASCII lower-case word `w`.
pub open spec fn lower_eq(t: Seq<char>, w: Seq<char>) -> bool {
    t.len() == w.len() && forall|i: int| 0 <= i < t.len() ==> ascii_lower(#[trigger] t[i]) == w[i]
}

/// The value a boolean token stands for.
pub open spec fn bool_value(raw: Seq<char>) -> Option<Json> {
    if lower_eq(raw, "false"@) {
        Some(Json::Bool(false))
    } else if lower_eq(raw, "true"@) {
        Some(Json::Bool(true))
    } else if lower_eq(raw, "null"@) || lower_eq(raw, "none"@) {
        Some(Json::Null)
    } else {
        None
    }
}

/// A range written low to high.
pub open spec fn range_text(l: u64, r: u64) -> Seq<char> {
    if l < r {
        decimal_text(l as nat) + seq!['-'] + decimal_text(r as nat)
    } else {
        decimal_text(r as nat) + seq!['-'] + decimal_text(l as nat)
    }
}

/// A key token: its value part must be empty.
pub open spec fn key_step(t: Seq<char>, end: int) -> LexStep {
    let (k, raw) = key_value_pair(t);
    if raw.len() == 0 {
        LexStep::Token(ParamToken::Param(k), end)
    } else {
        LexStep::Panic
    }
}

/// A key with a number.
pub open spec fn const_step(t: Seq<char>, end: int) -> LexStep {
    let (k, raw) = key_value_pair(t);
    match number_value(raw) {
        Some(n) => LexStep::Token(ParamToken::Tuple(k, Json::Number(n)), end),
        None => LexStep::Panic,
    }
}

/// A key with a range, split at the value's first `-`.
pub open spec fn range_step(t: Seq<char>, end: int) -> LexStep {
    let (k, raw) = key_value_pair(t);
    let m = first_index(raw, '-', 0);
    if m >= raw.len() {
        LexStep::Panic
    } else {
        match (number_value(raw.take(m)), number_value(raw.skip(m + 1))) {
            (Some(l), Some(r)) => LexStep::Token(ParamToken::Tuple(k, Json::Text(range_text(l, r))), end),
            _ => LexStep::Panic,
        }
    }
}

/// A key with a boolean or null.
pub open spec fn bool_step(t: Seq<char>, end: int) -> LexStep {
    let (k, raw) = key_value_pair(t);
    match bool_value(raw) {
        Some(v) => LexStep::Token(ParamToken::Tuple(k, v), end),
        None => LexStep::Panic,
    }
}

/// A key with a text value.
pub open spec fn text_step(t: Seq<char>, end: int) -> LexStep {
    let (k, raw) = key_value_pair(t);
    LexStep::Token(ParamToken::Tuple(k, Json::Text(raw)), end)
}

/// The lexer at position `p` of `s`.
pub open spec fn lex_at(s: Seq<char>, p: int) -> LexStep {
    if p >= s.len() {
        LexStep::End
    } else {
        let c = s[p];
        if is_ascii_space(c) {
            LexStep::Skip(ascii_space_end(s, p))
        } else if c == '+' {
            LexStep::Skip(p + 1)
        } else if c == '.' {
            if p + 1 < s.len() && s[p + 1] == '0' {
                LexStep::Skip(p + 2)
            } else {
                LexStep::Error
            }
        } else if c == '{' {
            LexStep::Token(ParamToken::Begin, p + 1)
        } else if c == '}' {
            LexStep::Token(ParamToken::Close, p + 1)
        } else if c == ',' {
            LexStep::Token(ParamToken::Comma, p + 1)
        } else {
            match key_end(s, p) {
                None => LexStep::Error,
                Some(e) => {
                    let w = bool_word_len(s, e);
                    if range_end(s, e) is Some {
                        range_step(s.subrange(p, range_end(s, e)->0), range_end(s, e)->0)
                    } else if number_end(s, e) is Some {
                        const_step(s.subrange(p, number_end(s, e)->0), number_end(s, e)->0)
                    } else if w > 0 && param_end(s, e) == Some(e + w) {
                        bool_step(s.subrange(p, e + w), e + w)
                    } else if param_end(s, e) is Some {
                        text_step(s.subrange(p, param_end(s, e)->0), param_end(s, e)->0)
                    } else {
                        key_step(s.subrange(p, e), e)
                    }
                },
            }
        }
    }
}

fn ident_char(c: char) -> (b: bool)
    ensures
        b == is_ident(c),
{
    ('A' <= c && c <= 'Z') || ('a' <= c && c <= 'z') || c == '_' || c == '-'
}

fn ascii_space(c: char) -> (b: bool)
    ensures
        b == is_ascii_space(c),
{
    ('\t' <= c && c <= '\r') || c == ' '
}

fn sep_space(c: char) -> (b: bool)
    ensures
        b == is_sep_space(c),
{
    char_is_whitespace(c) || c == '+'
}

fn ident_end_exec(s: &Vec<char>, i: usize) -> (r: usize)
    requires
        i <= s@.len(),
    ensures
        r == ident_end(s@, i as int),
        i <= r <= s@.len(),
        i < s@.len() && is_ident(s@[i as int]) ==> i < r,
{
    let mut j = i;
    while j < s.len() && ident_char(s[j])
        invariant
            i <= j <= s@.len(),
            ident_end(s@, i as int) == ident_end(s@, j as int),
        decreases s@.len() - j,
    {
        j = j + 1;
    }
    j
}

fn ascii_space_end_exec(s: &Vec<char>, i: usize) -> (r: usize)
    requires
        i <= s@.len(),
    ensures
        r == ascii_space_end(s@, i as int),
        i <= r <= s@.len(),
        i < s@.len() && is_ascii_space(s@[i as int]) ==> i < r,
{
    let mut j = i;
    while j < s.len() && ascii_space(s[j])
        invariant
            i <= j <= s@.len(),
            ascii_space_end(s@, i as int) == ascii_space_end(s@, j as int),
        decreases s@.len() - j,
    {
        j = j + 1;
    }
    j
}

fn sep_space_end_exec(s: &Vec<char>, i: usize) -> (r: usize)
    requires
        i <= s@.len(),
    ensures
        r == sep_space_end(s@, i as int),
        i <= r <= s@.len(),
{
    let mut j = i;
    while j < s.len() && sep_space(s[j])
        invariant
            i <= j <= s@.len(),
            sep_space_end(s@, i as int) == sep_space_end(s@, j as int),
        decreases s@.len() - j,
    {
        j = j + 1;
    }
    j
}

fn digit_end_exec(s: &Vec<char>, i: usize) -> (r: usize)
    requires
        i <= s@.len(),
    ensures
        r == digit_end(s@, i as int),
        i <= r <= s@.len(),
        i < s@.len() && is_digit_char(s@[i as int]) ==> i < r,
{
    let mut j = i;
    while j < s.len() && '0' <= s[j] && s[j] <= '9'
        invariant
            i <= j <= s@.len(),
            digit_end(s@, i as int) == digit_end(s@, j as int),
        decreases s@.len() - j,
    {
        j = j + 1;
    }
    j
}

fn quote_close_exec(s: &Vec<char>, i: usize, q: char) -> (r: usize)
    requires
        i <= s@.len(),
    ensures
        r == quote_close(s@, i as int, q),
        i <= r <= s@.len(),
{
    let mut j = i;
    while j < s.len() && s[j] != q
        invariant
            i <= j <= s@.len(),
            quote_close(s@, i as int, q) == quote_close(s@, j as int, q),
        decreases s@.len() - j,
    {
        j = j + 1;
    }
    j
}

fn param_end_exec(s: &Vec<char>, p: usize) -> (r: Option<usize>)
    requires
        p <= s@.len(),
    ensures
        r matches Some(e) ==> param_end(s@, p as int) == Some(e as int) && p < e <= s@.len(),
        r is None ==> param_end(s@, p as int) is None,
{
    if p >= s.len() {
        None
    } else if ident_char(s[p]) {
        Some(ident_end_exec(s, p))
    } else if s[p] == '\'' || s[p] == '"' {
        let j = quote_close_exec(s, p + 1, s[p]);
        if p + 1 < j && j < s.len() {
            Some(j + 1)
        } else {
            None
        }
    } else {
        None
    }
}

/// Index of the separator and end of a key at `p`.
fn key_exec(s: &Vec<char>, p: usize) -> (r: Option<(usize, usize)>)
    requires
        p <= s@.len(),
    ensures
        r matches Some((b, e)) ==> key_sep(s@, p as int) == Some(b as int) && key_end(s@, p as int)
            == Some(e as int) && p <= b < e <= s@.len() && (s@[b as int] == ':' || s@[b as int]
            == '='),
        r is None ==> key_end(s@, p as int) is None,
{
    match param_end_exec(s, p) {
        Some(a) => {
            let b = sep_space_end_exec(s, a);
            if b < s.len() && (s[b] == ':' || s[b] == '=') {
                Some((b, sep_space_end_exec(s, b + 1)))
            } else {
                None
            }
        },
        None => None,
    }
}

fn number_end_exec(s: &Vec<char>, e: usize) -> (r: Option<usize>)
    requires
        e <= s@.len(),
    ensures
        r matches Some(u) ==> number_end(s@, e as int) == Some(u as int) && e < u <= s@.len(),
        r is None ==> number_end(s@, e as int) is None,
{
    if e >= s.len() {
        None
    } else if s[e] == '0' {
        Some(e + 1)
    } else if '1' <= s[e] && s[e] <= '9' {
        let d = digit_end_exec(s, e);
        if s.len() - d >= 2 && s[d] == '.' && s[d + 1] == '0' {
            Some(d + 2)
        } else {
            Some(d)
        }
    } else {
        None
    }
}

fn range_end_exec(s: &Vec<char>, e: usize) -> (r: Option<usize>)
    requires
        e <= s@.len(),
    ensures
        r matches Some(u) ==> range_end(s@, e as int) == Some(u as int) && e < u <= s@.len(),
        r is None ==> range_end(s@, e as int) is None,
{
    match number_end_exec(s, e) {
        Some(u) => if u < s.len() && s[u] == '-' {
            number_end_exec(s, u + 1)
        } else {
            None
        },
        None => None,
    }
}

pub fn word_at_exec(s: &Vec<char>, e: usize, w: &Vec<char>) -> (b: bool)
    requires
        e <= s@.len(),
    ensures
        b == word_at(s@, e as int, w@),
{
    if w.len() > s.len() - e {
        return false;
    }
    let mut k: usize = 0;
    while k < w.len()
        invariant
            k <= w@.len(),
            e + w@.len() <= s.len(),
            forall|j: int| 0 <= j < k ==> s@[e + j] == w@[j],
        decreases w@.len() - k,
    {
        if s[e + k] != w[k] {
            assert(s@.subrange(e as int, e + w@.len())[k as int] != w@[k as int]);
            return false;
        }
        k = k + 1;
    }
    assert(s@.subrange(e as int, e + w@.len()) =~= w@);
    true
}

fn bool_word_len_exec(s: &Vec<char>, e: usize) -> (r: usize)
    requires
        e <= s@.len(),
    ensures
        r == bool_word_len(s@, e as int),
        r > 0 ==> e + r <= s@.len(),
{
    proof {
        reveal_strlit("False");
        reveal_strlit("false");
        reveal_strlit("True");
        reveal_strlit("true");
        reveal_strlit("null");
        reveal_strlit("None");
    }
    if word_at_exec(s, e, &str_chars("False")) || word_at_exec(s, e, &str_chars("false")) {
        5
    } else if word_at_exec(s, e, &str_chars("True")) || word_at_exec(s, e, &str_chars("true"))
        || word_at_exec(s, e, &str_chars("null")) || word_at_exec(s, e, &str_chars("None")) {
        4
    } else {
        0
    }
}

fn lower(c: char) -> (r: char)
    ensures
        r == ascii_lower(c),
{
    if 'A' <= c && c <= 'Z' {
        ((c as u8) + 32) as char
    } else {
        c
    }
}

fn lower_eq_exec(t: &Vec<char>, w: &Vec<char>) -> (b: bool)
    ensures
        b == lower_eq(t@, w@),
{
    if t.len() != w.len() {
        return false;
    }
    let mut i: usize = 0;
    while i < t.len()
        invariant
            i <= t@.len(),
            t@.len() == w@.len(),
            forall|j: int| 0 <= j < i ==> ascii_lower(#[trigger] t@[j]) == w@[j],
        decreases t@.len() - i,
    {
        if lower(t[i]) != w[i] {
            return false;
        }
        i = i + 1;
    }
    true
}

fn bool_value_exec(raw: &Vec<char>) -> (r: Option<JsonValue>)
    ensures
        match r {
            Some(v) => bool_value(raw@) == Some(v@),
            None => bool_value(raw@) is None,
        },
{
    if lower_eq_exec(raw, &str_chars("false")) {
        Some(JsonValue::Bool(false))
    } else if lower_eq_exec(raw, &str_chars("true")) {
        Some(JsonValue::Bool(true))
    } else if lower_eq_exec(raw, &str_chars("null")) || lower_eq_exec(raw, &str_chars("none")) {
        Some(JsonValue::Null)
    } else {
        None
    }
}

proof fn lemma_last_index_at_least(t: Seq<char>, c: char, i: int, j: int)
    requires
        0 <= i < j <= t.len(),
        t[i] == c,
    ensures
        last_index(t, c, j) >= i,
    decreases j,
{
    if t[j - 1] != c {
        lemma_last_index_at_least(t, c, i, j - 1);
    }
}

/// A token `s[p..end]` that holds its key's separator.
proof fn lemma_token_has_separator(s: Seq<char>, p: int, b: int, end: int)
    requires
        0 <= p <= b < end <= s.len(),
        s[b] == ':' || s[b] == '=',
    ensures
        has_kv_separator(s.subrange(p, end)),
{
    let t = s.subrange(p, end);
    assert(t[b - p] == s[b]);
    if s[b] == ':' {
        lemma_last_index_at_least(t, ':', b - p, t.len() as int);
    } else if last_index(t, ':', t.len() as int) < 0 {
        lemma_last_index_at_least(t, '=', b - p, t.len() as int);
    }
}

fn key_token(t: &Vec<char>, end: usize) -> (r: LexResult)
    requires
        has_kv_separator(t@),
    ensures
        r@ == key_step(t@, end as int),
{
    let (k, raw) = key_value_split(t);
    if raw.len() == 0 {
        LexResult::Token(ExtraParam::Param(k), end)
    } else {
        LexResult::Panic
    }
}

fn const_token(t: &Vec<char>, end: usize) -> (r: LexResult)
    requires
        has_kv_separator(t@),
    ensures
        r@ == const_step(t@, end as int),
{
    let (k, raw) = key_value_split(t);
    assert(raw@.subrange(0, raw@.len() as int) =~= raw@);
    match number_from(&raw, 0, raw.len()) {
        Some(n) => LexResult::Token(ExtraParam::Tuple(k, JsonValue::Number(n)), end),
        None => LexResult::Panic,
    }
}

fn range_token(t: &Vec<char>, end: usize) -> (r: LexResult)
    requires
        has_kv_separator(t@),
    ensures
        r@ == range_step(t@, end as int),
{
    let (k, raw) = key_value_split(t);
    let mut m: usize = 0;
    while m < raw.len() && raw[m] != '-'
        invariant
            m <= raw@.len(),
            first_index(raw@, '-', 0) == first_index(raw@, '-', m as int),
        decreases raw@.len() - m,
    {
        m = m + 1;
    }
    if m >= raw.len() {
        return LexResult::Panic;
    }
    assert(raw@.subrange(0, m as int) =~= raw@.take(m as int));
    assert(raw@.subrange(m + 1, raw@.len() as int) =~= raw@.skip(m + 1));
    let l = number_from(&raw, 0, m);
    let r = number_from(&raw, m + 1, raw.len());
    match (l, r) {
        (Some(l), Some(r)) => {
            let mut text: Vec<char> = Vec::new();
            if l < r {
                push_decimal(&mut text, l);
                text.push('-');
                push_decimal(&mut text, r);
            } else {
                push_decimal(&mut text, r);
                text.push('-');
                push_decimal(&mut text, l);
            }
            assert(text@ =~= range_text(l, r));
            LexResult::Token(ExtraParam::Tuple(k, JsonValue::Text(text)), end)
        },
        _ => LexResult::Panic,
    }
}

fn bool_token(t: &Vec<char>, end: usize) -> (r: LexResult)
    requires
        has_kv_separator(t@),
    ensures
        r@ == bool_step(t@, end as int),
{
    let (k, raw) = key_value_split(t);
    match bool_value_exec(&raw) {
        Some(v) => LexResult::Token(ExtraParam::Tuple(k, v), end),
        None => LexResult::Panic,
    }
}

fn text_token(t: &Vec<char>, end: usize) -> (r: LexResult)
    requires
        has_kv_separator(t@),
    ensures
        r@ == text_step(t@, end as int),
{
    let (k, raw) = key_value_split(t);
    LexResult::Token(ExtraParam::Tuple(k, JsonValue::Text(raw)), end)
}

/// The lexer at position `p` of `s`.
pub fn lex_next(s: &Vec<char>, p: usize) -> (r: LexResult)
    requires
        p <= s@.len(),
    ensures
        r@ == lex_at(s@, p as int),
        r matches LexResult::Skip(e) ==> p < e <= s@.len(),
        r matches LexResult::Token(_, e) ==> p < e <= s@.len(),
{
    if p >= s.len() {
        return LexResult::End;
    }
    let c = s[p];
    if ascii_space(c) {
        LexResult::Skip(ascii_space_end_exec(s, p))
    } else if c == '+' {
        LexResult::Skip(p + 1)
    } else if c == '.' {
        if p + 1 < s.len() && s[p + 1] == '0' {
            LexResult::Skip(p + 2)
        } else {
            LexResult::Error
        }
    } else if c == '{' {
        LexResult::Token(ExtraParam::Begin, p + 1)
    } else if c == '}' {
        LexResult::Token(ExtraParam::Close, p + 1)
    } else if c == ',' {
        LexResult::Token(ExtraParam::Comma, p + 1)
    } else {
        match key_exec(s, p) {
            None => LexResult::Error,
            Some((b, e)) => {
                let w = bool_word_len_exec(s, e);
                let pe = param_end_exec(s, e);
                if let Some(u) = range_end_exec(s, e) {
                    proof {
                        lemma_token_has_separator(s@, p as int, b as int, u as int);
                    }
                    range_token(&copy_range(s, p, u), u)
                } else if let Some(u) = number_end_exec(s, e) {
                    proof {
                        lemma_token_has_separator(s@, p as int, b as int, u as int);
                    }
                    const_token(&copy_range(s, p, u), u)
                } else if w > 0 && pe == Some(e + w) {
                    proof {
                        lemma_token_has_separator(s@, p as int, b as int, (e + w) as int);
                    }
                    bool_token(&copy_range(s, p, e + w), e + w)
                } else if let Some(u) = pe {
                    proof {
                        lemma_token_has_separator(s@, p as int, b as int, u as int);
                    }
                    text_token(&copy_range(s, p, u), u)
                } else {
                    proof {
                        lemma_token_has_separator(s@, p as int, b as int, e as int);
                    }
                    key_token(&copy_range(s, p, e), e)
                }
            },
        }
    }
}

/// `raw` spells `w` when ASCII case is ignored.
pub open spec fn spells_ignoring_case(raw: Seq<char>, w: Seq<char>) -> bool {
    &&& raw.len() == w.len()
    &&& forall|i: int|
        0 <= i < raw.len() ==> #[trigger] raw[i] == w[i] || (raw[i] as u32) + 32 == (w[i] as u32)
}

/// A boolean or null value is read, ignoring ASCII case, as the word it
/// spells: `false` as false, `true` as true, `null` and `none` as null; and
/// only those words are read as such.
pub proof fn lemma_bool_value_is_the_word(raw: Seq<char>)
    ensures
        spells_ignoring_case(raw, "false"@) ==> bool_value(raw) == Some(Json::Bool(false)),
        spells_ignoring_case(raw, "true"@) ==> bool_value(raw) == Some(Json::Bool(true)),
        spells_ignoring_case(raw, "null"@) || spells_ignoring_case(raw, "none"@) ==> bool_value(raw)
            == Some(Json::Null),
        bool_value(raw) == Some(Json::Bool(false)) ==> spells_ignoring_case(raw, "false"@),
        bool_value(raw) == Some(Json::Bool(true)) ==> spells_ignoring_case(raw, "true"@),
        bool_value(raw) == Some(Json::Null) ==> spells_ignoring_case(raw, "null"@)
            || spells_ignoring_case(raw, "none"@),
{
    reveal_strlit("false");
    reveal_strlit("true");
    reveal_strlit("null");
    reveal_strlit("none");
    lemma_lower_eq_spells(raw, "false"@);
    lemma_lower_eq_spells(raw, "true"@);
    lemma_lower_eq_spells(raw, "null"@);
    lemma_lower_eq_spells(raw, "none"@);
    // The words differ in their first letter (or length), whatever the case.
    if raw.len() > 0 {
        let c = raw[0];
        if spells_ignoring_case(raw, "false"@) {
            assert(c == 'f' || c == 'F');
        }
        if spells_ignoring_case(raw, "true"@) {
            assert(c == 't' || c == 'T');
        }
        if spells_ignoring_case(raw, "null"@) || spells_ignoring_case(raw, "none"@) {
            assert(c == 'n' || c == 'N');
        }
    }
}

/// For a word of lower-case letters, `lower_eq` is spelling it ignoring case.
proof fn lemma_lower_eq_spells(raw: Seq<char>, w: Seq<char>)
    requires
        forall|i: int| 0 <= i < w.len() ==> 'a' <= #[trigger] w[i] <= 'z',
    ensures
        lower_eq(raw, w) == spells_ignoring_case(raw, w),
{
    if raw.len() == w.len() {
        assert forall|i: int| 0 <= i < raw.len() implies (ascii_lower(#[trigger] raw[i]) == w[i] <==> (raw[i]
            == w[i] || (raw[i] as u32) + 32 == (w[i] as u32))) by {
            let c = raw[i];
            if 'A' <= c <= 'Z' {
                assert((((c as u32) + 32) as char) as u32 == (c as u32) + 32);
            }
        }
    }
}

} // verus!
