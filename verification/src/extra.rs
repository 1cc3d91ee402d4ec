//! Normalisation of `extra=` parameters: the JSON-like object after each
//! `extra=` (plain or percent-encoded) is parsed and replaced by its
//! percent-encoded compact JSON text.

use vstd::prelude::*;
use vstd::utf8::{encode_utf8, valid_utf8, decode_utf8, encode_utf8_valid_utf8, encode_utf8_decode_utf8};
use crate::text::{char_is_whitespace, is_white_space, str_chars, string_from_chars, push_range,
    push_all};
use crate::json::{Json, JsonValue, object_get, object_insert, object_remove, json_text, entries_model,
    find_slot, chars_eq, object_insert_exec, write_json, lemma_entries_model_index, json_ordered,
    lemma_object_insert_ordered, lemma_object_get_ordered, lemma_object_remove_ordered};
use crate::lexer::{LexStep, LexResult, ParamToken, ExtraParam, lex_at, lex_next, word_at, word_at_exec};
use crate::xlex::copy_range;

verus! {

/* ------------------------------------------------------------------ */
/* Percent-encoding (the `urlencoding` crate)                          */
/* ------------------------------------------------------------------ */

/// Bytes that `urlencoding::encode` leaves as they are.
pub open spec fn is_unreserved_byte(b: u8) -> bool {
    ||| 0x30 <= b <= 0x39
    ||| 0x41 <= b <= 0x5a
    ||| 0x61 <= b <= 0x7a
    ||| b == 0x2d
    ||| b == 0x2e
    ||| b == 0x5f
    ||| b == 0x7e
}

/// Upper-case hexadecimal digit.
pub open spec fn hex_upper(d: nat) -> char {
    if d < 10 {
        (('0' as u32) + d) as char
    } else {
        (('A' as u32) + d - 10) as char
    }
}

/// Every byte that is not unreserved written as `%XY`.
pub open spec fn percent_encode(b: Seq<u8>) -> Seq<char>
    decreases b.len(),
{
    if b.len() == 0 {
        seq![]
    } else {
        (if is_unreserved_byte(b[0]) {
            seq![b[0] as char]
        } else {
            seq!['%', hex_upper((b[0] / 16) as nat), hex_upper((b[0] % 16) as nat)]
        }) + percent_encode(b.drop_first())
    }
}

pub open spec fn is_hex_byte(b: u8) -> bool {
    (0x30 <= b <= 0x39) || (0x41 <= b <= 0x46) || (0x61 <= b <= 0x66)
}

pub open spec fn hex_byte_value(b: u8) -> int {
    if b <= 0x39 {
        b - 0x30
    } else if b <= 0x46 {
        b - 0x41 + 10
    } else {
        b - 0x61 + 10
    }
}

/// `%XY` with two hexadecimal digits replaced by that byte; everything else,
/// `+` included, kept.
pub open spec fn percent_decode(b: Seq<u8>) -> Seq<u8>
    decreases b.len(),
{
    if b.len() == 0 {
        seq![]
    } else if b[0] == 0x25 && b.len() >= 3 && is_hex_byte(b[1]) && is_hex_byte(b[2]) {
        seq![(hex_byte_value(b[1]) * 16 + hex_byte_value(b[2])) as u8] + percent_decode(b.skip(3))
    } else {
        seq![b[0]] + percent_decode(b.drop_first())
    }
}

/// What `urlencoding::decode` makes of `t`: the percent-decoded UTF-8 bytes,
/// if they are valid UTF-8.
pub open spec fn url_decoded(t: Seq<char>) -> Option<Seq<char>> {
    let b = percent_decode(encode_utf8(t));
    if valid_utf8(b) {
        Some(decode_utf8(b))
    } else {
        None
    }
}

/// Calls `urlencoding::encode`, which percent-encodes every UTF-8 byte of
/// `s` except ASCII letters, digits and `-._~`, with upper-case hex digits.
#[verifier::external_body]
fn url_encode(s: &str) -> (r: String)
    ensures
        r@ == percent_encode(encode_utf8(s@)),
{
    urlencoding::encode(s).into_owned()
}

/// Calls `urlencoding::decode`, which replaces every `%XY` (two hex digits)
/// by its byte and fails when the bytes are not valid UTF-8.
#[verifier::external_body]
fn url_decode(s: &str) -> (r: Option<String>)
    ensures
        match r {
            Some(d) => url_decoded(s@) == Some(d@),
            None => url_decoded(s@) is None,
        },
{
    match urlencoding::decode(s) {
        Ok(d) => Some(d.into_owned()),
        Err(_) => None,
    }
}

proof fn lemma_encode_utf8_concat(a: Seq<char>, b: Seq<char>)
    ensures
        encode_utf8(a + b) == encode_utf8(a) + encode_utf8(b),
    decreases a.len(),
{
    if a.len() == 0 {
        assert(a + b =~= b);
        assert(encode_utf8(a) + encode_utf8(b) =~= encode_utf8(b));
    } else {
        assert((a + b).drop_first() =~= a.drop_first() + b);
        assert((a + b)[0] == a[0]);
        lemma_encode_utf8_concat(a.drop_first(), b);
        assert(encode_utf8(a + b) =~= encode_utf8(a) + encode_utf8(b));
    }
}

proof fn lemma_ascii_scalar(v: u32)
    requires
        v <= 0x7f,
    ensures
        ((v & 0x7f) as u8) as u32 == v,
        (v & 0x7f) as u8 == v as u8,
{
    assert(((v & 0x7f) as u8) as u32 == v && (v & 0x7f) as u8 == v as u8) by (bit_vector)
        requires
            v <= 0x7f,
    ;
}

/// The UTF-8 encoding of an ASCII character is its code.
proof fn lemma_encode_ascii(c: char)
    requires
        (c as u32) < 0x80,
    ensures
        encode_utf8(seq![c]) == seq![(c as u32) as u8],
{
    lemma_ascii_scalar(c as u32);
    assert(seq![c].drop_first() =~= Seq::<char>::empty());
    assert(encode_utf8(Seq::<char>::empty()) =~= Seq::<u8>::empty());
    assert(encode_utf8(seq![c]) == vstd::utf8::encode_scalar(c as u32) + encode_utf8(seq![c].drop_first()));
    assert(encode_utf8(seq![c]) =~= seq![(c as u32) as u8]);
}

proof fn lemma_hex_upper_round_trip(d: nat)
    requires
        d < 16,
    ensures
        (hex_upper(d) as u32) < 0x80,
        is_hex_byte((hex_upper(d) as u32) as u8),
        hex_byte_value((hex_upper(d) as u32) as u8) == d,
{
}

/// Decoding what `percent_encode` wrote gives the bytes back.
pub proof fn lemma_percent_round_trip(b: Seq<u8>)
    ensures
        percent_decode(encode_utf8(percent_encode(b))) == b,
    decreases b.len(),
{
    if b.len() > 0 {
        let b0 = b[0];
        let rest = percent_encode(b.drop_first());
        lemma_percent_round_trip(b.drop_first());
        let r = encode_utf8(rest);
        if is_unreserved_byte(b0) {
            let head = seq![b0 as char];
            assert(percent_encode(b) == head + rest);
            lemma_encode_utf8_concat(head, rest);
            lemma_encode_ascii(b0 as char);
            let x = seq![b0] + r;
            assert(encode_utf8(percent_encode(b)) =~= x);
            assert(x.drop_first() =~= r);
            assert(percent_decode(x) =~= b);
        } else {
            let h = hex_upper((b0 / 16) as nat);
            let l = hex_upper((b0 % 16) as nat);
            let head = seq!['%', h, l];
            assert(percent_encode(b) == head + rest);
            lemma_encode_utf8_concat(head, rest);
            lemma_hex_upper_round_trip((b0 / 16) as nat);
            lemma_hex_upper_round_trip((b0 % 16) as nat);
            lemma_encode_ascii('%');
            lemma_encode_ascii(h);
            lemma_encode_ascii(l);
            lemma_encode_utf8_concat(seq!['%'], seq![h, l]);
            lemma_encode_utf8_concat(seq![h], seq![l]);
            assert(seq!['%'] + seq![h, l] =~= head);
            assert(seq![h] + seq![l] =~= seq![h, l]);
            let hb = (h as u32) as u8;
            let lb = (l as u32) as u8;
            let x = seq![0x25u8, hb, lb] + r;
            assert(encode_utf8(percent_encode(b)) =~= x);
            assert(x.skip(3) =~= r);
            assert(hex_byte_value(hb) * 16 + hex_byte_value(lb) == b0);
            assert(percent_decode(x) =~= b);
        }
    }
}

/// The text that replaces a normalised extra percent-decodes (as
/// `urlencoding::decode` does) to the JSON text it was made from.
pub proof fn lemma_encoded_extra_decodes(t: Seq<char>)
    ensures
        url_decoded(percent_encode(encode_utf8(t))) == Some(t),
{
    let b = encode_utf8(t);
    lemma_percent_round_trip(b);
    encode_utf8_valid_utf8(t);
    encode_utf8_decode_utf8(t);
}

/* ------------------------------------------------------------------ */
/* Parsing one extra                                                   */
/* ------------------------------------------------------------------ */

/// Entries with an empty object under every key of `path` that is missing
/// (`entry(..).or_insert(..)`), or `None` when a key on the path holds
/// something other than an object.
pub open spec fn ensure_path(es: Seq<(Seq<char>, Json)>, path: Seq<Seq<char>>) -> Option<
    Seq<(Seq<char>, Json)>,
>
    decreases path.len(),
{
    if path.len() == 0 {
        Some(es)
    } else {
        let inner = match object_get(es, path[0]) {
            None => Some(Seq::<(Seq<char>, Json)>::empty()),
            Some(Json::Object(m)) => Some(m),
            Some(_) => None,
        };
        match inner {
            Some(m) => match ensure_path(m, path.drop_first()) {
                Some(m2) => Some(object_insert(es, path[0], Json::Object(m2))),
                None => None,
            },
            None => None,
        }
    }
}

/// Entries with `k` set to `v` in the object at `path`.
pub open spec fn insert_at_path(
    es: Seq<(Seq<char>, Json)>,
    path: Seq<Seq<char>>,
    k: Seq<char>,
    v: Json,
) -> Seq<(Seq<char>, Json)>
    decreases path.len(),
{
    if path.len() == 0 {
        object_insert(es, k, v)
    } else {
        match object_get(es, path[0]) {
            Some(Json::Object(m)) => object_insert(
                es,
                path[0],
                Json::Object(insert_at_path(m, path.drop_first(), k, v)),
            ),
            _ => es,
        }
    }
}

/// State of the parser of one extra.
pub struct ParseState {
    pub mapping: Seq<(Seq<char>, Json)>,
    pub path: Seq<Seq<char>>,
    pub counter: nat,
    pub begin: int,
    pub comma: bool,
}

pub open spec fn initial_state() -> ParseState {
    ParseState { mapping: Seq::empty(), path: Seq::empty(), counter: 0, begin: 0, comma: false }
}

/// How parsing an extra ends: the object with the span `[begin, end)` of
/// its braces, a failure, or a panic of the lexer.
pub enum ParseOutcome {
    Parsed(int, int, Json),
    Failed,
    Panicked,
}

/// A tuple value that is not stored: an empty text or null.
pub open spec fn is_skipped_value(v: Json) -> bool {
    v == Json::Text(Seq::empty()) || v == Json::Null
}

/// The parser of one plain extra, from position `pos` of `s` in state `st`.
pub open spec fn plain_parse(s: Seq<char>, pos: int, st: ParseState) -> ParseOutcome
    decreases s.len() - pos,
{
    match lex_at(s, pos) {
        LexStep::End => if st.counter > 0 {
            ParseOutcome::Failed
        } else {
            ParseOutcome::Parsed(st.begin, 0, Json::Object(st.mapping))
        },
        LexStep::Skip(e) => if pos < e <= s.len() {
            plain_parse(s, e, st)
        } else {
            ParseOutcome::Failed
        },
        LexStep::Error => ParseOutcome::Failed,
        LexStep::Panic => ParseOutcome::Panicked,
        LexStep::Token(t, e) => if e <= pos || e > s.len() {
            ParseOutcome::Failed
        } else {
            match ensure_path(st.mapping, st.path) {
                None => ParseOutcome::Failed,
                Some(m) => match t {
                    ParamToken::Comma => if st.comma {
                        plain_parse(s, e, ParseState { mapping: m, comma: false, ..st })
                    } else {
                        ParseOutcome::Failed
                    },
                    ParamToken::Begin => plain_parse(
                        s,
                        e,
                        ParseState {
                            mapping: m,
                            counter: st.counter + 1,
                            begin: if st.counter == 0 {
                                pos
                            } else {
                                st.begin
                            },
                            ..st
                        },
                    ),
                    ParamToken::Param(p) => plain_parse(
                        s,
                        e,
                        ParseState { mapping: m, path: st.path.push(p), ..st },
                    ),
                    ParamToken::Close => if st.counter == 0 {
                        ParseOutcome::Panicked
                    } else if st.counter == 1 {
                        ParseOutcome::Parsed(st.begin, e, Json::Object(m))
                    } else {
                        plain_parse(
                            s,
                            e,
                            ParseState {
                                mapping: m,
                                path: if st.path.len() > 0 {
                                    st.path.drop_last()
                                } else {
                                    st.path
                                },
                                counter: (st.counter - 1) as nat,
                                comma: true,
                                ..st
                            },
                        )
                    },
                    ParamToken::Tuple(k, v) => plain_parse(
                        s,
                        e,
                        ParseState {
                            mapping: if is_skipped_value(v) {
                                m
                            } else {
                                insert_at_path(m, st.path, k, v)
                            },
                            comma: true,
                            ..st
                        },
                    ),
                },
            }
        }
    }
}

/// End of the run of characters at `i` that are neither whitespace nor `&` or `#`.
pub open spec fn url_run_end(s: Seq<char>, i: int) -> int
    decreases s.len() - i,
{
    if 0 <= i < s.len() && !is_white_space(s[i]) && s[i] != '&' && s[i] != '#' {
        url_run_end(s, i + 1)
    } else {
        i
    }
}

/// The parser of one percent-encoded extra: the run up to whitespace, `&`
/// or `#` is decoded and parsed as a plain extra. Splitting the run off
/// panics when its last character takes more than one byte.
pub open spec fn url_parse(s: Seq<char>) -> ParseOutcome {
    let n = url_run_end(s, 0);
    if n == 0 {
        ParseOutcome::Failed
    } else if (s[n - 1] as u32) >= 0x80 {
        ParseOutcome::Panicked
    } else {
        match url_decoded(s.take(n)) {
            None => ParseOutcome::Failed,
            Some(d) => match plain_parse(d, 0, initial_state()) {
                ParseOutcome::Parsed(_, _, v) => ParseOutcome::Parsed(0, n, v),
                ParseOutcome::Failed => ParseOutcome::Failed,
                ParseOutcome::Panicked => ParseOutcome::Panicked,
            },
        }
    }
}

/// The object without a `headers` entry that holds an empty object.
pub open spec fn drop_empty_headers(v: Json) -> Json {
    match v {
        Json::Object(m) => if object_get(m, "headers"@) == Some(Json::Object(Seq::empty())) {
            Json::Object(object_remove(m, "headers"@))
        } else {
            v
        },
        _ => v,
    }
}

/* ------------------------------------------------------------------ */
/* The whole text                                                      */
/* ------------------------------------------------------------------ */

/// Bytes of the UTF-8 encoding of `c` (`char::len_utf8`).
pub open spec fn char_utf8_len(c: char) -> nat {
    if (c as u32) < 0x80 {
        1
    } else if (c as u32) < 0x800 {
        2
    } else if (c as u32) < 0x10000 {
        3
    } else {
        4
    }
}

/// Bytes of the UTF-8 encoding of `t`.
pub open spec fn utf8_len(t: Seq<char>) -> nat
    decreases t.len(),
{
    if t.len() == 0 {
        0
    } else {
        utf8_len(t.drop_last()) + char_utf8_len(t.last())
    }
}

/// The index reached from `q` after exactly `need` bytes, or `None` when
/// that byte offset falls inside a character.
pub open spec fn advance_bytes(s: Seq<char>, q: int, need: int) -> Option<int>
    decreases s.len() - q,
{
    if need == 0 {
        Some(q)
    } else if need < 0 || q < 0 || q >= s.len() {
        None
    } else {
        advance_bytes(s, q + 1, need - char_utf8_len(s[q]))
    }
}

/// `s` holds `extra=` at `k`.
pub open spec fn extra_at(s: Seq<char>, k: int) -> bool {
    word_at(s, k, "extra="@)
}

/// The first `extra=` at or after `i`, or `s.len()`.
pub open spec fn next_extra(s: Seq<char>, i: int) -> int
    decreases s.len() - i,
{
    if i < 0 || i + 6 > s.len() {
        s.len() as int
    } else if extra_at(s, i) {
        i
    } else {
        next_extra(s, i + 1)
    }
}

/// End of the run of whitespace at `i` (`str::trim_start`).
pub open spec fn white_space_end(s: Seq<char>, i: int) -> int
    decreases s.len() - i,
{
    if 0 <= i < s.len() && is_white_space(s[i]) {
        white_space_end(s, i + 1)
    } else {
        i
    }
}

/// State of the normaliser: text written so far, where the unwritten input
/// starts, and the counts of normalised and broken extras.
pub struct ExtrasState {
    pub out: Seq<char>,
    pub last_end: int,
    pub success: nat,
    pub broken: nat,
}

/// An extra whose value is skipped: it starts with `null`, `#` or `&`.
pub open spec fn is_empty_extra(slice: Seq<char>) -> bool {
    word_at(slice, 0, "null"@) || (slice.len() > 0 && (slice[0] == '#' || slice[0] == '&'))
}

/// The normaliser from position `i` of `s`; `None` when it panics.
pub open spec fn extras_from(s: Seq<char>, i: int, st: ExtrasState) -> Option<(nat, nat, Seq<char>)>
    decreases s.len() - i,
{
    let k = next_extra(s, i);
    if k + 6 > s.len() || k < i {
        if 0 <= st.last_end <= s.len() {
            Some((st.success, st.broken, st.out + s.subrange(st.last_end, s.len() as int)))
        } else {
            None
        }
    } else if st.last_end > k + 6 || st.last_end < 0 {
        None
    } else {
        let out = st.out + s.subrange(st.last_end, k + 6);
        let start = white_space_end(s, k + 6);
        let slice = s.skip(start);
        if is_empty_extra(slice) {
            extras_from(s, k + 6, ExtrasState { out, last_end: k + 6, ..st })
        } else {
            let outcome = if slice.len() > 0 && slice[0] == '%' {
                url_parse(slice)
            } else {
                plain_parse(slice, 0, initial_state())
            };
            match outcome {
                ParseOutcome::Panicked => None,
                ParseOutcome::Failed => if st.broken + 1 > u32::MAX {
                    None
                } else {
                    extras_from(
                        s,
                        k + 6,
                        ExtrasState { out, last_end: k + 6, broken: st.broken + 1, ..st },
                    )
                },
                ParseOutcome::Parsed(_, end, v) => if st.success + 1 > u32::MAX {
                    None
                } else {
                    match advance_bytes(s, k + 6, utf8_len(slice.take(end)) as int) {
                        None => None,
                        Some(q) => extras_from(
                            s,
                            k + 6,
                            ExtrasState {
                                out: out + percent_encode(encode_utf8(json_text(drop_empty_headers(v)))),
                                last_end: q,
                                success: st.success + 1,
                                broken: st.broken,
                            },
                        ),
                    }
                },
            }
        }
    }
}

/// What normalising the extras of `s` gives: the counts of normalised and of
/// broken extras and the new text, or `None` where the normaliser panics.
pub open spec fn extras_outcome(s: Seq<char>) -> Option<(nat, nat, Seq<char>)> {
    extras_from(s, 0, ExtrasState { out: Seq::empty(), last_end: 0, success: 0, broken: 0 })
}

/// The count of normalised extras never goes down.
proof fn lemma_extras_success_grows(s: Seq<char>, i: int, st: ExtrasState)
    ensures
        extras_from(s, i, st) matches Some((done, _, _)) ==> done >= st.success,
    decreases s.len() - i,
{
    let k = next_extra(s, i);
    if k + 6 > s.len() || k < i {
    } else if st.last_end > k + 6 || st.last_end < 0 {
    } else {
        let out = st.out + s.subrange(st.last_end, k + 6);
        let start = white_space_end(s, k + 6);
        let slice = s.skip(start);
        if is_empty_extra(slice) {
            lemma_extras_success_grows(s, k + 6, ExtrasState { out, last_end: k + 6, ..st });
        } else {
            let outcome = if slice.len() > 0 && slice[0] == '%' {
                url_parse(slice)
            } else {
                plain_parse(slice, 0, initial_state())
            };
            match outcome {
                ParseOutcome::Panicked => {},
                ParseOutcome::Failed => {
                    lemma_extras_success_grows(
                        s,
                        k + 6,
                        ExtrasState { out, last_end: k + 6, broken: st.broken + 1, ..st },
                    );
                },
                ParseOutcome::Parsed(_, end, v) => {
                    if st.success + 1 <= u32::MAX {
                        match advance_bytes(s, k + 6, utf8_len(slice.take(end)) as int) {
                            None => {},
                            Some(q) => {
                                lemma_extras_success_grows(
                                    s,
                                    k + 6,
                                    ExtrasState {
                                        out: out + percent_encode(
                                            encode_utf8(json_text(drop_empty_headers(v))),
                                        ),
                                        last_end: q,
                                        success: st.success + 1,
                                        broken: st.broken,
                                    },
                                );
                            },
                        }
                    }
                },
            }
        }
    }
}

proof fn lemma_extras_identity_from(s: Seq<char>, i: int, st: ExtrasState)
    requires
        0 <= i <= s.len(),
        st.success == 0,
        st.last_end == i,
        st.out == s.take(i),
    ensures
        extras_from(s, i, st) matches Some((done, _, t)) ==> (done == 0 ==> t == s),
    decreases s.len() - i,
{
    let k = next_extra(s, i);
    if k + 6 > s.len() || k < i {
        assert(s.take(i) + s.subrange(i, s.len() as int) =~= s);
    } else if st.last_end > k + 6 || st.last_end < 0 {
    } else {
        let out = st.out + s.subrange(st.last_end, k + 6);
        assert(out =~= s.take(k + 6));
        let start = white_space_end(s, k + 6);
        let slice = s.skip(start);
        if is_empty_extra(slice) {
            lemma_extras_identity_from(s, k + 6, ExtrasState { out, last_end: k + 6, ..st });
        } else {
            let outcome = if slice.len() > 0 && slice[0] == '%' {
                url_parse(slice)
            } else {
                plain_parse(slice, 0, initial_state())
            };
            match outcome {
                ParseOutcome::Panicked => {},
                ParseOutcome::Failed => {
                    lemma_extras_identity_from(
                        s,
                        k + 6,
                        ExtrasState { out, last_end: k + 6, broken: st.broken + 1, ..st },
                    );
                },
                ParseOutcome::Parsed(_, end, v) => {
                    if st.success + 1 <= u32::MAX {
                        match advance_bytes(s, k + 6, utf8_len(slice.take(end)) as int) {
                            None => {},
                            Some(q) => {
                                lemma_extras_success_grows(
                                    s,
                                    k + 6,
                                    ExtrasState {
                                        out: out + percent_encode(
                                            encode_utf8(json_text(drop_empty_headers(v))),
                                        ),
                                        last_end: q,
                                        success: st.success + 1,
                                        broken: st.broken,
                                    },
                                );
                            },
                        }
                    }
                },
            }
        }
    }
}

/// A text in which no extra gets normalised (none is present, or each is
/// empty or broken) comes back unchanged.
pub proof fn lemma_text_unchanged_without_normalised_extras(s: Seq<char>)
    ensures
        extras_outcome(s) matches Some((done, _, t)) ==> (done == 0 ==> t == s),
{
    assert(Seq::<char>::empty() =~= s.take(0));
    lemma_extras_identity_from(s, 0, ExtrasState { out: Seq::empty(), last_end: 0, success: 0, broken: 0 });
}

/// Every character that `percent_encode` writes is ASCII and neither
/// whitespace nor `&`, `#` or `=`.
proof fn lemma_percent_encode_chars(b: Seq<u8>)
    ensures
        forall|i: int|
            0 <= i < percent_encode(b).len() ==> {
                let c = #[trigger] percent_encode(b)[i];
                &&& (c as u32) < 0x80
                &&& !is_white_space(c)
                &&& c != '&'
                &&& c != '#'
                &&& c != '='
            },
    decreases b.len(),
{
    if b.len() > 0 {
        lemma_percent_encode_chars(b.drop_first());
        let rest = percent_encode(b.drop_first());
        if is_unreserved_byte(b[0]) {
            let head = seq![b[0] as char];
            assert(percent_encode(b) == head + rest);
        } else {
            let head = seq!['%', hex_upper((b[0] / 16) as nat), hex_upper((b[0] % 16) as nat)];
            assert(percent_encode(b) == head + rest);
        }
    }
}

/// The run that `url_parse` decodes covers all of a percent-encoded text.
proof fn lemma_url_run_covers_encoded(e: Seq<char>, i: int)
    requires
        0 <= i <= e.len(),
        forall|j: int|
            0 <= j < e.len() ==> !is_white_space(#[trigger] e[j]) && e[j] != '&' && e[j] != '#',
    ensures
        url_run_end(e, i) == e.len(),
    decreases e.len() - i,
{
    if i < e.len() {
        lemma_url_run_covers_encoded(e, i + 1);
    }
}

/// Counting the bytes of a text from its first character.
proof fn lemma_utf8_len_first(t: Seq<char>)
    requires
        t.len() > 0,
    ensures
        utf8_len(t) == char_utf8_len(t[0]) + utf8_len(t.drop_first()),
    decreases t.len(),
{
    if t.len() == 1 {
        assert(utf8_len(t.drop_last()) == 0);
        assert(utf8_len(t.drop_first()) == 0);
        assert(t.last() == t[0]);
    } else {
        let d = t.drop_first();
        lemma_utf8_len_first(t.drop_last());
        assert(t.drop_last().drop_first() =~= d.drop_last());
        assert(t.drop_last()[0] == t[0]);
        assert(d.last() == t.last());
        assert(utf8_len(d) == utf8_len(d.drop_last()) + char_utf8_len(d.last()));
    }
}

/// Advancing over the bytes of all characters from `q` reaches the end.
proof fn lemma_advance_to_end(s: Seq<char>, q: int)
    requires
        0 <= q <= s.len(),
    ensures
        advance_bytes(s, q, utf8_len(s.subrange(q, s.len() as int)) as int) == Some(s.len() as int),
    decreases s.len() - q,
{
    let t = s.subrange(q, s.len() as int);
    if q == s.len() {
        assert(t.len() == 0);
    } else {
        lemma_utf8_len_first(t);
        assert(t.drop_first() =~= s.subrange(q + 1, s.len() as int));
        assert(t[0] == s[q]);
        lemma_advance_to_end(s, q + 1);
    }
}

/// No `extra=` starts in `"extra=" + x` after its first character when
/// none occurs in `x`.
proof fn lemma_no_later_extra(x: Seq<char>, i: int)
    requires
        forall|j: int| !word_at(x, j, "extra="@),
        6 <= i,
    ensures
        next_extra("extra="@ + x, i) == ("extra="@ + x).len(),
    decreases ("extra="@ + x).len() - i,
{
    reveal_strlit("extra=");
    let s = "extra="@ + x;
    if i + 6 <= s.len() {
        assert(s.subrange(i, i + 6) =~= x.subrange(i - 6, i));
        assert(!word_at(x, i - 6, "extra="@));
        lemma_no_later_extra(x, i + 1);
    }
}

/// An extra written percent-encoded is normalised like the same extra
/// written plainly: where the plain one is normalised, both texts become the
/// same text; where it is broken, both are counted broken and left as they
/// are; where the plain one makes the normaliser panic, so does the other.
pub proof fn lemma_encoded_extra_normalises_alike(x: Seq<char>)
    requires
        x.len() > 0,
        x[0] == '{',
        forall|j: int| !word_at(x, j, "extra="@),
        plain_parse(x, 0, initial_state()) matches ParseOutcome::Parsed(_, end, _) ==> end == x.len(),
    ensures
        ({
            let plain = "extra="@ + x;
            let encoded = "extra="@ + percent_encode(encode_utf8(x));
            match plain_parse(x, 0, initial_state()) {
                ParseOutcome::Parsed(_, _, v) => {
                    let t = "extra="@ + percent_encode(encode_utf8(json_text(drop_empty_headers(v))));
                    &&& extras_outcome(plain) == Some((1nat, 0nat, t))
                    &&& extras_outcome(encoded) == Some((1nat, 0nat, t))
                },
                ParseOutcome::Failed => {
                    &&& extras_outcome(plain) == Some((0nat, 1nat, plain))
                    &&& extras_outcome(encoded) == Some((0nat, 1nat, encoded))
                },
                ParseOutcome::Panicked => {
                    &&& extras_outcome(plain) is None
                    &&& extras_outcome(encoded) is None
                },
            }
        }),
{
    reveal_strlit("extra=");
    reveal_strlit("null");
    let b = encode_utf8(x);
    let e = percent_encode(b);
    let plain = "extra="@ + x;
    let encoded = "extra="@ + e;
    // The encoded text starts with the escape of `{`.
    assert(x =~= seq![x[0]] + x.drop_first());
    lemma_encode_utf8_concat(seq![x[0]], x.drop_first());
    lemma_encode_ascii('{');
    assert(b[0] == 0x7bu8);
    assert(e[0] == '%');
    lemma_percent_encode_chars(b);
    assert forall|j: int| !word_at(e, j, "extra="@) by {
        if word_at(e, j, "extra="@) {
            assert(e.subrange(j, j + 6)[5] == e[j + 5]);
        }
    }
    lemma_url_run_covers_encoded(e, 0);
    lemma_encoded_extra_decodes(x);
    assert(e.take(e.len() as int) =~= e);
    assert(x.take(x.len() as int) =~= x);
    // Both texts: the extra at the start, nothing after it.
    assert(plain.subrange(0, 6) =~= "extra="@);
    assert(encoded.subrange(0, 6) =~= "extra="@);
    assert(next_extra(plain, 0) == 0);
    assert(next_extra(encoded, 0) == 0);
    assert(white_space_end(plain, 6) == 6);
    assert(white_space_end(encoded, 6) == 6);
    assert(plain.skip(6) =~= x);
    assert(encoded.skip(6) =~= e);
    assert(plain.subrange(6, plain.len() as int) =~= x);
    assert(encoded.subrange(6, encoded.len() as int) =~= e);
    lemma_no_later_extra(x, 6);
    lemma_no_later_extra(e, 6);
    lemma_advance_to_end(plain, 6);
    lemma_advance_to_end(encoded, 6);
    assert(Seq::<char>::empty() + plain.subrange(0, 6) =~= "extra="@);
    assert(Seq::<char>::empty() + encoded.subrange(0, 6) =~= "extra="@);
    assert(plain.subrange(plain.len() as int, plain.len() as int) =~= Seq::<char>::empty());
    assert(encoded.subrange(encoded.len() as int, encoded.len() as int) =~= Seq::<char>::empty());
    assert("extra="@ + plain.subrange(6, plain.len() as int) =~= plain);
    assert("extra="@ + encoded.subrange(6, encoded.len() as int) =~= encoded);
    let st0 = ExtrasState { out: Seq::empty(), last_end: 0, success: 0, broken: 0 };
    let head = Seq::<char>::empty() + "extra="@;
    assert(!is_empty_extra(x));
    assert(!is_empty_extra(e));
    match plain_parse(x, 0, initial_state()) {
        ParseOutcome::Parsed(_, end, v) => {
            assert(url_parse(e) == ParseOutcome::Parsed(0, e.len() as int, v));
            let enc = percent_encode(encode_utf8(json_text(drop_empty_headers(v))));
            let p1 = ExtrasState { out: head + enc, last_end: plain.len() as int, success: 1, broken: 0 };
            let e1 = ExtrasState { out: head + enc, last_end: encoded.len() as int, success: 1, broken: 0 };
            assert(extras_from(plain, 6, p1) == Some((1nat, 0nat, "extra="@ + enc)));
            assert(extras_from(encoded, 6, e1) == Some((1nat, 0nat, "extra="@ + enc)));
            assert(extras_from(plain, 0, st0) == extras_from(plain, 6, p1));
            assert(extras_from(encoded, 0, st0) == extras_from(encoded, 6, e1));
        },
        ParseOutcome::Failed => {
            assert(url_parse(e) == ParseOutcome::Failed);
            let p1 = ExtrasState { out: head, last_end: 6, success: 0, broken: 1 };
            assert(extras_from(plain, 6, p1) == Some((0nat, 1nat, plain)));
            assert(extras_from(encoded, 6, p1) == Some((0nat, 1nat, encoded)));
            assert(extras_from(plain, 0, st0) == extras_from(plain, 6, p1));
            assert(extras_from(encoded, 0, st0) == extras_from(encoded, 6, p1));
        },
        ParseOutcome::Panicked => {
            assert(url_parse(e) == ParseOutcome::Panicked);
        },
    }
}

/// The first `extra=` at or after `i`, when one starts at `m >= i`, lies
/// between the two.
proof fn lemma_next_extra_found(s: Seq<char>, i: int, m: int)
    requires
        0 <= i <= m,
        extra_at(s, m),
    ensures
        i <= next_extra(s, i) <= m,
        extra_at(s, next_extra(s, i)),
    decreases m - i,
{
    reveal_strlit("extra=");
    if !extra_at(s, i) {
        lemma_next_extra_found(s, i + 1, m);
    }
}

/// Where an extra that starts with `{` and ends with the `}` closing it is
/// normalised as the only extra of its text, the same extra written
/// percent-encoded gives exactly the same counts and text.
pub proof fn lemma_encoded_extra_gives_plain_text(x: Seq<char>, t: Seq<char>)
    requires
        x.len() > 0,
        x[0] == '{',
        x.last() == '}',
        plain_parse(x, 0, initial_state()) matches ParseOutcome::Parsed(_, end, _) && end == x.len(),
        extras_outcome("extra="@ + x) == Some((1nat, 0nat, t)),
    ensures
        extras_outcome("extra="@ + percent_encode(encode_utf8(x))) == Some((1nat, 0nat, t)),
{
    reveal_strlit("extra=");
    reveal_strlit("null");
    let plain = "extra="@ + x;
    assert forall|j: int| !word_at(x, j, "extra="@) by {
        if word_at(x, j, "extra="@) {
            // The normaliser would meet that `extra=` inside the object it
            // has just replaced, and panic.
            assert(plain.subrange(j + 6, j + 12) =~= x.subrange(j, j + 6));
            assert(extra_at(plain, j + 6));
            lemma_next_extra_found(plain, 6, j + 6);
            let k = next_extra(plain, 6);
            assert(plain.subrange(0, 6) =~= "extra="@);
            assert(next_extra(plain, 0) == 0);
            assert(white_space_end(plain, 6) == 6);
            assert(plain.skip(6) =~= x);
            assert(plain.subrange(6, plain.len() as int) =~= x);
            assert(x.take(x.len() as int) =~= x);
            assert(!is_empty_extra(x));
            lemma_advance_to_end(plain, 6);
            if k + 6 == plain.len() {
                assert(plain.subrange(k, k + 6)[5] == plain[plain.len() - 1]);
                assert(plain[plain.len() - 1] == x.last());
            }
            let st0 = ExtrasState { out: Seq::empty(), last_end: 0, success: 0, broken: 0 };
            if let ParseOutcome::Parsed(_, _, v) = plain_parse(x, 0, initial_state()) {
                let enc = percent_encode(encode_utf8(json_text(drop_empty_headers(v))));
                let p1 = ExtrasState {
                    out: Seq::<char>::empty() + plain.subrange(0, 6) + enc,
                    last_end: plain.len() as int,
                    success: 1,
                    broken: 0,
                };
                assert(extras_from(plain, 6, p1) is None);
                assert(extras_from(plain, 0, st0) == extras_from(plain, 6, p1));
            }
        }
    }
    lemma_encoded_extra_normalises_alike(x);
}

proof fn lemma_ensure_path_ordered(es: Seq<(Seq<char>, Json)>, path: Seq<Seq<char>>)
    requires
        json_ordered(Json::Object(es)),
    ensures
        ensure_path(es, path) matches Some(m) ==> json_ordered(Json::Object(m)),
    decreases path.len(),
{
    if path.len() > 0 {
        lemma_object_get_ordered(es, path[0]);
        let inner = match object_get(es, path[0]) {
            None => Some(Seq::<(Seq<char>, Json)>::empty()),
            Some(Json::Object(m)) => Some(m),
            Some(_) => None,
        };
        if let Some(m) = inner {
            lemma_ensure_path_ordered(m, path.drop_first());
            if let Some(m2) = ensure_path(m, path.drop_first()) {
                lemma_object_insert_ordered(es, path[0], Json::Object(m2));
            }
        }
    }
}

proof fn lemma_insert_at_path_ordered(
    es: Seq<(Seq<char>, Json)>,
    path: Seq<Seq<char>>,
    k: Seq<char>,
    v: Json,
)
    requires
        json_ordered(Json::Object(es)),
        json_ordered(v),
    ensures
        json_ordered(Json::Object(insert_at_path(es, path, k, v))),
    decreases path.len(),
{
    if path.len() == 0 {
        lemma_object_insert_ordered(es, k, v);
    } else {
        lemma_object_get_ordered(es, path[0]);
        if let Some(Json::Object(m)) = object_get(es, path[0]) {
            lemma_insert_at_path_ordered(m, path.drop_first(), k, v);
            lemma_object_insert_ordered(
                es,
                path[0],
                Json::Object(insert_at_path(m, path.drop_first(), k, v)),
            );
        }
    }
}

/// A value the lexer reads is never an object.
proof fn lemma_lexed_value_ordered(s: Seq<char>, p: int)
    ensures
        lex_at(s, p) matches LexStep::Token(ParamToken::Tuple(_, v), _) ==> json_ordered(v),
{
}

proof fn lemma_plain_parse_ordered(s: Seq<char>, pos: int, st: ParseState)
    requires
        json_ordered(Json::Object(st.mapping)),
    ensures
        plain_parse(s, pos, st) matches ParseOutcome::Parsed(_, _, v) ==> json_ordered(v),
    decreases s.len() - pos,
{
    lemma_lexed_value_ordered(s, pos);
    match lex_at(s, pos) {
        LexStep::Skip(e) => {
            if pos < e <= s.len() {
                lemma_plain_parse_ordered(s, e, st);
            }
        },
        LexStep::Token(t, e) => {
            if !(e <= pos || e > s.len()) {
                lemma_ensure_path_ordered(st.mapping, st.path);
                if let Some(m) = ensure_path(st.mapping, st.path) {
                    match t {
                        ParamToken::Comma => {
                            lemma_plain_parse_ordered(s, e, ParseState { mapping: m, comma: false, ..st });
                        },
                        ParamToken::Begin => {
                            lemma_plain_parse_ordered(
                                s,
                                e,
                                ParseState {
                                    mapping: m,
                                    counter: st.counter + 1,
                                    begin: if st.counter == 0 {
                                        pos
                                    } else {
                                        st.begin
                                    },
                                    ..st
                                },
                            );
                        },
                        ParamToken::Param(p) => {
                            lemma_plain_parse_ordered(
                                s,
                                e,
                                ParseState { mapping: m, path: st.path.push(p), ..st },
                            );
                        },
                        ParamToken::Close => {
                            if st.counter > 1 {
                                lemma_plain_parse_ordered(
                                    s,
                                    e,
                                    ParseState {
                                        mapping: m,
                                        path: if st.path.len() > 0 {
                                            st.path.drop_last()
                                        } else {
                                            st.path
                                        },
                                        counter: (st.counter - 1) as nat,
                                        comma: true,
                                        ..st
                                    },
                                );
                            }
                        },
                        ParamToken::Tuple(k, v) => {
                            if !is_skipped_value(v) {
                                lemma_insert_at_path_ordered(m, st.path, k, v);
                            }
                            lemma_plain_parse_ordered(
                                s,
                                e,
                                ParseState {
                                    mapping: if is_skipped_value(v) {
                                        m
                                    } else {
                                        insert_at_path(m, st.path, k, v)
                                    },
                                    comma: true,
                                    ..st
                                },
                            );
                        },
                    }
                }
            }
        },
        _ => {},
    }
}

/// Every object in the JSON that replaces an extra, plain or
/// percent-encoded, has at every depth its keys in ascending order, each key
/// once (the order of a `BTreeMap`).
pub proof fn lemma_normalised_extra_ordered(s: Seq<char>)
    ensures
        plain_parse(s, 0, initial_state()) matches ParseOutcome::Parsed(_, _, v) ==> json_ordered(
            drop_empty_headers(v),
        ),
        url_parse(s) matches ParseOutcome::Parsed(_, _, v) ==> json_ordered(drop_empty_headers(v)),
{
    assert(json_ordered(Json::Object(Seq::empty())));
    lemma_plain_parse_ordered(s, 0, initial_state());
    if let Some(d) = url_decoded(s.take(url_run_end(s, 0))) {
        lemma_plain_parse_ordered(d, 0, initial_state());
    }
    if let ParseOutcome::Parsed(_, _, v) = plain_parse(s, 0, initial_state()) {
        if let Json::Object(m) = v {
            lemma_object_remove_ordered(m, "headers"@);
        }
    }
    if let ParseOutcome::Parsed(_, _, v) = url_parse(s) {
        if let Json::Object(m) = v {
            lemma_object_remove_ordered(m, "headers"@);
        }
    }
}

/* ------------------------------------------------------------------ */
/* Executable parts                                                    */
/* ------------------------------------------------------------------ */

/// The keys of a path.
pub open spec fn path_model(path: Seq<Vec<char>>) -> Seq<Seq<char>> {
    path.map_values(|p: Vec<char>| p@)
}

proof fn lemma_entries_model_replace(es: Seq<(Vec<char>, JsonValue)>, j: int, e: (Vec<char>, JsonValue))
    requires
        0 <= j < es.len(),
    ensures
        entries_model(es.remove(j).insert(j, e)) == entries_model(es).update(j, (e.0@, e.1@)),
{
    assert(es.remove(j).insert(j, e) =~= es.update(j, e));
    assert(entries_model(es.update(j, e)) =~= entries_model(es).update(j, (e.0@, e.1@)));
}

proof fn lemma_entries_model_insert_at(es: Seq<(Vec<char>, JsonValue)>, j: int, e: (Vec<char>, JsonValue))
    requires
        0 <= j <= es.len(),
    ensures
        entries_model(es.insert(j, e)) == entries_model(es).insert(j, (e.0@, e.1@)),
{
    assert(entries_model(es.insert(j, e)) =~= entries_model(es).insert(j, (e.0@, e.1@)));
}

fn copy_chars(t: &Vec<char>) -> (r: Vec<char>)
    ensures
        r@ == t@,
{
    let r = copy_range(t, 0, t.len());
    assert(t@.subrange(0, t@.len() as int) =~= t@);
    r
}

/// Makes sure an object exists under every key of `path[d..]`.
fn ensure_path_exec(es: Vec<(Vec<char>, JsonValue)>, path: &Vec<Vec<char>>, d: usize) -> (r: Option<
    Vec<(Vec<char>, JsonValue)>,
>)
    requires
        d <= path@.len(),
    ensures
        match r {
            Some(x) => ensure_path(entries_model(es@), path_model(path@).skip(d as int)) == Some(
                entries_model(x@),
            ),
            None => ensure_path(entries_model(es@), path_model(path@).skip(d as int)) is None,
        },
    decreases path@.len() - d,
{
    let ghost p = path_model(path@).skip(d as int);
    if d == path.len() {
        assert(p.len() == 0);
        return Some(es);
    }
    assert(p[0] == path@[d as int]@);
    assert(p.drop_first() =~= path_model(path@).skip(d + 1));
    let j = find_slot(&es, &path[d]);
    let found = j < es.len() && chars_eq(&es[j].0, &path[d]);
    proof {
        if j < es@.len() {
            lemma_entries_model_index(es@, j as int);
        }
    }
    let mut es = es;
    if found {
        let ghost old_es = es@;
        let (k0, v0) = es.remove(j);
        match v0 {
            JsonValue::Object(m) => match ensure_path_exec(m, path, d + 1) {
                Some(m2) => {
                    proof {
                        lemma_entries_model_replace(old_es, j as int, (k0, JsonValue::Object(m2)));
                    }
                    es.insert(j, (k0, JsonValue::Object(m2)));
                    Some(es)
                },
                None => None,
            },
            _ => None,
        }
    } else {
        match ensure_path_exec(Vec::new(), path, d + 1) {
            Some(m2) => {
                let key = copy_chars(&path[d]);
                proof {
                    assert(entries_model(Seq::<(Vec<char>, JsonValue)>::empty()) =~= Seq::<(Seq<char>, Json)>::empty());
                    lemma_entries_model_insert_at(es@, j as int, (key, JsonValue::Object(m2)));
                }
                es.insert(j, (key, JsonValue::Object(m2)));
                Some(es)
            },
            None => {
                assert(entries_model(Seq::<(Vec<char>, JsonValue)>::empty()) =~= Seq::<(Seq<char>, Json)>::empty());
                None
            },
        }
    }
}

/// Sets `k` to `v` in the object at `path[d..]`.
fn insert_at_path_exec(
    es: Vec<(Vec<char>, JsonValue)>,
    path: &Vec<Vec<char>>,
    d: usize,
    k: Vec<char>,
    v: JsonValue,
) -> (r: Vec<(Vec<char>, JsonValue)>)
    requires
        d <= path@.len(),
    ensures
        entries_model(r@) == insert_at_path(entries_model(es@), path_model(path@).skip(d as int), k@, v@),
    decreases path@.len() - d,
{
    let ghost p = path_model(path@).skip(d as int);
    let mut es = es;
    if d == path.len() {
        assert(p.len() == 0);
        object_insert_exec(&mut es, k, v);
        return es;
    }
    assert(p[0] == path@[d as int]@);
    assert(p.drop_first() =~= path_model(path@).skip(d + 1));
    let j = find_slot(&es, &path[d]);
    let found = j < es.len() && chars_eq(&es[j].0, &path[d]);
    proof {
        if j < es@.len() {
            lemma_entries_model_index(es@, j as int);
        }
    }
    if found {
        let ghost old_es = es@;
        let (k0, v0) = es.remove(j);
        match v0 {
            JsonValue::Object(m) => {
                let m2 = insert_at_path_exec(m, path, d + 1, k, v);
                proof {
                    lemma_entries_model_replace(old_es, j as int, (k0, JsonValue::Object(m2)));
                }
                es.insert(j, (k0, JsonValue::Object(m2)));
                es
            },
            other => {
                proof {
                    assert(old_es.remove(j as int).insert(j as int, (k0, other)) =~= old_es);
                }
                es.insert(j, (k0, other));
                es
            },
        }
    } else {
        es
    }
}

/// How parsing an extra ends, as the program holds it.
pub enum ParseResult {
    Parsed(usize, usize, JsonValue),
    Failed,
    Panicked,
}

impl View for ParseResult {
    type V = ParseOutcome;

    open spec fn view(&self) -> ParseOutcome {
        match self {
            ParseResult::Parsed(b, e, v) => ParseOutcome::Parsed(*b as int, *e as int, v@),
            ParseResult::Failed => ParseOutcome::Failed,
            ParseResult::Panicked => ParseOutcome::Panicked,
        }
    }
}

/// Parses the plain extra at the start of `s`: tokens are read until the
/// first `{` is closed, building the object as keys open nested objects and
/// tuples set values (empty texts and nulls are left out).
pub fn try_normalize_not_encoded(s: &Vec<char>) -> (r: ParseResult)
    ensures
        r@ == plain_parse(s@, 0, initial_state()),
        r matches ParseResult::Parsed(_, e, _) ==> e <= s@.len(),
{
    let mut mapping: Vec<(Vec<char>, JsonValue)> = Vec::new();
    let mut path: Vec<Vec<char>> = Vec::new();
    let mut counter: usize = 0;
    let mut begin: usize = 0;
    let mut comma = false;
    let mut pos: usize = 0;
    proof {
        assert(entries_model(mapping@) =~= Seq::<(Seq<char>, Json)>::empty());
        assert(path_model(path@) =~= Seq::<Seq<char>>::empty());
    }
    loop
        invariant
            pos <= s@.len(),
            counter <= pos,
            begin <= pos,
            plain_parse(s@, 0, initial_state()) == plain_parse(
                s@,
                pos as int,
                ParseState {
                    mapping: entries_model(mapping@),
                    path: path_model(path@),
                    counter: counter as nat,
                    begin: begin as int,
                    comma,
                },
            ),
        decreases s@.len() - pos,
    {
        let ghost st = ParseState {
            mapping: entries_model(mapping@),
            path: path_model(path@),
            counter: counter as nat,
            begin: begin as int,
            comma,
        };
        match lex_next(s, pos) {
            LexResult::End => {
                if counter > 0 {
                    return ParseResult::Failed;
                } else {
                    return ParseResult::Parsed(begin, 0, JsonValue::Object(mapping));
                }
            },
            LexResult::Skip(e) => {
                pos = e;
            },
            LexResult::Error => {
                return ParseResult::Failed;
            },
            LexResult::Panic => {
                return ParseResult::Panicked;
            },
            LexResult::Token(t, e) => {
                assert(path_model(path@).skip(0) =~= path_model(path@));
                let m = match ensure_path_exec(mapping, &path, 0) {
                    None => {
                        return ParseResult::Failed;
                    },
                    Some(m) => m,
                };
                mapping = m;
                match t {
                    ExtraParam::Comma => {
                        if comma {
                            comma = false;
                        } else {
                            return ParseResult::Failed;
                        }
                    },
                    ExtraParam::Begin => {
                        if counter == 0 {
                            begin = pos;
                        }
                        counter = counter + 1;
                    },
                    ExtraParam::Param(p) => {
                        let ghost old_path = path@;
                        path.push(p);
                        proof {
                            assert(path_model(path@) =~= path_model(old_path).push(p@));
                        }
                    },
                    ExtraParam::Close => {
                        if counter == 0 {
                            return ParseResult::Panicked;
                        }
                        let ghost old_path = path@;
                        let _ = path.pop();
                        proof {
                            if old_path.len() > 0 {
                                assert(path_model(path@) =~= path_model(old_path).drop_last());
                            }
                        }
                        counter = counter - 1;
                        if counter == 0 {
                            return ParseResult::Parsed(begin, e, JsonValue::Object(mapping));
                        }
                        comma = true;
                    },
                    ExtraParam::Tuple(k, v) => {
                        let skipped = match &v {
                            JsonValue::Text(tx) => tx.len() == 0,
                            JsonValue::Null => true,
                            _ => false,
                        };
                        proof {
                            match &v {
                                JsonValue::Text(tx) => {
                                    if tx@.len() == 0 {
                                        assert(tx@ =~= Seq::<char>::empty());
                                    }
                                },
                                _ => {},
                            }
                        }
                        if !skipped {
                            assert(path_model(path@).skip(0) =~= path_model(path@));
                            mapping = insert_at_path_exec(mapping, &path, 0, k, v);
                        }
                        comma = true;
                    },
                }
                pos = e;
            },
        }
    }
}

fn url_run_end_exec(s: &Vec<char>) -> (n: usize)
    ensures
        n == url_run_end(s@, 0),
        n <= s@.len(),
{
    let mut i: usize = 0;
    while i < s.len() && !char_is_whitespace(s[i]) && s[i] != '&' && s[i] != '#'
        invariant
            i <= s@.len(),
            url_run_end(s@, 0) == url_run_end(s@, i as int),
        decreases s@.len() - i,
    {
        i = i + 1;
    }
    i
}

/// Parses the percent-encoded extra at the start of `s`: the run up to
/// whitespace, `&` or `#` is decoded and parsed as a plain extra.
pub fn try_normalize_url_encoded(s: &Vec<char>) -> (r: ParseResult)
    ensures
        r@ == url_parse(s@),
        r matches ParseResult::Parsed(_, e, _) ==> e <= s@.len(),
{
    let n = url_run_end_exec(s);
    if n == 0 {
        return ParseResult::Failed;
    }
    if (s[n - 1] as u32) >= 0x80 {
        return ParseResult::Panicked;
    }
    let run = copy_range(s, 0, n);
    assert(run@ =~= s@.take(n as int));
    let encoded = string_from_chars(run.as_slice());
    match url_decode(encoded.as_str()) {
        None => ParseResult::Failed,
        Some(decoded) => {
            let d = str_chars(decoded.as_str());
            match try_normalize_not_encoded(&d) {
                ParseResult::Parsed(_, _, v) => ParseResult::Parsed(0, n, v),
                ParseResult::Failed => ParseResult::Failed,
                ParseResult::Panicked => ParseResult::Panicked,
            }
        },
    }
}

/// Removes a `headers` entry that holds an empty object.
fn drop_empty_headers_exec(v: JsonValue) -> (r: JsonValue)
    ensures
        r@ == drop_empty_headers(v@),
{
    match v {
        JsonValue::Object(m) => {
            let key = str_chars("headers");
            assert(v@ == Json::Object(entries_model(m@)));
            let j = find_slot(&m, &key);
            proof {
                if j < m@.len() {
                    lemma_entries_model_index(m@, j as int);
                }
            }
            if j < m.len() && chars_eq(&m[j].0, &key) {
                let empty = match &m[j].1 {
                    JsonValue::Object(inner) => inner.len() == 0,
                    _ => false,
                };
                proof {
                    match &m@[j as int].1 {
                        JsonValue::Object(inner) => {
                            if inner@.len() == 0 {
                                assert(entries_model(inner@) =~= Seq::<(Seq<char>, Json)>::empty());
                            } else {
                                assert(entries_model(inner@).len() != 0);
                            }
                        },
                        _ => {},
                    }
                }
                assert(object_get(entries_model(m@), key@) == Some(m@[j as int].1@));
                if empty {
                    let mut m = m;
                    let ghost old_m = m@;
                    m.remove(j);
                    proof {
                        assert(entries_model(m@) =~= entries_model(old_m).remove(j as int));
                    }
                    return JsonValue::Object(m);
                }
            }
            assert(object_get(entries_model(m@), key@) != Some(Json::Object(Seq::empty())));
            JsonValue::Object(m)
        },
        other => other,
    }
}

fn char_len(c: char) -> (n: u128)
    ensures
        n == char_utf8_len(c),
{
    let u = c as u32;
    if u < 0x80 {
        1
    } else if u < 0x800 {
        2
    } else if u < 0x10000 {
        3
    } else {
        4
    }
}

/// Bytes of the UTF-8 encoding of `t[..end]`.
fn utf8_len_exec(t: &Vec<char>, end: usize) -> (n: u128)
    requires
        end <= t@.len(),
    ensures
        n == utf8_len(t@.take(end as int)),
{
    let mut n: u128 = 0;
    let mut i: usize = 0;
    while i < end
        invariant
            i <= end <= t@.len(),
            n == utf8_len(t@.take(i as int)),
            n <= 4 * i,
        decreases end - i,
    {
        assert(t@.take(i + 1).drop_last() =~= t@.take(i as int));
        n = n + char_len(t[i]);
        i = i + 1;
    }
    n
}

/// The index reached from `from` after exactly `count` bytes, if any.
fn advance_bytes_exec(s: &Vec<char>, from: usize, count: u128) -> (r: Option<usize>)
    requires
        from <= s@.len(),
    ensures
        r is None ==> advance_bytes(s@, from as int, count as int) is None,
        r matches Some(x) ==> advance_bytes(s@, from as int, count as int) == Some(x as int) && x <= s@.len(),
{
    let mut q = from;
    let mut need = count;
    while need > 0 && q < s.len()
        invariant
            q <= s@.len(),
            advance_bytes(s@, from as int, count as int) == advance_bytes(s@, q as int, need as int),
        decreases s@.len() - q,
    {
        let c = char_len(s[q]);
        if c > need {
            assert(advance_bytes(s@, q + 1, need - c) is None);
            return None;
        }
        need = need - c;
        q = q + 1;
    }
    if need == 0 {
        Some(q)
    } else {
        None
    }
}

fn next_extra_exec(s: &Vec<char>, i: usize, pat: &Vec<char>) -> (k: usize)
    requires
        pat@ == "extra="@,
        i <= s@.len(),
    ensures
        k == next_extra(s@, i as int),
        i <= k <= s@.len(),
{
    proof {
        reveal_strlit("extra=");
    }
    let n = s.len();
    let mut j = i;
    while j < n && n - j >= 6 && !word_at_exec(s, j, pat)
        invariant
            i <= j <= s@.len(),
            n == s@.len(),
            pat@ == "extra="@,
            pat@.len() == 6,
            next_extra(s@, i as int) == next_extra(s@, j as int),
        decreases s@.len() - j,
    {
        j = j + 1;
    }
    if j < n && n - j >= 6 {
        j
    } else {
        n
    }
}

fn white_space_end_exec(s: &Vec<char>, i: usize) -> (e: usize)
    requires
        i <= s@.len(),
    ensures
        e == white_space_end(s@, i as int),
        i <= e <= s@.len(),
{
    let mut j = i;
    while j < s.len() && char_is_whitespace(s[j])
        invariant
            i <= j <= s@.len(),
            white_space_end(s@, i as int) == white_space_end(s@, j as int),
        decreases s@.len() - j,
    {
        j = j + 1;
    }
    j
}

fn is_empty_extra_exec(slice: &Vec<char>) -> (b: bool)
    ensures
        b == is_empty_extra(slice@),
{
    word_at_exec(slice, 0, &str_chars("null")) || (slice.len() > 0 && (slice[0] == '#' || slice[0]
        == '&'))
}

/// Replaces the object after every `extra=` by its percent-encoded compact
/// JSON text, and counts the extras normalised and those that could not
/// be. Returns `None` exactly where the normaliser panics.
pub fn try_normalize_extras(s: &str) -> (r: Option<(u32, u32, String)>)
    ensures
        match r {
            Some((done, fail, t)) => extras_outcome(s@) == Some((done as nat, fail as nat, t@)),
            None => extras_outcome(s@) is None,
        },
{
    let chars = str_chars(s);
    let pat = str_chars("extra=");
    proof {
        reveal_strlit("extra=");
    }
    let n = chars.len();
    let mut out: Vec<char> = Vec::new();
    let mut last_end: usize = 0;
    let mut success: u32 = 0;
    let mut broken: u32 = 0;
    let mut i: usize = 0;
    loop
        invariant
            chars@ == s@,
            n == chars@.len(),
            pat@ == "extra="@,
            pat@.len() == 6,
            i <= n,
            last_end <= n,
            extras_outcome(s@) == extras_from(
                chars@,
                i as int,
                ExtrasState {
                    out: out@,
                    last_end: last_end as int,
                    success: success as nat,
                    broken: broken as nat,
                },
            ),
        decreases n - i,
    {
        let k = next_extra_exec(&chars, i, &pat);
        if k >= n || n - k < 6 {
            push_range(&mut out, &chars, last_end, n);
            return Some((success, broken, string_from_chars(out.as_slice())));
        }
        if last_end > k + 6 {
            return None;
        }
        push_range(&mut out, &chars, last_end, k + 6);
        let start = white_space_end_exec(&chars, k + 6);
        let slice = copy_range(&chars, start, n);
        assert(slice@ =~= chars@.skip(start as int));
        if is_empty_extra_exec(&slice) {
            last_end = k + 6;
        } else {
            let outcome = if slice.len() > 0 && slice[0] == '%' {
                try_normalize_url_encoded(&slice)
            } else {
                try_normalize_not_encoded(&slice)
            };
            match outcome {
                ParseResult::Panicked => {
                    return None;
                },
                ParseResult::Failed => {
                    if broken == u32::MAX {
                        return None;
                    }
                    broken = broken + 1;
                    last_end = k + 6;
                },
                ParseResult::Parsed(_, end, v) => {
                    if success == u32::MAX {
                        return None;
                    }
                    let need = utf8_len_exec(&slice, end);
                    match advance_bytes_exec(&chars, k + 6, need) {
                        None => {
                            return None;
                        },
                        Some(q) => {
                            let v2 = drop_empty_headers_exec(v);
                            let mut text: Vec<char> = Vec::new();
                            write_json(&mut text, &v2);
                            let json = string_from_chars(text.as_slice());
                            let encoded = url_encode(json.as_str());
                            push_all(&mut out, &str_chars(encoded.as_str()));
                            success = success + 1;
                            last_end = q;
                        },
                    }
                },
            }
        }
        i = k + 6;
    }
}

/// [`try_normalize_extras`] on a text where the normaliser does not panic.
pub fn normalize_extras(s: &str) -> (r: (u32, u32, String))
    requires
        extras_outcome(s@) is Some,
    ensures
        extras_outcome(s@) == Some((r.0 as nat, r.1 as nat, r.2@)),
{
    match try_normalize_extras(s) {
        Some(r) => r,
        None => (0, 0, String::new()),
    }
}

} // verus!
