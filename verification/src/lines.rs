//! Re-splitting of subscription text into one proxy link per line.

use vstd::prelude::*;
use crate::text::{char_is_whitespace, is_white_space, ascii_alnum, str_chars, string_from_chars,
    push_range, push_all, range_ends_with, range_starts_with};

verus! {

/// The link schemas that a chunk may start (or end) with, in the order in
/// which they are tried.
pub open spec fn known_schemas() -> Seq<Seq<char>> {
    seq![
        "vless://"@, "vmess://"@, "trojan://"@, "shadowsocks://"@, "ss://"@, "ssr://"@,
        "http://"@, "https://"@, "socks://"@, "socks5://"@, "hysteria2://"@, "hysteria://"@,
        "hhysteria2://"@, "hhysteria://"@, "hy2://"@, "hy://"@, "anytls://"@,
    ]
}

fn known_schema_list() -> (v: Vec<Vec<char>>)
    ensures
        v@.len() == known_schemas().len(),
        forall|i: int| 0 <= i < v@.len() ==> #[trigger] v@[i]@ == known_schemas()[i],
{
    let mut v: Vec<Vec<char>> = Vec::new();
    v.push(str_chars("vless://"));
    v.push(str_chars("vmess://"));
    v.push(str_chars("trojan://"));
    v.push(str_chars("shadowsocks://"));
    v.push(str_chars("ss://"));
    v.push(str_chars("ssr://"));
    v.push(str_chars("http://"));
    v.push(str_chars("https://"));
    v.push(str_chars("socks://"));
    v.push(str_chars("socks5://"));
    v.push(str_chars("hysteria2://"));
    v.push(str_chars("hysteria://"));
    v.push(str_chars("hhysteria2://"));
    v.push(str_chars("hhysteria://"));
    v.push(str_chars("hy2://"));
    v.push(str_chars("hy://"));
    v.push(str_chars("anytls://"));
    v
}

/// `s` holds the separator `://` at index `k`.
pub open spec fn is_sep_at(s: Seq<char>, k: int) -> bool {
    &&& 0 <= k
    &&& k + 3 <= s.len()
    &&& s[k] == ':'
    &&& s[k + 1] == '/'
    &&& s[k + 2] == '/'
}

/// A schema: a name of ASCII letters and digits followed by `://`.
pub open spec fn schema_shape(x: Seq<char>) -> bool {
    &&& x.len() >= 4
    &&& is_sep_at(x, x.len() - 3)
    &&& forall|k: int| 0 <= k < x.len() - 3 ==> #[trigger] x[k] != ':'
}

proof fn lemma_known_schemas_shape()
    ensures
        forall|i: int| 0 <= i < known_schemas().len() ==> schema_shape(#[trigger] known_schemas()[i]),
{
    reveal_strlit("vless://");
    reveal_strlit("vmess://");
    reveal_strlit("trojan://");
    reveal_strlit("shadowsocks://");
    reveal_strlit("ss://");
    reveal_strlit("ssr://");
    reveal_strlit("http://");
    reveal_strlit("https://");
    reveal_strlit("socks://");
    reveal_strlit("socks5://");
    reveal_strlit("hysteria2://");
    reveal_strlit("hysteria://");
    reveal_strlit("hhysteria2://");
    reveal_strlit("hhysteria://");
    reveal_strlit("hy2://");
    reveal_strlit("hy://");
    reveal_strlit("anytls://");
    assert forall|i: int| 0 <= i < known_schemas().len() implies schema_shape(#[trigger] known_schemas()[i]) by {
        let x = known_schemas()[i];
        assert forall|k: int| 0 <= k < x.len() - 3 implies #[trigger] x[k] != ':' by {}
    }
}

/// Number of pieces that `split_inclusive("://")` yields for `s[a..b]`,
/// scanning from `j` (no separator starts in `s[a..j]`).
pub open spec fn piece_chunks(s: Seq<char>, a: int, j: int, b: int) -> nat
    decreases b - j,
{
    if a >= b {
        0
    } else if j + 3 > b {
        1
    } else if is_sep_at(s, j) {
        1 + piece_chunks(s, j + 3, j + 3, b)
    } else {
        piece_chunks(s, a, j + 1, b)
    }
}

/// Number of chunks that `split(char::is_whitespace)` followed by
/// `split_inclusive("://")` yields for `s`, scanning from `i` with the
/// current whitespace-delimited piece starting at `start`.
pub open spec fn ws_chunks(s: Seq<char>, start: int, i: int) -> nat
    decreases s.len() - i,
{
    if i >= s.len() {
        piece_chunks(s, start, start, s.len() as int)
    } else if is_white_space(s[i]) {
        piece_chunks(s, start, start, i) + ws_chunks(s, i + 1, i + 1)
    } else {
        ws_chunks(s, start, i + 1)
    }
}

/// Number of chunks that the subscription text `s` is cut into.
pub open spec fn line_chunk_count(s: Seq<char>) -> nat {
    ws_chunks(s, 0, 0)
}

/// Counting the pieces of `s[a..b]` reads only the characters below `b`.
proof fn lemma_piece_chunks_prefix(s: Seq<char>, t: Seq<char>, a: int, j: int, b: int)
    requires
        b <= s.len(),
        b <= t.len(),
        forall|k: int| 0 <= k < b ==> s[k] == t[k],
    ensures
        piece_chunks(s, a, j, b) == piece_chunks(t, a, j, b),
    decreases b - j,
{
    if a < b && j + 3 <= b {
        if 0 <= j {
            assert(s[j] == t[j] && s[j + 1] == t[j + 1] && s[j + 2] == t[j + 2]);
        }
        if is_sep_at(s, j) {
            lemma_piece_chunks_prefix(s, t, j + 3, j + 3, b);
        } else {
            lemma_piece_chunks_prefix(s, t, a, j + 1, b);
        }
    }
}

/// Counting the pieces of a text behind a prefix `p`.
proof fn lemma_piece_chunks_shift(p: Seq<char>, t: Seq<char>, a: int, j: int, b: int)
    requires
        0 <= j,
        b <= t.len(),
    ensures
        piece_chunks(p + t, p.len() as int + a, p.len() as int + j, p.len() as int + b) == piece_chunks(
            t,
            a,
            j,
            b,
        ),
    decreases b - j,
{
    let s = p + t;
    let m = p.len() as int;
    if a < b && j + 3 <= b {
        assert(s[m + j] == t[j] && s[m + j + 1] == t[j + 1] && s[m + j + 2] == t[j + 2]);
        if is_sep_at(t, j) {
            lemma_piece_chunks_shift(p, t, j + 3, j + 3, b);
        } else {
            lemma_piece_chunks_shift(p, t, a, j + 1, b);
        }
    }
}

/// Counting the chunks of a text behind a prefix `p`.
proof fn lemma_ws_chunks_shift(p: Seq<char>, t: Seq<char>, start: int, i: int)
    requires
        0 <= start <= i <= t.len(),
    ensures
        ws_chunks(p + t, p.len() as int + start, p.len() as int + i) == ws_chunks(t, start, i),
    decreases t.len() - i,
{
    let s = p + t;
    let m = p.len() as int;
    if i >= t.len() {
        lemma_piece_chunks_shift(p, t, start, start, t.len() as int);
    } else {
        assert(s[m + i] == t[i]);
        if is_white_space(t[i]) {
            lemma_piece_chunks_shift(p, t, start, start, i);
            lemma_ws_chunks_shift(p, t, i + 1, i + 1);
        } else {
            lemma_ws_chunks_shift(p, t, start, i + 1);
        }
    }
}

/// Counting the chunks of `a` inside `a + [c] + b`, `c` a whitespace
/// character: the chunks of `a`, then those after `c`.
proof fn lemma_ws_chunks_before_separator(a: Seq<char>, c: char, b: Seq<char>, start: int, i: int)
    requires
        is_white_space(c),
        0 <= start <= i <= a.len(),
    ensures
        ws_chunks(a + seq![c] + b, start, i) == ws_chunks(a, start, i) + ws_chunks(
            a + seq![c] + b,
            a.len() as int + 1,
            a.len() as int + 1,
        ),
    decreases a.len() - i,
{
    let s = a + seq![c] + b;
    let n = a.len() as int;
    assert forall|k: int| 0 <= k < n implies s[k] == a[k] by {}
    if i == n {
        assert(s[n] == c);
        lemma_piece_chunks_prefix(s, a, start, start, n);
    } else {
        assert(s[i] == a[i]);
        if is_white_space(a[i]) {
            lemma_piece_chunks_prefix(s, a, start, start, i);
            lemma_ws_chunks_before_separator(a, c, b, i + 1, i + 1);
        } else {
            lemma_ws_chunks_before_separator(a, c, b, start, i + 1);
        }
    }
}

/// Joining two texts with a whitespace character between them cuts them
/// into the chunks of each, so the chunk counts add up (and, as the rebuilt
/// text of each is empty, [`normalize_lines`] of the joined text is the sum
/// of its results on the two).
pub proof fn lemma_line_chunks_join(a: Seq<char>, c: char, b: Seq<char>)
    requires
        is_white_space(c),
    ensures
        line_chunk_count(a + seq![c] + b) == line_chunk_count(a) + line_chunk_count(b),
{
    lemma_ws_chunks_before_separator(a, c, b, 0, 0);
    assert(a + seq![c] + b == (a + seq![c]) + b);
    lemma_ws_chunks_shift(a + seq![c], b, 0, 0);
}

/// The separator `://`.
fn sep_chars() -> (v: Vec<char>)
    ensures
        v@ == seq![':', '/', '/'],
{
    let mut v: Vec<char> = Vec::new();
    v.push(':');
    v.push('/');
    v.push('/');
    v
}

fn sep_at(s: &Vec<char>, k: usize) -> (b: bool)
    requires
        k + 3 <= s.len(),
    ensures
        b == is_sep_at(s@, k as int),
{
    s[k] == ':' && s[k + 1] == '/' && s[k + 2] == '/'
}

/// A chunk that starts with a known schema is one whose only `://` is the
/// schema's own; such a chunk equals the schema, which the suffix check of
/// that very schema strips first.
proof fn lemma_no_prefix_after_suffix_check(
    s: Seq<char>,
    lo: int,
    hi0: int,
    hi: int,
    x: Seq<char>,
    ends: bool,
)
    requires
        0 <= lo < hi0 <= s.len(),
        lo <= hi <= hi0,
        forall|p: int| lo <= p && p + 3 < hi0 ==> !is_sep_at(s, p),
        schema_shape(x),
        hi == hi0 ==> !ends,
        hi == hi0 ==> ends == (x.len() <= hi0 - lo && s.subrange(hi0 - x.len(), hi0) == x),
    ensures
        !(x.len() <= hi - lo && s.subrange(lo, lo + x.len()) == x),
{
    if x.len() <= hi - lo && s.subrange(lo, lo + x.len()) == x {
        let p = lo + x.len() - 3;
        assert(s[p] == x[x.len() - 3]);
        assert(s[p + 1] == x[x.len() - 2]);
        assert(s[p + 2] == x[x.len() - 1]);
        assert(is_sep_at(s, p));
        assert(hi == hi0);
        assert(s.subrange(hi0 - x.len(), hi0) == x);
    }
}

/// Strips known schemas from the chunk `s[lo0..hi0]` the way the link
/// normaliser does and, for a chunk that starts with a schema, writes the
/// normalised link to `out`. A chunk cut at its first `://` never starts
/// with a schema, so nothing is written and `false` is returned.
fn normalize_chunk(
    s: &Vec<char>,
    lo0: usize,
    hi0: usize,
    schemas: &Vec<Vec<char>>,
    out: &mut Vec<char>,
) -> (linked: bool)
    requires
        lo0 < hi0 <= s@.len(),
        forall|p: int| lo0 <= p && p + 3 < hi0 ==> !is_sep_at(s@, p),
        schemas@.len() == known_schemas().len(),
        forall|i: int| 0 <= i < schemas@.len() ==> #[trigger] schemas@[i]@ == known_schemas()[i],
    ensures
        !linked,
        final(out)@ == old(out)@,
{
    proof {
        lemma_known_schemas_shape();
    }
    let mut lo = lo0;
    let mut hi = hi0;
    let mut suffix: Option<usize> = None;
    let mut prefix: Option<usize> = None;
    let mut i: usize = 0;
    while i < schemas.len()
        invariant
            i <= schemas@.len(),
            schemas@.len() == known_schemas().len(),
            forall|k: int| 0 <= k < schemas@.len() ==> #[trigger] schemas@[k]@ == known_schemas()[k],
            forall|k: int| 0 <= k < known_schemas().len() ==> schema_shape(#[trigger] known_schemas()[k]),
            lo0 < hi0 <= s@.len(),
            forall|p: int| lo0 <= p && p + 3 < hi0 ==> !is_sep_at(s@, p),
            prefix is None,
            lo == lo0,
            lo <= hi <= hi0,
            suffix is None ==> hi == hi0,
            suffix is Some ==> hi < hi0,
        decreases schemas@.len() - i,
    {
        let ends = if suffix.is_none() {
            range_ends_with(s, lo, hi, &schemas[i])
        } else {
            false
        };
        if ends {
            hi = hi - schemas[i].len();
            suffix = Some(i);
        }
        proof {
            lemma_no_prefix_after_suffix_check(s@, lo as int, hi0 as int, hi as int, schemas@[i as int]@, ends);
        }
        if prefix.is_none() && range_starts_with(s, lo, hi, &schemas[i]) {
            lo = lo + schemas[i].len();
            prefix = Some(i);
        }
        i = i + 1;
    }
    let prefix_idx = match prefix {
        None => {
            return false;
        },
        Some(p) => p,
    };
    push_all(out, &schemas[prefix_idx]);
    match suffix {
        Some(si) => {
            push_range(out, s, lo, hi);
            out.push('\n');
            push_all(out, &schemas[si]);
        },
        None => {
            let mut end = hi;
            if range_ends_with(s, lo, hi, &sep_chars()) {
                let in_end = hi - 3;
                let mut found: Option<usize> = None;
                if in_end >= lo + 3 {
                    let mut k = in_end - 3;
                    while k > lo && ascii_alnum(s[k - 1])
                        invariant
                            lo <= k <= in_end,
                            in_end <= s@.len(),
                        decreases k,
                    {
                        k = k - 1;
                        found = Some(k);
                    }
                }
                end = match found {
                    Some(start) => start,
                    None => hi - 3,
                };
            }
            push_range(out, s, lo, end);
            out.push('\n');
        },
    }
    true
}

/// Cuts `s` at whitespace and after every `://`, strips the known schemas
/// from each chunk and rebuilds one link per line, counting the chunks that
/// were turned into links and those that were not.
///
/// A chunk is cut right after its first `://`, so a chunk never starts with
/// a known schema (each schema ends in its only `://`): every chunk is
/// counted as failed and the rebuilt text is empty.
pub fn normalize_lines(s: &str) -> (res: (usize, usize, String))
    ensures
        res.0 == 0,
        res.1 == line_chunk_count(s@),
        res.2@ == Seq::<char>::empty(),
{
    let chars = str_chars(s);
    let schemas = known_schema_list();
    let n = chars.len();
    let mut out: Vec<char> = Vec::new();
    let mut done: usize = 0;
    let mut fail: usize = 0;
    let mut start: usize = 0;
    let mut i: usize = 0;
    loop
        invariant_except_break
            start <= i <= n,
            fail + ws_chunks(chars@, start as int, i as int) == line_chunk_count(chars@),
            fail <= start,
        invariant
            n == chars@.len(),
            chars@ == s@,
            schemas@.len() == known_schemas().len(),
            forall|k: int| 0 <= k < schemas@.len() ==> #[trigger] schemas@[k]@ == known_schemas()[k],
            done == 0,
            out@ == Seq::<char>::empty(),
        ensures
            fail == line_chunk_count(chars@),
            done == 0,
            out@ == Seq::<char>::empty(),
        decreases n - i,
    {
        if i < n && !char_is_whitespace(chars[i]) {
            i = i + 1;
            continue;
        }
        // the piece chars[start..i] ends here
        let ghost f0 = fail;
        let mut a = start;
        let mut j = start;
        while a < i
            invariant
                n == chars@.len(),
                start <= a <= j <= i <= n,
                schemas@.len() == known_schemas().len(),
                forall|k: int| 0 <= k < schemas@.len() ==> #[trigger] schemas@[k]@ == known_schemas()[k],
                forall|p: int| a <= p < j ==> !is_sep_at(chars@, p),
                fail + piece_chunks(chars@, a as int, j as int, i as int)
                    == f0 + piece_chunks(chars@, start as int, start as int, i as int),
                fail <= a,
                done == 0,
                out@ == Seq::<char>::empty(),
            decreases i - a, i - j,
        {
            if i - j >= 3 && !sep_at(&chars, j) {
                j = j + 1;
                continue;
            }
            let hi = if i - j >= 3 { j + 3 } else { i };
            let linked = normalize_chunk(&chars, a, hi, &schemas, &mut out);
            if linked {
                done = done + 1;
            } else {
                fail = fail + 1;
            }
            a = hi;
            j = hi;
        }
        if i >= n {
            break;
        }
        i = i + 1;
        start = i;
    }
    (done, fail, string_from_chars(out.as_slice()))
}

} // verus!
