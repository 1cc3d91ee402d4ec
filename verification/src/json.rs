//! JSON values as the extra-parameter normaliser builds them, and their
//! compact text (keys in ascending order, as in a `BTreeMap`).

use vstd::prelude::*;

verus! {

/// A JSON value.
pub enum Json {
    Null,
    Bool(bool),
    Number(u64),
    Text(Seq<char>),
    Object(Seq<(Seq<char>, Json)>),
}

/// A JSON value held by the program.
pub enum JsonValue {
    Null,
    Bool(bool),
    Number(u64),
    Text(Vec<char>),
    Object(Vec<(Vec<char>, JsonValue)>),
}

pub open spec fn json_model(v: JsonValue) -> Json
    decreases v,
{
    match v {
        JsonValue::Null => Json::Null,
        JsonValue::Bool(b) => Json::Bool(b),
        JsonValue::Number(n) => Json::Number(n),
        JsonValue::Text(t) => Json::Text(t@),
        JsonValue::Object(es) => Json::Object(entries_model(es@)),
    }
}

pub open spec fn entries_model(es: Seq<(Vec<char>, JsonValue)>) -> Seq<(Seq<char>, Json)>
    decreases es,
{
    Seq::new(
        es.len(),
        |i: int|
            (es[i].0@, if 0 <= i < es.len() {
                json_model(es[i].1)
            } else {
                Json::Null
            }),
    )
}

impl View for JsonValue {
    type V = Json;

    open spec fn view(&self) -> Json {
        json_model(*self)
    }
}

/// `a` sorts before `b` (code point by code point, a proper prefix first),
/// which is the order of `String`.
pub open spec fn key_less(a: Seq<char>, b: Seq<char>) -> bool
    decreases a.len(),
{
    if a.len() == 0 {
        b.len() > 0
    } else if b.len() == 0 {
        false
    } else if a[0] != b[0] {
        (a[0] as u32) < (b[0] as u32)
    } else {
        key_less(a.drop_first(), b.drop_first())
    }
}

/// Where key `k` belongs in the ordered entries: the first entry whose key is
/// `k` or sorts after `k`.
pub open spec fn object_slot<V>(es: Seq<(Seq<char>, V)>, k: Seq<char>, i: int) -> int
    decreases es.len() - i,
{
    if i >= es.len() {
        es.len() as int
    } else if es[i].0 == k || key_less(k, es[i].0) {
        i
    } else {
        object_slot(es, k, i + 1)
    }
}

/// The value under key `k`.
pub open spec fn object_get(es: Seq<(Seq<char>, Json)>, k: Seq<char>) -> Option<Json> {
    let j = object_slot(es, k, 0);
    if j < es.len() && es[j].0 == k {
        Some(es[j].1)
    } else {
        None
    }
}

/// The entries with `k` set to `v` (replaced in place, or added in order).
pub open spec fn object_insert(es: Seq<(Seq<char>, Json)>, k: Seq<char>, v: Json) -> Seq<
    (Seq<char>, Json),
> {
    let j = object_slot(es, k, 0);
    if j < es.len() && es[j].0 == k {
        es.update(j, (k, v))
    } else {
        es.insert(j, (k, v))
    }
}

/// The entries without key `k`.
pub open spec fn object_remove(es: Seq<(Seq<char>, Json)>, k: Seq<char>) -> Seq<(Seq<char>, Json)> {
    let j = object_slot(es, k, 0);
    if j < es.len() && es[j].0 == k {
        es.remove(j)
    } else {
        es
    }
}

/// Decimal digits of `n`.
pub open spec fn decimal_text(n: nat) -> Seq<char>
    decreases n,
{
    if n < 10 {
        seq![(('0' as u32) + n) as char]
    } else {
        decimal_text(n / 10) + seq![(('0' as u32) + (n % 10)) as char]
    }
}

/// Lower-case hexadecimal digit.
pub open spec fn hex_lower(d: nat) -> char {
    if d < 10 {
        (('0' as u32) + d) as char
    } else {
        (('a' as u32) + d - 10) as char
    }
}

/// A character inside a JSON string: `"` and `\` are backslash-escaped,
/// control characters take their short escape or `\u00XX`, the rest stand
/// as they are.
pub open spec fn escaped_char(c: char) -> Seq<char> {
    if c == '"' {
        seq!['\\', '"']
    } else if c == '\\' {
        seq!['\\', '\\']
    } else if c == '\u{8}' {
        seq!['\\', 'b']
    } else if c == '\t' {
        seq!['\\', 't']
    } else if c == '\n' {
        seq!['\\', 'n']
    } else if c == '\u{c}' {
        seq!['\\', 'f']
    } else if c == '\r' {
        seq!['\\', 'r']
    } else if (c as u32) < 0x20 {
        seq!['\\', 'u', '0', '0', hex_lower((c as u32 / 16) as nat), hex_lower((c as u32 % 16) as nat)]
    } else {
        seq![c]
    }
}

pub open spec fn escaped_text(t: Seq<char>) -> Seq<char>
    decreases t.len(),
{
    if t.len() == 0 {
        seq![]
    } else {
        escaped_text(t.drop_last()) + escaped_char(t.last())
    }
}

/// A JSON string literal.
pub open spec fn string_literal(t: Seq<char>) -> Seq<char> {
    seq!['"'] + escaped_text(t) + seq!['"']
}

/// Compact JSON text of `v`.
pub open spec fn json_text(v: Json) -> Seq<char>
    decreases v,
{
    match v {
        Json::Null => seq!['n', 'u', 'l', 'l'],
        Json::Bool(b) => if b {
            seq!['t', 'r', 'u', 'e']
        } else {
            seq!['f', 'a', 'l', 's', 'e']
        },
        Json::Number(n) => decimal_text(n as nat),
        Json::Text(t) => string_literal(t),
        Json::Object(es) => seq!['{'] + members_text(es) + seq!['}'],
    }
}

/// The members of an object, `"key":value`, separated by commas.
pub open spec fn members_text(es: Seq<(Seq<char>, Json)>) -> Seq<char>
    decreases es,
{
    if es.len() == 0 {
        seq![]
    } else {
        let m = string_literal(es.last().0) + seq![':'] + json_text(es.last().1);
        if es.len() == 1 {
            m
        } else {
            members_text(es.drop_last()) + seq![','] + m
        }
    }
}

pub proof fn lemma_entries_model_index(es: Seq<(Vec<char>, JsonValue)>, i: int)
    requires
        0 <= i < es.len(),
    ensures
        entries_model(es).len() == es.len(),
        entries_model(es)[i] == (es[i].0@, es[i].1@),
{
}

proof fn lemma_entries_model_update(es: Seq<(Vec<char>, JsonValue)>, j: int, e: (Vec<char>, JsonValue))
    requires
        0 <= j < es.len(),
    ensures
        entries_model(es.update(j, e)) == entries_model(es).update(j, (e.0@, e.1@)),
{
    assert(entries_model(es.update(j, e)) =~= entries_model(es).update(j, (e.0@, e.1@)));
}

proof fn lemma_entries_model_insert(es: Seq<(Vec<char>, JsonValue)>, j: int, e: (Vec<char>, JsonValue))
    requires
        0 <= j <= es.len(),
    ensures
        entries_model(es.insert(j, e)) == entries_model(es).insert(j, (e.0@, e.1@)),
{
    assert(entries_model(es.insert(j, e)) =~= entries_model(es).insert(j, (e.0@, e.1@)));
}

/// Whether `a` and `b` hold the same characters.
pub fn chars_eq(a: &Vec<char>, b: &Vec<char>) -> (r: bool)
    ensures
        r == (a@ == b@),
{
    if a.len() != b.len() {
        return false;
    }
    let mut i: usize = 0;
    while i < a.len()
        invariant
            i <= a@.len(),
            a@.len() == b@.len(),
            forall|j: int| 0 <= j < i ==> a@[j] == b@[j],
        decreases a@.len() - i,
    {
        if a[i] != b[i] {
            return false;
        }
        i = i + 1;
    }
    assert(a@ =~= b@);
    true
}

/// Whether `a` sorts before `b`.
pub fn key_less_exec(a: &Vec<char>, b: &Vec<char>) -> (r: bool)
    ensures
        r == key_less(a@, b@),
{
    let mut i: usize = 0;
    assert(a@.skip(0) =~= a@);
    assert(b@.skip(0) =~= b@);
    while i < a.len() && i < b.len() && a[i] == b[i]
        invariant
            i <= a@.len(),
            i <= b@.len(),
            key_less(a@, b@) == key_less(a@.skip(i as int), b@.skip(i as int)),
        decreases a@.len() - i,
    {
        assert(a@.skip(i as int).drop_first() =~= a@.skip(i + 1));
        assert(b@.skip(i as int).drop_first() =~= b@.skip(i + 1));
        i = i + 1;
    }
    if i == a.len() {
        i < b.len()
    } else if i == b.len() {
        false
    } else {
        (a[i] as u32) < (b[i] as u32)
    }
}

/// Where `k` belongs among the entries.
pub fn find_slot(es: &Vec<(Vec<char>, JsonValue)>, k: &Vec<char>) -> (j: usize)
    ensures
        j == object_slot(entries_model(es@), k@, 0),
        j <= es@.len(),
{
    let ghost m = entries_model(es@);
    let mut i: usize = 0;
    while i < es.len()
        invariant
            i <= es@.len(),
            m == entries_model(es@),
            m.len() == es@.len(),
            object_slot(m, k@, 0) == object_slot(m, k@, i as int),
        decreases es@.len() - i,
    {
        proof {
            lemma_entries_model_index(es@, i as int);
        }
        if chars_eq(&es[i].0, k) || key_less_exec(k, &es[i].0) {
            return i;
        }
        i = i + 1;
    }
    i
}

/// Sets key `k` to `v`.
pub fn object_insert_exec(es: &mut Vec<(Vec<char>, JsonValue)>, k: Vec<char>, v: JsonValue)
    ensures
        entries_model(final(es)@) == object_insert(entries_model(old(es)@), k@, v@),
{
    let j = find_slot(es, &k);
    let found = j < es.len() && chars_eq(&es[j].0, &k);
    proof {
        if j < es@.len() {
            lemma_entries_model_index(es@, j as int);
        }
    }
    if found {
        proof {
            lemma_entries_model_update(es@, j as int, (k, v));
        }
        es.set(j, (k, v));
    } else {
        proof {
            lemma_entries_model_insert(es@, j as int, (k, v));
        }
        es.insert(j, (k, v));
    }
}

/// Appends the decimal digits of `n`.
pub fn push_decimal(out: &mut Vec<char>, n: u64)
    ensures
        final(out)@ == old(out)@ + decimal_text(n as nat),
    decreases n,
{
    if n >= 10 {
        push_decimal(out, n / 10);
    }
    let d = (n % 10) as u32;
    let c = char_from_digit(d);
    out.push(c);
    assert(final(out)@ =~= old(out)@ + decimal_text(n as nat));
}

fn char_from_digit(d: u32) -> (c: char)
    requires
        d < 10,
    ensures
        c == (('0' as u32) + d) as char,
{
    if d == 0 { '0' } else if d == 1 { '1' } else if d == 2 { '2' } else if d == 3 { '3' }
    else if d == 4 { '4' } else if d == 5 { '5' } else if d == 6 { '6' } else if d == 7 { '7' }
    else if d == 8 { '8' } else { '9' }
}

fn hex_digit(d: u32) -> (c: char)
    requires
        d < 16,
    ensures
        c == hex_lower(d as nat),
{
    if d < 10 {
        char_from_digit(d)
    } else if d == 10 { 'a' } else if d == 11 { 'b' } else if d == 12 { 'c' } else if d == 13 { 'd' }
    else if d == 14 { 'e' } else { 'f' }
}

fn push_escaped_char(out: &mut Vec<char>, c: char)
    ensures
        final(out)@ == old(out)@ + escaped_char(c),
{
    if c == '"' {
        out.push('\\');
        out.push('"');
    } else if c == '\\' {
        out.push('\\');
        out.push('\\');
    } else if c == '\u{8}' {
        out.push('\\');
        out.push('b');
    } else if c == '\t' {
        out.push('\\');
        out.push('t');
    } else if c == '\n' {
        out.push('\\');
        out.push('n');
    } else if c == '\u{c}' {
        out.push('\\');
        out.push('f');
    } else if c == '\r' {
        out.push('\\');
        out.push('r');
    } else if (c as u32) < 0x20 {
        out.push('\\');
        out.push('u');
        out.push('0');
        out.push('0');
        out.push(hex_digit(c as u32 / 16));
        out.push(hex_digit(c as u32 % 16));
    } else {
        out.push(c);
    }
    assert(final(out)@ =~= old(out)@ + escaped_char(c));
}

/// Appends `t` as a JSON string literal.
pub fn push_string_literal(out: &mut Vec<char>, t: &Vec<char>)
    ensures
        final(out)@ == old(out)@ + string_literal(t@),
{
    out.push('"');
    let ghost start = out@;
    let mut i: usize = 0;
    while i < t.len()
        invariant
            i <= t@.len(),
            out@ == start + escaped_text(t@.take(i as int)),
        decreases t@.len() - i,
    {
        push_escaped_char(out, t[i]);
        assert(t@.take(i + 1).drop_last() =~= t@.take(i as int));
        i = i + 1;
    }
    assert(t@.take(t@.len() as int) =~= t@);
    out.push('"');
    assert(final(out)@ =~= old(out)@ + string_literal(t@));
}

/// Appends the compact JSON text of `v`.
pub fn write_json(out: &mut Vec<char>, v: &JsonValue)
    ensures
        final(out)@ == old(out)@ + json_text(v@),
    decreases v,
{
    match v {
        JsonValue::Null => {
            out.push('n');
            out.push('u');
            out.push('l');
            out.push('l');
        },
        JsonValue::Bool(b) => {
            if *b {
                out.push('t');
                out.push('r');
                out.push('u');
                out.push('e');
            } else {
                out.push('f');
                out.push('a');
                out.push('l');
                out.push('s');
                out.push('e');
            }
        },
        JsonValue::Number(n) => {
            push_decimal(out, *n);
        },
        JsonValue::Text(t) => {
            push_string_literal(out, t);
        },
        JsonValue::Object(es) => {
            out.push('{');
            let ghost start = out@;
            let ghost m = entries_model(es@);
            let mut i: usize = 0;
            while i < es.len()
                invariant
                    i <= es@.len(),
                    *v == JsonValue::Object(*es),
                    m == entries_model(es@),
                    m.len() == es@.len(),
                    out@ == start + members_text(m.take(i as int)),
                decreases es@.len() - i,
            {
                proof {
                    lemma_entries_model_index(es@, i as int);
                }
                let ghost before = out@;
                if i > 0 {
                    out.push(',');
                }
                push_string_literal(out, &es[i].0);
                out.push(':');
                proof {
                    let e = es@[i as int];
                    let w = *v;
                    assert(w->Object_0 == *es);
                    assert(decreases_to!(w => w->Object_0));
                    assert(decreases_to!(*es => es@));
                    assert(decreases_to!(es@ => e));
                    assert(decreases_to!(e => e.1));
                }
                write_json(out, &es[i].1);
                assert(m.take(i + 1).drop_last() =~= m.take(i as int));
                assert(m.take(i + 1).last() == m[i as int]);
                i = i + 1;
            }
            assert(m.take(es@.len() as int) =~= m);
            out.push('}');
        },
    }
    assert(final(out)@ =~= old(out)@ + json_text(v@));
}

/// Keys strictly ascending (so no key twice), as in a `BTreeMap`.
pub open spec fn keys_sorted(es: Seq<(Seq<char>, Json)>) -> bool {
    forall|i: int, j: int| 0 <= i < j < es.len() ==> key_less(#[trigger] es[i].0, #[trigger] es[j].0)
}

proof fn lemma_key_less_irreflexive(a: Seq<char>)
    ensures
        !key_less(a, a),
    decreases a.len(),
{
    if a.len() > 0 {
        lemma_key_less_irreflexive(a.drop_first());
    }
}

proof fn lemma_key_less_total(a: Seq<char>, b: Seq<char>)
    ensures
        a == b || key_less(a, b) || key_less(b, a),
    decreases a.len(),
{
    if a.len() == 0 {
        if b.len() == 0 {
            assert(a =~= b);
        }
    } else if b.len() == 0 {
    } else if a[0] != b[0] {
        vstd::utf8::char_u32_cast(a[0], a[0] as u32);
        vstd::utf8::char_u32_cast(b[0], b[0] as u32);
    } else {
        lemma_key_less_total(a.drop_first(), b.drop_first());
        if a.drop_first() == b.drop_first() {
            assert(a =~= seq![a[0]] + a.drop_first());
            assert(b =~= seq![b[0]] + b.drop_first());
        }
    }
}

proof fn lemma_key_less_transitive(a: Seq<char>, b: Seq<char>, c: Seq<char>)
    requires
        key_less(a, b),
        key_less(b, c),
    ensures
        key_less(a, c),
    decreases a.len(),
{
    if a.len() > 0 && b.len() > 0 && c.len() > 0 && a[0] == b[0] && b[0] == c[0] {
        lemma_key_less_transitive(a.drop_first(), b.drop_first(), c.drop_first());
    }
}

proof fn lemma_object_slot<V>(es: Seq<(Seq<char>, V)>, k: Seq<char>, i: int)
    requires
        0 <= i <= es.len(),
    ensures
        i <= object_slot(es, k, i) <= es.len(),
        forall|m: int|
            i <= m < object_slot(es, k, i) ==> #[trigger] es[m].0 != k && !key_less(k, es[m].0),
        object_slot(es, k, i) < es.len() ==> (es[object_slot(es, k, i)].0 == k || key_less(
            k,
            es[object_slot(es, k, i)].0,
        )),
    decreases es.len() - i,
{
    if i < es.len() && !(es[i].0 == k || key_less(k, es[i].0)) {
        lemma_object_slot(es, k, i + 1);
    }
}

/// Setting a key in an object whose keys ascend keeps them ascending, and
/// the key then holds the new value (`BTreeMap::insert` then `get`).
pub proof fn lemma_object_insert_sorted(es: Seq<(Seq<char>, Json)>, k: Seq<char>, v: Json)
    requires
        keys_sorted(es),
    ensures
        keys_sorted(object_insert(es, k, v)),
        object_get(object_insert(es, k, v), k) == Some(v),
{
    lemma_object_slot(es, k, 0);
    let j = object_slot(es, k, 0);
    let n = object_insert(es, k, v);
    if j < es.len() && es[j].0 == k {
        assert forall|a: int, b: int| 0 <= a < b < n.len() implies key_less(#[trigger] n[a].0, #[trigger] n[b].0) by {
            assert(n[a].0 == es[a].0);
            assert(n[b].0 == es[b].0);
        }
        lemma_object_slot(n, k, 0);
        let j2 = object_slot(n, k, 0);
        if j2 < j {
            assert(n[j2].0 == es[j2].0);
            if key_less(k, n[j2].0) {
            }
        }
        if j2 > j {
            assert(n[j].0 == k);
        }
    } else {
        assert forall|a: int, b: int| 0 <= a < b < n.len() implies key_less(#[trigger] n[a].0, #[trigger] n[b].0) by {
            if b < j {
            } else if b == j {
                lemma_key_less_total(es[a].0, k);
            } else if a < j {
                assert(n[b] == es[b - 1]);
            } else if a == j {
                assert(n[b] == es[b - 1]);
                if b - 1 > j {
                    lemma_key_less_transitive(k, es[j].0, es[b - 1].0);
                }
            } else {
                assert(n[a] == es[a - 1]);
                assert(n[b] == es[b - 1]);
            }
        }
        lemma_object_slot(n, k, 0);
        let j2 = object_slot(n, k, 0);
        if j2 < j {
            assert(n[j2] == es[j2]);
        }
        if j2 > j {
            assert(n[j].0 == k);
        }
    }
    lemma_key_less_irreflexive(k);
}

/// Every object in `v`, at every depth, has its keys in ascending order,
/// each key once.
pub open spec fn json_ordered(v: Json) -> bool
    decreases v,
{
    match v {
        Json::Object(es) => {
            &&& keys_sorted(es)
            &&& forall|i: int| 0 <= i < es.len() ==> json_ordered(#[trigger] es[i].1)
        },
        _ => true,
    }
}

/// Setting a key to an ordered value in an ordered object keeps it ordered.
pub proof fn lemma_object_insert_ordered(es: Seq<(Seq<char>, Json)>, k: Seq<char>, v: Json)
    requires
        json_ordered(Json::Object(es)),
        json_ordered(v),
    ensures
        json_ordered(Json::Object(object_insert(es, k, v))),
{
    lemma_object_insert_sorted(es, k, v);
    lemma_object_slot(es, k, 0);
    let j = object_slot(es, k, 0);
    let n = object_insert(es, k, v);
    assert forall|i: int| 0 <= i < n.len() implies json_ordered(#[trigger] n[i].1) by {
        if j < es.len() && es[j].0 == k {
            if i != j {
                assert(n[i] == es[i]);
            }
        } else if i < j {
            assert(n[i] == es[i]);
        } else if i > j {
            assert(n[i] == es[i - 1]);
        }
    }
}

/// A value found in an ordered object is ordered.
pub proof fn lemma_object_get_ordered(es: Seq<(Seq<char>, Json)>, k: Seq<char>)
    requires
        json_ordered(Json::Object(es)),
    ensures
        object_get(es, k) matches Some(w) ==> json_ordered(w),
{
    lemma_object_slot(es, k, 0);
}

/// Removing a key from an ordered object keeps it ordered.
pub proof fn lemma_object_remove_ordered(es: Seq<(Seq<char>, Json)>, k: Seq<char>)
    requires
        json_ordered(Json::Object(es)),
    ensures
        json_ordered(Json::Object(object_remove(es, k))),
{
    lemma_object_slot(es, k, 0);
    let j = object_slot(es, k, 0);
    let n = object_remove(es, k);
    if j < es.len() && es[j].0 == k {
        assert forall|a: int, b: int| 0 <= a < b < n.len() implies key_less(#[trigger] n[a].0, #[trigger] n[b].0) by {
            let a2 = if a < j { a } else { a + 1 };
            let b2 = if b < j { b } else { b + 1 };
            assert(n[a] == es[a2]);
            assert(n[b] == es[b2]);
        }
        assert forall|i: int| 0 <= i < n.len() implies json_ordered(#[trigger] n[i].1) by {
            if i < j {
                assert(n[i] == es[i]);
            } else {
                assert(n[i] == es[i + 1]);
            }
        }
    }
}

/// The lower-case hexadecimal digit of `d` is the `d`-th character of
/// `0123456789abcdef`.
pub proof fn lemma_hex_lower_alphabet(d: nat)
    requires
        d < 16,
    ensures
        hex_lower(d) == "0123456789abcdef"@[d as int],
{
    reveal_strlit("0123456789abcdef");
}

} // verus!
