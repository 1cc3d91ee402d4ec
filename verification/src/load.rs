//! What a subscription download computes on the bytes it fetched: the
//! optional base64 decoding, the short hash that names the download, and
//! the set of downloads kept by hash.

use vstd::prelude::*;
use vstd::utf8::{valid_utf8, decode_utf8, encode_utf8};
use crate::text::str_chars;
use crate::json::{chars_eq, hex_lower, lemma_hex_lower_alphabet};
use crate::norm::{normalizes_without_panic, try_normalize_subscription_content};

verus! {

/// Hosts whose downloads carry the `GITHUB_TOKEN` bearer token.
pub fn github_auth_host(host: Option<&str>) -> (b: bool)
    ensures
        b == (host matches Some(h) && (h@ == "raw.githubusercontent.com"@ || h@ == "github.com"@)),
{
    match host {
        None => false,
        Some(h) => {
            let c = str_chars(h);
            chars_eq(&c, &str_chars("raw.githubusercontent.com")) || chars_eq(&c, &str_chars("github.com"))
        },
    }
}

/// Bytes trimmed from the end of a payload before base64 decoding.
pub open spec fn is_padding_byte(b: u8) -> bool {
    b == 0x3d || b == 0x20 || b == 0x0a || b == 0x0d || b == 0x09
}

pub open spec fn is_padding_char(c: char) -> bool {
    c == '=' || c == ' ' || c == '\n' || c == '\r' || c == '\t'
}

/// Whether `c` is trimmed from the end of a payload.
pub fn padding_char(c: char) -> (b: bool)
    ensures
        b == is_padding_char(c),
{
    c == '=' || c == ' ' || c == '\n' || c == '\r' || c == '\t'
}

/// End of `d[..j]` once padding bytes are dropped from its back.
pub open spec fn payload_end(d: Seq<u8>, j: int) -> int
    decreases j,
{
    if 0 < j <= d.len() && is_padding_byte(d[j - 1]) {
        payload_end(d, j - 1)
    } else {
        j
    }
}

/// Calls `bstr::ByteSlice::trim_end_with` with [`padding_char`]. Padding
/// characters are ASCII, and an ASCII byte always decodes as a character of
/// its own, so the result is `data` without its trailing padding bytes.
#[verifier::external_body]
fn trim_payload_padding(data: &[u8]) -> (r: &[u8])
    ensures
        r@ == data@.take(payload_end(data@, data@.len() as int)),
{
    bstr::ByteSlice::trim_end_with(data, |c| padding_char(c))
}

/// Standard base64 without padding, decoded (`BASE64_STANDARD_NO_PAD`).
pub uninterp spec fn base64_standard_no_pad(input: Seq<u8>) -> Option<Seq<u8>>;

/// URL-safe base64 without padding, decoded (`BASE64_URL_SAFE_NO_PAD`).
pub uninterp spec fn base64_url_safe_no_pad(input: Seq<u8>) -> Option<Seq<u8>>;

/// Calls `base64::Engine::decode` with `BASE64_STANDARD_NO_PAD`; its result
/// (or failure) is the named function of the input bytes.
#[verifier::external_body]
fn decode_standard_no_pad(input: &[u8]) -> (r: Option<Vec<u8>>)
    ensures
        match r {
            Some(v) => base64_standard_no_pad(input@) == Some(v@),
            None => base64_standard_no_pad(input@) is None,
        },
{
    match base64::Engine::decode(&base64::prelude::BASE64_STANDARD_NO_PAD, input) {
        Ok(v) => Some(v),
        Err(_) => None,
    }
}

/// Calls `base64::Engine::decode` with `BASE64_URL_SAFE_NO_PAD`; its result
/// (or failure) is the named function of the input bytes.
#[verifier::external_body]
fn decode_url_safe_no_pad(input: &[u8]) -> (r: Option<Vec<u8>>)
    ensures
        match r {
            Some(v) => base64_url_safe_no_pad(input@) == Some(v@),
            None => base64_url_safe_no_pad(input@) is None,
        },
{
    match base64::Engine::decode(&base64::prelude::BASE64_URL_SAFE_NO_PAD, input) {
        Ok(v) => Some(v),
        Err(_) => None,
    }
}

/// The bytes a download yields: with `b64`, the payload without trailing
/// padding decoded as standard base64, else as URL-safe base64, else the
/// payload as it came.
pub open spec fn decoded_payload(data: Seq<u8>, b64: bool) -> Seq<u8> {
    if !b64 {
        data
    } else {
        let t = data.take(payload_end(data, data.len() as int));
        match base64_standard_no_pad(t) {
            Some(v) => v,
            None => match base64_url_safe_no_pad(t) {
                Some(v) => v,
                None => data,
            },
        }
    }
}

proof fn lemma_payload_end_bounds(d: Seq<u8>, j: int)
    requires
        0 <= j <= d.len(),
    ensures
        0 <= payload_end(d, j) <= j,
    decreases j,
{
    if 0 < j && is_padding_byte(d[j - 1]) {
        lemma_payload_end_bounds(d, j - 1);
    }
}

/// Trimming reads only the bytes below `j`.
proof fn lemma_payload_end_push(d: Seq<u8>, p: u8, j: int)
    requires
        0 <= j <= d.len(),
    ensures
        payload_end(d.push(p), j) == payload_end(d, j),
    decreases j,
{
    if 0 < j {
        assert(d.push(p)[j - 1] == d[j - 1]);
        lemma_payload_end_push(d, p, j - 1);
    }
}

/// A trailing padding byte (`=`, space, tab, CR or LF) does not change what
/// a base64 payload decodes to: either the payload decodes, as standard or
/// URL-safe base64, to the same bytes with or without it, or it decodes
/// neither way and each is kept as it came.
pub proof fn lemma_trailing_padding_ignored(d: Seq<u8>, p: u8)
    requires
        is_padding_byte(p),
    ensures
        decoded_payload(d.push(p), true) == decoded_payload(d, true) || (decoded_payload(d, true) == d
            && decoded_payload(d.push(p), true) == d.push(p)),
{
    let n = d.len() as int;
    let dp = d.push(p);
    assert(dp[n] == p);
    lemma_payload_end_push(d, p, n);
    assert(payload_end(dp, n + 1) == payload_end(dp, n));
    lemma_payload_end_bounds(d, n);
    let e = payload_end(d, n);
    assert(dp.take(e) =~= d.take(e));
}

fn slice_to_vec(data: &[u8]) -> (v: Vec<u8>)
    ensures
        v@ == data@,
{
    let mut v: Vec<u8> = Vec::new();
    let mut i: usize = 0;
    while i < data.len()
        invariant
            i <= data@.len(),
            v@ == data@.take(i as int),
        decreases data@.len() - i,
    {
        v.push(data[i]);
        i = i + 1;
        assert(v@ =~= data@.take(i as int));
    }
    assert(data@.take(data@.len() as int) =~= data@);
    v
}

/// Picks the bytes of a download from the results of the two decoders:
/// the standard decoding if it succeeded, else the URL-safe one, else the
/// raw payload.
pub fn select_payload(data: &[u8], standard: Option<Vec<u8>>, url_safe: Option<Vec<u8>>) -> (r: Vec<u8>)
    ensures
        r@ == match standard {
            Some(v) => v@,
            None => match url_safe {
                Some(u) => u@,
                None => data@,
            },
        },
{
    match standard {
        Some(v) => v,
        None => match url_safe {
            Some(u) => u,
            None => slice_to_vec(data),
        },
    }
}

/// The bytes a download yields (see [`decoded_payload`]).
pub fn decode_payload(data: &[u8], b64: bool) -> (r: Vec<u8>)
    ensures
        r@ == decoded_payload(data@, b64),
{
    if !b64 {
        return slice_to_vec(data);
    }
    let to_decode = trim_payload_padding(data);
    let standard = decode_standard_no_pad(to_decode);
    let url_safe = if standard.is_none() {
        decode_url_safe_no_pad(to_decode)
    } else {
        None
    };
    select_payload(data, standard, url_safe)
}

/// SHA-256 of the bytes, as computed by the `sha2` crate.
pub uninterp spec fn sha256(data: Seq<u8>) -> Seq<u8>;

/// Calls `sha2::Sha256::digest`; the digest is the named function of the input.
#[verifier::external_body]
fn sha256_digest(data: &[u8]) -> (digest: [u8; 32])
    ensures
        digest@ == sha256(data@),
{
    <sha2::Sha256 as sha2::Digest>::digest(data).into()
}

/// Two lower-case hexadecimal digits per byte.
pub open spec fn hex_text(d: Seq<u8>) -> Seq<char>
    decreases d.len(),
{
    if d.len() == 0 {
        seq![]
    } else {
        hex_text(d.drop_last()) + seq![hex_lower((d.last() / 16) as nat), hex_lower((d.last() % 16) as nat)]
    }
}

fn hex_digit_lower(d: u8) -> (c: char)
    requires
        d < 16,
    ensures
        c == hex_lower(d as nat),
{
    if d < 10 {
        ((d + 48) as char)
    } else {
        ((d + 87) as char)
    }
}

/// A hex text spells its bytes: two characters of `0123456789abcdef` per
/// byte, the high nibble first, so reading it as hex gives the bytes back.
pub proof fn lemma_hex_text_spells_bytes(d: Seq<u8>)
    ensures
        hex_text(d).len() == 2 * d.len(),
        forall|i: int|
            0 <= i < d.len() ==> {
                &&& hex_text(d)[2 * i] == "0123456789abcdef"@[(#[trigger] d[i] / 16) as int]
                &&& hex_text(d)[2 * i + 1] == "0123456789abcdef"@[(d[i] % 16) as int]
            },
    decreases d.len(),
{
    if d.len() > 0 {
        let p = d.drop_last();
        lemma_hex_text_spells_bytes(p);
        let b = d.last();
        lemma_hex_lower_alphabet((b / 16) as nat);
        lemma_hex_lower_alphabet((b % 16) as nat);
        assert forall|i: int| 0 <= i < d.len() implies {
            &&& hex_text(d)[2 * i] == "0123456789abcdef"@[(#[trigger] d[i] / 16) as int]
            &&& hex_text(d)[2 * i + 1] == "0123456789abcdef"@[(d[i] % 16) as int]
        } by {
            if i < p.len() {
                assert(d[i] == p[i]);
            }
        }
    }
}

/// The name of a download: its digest's first 8 bytes in lower-case hex.
pub fn digest_label(digest: &[u8]) -> (label: String)
    requires
        digest@.len() >= 8,
    ensures
        label@ == hex_text(digest@.take(8)),
{
    let mut out: Vec<char> = Vec::new();
    let mut i: usize = 0;
    while i < 8
        invariant
            i <= 8,
            digest@.len() >= 8,
            out@ == hex_text(digest@.take(i as int)),
        decreases 8 - i,
    {
        let b = digest[i];
        out.push(hex_digit_lower(b / 16));
        out.push(hex_digit_lower(b % 16));
        assert(digest@.take(i + 1).drop_last() =~= digest@.take(i as int));
        i = i + 1;
        assert(out@ =~= hex_text(digest@.take(i as int)));
    }
    crate::text::string_from_chars(out.as_slice())
}

/// The bytes a download yields and their name (see [`decoded_payload`] and
/// [`digest_label`]).
pub fn digest_payload(data: &[u8], b64: bool) -> (r: (String, Vec<u8>))
    ensures
        r.1@ == decoded_payload(data@, b64),
        r.0@ == hex_text(sha256(r.1@).take(8)),
{
    let bytes = decode_payload(data, b64);
    let digest = sha256_digest(bytes.as_slice());
    (digest_label(&digest), bytes)
}

/// Whether `es` holds an entry named `label`.
pub open spec fn has_label(es: Seq<(Seq<char>, Seq<u8>)>, label: Seq<char>) -> bool {
    exists|i: int| 0 <= i < es.len() && #[trigger] es[i].0 == label
}

/// Downloads kept by name, in the order they were added; a name is kept
/// once, with the first download that had it.
pub struct SubscriptionSet {
    entries: Vec<(String, Vec<u8>)>,
}

impl SubscriptionSet {
    /// The names and bytes, in the order they were added.
    pub closed spec fn entries_view(&self) -> Seq<(Seq<char>, Seq<u8>)> {
        Seq::new(self.entries@.len(), |i: int| (self.entries@[i].0@, self.entries@[i].1@))
    }

    /// No name occurs twice.
    pub closed spec fn wf(&self) -> bool {
        forall|i: int, j: int|
            0 <= i < j < self.entries@.len() ==> #[trigger] self.entries@[i].0@ != #[trigger] self.entries@[j].0@
    }

    pub fn new() -> (s: Self)
        ensures
            s.wf(),
            s.entries_view() == Seq::<(Seq<char>, Seq<u8>)>::empty(),
    {
        let s = SubscriptionSet { entries: Vec::new() };
        assert(s.entries_view() =~= Seq::<(Seq<char>, Seq<u8>)>::empty());
        s
    }

    /// Whether a download named `label` is kept.
    pub fn contains(&self, label: &String) -> (b: bool)
        ensures
            b == has_label(self.entries_view(), label@),
    {
        let mut i: usize = 0;
        while i < self.entries.len()
            invariant
                i <= self.entries@.len(),
                forall|j: int| 0 <= j < i ==> self.entries@[j].0@ != label@,
            decreases self.entries@.len() - i,
        {
            if self.entries[i].0 == *label {
                assert(self.entries_view()[i as int].0 == label@);
                return true;
            }
            i = i + 1;
        }
        assert forall|j: int| 0 <= j < self.entries_view().len() implies #[trigger] self.entries_view()[j].0 != label@ by {
            assert(self.entries_view()[j].0 == self.entries@[j].0@);
        }
        false
    }

    /// Keeps `data` under `label` unless a download of that name is kept
    /// already (`entry(..).or_insert(..)`); returns whether it was added.
    pub fn insert_if_absent(&mut self, label: String, data: Vec<u8>) -> (added: bool)
        requires
            old(self).wf(),
        ensures
            final(self).wf(),
            added == !has_label(old(self).entries_view(), label@),
            added ==> final(self).entries_view() == old(self).entries_view().push((label@, data@)),
            !added ==> final(self).entries_view() == old(self).entries_view(),
    {
        if self.contains(&label) {
            return false;
        }
        let ghost old_view = self.entries_view();
        self.entries.push((label, data));
        assert(self.entries_view() =~= old_view.push((label@, data@)));
        assert forall|i: int, j: int| 0 <= i < j < self.entries@.len() implies #[trigger] self.entries@[i].0@
            != #[trigger] self.entries@[j].0@ by {
            if j == self.entries@.len() - 1 {
                assert(old_view[i].0 == self.entries@[i].0@);
            }
        }
        true
    }

    /// The kept downloads, in the order they were added.
    pub fn into_entries(self) -> (v: Vec<(String, Vec<u8>)>)
        ensures
            v@.len() == self.entries_view().len(),
            forall|i: int| 0 <= i < v@.len() ==> (#[trigger] v@[i].0@, v@[i].1@) == self.entries_view()[i],
    {
        self.entries
    }
}

/// `String::from_utf8_lossy` of the bytes: invalid sequences become U+FFFD.
pub uninterp spec fn utf8_lossy(data: Seq<u8>) -> Seq<char>;

/// Calls `String::from_utf8_lossy`, whose result is the named function of the
/// bytes and, for valid UTF-8, the decoded text.
#[verifier::external_body]
fn from_utf8_lossy(data: &[u8]) -> (s: String)
    ensures
        s@ == utf8_lossy(data@),
        valid_utf8(data@) ==> s@ == decode_utf8(data@),
{
    String::from_utf8_lossy(data).into_owned()
}

/// The UTF-8 bytes of `s` (`str::as_bytes`).
fn string_bytes(s: &String) -> (b: Vec<u8>)
    ensures
        b@ == encode_utf8(s@),
{
    slice_to_vec(s.as_str().as_bytes())
}

/// Keeps a downloaded payload under its name: the payload, read as UTF-8
/// (invalid sequences replaced), is normalised and its bytes kept unless a
/// download of that name is kept already. Returns `None`, leaving `subs`
/// as it was, exactly where normalising the text panics; else whether the
/// download was added. The normalised text is empty, so an added download
/// holds no bytes.
pub fn add_download(subs: &mut SubscriptionSet, label: String, data: &[u8]) -> (r: Option<bool>)
    requires
        old(subs).wf(),
    ensures
        final(subs).wf(),
        r is Some <==> normalizes_without_panic(utf8_lossy(data@)),
        r is None ==> final(subs).entries_view() == old(subs).entries_view(),
        r matches Some(added) ==> {
            &&& added == !has_label(old(subs).entries_view(), label@)
            &&& added ==> final(subs).entries_view() == old(subs).entries_view().push(
                (label@, Seq::<u8>::empty()),
            )
            &&& !added ==> final(subs).entries_view() == old(subs).entries_view()
        },
{
    let text = from_utf8_lossy(data);
    match try_normalize_subscription_content(text.as_str()) {
        None => None,
        Some(normalized) => {
            let bytes = string_bytes(&normalized);
            assert(encode_utf8(normalized@) =~= Seq::<u8>::empty());
            Some(subs.insert_if_absent(label, bytes))
        },
    }
}

} // verus!
