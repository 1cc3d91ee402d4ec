use xray_rs::load::{add_download, decode_payload, digest_label, digest_payload, github_auth_host,
    select_payload, SubscriptionSet};

#[test]
fn github_hosts_get_the_token() {
    assert!(github_auth_host(Some("github.com")));
    assert!(github_auth_host(Some("raw.githubusercontent.com")));
    assert!(!github_auth_host(Some("gist.github.com")));
    assert!(!github_auth_host(None));
}

#[test]
fn payloads_are_base64_decoded_when_possible() {
    assert_eq!(decode_payload(b"aGVsbG8=\n", true), b"hello".to_vec());
    // URL-safe alphabet
    assert_eq!(decode_payload(b"-_8", true), vec![0xfb, 0xff]);
    // not base64: kept as it came, padding included
    assert_eq!(decode_payload(b"vless://x\n", true), b"vless://x\n".to_vec());
    assert_eq!(decode_payload(b"aGVsbG8=", false), b"aGVsbG8=".to_vec());
}

#[test]
fn payload_selection_prefers_standard() {
    assert_eq!(select_payload(b"raw", Some(vec![1]), Some(vec![2])), vec![1]);
    assert_eq!(select_payload(b"raw", None, Some(vec![2])), vec![2]);
    assert_eq!(select_payload(b"raw", None, None), b"raw".to_vec());
}

#[test]
fn labels_are_the_first_eight_digest_bytes_in_hex() {
    let digest: Vec<u8> = (0xf0u8..=0xff).chain(0..16).collect();
    assert_eq!(digest_label(&digest), "f0f1f2f3f4f5f6f7");
    // SHA-256 of "hello"
    let (label, bytes) = digest_payload(b"hello", false);
    assert_eq!(label, "2cf24dba5fb0a30e");
    assert_eq!(bytes, b"hello".to_vec());
    let (label, bytes) = digest_payload(b"aGVsbG8", true);
    assert_eq!(label, "2cf24dba5fb0a30e");
    assert_eq!(bytes, b"hello".to_vec());
}

#[test]
fn downloads_are_kept_once_per_label() {
    let mut subs = SubscriptionSet::new();
    assert_eq!(add_download(&mut subs, "a".to_string(), b"vless://x"), Some(true));
    assert_eq!(add_download(&mut subs, "a".to_string(), b"other"), Some(false));
    assert_eq!(add_download(&mut subs, "b".to_string(), &[0xff, 0xfe]), Some(true));
    assert_eq!(add_download(&mut subs, "c".to_string(), b"extra=}"), None);
    assert!(subs.contains(&"b".to_string()));
    assert!(!subs.contains(&"c".to_string()));
    let entries = subs.into_entries();
    assert_eq!(entries, vec![("a".to_string(), vec![]), ("b".to_string(), vec![])]);
}
