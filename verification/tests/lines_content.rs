use xray_rs::lines::normalize_lines;
use xray_rs::norm::{normalize_subscription_content, try_normalize_subscription_content};

#[test]
fn lines_cut_every_link_after_its_schema() {
    // "vless://abc" is cut into "vless://" and "abc"; neither starts with a
    // schema followed by more text, so both chunks fail
    assert_eq!(normalize_lines("vless://abc"), (0, 2, String::new()));
    assert_eq!(
        normalize_lines("vless://a@b:1?x=y#n  trojan://p@h:2\nss://zz"),
        (0, 6, String::new())
    );
    assert_eq!(normalize_lines(""), (0, 0, String::new()));
    assert_eq!(normalize_lines("   \n\t "), (0, 0, String::new()));
    assert_eq!(normalize_lines("plain"), (0, 1, String::new()));
    assert_eq!(normalize_lines("a://b://c://"), (0, 3, String::new()));
}

#[test]
fn content_is_always_emptied() {
    assert_eq!(normalize_subscription_content(""), "");
    assert_eq!(normalize_subscription_content("# only a comment\n   \n"), "");
    assert_eq!(normalize_subscription_content("# c\nvless://a@b:1\nvmess://x"), "");
}

#[test]
fn content_panics_are_reported() {
    assert_eq!(try_normalize_subscription_content("# c\nextra=}"), None);
    // the panicking extra sits in a comment line that is dropped
    assert_eq!(try_normalize_subscription_content("# extra=}\nvless://a"), Some(String::new()));
    assert_eq!(try_normalize_subscription_content("vless://a?extra={'a': 1}"), Some(String::new()));
}

#[test]
fn lines_joined_by_whitespace_add_up() {
    let (a, b) = ("vless://a@b:1 x", "trojan://p@h:2://q");
    let (d1, f1, t1) = normalize_lines(a);
    let (d2, f2, t2) = normalize_lines(b);
    assert_eq!(normalize_lines(&format!("{a} {b}")), (d1 + d2, f1 + f2, t1 + &t2));
    assert_eq!(normalize_lines(&format!("{a}\n{b}")), (d1 + d2, f1 + f2, String::new()));
}

#[test]
fn leading_comment_lines_change_nothing() {
    let p = "# header\n   \n\t# more\n";
    for c in ["vless://a?extra={'a': 1}", "extra=}", "  ss://x", ""] {
        assert_eq!(
            try_normalize_subscription_content(&format!("{p}{c}")),
            try_normalize_subscription_content(c)
        );
    }
}
