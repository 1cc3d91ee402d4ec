use xray_rs::extra::{normalize_extras, try_normalize_extras};

#[test]
fn test_norm_extra_simple_1() {
    let s = "extra={'a': 'b', 'c': 'd', 'e': {'f': 12}}";
    let (done, fail, s_new) = normalize_extras(s);

    assert_eq!(done, 1);
    assert_eq!(fail, 0);

    let s_new = urlencoding::decode(s_new.strip_prefix("extra=").unwrap()).unwrap();
    assert_eq!(s_new, r#"{"a":"b","c":"d","e":{"f":12}}"#);

    let u = "extra=%7B%27a%27%3A%20%27b%27%2C%20%27c%27%3A%20%27d%27%2C%20%27e%27%3A%20%7B%27f%27%3A%2012%7D%7D";
    let (done, fail, u_new) = normalize_extras(u);

    assert_eq!(done, 1);
    assert_eq!(fail, 0);

    let u_new = urlencoding::decode(u_new.strip_prefix("extra=").unwrap()).unwrap();
    assert_eq!(u_new, s_new);

    let s = "extra={'a': 'b', 'c': 'd', 'e': {'f':";
    let (done, fail, s_new) = normalize_extras(s);

    assert_eq!(done, 0);
    assert_eq!(fail, 1);
    assert_eq!(s, s_new);
}

fn decoded_extra(out: &str, prefix: &str) -> String {
    urlencoding::decode(out.strip_prefix(prefix).unwrap()).unwrap().into_owned()
}

#[test]
fn extras_keep_text_around_and_count() {
    let s = "vless://x?a=1&extra={\"b\": true, \"a\": null}&c=2";
    let (done, fail, out) = normalize_extras(s);
    assert_eq!((done, fail), (1, 0));
    let (head, rest) = out.split_at("vless://x?a=1&extra=".len());
    assert_eq!(head, "vless://x?a=1&extra=");
    let (json, tail) = rest.split_at(rest.find('&').unwrap());
    assert_eq!(urlencoding::decode(json).unwrap(), r#"{"b":true}"#);
    assert_eq!(tail, "&c=2");
}

#[test]
fn extras_ranges_numbers_and_sorting() {
    let s = "extra={'z': 5-3, 'm': 7.0, 'k': False, 'q': none, 'x': '+', 'n': Null}";
    let (done, fail, out) = normalize_extras(s);
    assert_eq!((done, fail), (1, 0));
    assert_eq!(decoded_extra(&out, "extra="), r#"{"k":false,"m":7,"n":"Null","q":"none","z":"3-5"}"#);
    // an empty quoted value matches no token
    let s = "extra={'x': ''}";
    assert_eq!(normalize_extras(s), (0, 1, s.to_string()));
}

#[test]
fn extras_empty_headers_are_dropped() {
    let s = "extra={'headers': {}, 'mode': auto}";
    let (done, fail, out) = normalize_extras(s);
    assert_eq!((done, fail), (1, 0));
    assert_eq!(decoded_extra(&out, "extra="), r#"{"mode":"auto"}"#);

    let s = "extra={'headers': {'Host': 'h'}}";
    let (_, _, out) = normalize_extras(s);
    assert_eq!(decoded_extra(&out, "extra="), r#"{"headers":{"Host":"h"}}"#);
}

#[test]
fn extras_skipped_values_and_no_extra() {
    let s = "a extra=null extra=#x extra=&y";
    assert_eq!(normalize_extras(s), (0, 0, s.to_string()));
    let s = "nothing here";
    assert_eq!(normalize_extras(s), (0, 0, s.to_string()));
    let s = "extra=";
    assert_eq!(normalize_extras(s), (1, 0, "extra=%7B%7D".to_string()));
}

#[test]
fn extras_failures() {
    // a comma with no value before it
    assert_eq!(normalize_extras("extra={,'a': 1}"), (0, 1, "extra={,'a': 1}".to_string()));
    // a character no token starts with
    assert_eq!(normalize_extras("extra={'a': 1; }"), (0, 1, "extra={'a': 1; }".to_string()));
    // a key under a value that is not an object
    assert_eq!(
        normalize_extras("extra={'a': 1, 'a': {'b': 2}}"),
        (0, 1, "extra={'a': 1, 'a': {'b': 2}}".to_string())
    );
    // percent-encoding that is not UTF-8
    assert_eq!(normalize_extras("extra=%FF"), (0, 1, "extra=%FF".to_string()));
}

#[test]
fn extras_whitespace_before_object_repeats_its_tail() {
    // the end of the object is counted from before the skipped blank
    let (done, fail, out) = normalize_extras("extra= {'a': 1}z");
    assert_eq!((done, fail), (1, 0));
    assert_eq!(out, format!("extra={}}}z", urlencoding::encode(r#"{"a":1}"#)));
}

#[test]
fn extras_that_panic_are_reported() {
    // a number that does not fit in a u64
    assert_eq!(try_normalize_extras("extra={'a': 99999999999999999999}"), None);
    // a closing brace before any opening one
    assert_eq!(try_normalize_extras("extra=}"), None);
    // a percent-encoded run ending in a multi-byte character
    assert_eq!(try_normalize_extras("extra=%7Bé"), None);
    // an `extra=` inside the object just normalised
    assert_eq!(try_normalize_extras("extra={'a': 'extra='}"), None);
    assert!(try_normalize_extras("extra={'a': 'b'}").is_some());
}

#[test]
fn extras_escape_json_strings() {
    let (_, _, out) = normalize_extras("extra={'k': \"a\\b\"}");
    assert_eq!(decoded_extra(&out, "extra="), r#"{"k":"a\\b"}"#);
    let (_, _, out) = normalize_extras("extra={'k': 'say \"hi\"\n'}");
    // quotes and newlines at the ends of a value are trimmed
    assert_eq!(decoded_extra(&out, "extra="), r#"{"k":"say \"hi"}"#);
    let (_, _, out) = normalize_extras("extra={'k': 'a\u{1}\tb'}");
    assert_eq!(decoded_extra(&out, "extra="), r#"{"k":"a\u0001\tb"}"#);
}

#[test]
fn extras_encoded_like_plain() {
    let x = "{'b': 1-2, 'a': {'c': True}}";
    let plain = format!("extra={}", x);
    let encoded = format!("extra={}", urlencoding::encode(x));
    let (p, e) = (normalize_extras(&plain), normalize_extras(&encoded));
    assert_eq!(p, e);
    assert_eq!(p.0, 1);
    assert_eq!(decoded_extra(&p.2, "extra="), r#"{"a":{"c":true},"b":"1-2"}"#);

    let x = "{'b': 1-2,";
    let plain = format!("extra={}", x);
    let encoded = format!("extra={}", urlencoding::encode(x));
    assert_eq!(normalize_extras(&plain), (0, 1, plain.clone()));
    assert_eq!(normalize_extras(&encoded), (0, 1, encoded.clone()));
}

#[test]
fn extras_nested_keys_ordered_once() {
    let s = "extra={'b': {'y': 1, 'x': 2, 'y': 3}, 'a': 4}";
    let (done, fail, out) = normalize_extras(s);
    assert_eq!((done, fail), (1, 0));
    assert_eq!(decoded_extra(&out, "extra="), r#"{"a":4,"b":{"x":2,"y":3}}"#);
}
