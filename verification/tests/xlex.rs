use xray_rs::xlex::{to_key_value_pair, to_number};

#[test]
fn key_value_pairs_split_at_last_colon() {
    assert_eq!(to_key_value_pair("'a': 'b'"), ("a", "b"));
    assert_eq!(to_key_value_pair("\"k\" = +v+"), ("k", "v"));
    assert_eq!(to_key_value_pair("'path': '/a:b'"), ("path': '/a", "b"));
    assert_eq!(to_key_value_pair("name:"), ("name", ""));
    assert_eq!(to_key_value_pair("a=b:c"), ("a=b", "c"));
}

#[test]
fn numbers_parse_with_optional_dot_zero() {
    assert_eq!(to_number("12", "e"), 12);
    assert_eq!(to_number("12.0", "e"), 12);
    assert_eq!(to_number("+7", "e"), 7);
    assert_eq!(to_number("18446744073709551615", "e"), u64::MAX);
    assert_eq!(to_number("0", "e"), 0);
}
