use minikv_lite::text::{
    encode_path_segment, encode_query_component, endpoint_url, normalize_base_url, push_decimal,
    replica_url, trim_end_slashes,
};

#[test]
fn path_segments_escape_reserved_bytes() {
    assert_eq!(encode_path_segment("abc-XYZ_0.9~"), "abc-XYZ_0.9~");
    assert_eq!(encode_path_segment("a/b c"), "a%2Fb%20c");
    assert_eq!(encode_path_segment("app:1"), "app%3A1");
    assert_eq!(encode_path_segment("é"), "%C3%A9");
    assert_eq!(encode_path_segment(""), "");
}

#[test]
fn query_components_use_plus_for_space() {
    assert_eq!(encode_query_component("app: x"), "app%3A+x");
    assert_eq!(encode_query_component("a+b"), "a%2Bb");
}

#[test]
fn base_urls_are_normalised() {
    assert_eq!(normalize_base_url("127.0.0.1:7001"), "http://127.0.0.1:7001");
    assert_eq!(normalize_base_url("127.0.0.1:7001//"), "http://127.0.0.1:7001");
    assert_eq!(normalize_base_url("http://h:1/"), "http://h:1");
    assert_eq!(normalize_base_url("https://h"), "https://h");
    assert_eq!(normalize_base_url("httpx://h"), "http://httpx://h");
}

#[test]
fn endpoints_and_replica_urls() {
    assert_eq!(endpoint_url("http://127.0.0.1:7000/", "/register"), "http://127.0.0.1:7000/register");
    assert_eq!(trim_end_slashes("a//"), "a");
    assert_eq!(trim_end_slashes("///"), "");
    assert_eq!(replica_url("127.0.0.1:7001", "k 1"), "http://127.0.0.1:7001/local/k%201");
}

#[test]
fn decimal_numerals() {
    let mut s = String::from("v#");
    push_decimal(&mut s, 0);
    assert_eq!(s, "v#0");
    let mut s = String::new();
    push_decimal(&mut s, 1234567890);
    assert_eq!(s, "1234567890");
}

#[test]
fn encoded_keys_hold_no_separators_and_stay_distinct() {
    let raw = "a/b?c#d e&f=g";
    let enc = encode_path_segment(raw);
    assert_eq!(enc, "a%2Fb%3Fc%23d%20e%26f%3Dg");
    for c in ['/', '?', '#', ' ', '&', '='] {
        assert!(!enc.contains(c));
    }
    assert_ne!(encode_path_segment("a/b"), encode_path_segment("a%2Fb"));
    assert_eq!(encode_path_segment("a%2Fb"), "a%252Fb");
    assert_ne!(encode_query_component("a b"), encode_query_component("a+b"));
}
