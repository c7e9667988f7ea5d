use llrt_lib::headers::{
    is_http_header_name, is_http_header_value, normalize_header_value_inplace, HeaderError,
    HeaderInit, Headers,
};

fn get(headers: &Headers, key: &str) -> Option<String> {
    headers.get(key.to_string()).unwrap()
}

#[test]
fn test_get_header() {
    let mut headers = Headers::new();
    headers
        .set("Content-Type".into(), "application/json".into())
        .unwrap();
    headers
        .append("set-cookie".into(), "cookie1=value1".into())
        .unwrap();
    headers
        .append("set-cookie".into(), "cookie2=value2".into())
        .unwrap();
    headers
        .append("Accept-Encoding".into(), "deflate".into())
        .unwrap();
    headers
        .append("Accept-Encoding".into(), "gzip".into())
        .unwrap();

    assert_eq!(
        headers.get("Content-Type".into()).unwrap().unwrap(),
        "application/json"
    );
    assert_eq!(
        headers.get("set-cookie".into()).unwrap().unwrap(),
        "cookie1=value1, cookie2=value2"
    );
    assert_eq!(
        headers.get("Accept-Encoding".into()).unwrap().unwrap(),
        "deflate, gzip"
    );
}

#[test]
fn test_normalize_header_value_inplace() {
    let expectations = [
        (" space ", "space"),
        ("\ttab\t", "tab"),
        (" spaceAndTab\t", "spaceAndTab"),
        ("\r\n newLine", "newLine"),
        ("newLine\r\n ", "newLine"),
        ("\r\n\tnewLine", "newLine"),
        ("\t\u{000C}\tnewLine\n", "\u{000C}\tnewLine"),
        ("newLine\u{00A0}", "newLine\u{00A0}"),
    ];
    for (input, expected) in expectations {
        let mut value = input.to_string();
        normalize_header_value_inplace(&mut value);
        assert_eq!(
            value, expected,
            "normalize_header_value_inplace failed: input = {:?}, expected = {:?}, got = {:?}",
            input, expected, value
        );
    }
}

#[test]
fn normalize_collapses_inner_whitespace_runs_to_their_last_character() {
    let mut value = String::from("a \t b\t  c");
    normalize_header_value_inplace(&mut value);
    assert_eq!(value, "a b c");
    let mut value = String::from("a\t \r\n\tb");
    normalize_header_value_inplace(&mut value);
    assert_eq!(value, "a\tb");
    let mut value = String::from(" \t \r\n ");
    normalize_header_value_inplace(&mut value);
    assert_eq!(value, "");
}

#[test]
fn header_names_are_tokens() {
    assert!(is_http_header_name("content-type"));
    assert!(is_http_header_name("X-Custom_Header.1~!#$%&'*+^`|"));
    assert!(!is_http_header_name(""));
    assert!(!is_http_header_name("bad name"));
    assert!(!is_http_header_name("bad:name"));
    assert!(!is_http_header_name("caf\u{e9}"));
}

#[test]
fn header_values_allow_visible_ascii_tab_space_form_feed_and_nbsp() {
    assert!(is_http_header_value("text/html; charset=utf-8"));
    assert!(is_http_header_value("a\tb c\u{0C}d\u{A0}"));
    assert!(is_http_header_value(""));
    assert!(!is_http_header_value("line\nbreak"));
    assert!(!is_http_header_value("nul\u{0}"));
    assert!(!is_http_header_value("caf\u{e9}"));
}

#[test]
fn names_are_lowercased_and_looked_up_case_insensitively() {
    let mut headers = Headers::new();
    headers.set("X-Trace-Id".into(), "abc".into()).unwrap();
    assert_eq!(headers.keys(), vec!["x-trace-id"]);
    assert_eq!(get(&headers, "x-TRACE-id"), Some("abc".to_string()));
    assert!(headers.has("X-TRACE-ID".into()).unwrap());
}

#[test]
fn invalid_names_and_values_are_refused_without_change() {
    let mut headers = Headers::new();
    headers.set("a".into(), "1".into()).unwrap();
    assert_eq!(
        headers.append("bad key".into(), "v".into()),
        Err(HeaderError::InvalidKey)
    );
    assert_eq!(
        headers.set("ok".into(), "bad\u{0}value".into()),
        Err(HeaderError::InvalidValue)
    );
    assert_eq!(headers.get("".into()), Err(HeaderError::InvalidKey));
    assert_eq!(headers.has("x y".into()), Err(HeaderError::InvalidKey));
    assert_eq!(headers.delete("x:y".into()), Err(HeaderError::InvalidKey));
    assert_eq!(headers.iter(), vec![("a", "1")]);
}

#[test]
fn error_messages() {
    assert_eq!(HeaderError::InvalidKey.message(), "Invalid key");
    assert_eq!(HeaderError::InvalidValue.message(), "Invalid value of key");
    assert_eq!(
        HeaderError::NotPaired.message(),
        "Header arrays are not paired"
    );
}

#[test]
fn append_combines_values_and_cookie_uses_semicolons() {
    let mut headers = Headers::new();
    headers.append("cookie".into(), "a=1".into()).unwrap();
    headers.append("Cookie".into(), "b=2".into()).unwrap();
    headers.append("accept".into(), "text/html".into()).unwrap();
    headers.append("accept".into(), "  */*  ".into()).unwrap();
    assert_eq!(get(&headers, "cookie"), Some("a=1; b=2".to_string()));
    assert_eq!(get(&headers, "accept"), Some("text/html, */*".to_string()));
    assert_eq!(headers.keys(), vec!["cookie", "accept"]);
}

#[test]
fn set_cookie_values_stay_apart() {
    let mut headers = Headers::new();
    headers.append("Set-Cookie".into(), "a=1".into()).unwrap();
    headers.append("set-cookie".into(), "b=2".into()).unwrap();
    assert_eq!(headers.get_set_cookie(), vec!["a=1", "b=2"]);
    assert_eq!(headers.keys(), vec!["set-cookie", "set-cookie"]);
    assert_eq!(get(&headers, "set-cookie"), Some("a=1, b=2".to_string()));
    headers.set("set-cookie".into(), "c=3".into()).unwrap();
    assert_eq!(headers.get_set_cookie(), vec!["c=3"]);
}

#[test]
fn set_replaces_the_first_entry_and_get_reads_it() {
    let mut headers = Headers::new();
    headers.append("a".into(), "1".into()).unwrap();
    headers.append("b".into(), "2".into()).unwrap();
    headers.set("A".into(), "3".into()).unwrap();
    assert_eq!(headers.iter(), vec![("a", "3"), ("b", "2")]);
    headers.set("c".into(), " 4 ".into()).unwrap();
    assert_eq!(headers.values(), vec!["3", "2", "4"]);
}

#[test]
fn delete_removes_every_entry_of_the_name_only() {
    let mut headers = Headers::new();
    headers.append("set-cookie".into(), "a=1".into()).unwrap();
    headers.append("x".into(), "1".into()).unwrap();
    headers.append("set-cookie".into(), "b=2".into()).unwrap();
    headers.delete("SET-COOKIE".into()).unwrap();
    assert_eq!(headers.iter(), vec![("x", "1")]);
    assert_eq!(get(&headers, "set-cookie"), None);
    assert!(!headers.has("set-cookie".into()).unwrap());
    assert_eq!(get(&headers, "x"), Some("1".to_string()));
}

#[test]
fn get_of_a_missing_name_is_none() {
    let headers = Headers::new();
    assert_eq!(get(&headers, "missing"), None);
    assert_eq!(get(&headers, "set-cookie"), None);
    assert!(headers.get_set_cookie().is_empty());
}

#[test]
fn default_is_empty_and_tag_is_headers() {
    let headers = Headers::default();
    assert!(headers.iter().is_empty());
    assert_eq!(headers.to_string_tag(), "Headers");
}

#[test]
fn array_init_combines_lowercases_and_sorts_stably() {
    let entries = vec![
        HeaderInit::Pair("X-B".into(), "1".into()),
        HeaderInit::Pair("set-cookie".into(), "z=1".into()),
        HeaderInit::Pair("a".into(), "2".into()),
        HeaderInit::Pair("set-cookie".into(), "y=2".into()),
        HeaderInit::Pair("x-b".into(), "3".into()),
        HeaderInit::Pair("Cookie".into(), "k=v".into()),
        HeaderInit::Pair("cookie".into(), "m=n".into()),
    ];
    let headers = Headers::array_to_headers(entries).unwrap();
    assert_eq!(
        headers.iter(),
        vec![
            ("a", "2"),
            ("cookie", "k=v; m=n"),
            ("set-cookie", "z=1"),
            ("set-cookie", "y=2"),
            ("x-b", "1, 3"),
        ]
    );
}

#[test]
fn array_init_values_are_not_normalized_but_checked() {
    let ok = Headers::array_to_headers(vec![HeaderInit::Pair("a".into(), " x ".into())]).unwrap();
    assert_eq!(ok.iter(), vec![("a", " x ")]);
    let bad = Headers::array_to_headers(vec![HeaderInit::Pair("a".into(), "x\ny".into())]);
    assert!(matches!(bad, Err(HeaderError::InvalidValue)));
}

#[test]
fn array_init_refuses_the_first_bad_entry() {
    let unpaired = Headers::array_to_headers(vec![
        HeaderInit::Pair("a".into(), "1".into()),
        HeaderInit::Unpaired,
        HeaderInit::Pair("bad key".into(), "1".into()),
    ]);
    assert!(matches!(unpaired, Err(HeaderError::NotPaired)));
    let bad_key = Headers::array_to_headers(vec![
        HeaderInit::Pair("bad key".into(), "1".into()),
        HeaderInit::Unpaired,
    ]);
    assert!(matches!(bad_key, Err(HeaderError::InvalidKey)));
}

#[test]
fn map_init_drops_invalid_names_lowercases_and_normalizes() {
    let headers = Headers::from_map(vec![
        ("Accept".to_string(), "  text/plain ".to_string()),
        ("bad key".to_string(), "x".to_string()),
        ("X-Id".to_string(), "1\r\n 2".to_string()),
    ]);
    assert_eq!(
        headers.iter(),
        vec![("accept", "text/plain"), ("x-id", "1 2")]
    );
}

#[test]
fn http_header_map_values_are_decoded_lossily() {
    let mut map = hyper::HeaderMap::new();
    map.insert(
        hyper::header::CONTENT_TYPE,
        hyper::header::HeaderValue::from_static("text/plain"),
    );
    map.append(
        hyper::header::ACCEPT,
        hyper::header::HeaderValue::from_static("a"),
    );
    map.append(
        hyper::header::ACCEPT,
        hyper::header::HeaderValue::from_bytes(b"b\xff").unwrap(),
    );
    let headers = Headers::from_http_headers(&map);
    let mut pairs: Vec<(String, String)> = headers
        .iter()
        .into_iter()
        .map(|(k, v)| (k.to_string(), v.to_string()))
        .collect();
    pairs.sort();
    assert_eq!(
        pairs,
        vec![
            ("accept".to_string(), "a".to_string()),
            ("accept".to_string(), "b\u{FFFD}".to_string()),
            ("content-type".to_string(), "text/plain".to_string()),
        ]
    );
}

#[test]
fn unicode_names_are_lowercased_before_the_check() {
    let mut headers = Headers::new();
    // KELVIN SIGN lowercases to an ASCII 'k'.
    headers.set("\u{212A}ey".into(), "v".into()).unwrap();
    assert_eq!(headers.keys(), vec!["key"]);
}

#[test]
fn lookup_ignores_the_case_of_ascii_names() {
    let mut headers = Headers::new();
    headers.set("Content-Type".to_string(), "text/plain".to_string()).unwrap();
    assert_eq!(get(&headers, "content-type"), Some("text/plain".to_string()));
    assert_eq!(get(&headers, "CONTENT-TYPE"), Some("text/plain".to_string()));
    assert_eq!(headers.has("cOnTeNt-TyPe".to_string()), Ok(true));
}

#[test]
fn lowercased_operations_take_the_name_as_given() {
    let mut headers = Headers::new();
    headers.append_lowercased("accept".to_string(), " gzip ".to_string()).unwrap();
    headers.append_lowercased("accept".to_string(), "br".to_string()).unwrap();
    assert_eq!(headers.get_lowercased("accept".to_string()), Ok(Some("gzip, br".to_string())));
    // The name is not lowercased here: "Accept" is another name.
    assert_eq!(headers.get_lowercased("Accept".to_string()), Ok(None));
    assert_eq!(headers.has_lowercased("accept".to_string()), Ok(true));
    headers.set_lowercased("accept".to_string(), "deflate".to_string()).unwrap();
    assert_eq!(headers.get_lowercased("accept".to_string()), Ok(Some("deflate".to_string())));
    headers.delete_lowercased("accept".to_string()).unwrap();
    assert_eq!(headers.has_lowercased("accept".to_string()), Ok(false));
    assert_eq!(headers.append_lowercased("bad key".to_string(), "v".to_string()), Err(HeaderError::InvalidKey));
    assert_eq!(headers.set_lowercased("k".to_string(), "\u{1}".to_string()), Err(HeaderError::InvalidValue));
}

#[test]
fn normalizing_never_lengthens_a_value() {
    for input in [" a  b ", "\r\n x", "plain", "", "\t\t"] {
        let mut value = input.to_string();
        normalize_header_value_inplace(&mut value);
        assert!(value.len() <= input.len());
    }
}

#[test]
fn operations_keep_names_unique_except_set_cookie() {
    let mut headers = Headers::new();
    headers.append("A".to_string(), "1".to_string()).unwrap();
    headers.append("a".to_string(), "2".to_string()).unwrap();
    headers.set("B".to_string(), "3".to_string()).unwrap();
    headers.set("b".to_string(), "4".to_string()).unwrap();
    headers.append("set-cookie".to_string(), "x".to_string()).unwrap();
    headers.append("Set-Cookie".to_string(), "y".to_string()).unwrap();
    assert_eq!(headers.keys(), vec!["a", "b", "set-cookie", "set-cookie"]);
    assert_eq!(headers.values(), vec!["1, 2", "4", "x", "y"]);
}
