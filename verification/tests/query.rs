use bittorrent::querystring::QueryString;

// Parameters are joined in order as `key=value` pairs.
#[test]
fn test_query_string_join() {
    let qs = QueryString::from(vec![
        ("port", String::from("6887")),
        ("compact", String::from("1")),
    ]);
    assert_eq!(qs.query_string(), "port=6887&compact=1");
}

// The whole query string is percent-encoded on the way out: a space does
// not survive unescaped.
#[test]
fn test_query_string_escapes() {
    let qs = QueryString::from(vec![("event", String::from("started now"))]);
    assert_eq!(qs.query_string(), "event=started%20now");
}

// Raw bytes are escaped one by one.
#[test]
fn test_encode_component() {
    let escaped = QueryString::encode_component(&[0x01, b'a', 0xFF]);
    assert_eq!(escaped, "%01a%FF");
}

// Later additions follow earlier ones.
#[test]
fn test_add_params_appends() {
    let mut qs = QueryString::from(vec![("a", String::from("1"))]);
    qs.add_params(vec![("b", String::from("2"))]);
    assert_eq!(qs.query_string(), "a=1&b=2");
}
