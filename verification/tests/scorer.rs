use llm_readability::scorer;

#[test]
fn test_local_url() {
    assert!(scorer::local_url("/path/to/resource"));
    assert!(scorer::local_url("relative/path"));
    assert!(!scorer::local_url("http://example.com"));
    assert!(!scorer::local_url("https://example.com"));
    assert!(!scorer::local_url("//example.com/path"));
}

#[test]
fn test_local_url_protocol_relative() {
    assert!(!scorer::local_url("//cdn.example.com/image.png"));
}

#[test]
fn test_local_url_fragment() {
    assert!(scorer::local_url("#section"));
}

#[test]
fn test_local_url_query_string() {
    assert!(scorer::local_url("page?query=value"));
}
