use llm_readability::error;
use llm_readability::extractor;
use std::io;

#[test]
fn test_error_display_url_parse() {
    let parse_err = url::Url::parse("not a url").unwrap_err();
    let err = error::Error::UrlParseError(parse_err);
    let display = err.message();
    assert!(display.contains("UrlParseError"));
}

#[test]
fn test_error_display_unexpected() {
    let err = error::Error::Unexpected;
    let display = err.message();
    assert_eq!(display, "UnexpectedError");
}

#[test]
fn test_error_display_io() {
    let io_err = io::Error::new(io::ErrorKind::NotFound, "file not found");
    let err = error::Error::IOError(io_err);
    let display = err.message();
    assert!(display.contains("InputOutputError"));
}

#[test]
fn test_error_from_url_parse() {
    let parse_err = url::Url::parse(":::invalid").unwrap_err();
    let err: error::Error = parse_err.into();
    assert!(matches!(err, error::Error::UrlParseError(_)));
}

#[test]
fn test_error_from_io() {
    let io_err = io::Error::new(io::ErrorKind::PermissionDenied, "access denied");
    let err: error::Error = io_err.into();
    assert!(matches!(err, error::Error::IOError(_)));
}

#[test]
fn test_error_debug() {
    let err = error::Error::Unexpected;
    let debug = format!("{:?}", err);
    assert!(debug.contains("Unexpected"));
}

#[test]
fn test_product_debug() {
    let product = extractor::Product {
        content: String::from("<html>test</html>"),
        text: String::from("test"),
    };

    let debug_str = format!("{:?}", product);
    assert!(debug_str.contains("Product"));
    assert!(debug_str.contains("content"));
    assert!(debug_str.contains("text"));
}
