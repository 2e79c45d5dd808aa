use git5::error::Git5Error;

#[test]
fn test_error_display() {
    let err = Git5Error::NotARepository("/some/path".to_string());
    assert_eq!(err.message(), "Not a git5 repository: /some/path");

    let err = Git5Error::ObjectNotFound("abc123".to_string());
    assert_eq!(err.message(), "Object not found: abc123");
}

#[test]
fn test_error_debug() {
    let err = Git5Error::Conflict("merge conflict".to_string());
    let debug_str = format!("{:?}", err);
    assert!(debug_str.contains("Conflict"));
}

#[test]
fn test_io_error_conversion() {
    let io_err = std::io::Error::new(std::io::ErrorKind::NotFound, "file not found");
    let git5_err: Git5Error = io_err.into();
    assert!(matches!(git5_err, Git5Error::IoError(_)));
}

#[test]
fn error_messages_of_every_kind() {
    assert_eq!(Git5Error::InvalidObject("x".to_string()).message(), "Invalid object: x");
    assert_eq!(Git5Error::InvalidRef("main".to_string()).message(), "Invalid reference: main");
    assert_eq!(Git5Error::Conflict("c".to_string()).message(), "Conflict: c");
    assert_eq!(Git5Error::IoError("disk".to_string()).message(), "IO error: disk");
    assert_eq!(Git5Error::ParseError("p".to_string()).message(), "Parse error: p");
}

#[test]
fn io_error_keeps_its_text() {
    let io_err = std::io::Error::new(std::io::ErrorKind::Other, "boom");
    let e: Git5Error = io_err.into();
    assert_eq!(e.message(), "IO error: boom");
}

#[test]
fn hex_error_becomes_parse_error() {
    let err = hex::decode("zz").unwrap_err();
    let e: Git5Error = err.into();
    match e {
        Git5Error::ParseError(m) => assert_eq!(m, "Invalid hex: Invalid character 'z' at position 0"),
        _ => panic!("expected a parse error"),
    }
}
