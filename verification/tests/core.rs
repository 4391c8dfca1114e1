use berlin_core::{require_project, version, Error};

#[test]
fn version_is_non_empty() {
    assert!(!version().is_empty());
}

#[test]
fn error_messages_follow_their_kind() {
    assert_eq!(Error::Io("boom".to_string()).message(), "i/o error: boom");
    assert_eq!(Error::Yaml("bad".to_string()).message(), "yaml error: bad");
    assert_eq!(Error::Sqlite("locked".to_string()).message(), "sqlite error: locked");
    assert_eq!(Error::MissingFrontmatter.message(), "no frontmatter block found");
    assert_eq!(Error::Query("empty query".to_string()).message(), "query error: empty query");
    assert_eq!(Error::Render("x".to_string()).message(), "render error: x");
    assert_eq!(Error::Init("y".to_string()).message(), "init error: y");
}

#[test]
fn require_project_refuses_a_plain_directory() {
    assert!(require_project("proj", true).is_ok());
    match require_project("/tmp/nowhere", false) {
        Err(Error::Query(m)) => assert_eq!(
            m,
            "/tmp/nowhere is not an FSBerlin project (no .fsberlin/config.yaml)"
        ),
        other => panic!("unexpected {other:?}"),
    }
}

#[test]
fn io_error_converts_via_from() {
    let err = Error::Io(std::io::Error::other("boom").to_string());
    assert!(matches!(err, Error::Io(_)));
    assert_eq!(err.message(), "i/o error: boom");
}
