use berlin_core::frontmatter::extract_frontmatter;
use berlin_core::Error;

#[test]
fn extract_takes_only_the_first_fenced_block() {
    let md = "---\ntype: adr\n---\n\nbody with a rule\n\n---\n\nmore body\n";
    assert_eq!(extract_frontmatter(md).unwrap(), "type: adr");
}

#[test]
fn extract_errors_on_missing_frontmatter() {
    assert!(matches!(
        extract_frontmatter("no fences here\n").unwrap_err(),
        Error::MissingFrontmatter
    ));
}

#[test]
fn extract_errors_on_unclosed_block() {
    assert!(matches!(
        extract_frontmatter("---\nid: x\n").unwrap_err(),
        Error::MissingFrontmatter
    ));
}

#[test]
fn extract_accepts_crlf_and_bom() {
    let md = "\u{feff}---\r\nid: 01X\r\ntitle: T\n---\r\nbody\n";
    assert_eq!(extract_frontmatter(md).unwrap(), "id: 01X\r\ntitle: T");
}

#[test]
fn extract_empty_block() {
    assert_eq!(extract_frontmatter("---\n---\nbody\n").unwrap(), "");
    assert_eq!(extract_frontmatter("---\n---\n").unwrap(), "");
    assert_eq!(extract_frontmatter("---\r\n---").unwrap(), "");
    assert_eq!(extract_frontmatter("---\n\n---\n").unwrap(), "");
}

#[test]
fn extract_closes_only_at_a_line_that_is_exactly_three_dashes() {
    assert_eq!(extract_frontmatter("---\na: 1\n----\nb: 2\n---\n").unwrap(), "a: 1\n----\nb: 2");
    assert_eq!(extract_frontmatter("---\na: 1\n--- x\n---").unwrap(), "a: 1\n--- x");
    assert_eq!(extract_frontmatter("---\na: 1\n---\r\nbody").unwrap(), "a: 1");
    assert_eq!(extract_frontmatter("---\na: -1\nb: x---\n---\n").unwrap(), "a: -1\nb: x---");
    assert!(extract_frontmatter("---\na: 1\n----\n").is_err());
    assert!(extract_frontmatter("--\n---\n").is_err());
}

#[test]
fn extract_work_card_block() {
    let md = "---\nid: 01AAA\ntitle: Do the thing\ntype: card\nbuilding_status: in-progress\ndepends_on: [other-card]\nphase: 1\ncreated: 2026-05-29\n---\n\nbody\n";
    assert_eq!(
        extract_frontmatter(md).unwrap(),
        "id: 01AAA\ntitle: Do the thing\ntype: card\nbuilding_status: in-progress\ndepends_on: [other-card]\nphase: 1\ncreated: 2026-05-29"
    );
}

#[test]
fn errors_on_missing_frontmatter() {
    assert!(matches!(extract_frontmatter("no fences here\n"), Err(Error::MissingFrontmatter)));
}
