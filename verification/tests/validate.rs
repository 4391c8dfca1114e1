use berlin_core::model::{BuildingStatus, Card, CardType, WorkCard};
use berlin_core::validate::{validate, CardOutcome, FileOutcome, Finding};

fn work(id: &str, title: &str, status: BuildingStatus, depends_on: &[&str]) -> Card {
    Card::Work(WorkCard {
        id: id.to_string(),
        title: title.to_string(),
        card_type: CardType::Card,
        created: "2026-05-29".to_string(),
        building_status: status,
        assignee: None,
        skills: Vec::new(),
        priority: None,
        depends_on: depends_on.iter().map(|s| s.to_string()).collect(),
        blocks: Vec::new(),
        linked: Vec::new(),
        waypoints: Vec::new(),
        phase: None,
        updated: None,
        tags: Vec::new(),
    })
}

fn config_ok() -> Option<FileOutcome> {
    Some(FileOutcome { location: ".fsberlin/config.yaml".to_string(), error: None })
}

fn parsed(slug: &str, card: Card) -> CardOutcome {
    CardOutcome {
        slug: slug.to_string(),
        location: format!("cards/{slug}/card.md"),
        parsed: Ok(card),
    }
}

fn failed(slug: &str, message: &str) -> CardOutcome {
    CardOutcome {
        slug: slug.to_string(),
        location: format!("cards/{slug}/card.md"),
        parsed: Err(message.to_string()),
    }
}

fn finding(location: &str, detail: &str) -> Finding {
    Finding { location: location.to_string(), detail: detail.to_string() }
}

#[test]
fn valid_project_has_no_findings() {
    let findings = validate(
        "/tmp/p".to_string(),
        config_ok(),
        Vec::new(),
        vec![
            parsed("a", work("01a", "A", BuildingStatus::Pending, &["b"])),
            parsed("b", work("01b", "B", BuildingStatus::Done, &[])),
        ],
    );
    assert!(findings.is_empty(), "findings: {findings:?}");
}

#[test]
fn non_project_is_flagged() {
    let findings = validate(
        "/tmp/p".to_string(),
        None,
        vec![FileOutcome { location: "agents/x.yaml".to_string(), error: Some("bad".to_string()) }],
        vec![failed("bad", "yaml error: oops")],
    );
    assert_eq!(findings.len(), 1);
    assert!(findings[0].detail.contains("not an FSBerlin project"));
    assert_eq!(findings[0].location, "/tmp/p");
}

#[test]
fn malformed_card_is_located() {
    let findings = validate(
        "/tmp/p".to_string(),
        config_ok(),
        Vec::new(),
        vec![failed(
            "bad",
            "yaml error: invalid type: sequence, expected a string at line 1 column 5",
        )],
    );
    assert!(findings.iter().any(|f| f.location.contains("bad")), "findings: {findings:?}");
}

#[test]
fn retired_status_field_is_flagged() {
    let findings = validate(
        "/tmp/p".to_string(),
        config_ok(),
        Vec::new(),
        vec![failed("legacy", "yaml error: unknown field `status`, expected one of `id`, `title`")],
    );
    assert!(findings.iter().any(|f| f.detail.contains("status")), "findings: {findings:?}");
}

#[test]
fn dangling_reference_is_flagged() {
    let findings = validate(
        "/tmp/p".to_string(),
        config_ok(),
        Vec::new(),
        vec![parsed("a", work("01a", "A", BuildingStatus::Pending, &["ghost"]))],
    );
    assert!(
        findings.iter().any(|f| f.location == "relations" && f.detail.contains("ghost")),
        "findings: {findings:?}"
    );
}

#[test]
fn findings_come_in_report_order() {
    let findings = validate(
        "/tmp/p".to_string(),
        Some(FileOutcome {
            location: ".fsberlin/config.yaml".to_string(),
            error: Some("yaml error: missing field `name`".to_string()),
        }),
        vec![
            FileOutcome { location: "agents/a.yaml".to_string(), error: None },
            FileOutcome {
                location: "agents/b.yaml".to_string(),
                error: Some("yaml error: missing field `role`".to_string()),
            },
        ],
        vec![
            parsed("dup", work("01d", "D", BuildingStatus::Pending, &[])),
            failed("broken", "no frontmatter block found"),
            parsed("dup", work("01e", "E", BuildingStatus::Pending, &["nowhere"])),
        ],
    );
    assert_eq!(
        findings,
        vec![
            finding(".fsberlin/config.yaml", "yaml error: missing field `name`"),
            finding("agents/b.yaml", "yaml error: missing field `role`"),
            finding("cards/broken/card.md", "no frontmatter block found"),
            finding("dup", "duplicate slug (slugs must be project-unique)"),
            finding("relations", "dup: depends_on -> `nowhere` does not resolve"),
        ]
    );
    assert_eq!(findings[1].message(), "agents/b.yaml: yaml error: missing field `role`");
}

#[test]
fn repo_root_is_not_a_project() {
    let findings = validate("/repo".to_string(), None, Vec::new(), Vec::new());
    assert_eq!(findings.len(), 1);
    assert!(findings[0].detail.contains("not an FSBerlin project"));
}
