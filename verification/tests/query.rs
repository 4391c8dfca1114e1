use berlin_core::index::{mirror_rows, SCHEMA};
use berlin_core::links::resolve;
use berlin_core::model::{AdrCard, BuildingStatus, Card, CardType, PlanningStatus, WorkCard};
use berlin_core::query::{compile, is_column_name, select_sql, split_whitespace};
use berlin_core::{Error, Result};
use rusqlite::{params_from_iter, Connection};

fn work(id: &str, title: &str, status: BuildingStatus) -> Card {
    Card::Work(WorkCard {
        id: id.to_string(),
        title: title.to_string(),
        card_type: CardType::Card,
        created: "2026-05-29".to_string(),
        building_status: status,
        assignee: None,
        skills: Vec::new(),
        priority: None,
        depends_on: Vec::new(),
        blocks: Vec::new(),
        linked: Vec::new(),
        waypoints: Vec::new(),
        phase: None,
        updated: None,
        tags: Vec::new(),
    })
}

fn adr(id: &str, title: &str, number: u32, status: PlanningStatus) -> Card {
    Card::Adr(AdrCard {
        id: id.to_string(),
        title: title.to_string(),
        card_type: CardType::Adr,
        created: "2026-05-29".to_string(),
        adr_number: number,
        planning_status: status,
        supersedes: Vec::new(),
        superseded_by: Vec::new(),
        assignee: None,
        skills: Vec::new(),
        priority: None,
        depends_on: Vec::new(),
        blocks: Vec::new(),
        linked: Vec::new(),
        waypoints: Vec::new(),
        phase: None,
        updated: None,
        tags: Vec::new(),
    })
}

/// An in-memory index holding the rows the library mirrors for `entries`.
fn index_of(entries: Vec<(String, Card)>) -> Connection {
    let res = resolve(entries);
    let (cards, relations) = mirror_rows(&res.by_slug);
    let conn = Connection::open_in_memory().unwrap();
    conn.execute_batch(SCHEMA).unwrap();
    for r in &cards {
        conn.execute(
            "INSERT INTO cards (slug, id, title, type, created, priority, phase, building_status, \
             planning_status, waypoint_status, adr_number, phase_number) \
             VALUES (?1, ?2, ?3, ?4, ?5, ?6, ?7, ?8, ?9, ?10, ?11, ?12)",
            (
                &r.slug,
                &r.id,
                &r.title,
                r.card_type,
                &r.created,
                r.priority,
                r.phase,
                r.building_status,
                r.planning_status,
                r.waypoint_status,
                r.adr_number,
                r.phase_number,
            ),
        )
        .unwrap();
    }
    for r in &relations {
        conn.execute(
            "INSERT INTO relations (from_slug, kind, to_slug) VALUES (?1, ?2, ?3)",
            (&r.from_slug, r.kind, &r.to_slug),
        )
        .unwrap();
    }
    conn
}

/// `(slug, title)` of the cards matching `expr`, in slug order.
fn run(conn: &Connection, expr: &str) -> Result<Vec<(String, String)>> {
    let (where_clause, values) = compile(expr)?;
    let sql = select_sql(&where_clause);
    let mut stmt = conn.prepare(&sql).unwrap();
    let rows = stmt
        .query_map(params_from_iter(values.iter()), |r| {
            Ok((r.get::<_, String>(0)?, r.get::<_, String>(1)?))
        })
        .unwrap();
    Ok(rows.map(|r| r.unwrap()).collect())
}

fn project() -> Connection {
    index_of(vec![
        ("a1".to_string(), adr("01a1", "Decision", 1, PlanningStatus::Accepted)),
        ("w1".to_string(), work("01w1", "Work one", BuildingStatus::InProgress)),
        ("w2".to_string(), work("01w2", "Work two", BuildingStatus::Done)),
    ])
}

fn slugs(rows: &[(String, String)]) -> Vec<&str> {
    rows.iter().map(|(s, _)| s.as_str()).collect()
}

#[test]
fn single_predicate() {
    let conn = project();
    let rows = run(&conn, "type:card").unwrap();
    assert_eq!(slugs(&rows), ["w1", "w2"]);
}

#[test]
fn and_narrows() {
    let conn = project();
    let rows = run(&conn, "type:card AND building_status:in-progress").unwrap();
    assert_eq!(slugs(&rows), ["w1"]);
}

#[test]
fn or_unions() {
    let conn = project();
    let rows = run(&conn, "type:adr OR building_status:done").unwrap();
    assert_eq!(slugs(&rows), ["a1", "w2"]);
}

#[test]
fn unknown_field_is_rejected() {
    let conn = project();
    let err = run(&conn, "bogus:x").unwrap_err();
    assert!(matches!(err, Error::Query(_)));
    assert!(err.message().contains("bogus"));
}

#[test]
fn malformed_predicate_is_rejected() {
    let conn = project();
    assert!(matches!(run(&conn, "no-colon"), Err(Error::Query(_))));
    assert!(matches!(run(&conn, "type:card AND"), Err(Error::Query(_))));
}

#[test]
fn compile_numbers_parameters_and_uppercases_connectors() {
    let (clause, values) = compile("  type:card and building_status:done Or id:01x ").unwrap();
    assert_eq!(clause, "type = ?1 AND building_status = ?2 OR id = ?3");
    assert_eq!(values, ["card", "done", "01x"]);
}

#[test]
fn compile_splits_the_value_at_the_first_colon() {
    let (clause, values) = compile("title:a:b").unwrap();
    assert_eq!(clause, "title = ?1");
    assert_eq!(values, ["a:b"]);
    let (clause, values) = compile("slug:").unwrap();
    assert_eq!(clause, "slug = ?1");
    assert_eq!(values, [""]);
}

#[test]
fn compile_error_messages() {
    let msg = |e: &str| match compile(e) {
        Err(Error::Query(m)) => m,
        other => panic!("unexpected {other:?}"),
    };
    assert_eq!(msg(""), "empty query");
    assert_eq!(msg(" \t\n"), "empty query");
    assert_eq!(msg("no-colon"), "expected `field:value`, got `no-colon`");
    assert_eq!(msg("bogus:x"), "unknown field `bogus`");
    assert_eq!(msg("type:card XOR id:1"), "expected AND/OR, got `XOR`");
    assert_eq!(msg("type:card AND"), "query ends with a connector");
    assert_eq!(msg("AND type:card"), "expected `field:value`, got `AND`");
}

#[test]
fn columns_are_the_index_columns() {
    for c in [
        "slug",
        "id",
        "title",
        "type",
        "created",
        "priority",
        "phase",
        "building_status",
        "planning_status",
        "waypoint_status",
        "adr_number",
        "phase_number",
    ] {
        assert!(is_column_name(c), "{c}");
    }
    assert!(!is_column_name("from_slug"));
    assert!(!is_column_name("Type"));
    assert!(!is_column_name(""));
}

#[test]
fn split_whitespace_drops_every_run() {
    let cs: Vec<char> = " a\tbc \n d ".chars().collect();
    assert_eq!(split_whitespace(&cs), ["a", "bc", "d"]);
    let none: Vec<char> = "   ".chars().collect();
    assert!(split_whitespace(&none).is_empty());
}

#[test]
fn unknown_field_errors_not_panics() {
    let conn = project();
    assert!(run(&conn, "nope:1").is_err());
}

#[test]
fn select_statement_wraps_the_clause() {
    assert_eq!(
        select_sql("type = ?1 AND id = ?2"),
        "SELECT slug, title FROM cards WHERE type = ?1 AND id = ?2 ORDER BY slug"
    );
}
