use berlin_core::index::{card_row, mirror_rows, SCHEMA};
use berlin_core::links::resolve;
use berlin_core::model::{
    AdrCard, BuildingStatus, Card, CardType, PhaseCard, PlanningStatus, Priority, WaypointCard,
    WaypointStatus, WorkCard,
};
use rusqlite::Connection;

fn work(id: &str, title: &str, status: BuildingStatus, depends_on: &[&str]) -> Card {
    Card::Work(WorkCard {
        id: id.to_string(),
        title: title.to_string(),
        card_type: CardType::Card,
        created: "2026-05-29".to_string(),
        building_status: status,
        assignee: None,
        skills: Vec::new(),
        priority: None,
        depends_on: depends_on.iter().map(|s| s.to_string()).collect(),
        blocks: Vec::new(),
        linked: Vec::new(),
        waypoints: Vec::new(),
        phase: None,
        updated: None,
        tags: Vec::new(),
    })
}

fn sample() -> Vec<(String, Card)> {
    vec![
        ("a".to_string(), work("01a", "A", BuildingStatus::InProgress, &["b"])),
        ("b".to_string(), work("01b", "B", BuildingStatus::Done, &[])),
    ]
}

/// Drop the tables, recreate them, and write the mirrored rows; the number
/// of cards written.
fn rebuild(conn: &Connection, entries: Vec<(String, Card)>) -> usize {
    let res = resolve(entries);
    let (cards, relations) = mirror_rows(&res.by_slug);
    conn.execute_batch("DROP TABLE IF EXISTS relations; DROP TABLE IF EXISTS cards;").unwrap();
    conn.execute_batch(SCHEMA).unwrap();
    for r in &cards {
        conn.execute(
            "INSERT INTO cards (slug, id, title, type, created, priority, phase, building_status, \
             planning_status, waypoint_status, adr_number, phase_number) \
             VALUES (?1, ?2, ?3, ?4, ?5, ?6, ?7, ?8, ?9, ?10, ?11, ?12)",
            (
                &r.slug,
                &r.id,
                &r.title,
                r.card_type,
                &r.created,
                r.priority,
                r.phase,
                r.building_status,
                r.planning_status,
                r.waypoint_status,
                r.adr_number,
                r.phase_number,
            ),
        )
        .unwrap();
    }
    for r in &relations {
        conn.execute(
            "INSERT INTO relations (from_slug, kind, to_slug) VALUES (?1, ?2, ?3)",
            (&r.from_slug, r.kind, &r.to_slug),
        )
        .unwrap();
    }
    cards.len()
}

fn build_in_memory(entries: Vec<(String, Card)>) -> Connection {
    let conn = Connection::open_in_memory().unwrap();
    rebuild(&conn, entries);
    conn
}

/// A deterministic textual dump of the index contents.
fn dump(conn: &Connection) -> Vec<String> {
    let mut out = Vec::new();
    let mut cards = conn
        .prepare("SELECT slug, type, building_status, planning_status FROM cards ORDER BY slug")
        .unwrap();
    let rows = cards
        .query_map([], |r| {
            Ok(format!(
                "card {} {} {:?} {:?}",
                r.get::<_, String>(0)?,
                r.get::<_, String>(1)?,
                r.get::<_, Option<String>>(2)?,
                r.get::<_, Option<String>>(3)?,
            ))
        })
        .unwrap();
    for row in rows {
        out.push(row.unwrap());
    }
    let mut rels = conn
        .prepare("SELECT from_slug, kind, to_slug FROM relations ORDER BY from_slug, kind, to_slug")
        .unwrap();
    let rows = rels
        .query_map([], |r| {
            Ok(format!(
                "rel {} {} {}",
                r.get::<_, String>(0)?,
                r.get::<_, String>(1)?,
                r.get::<_, String>(2)?,
            ))
        })
        .unwrap();
    for row in rows {
        out.push(row.unwrap());
    }
    out
}

#[test]
fn builds_expected_rows() {
    let conn = build_in_memory(sample());
    let n: i64 = conn.query_row("SELECT count(*) FROM cards", [], |r| r.get(0)).unwrap();
    assert_eq!(n, 2);
    let dep: String = conn
        .query_row(
            "SELECT to_slug FROM relations WHERE from_slug='a' AND kind='depends_on'",
            [],
            |r| r.get(0),
        )
        .unwrap();
    assert_eq!(dep, "b");
    let status: String = conn
        .query_row("SELECT building_status FROM cards WHERE slug='a'", [], |r| r.get(0))
        .unwrap();
    assert_eq!(status, "in-progress");
}

#[test]
fn rebuild_is_deterministic() {
    let first = dump(&build_in_memory(sample()));
    let second = dump(&build_in_memory(sample()));
    assert_eq!(first, second);
}

#[test]
fn rebuild_discards_stale_rows_filesystem_wins() {
    let conn = build_in_memory(sample());
    conn.execute(
        "INSERT INTO cards (slug, id, title, type, created) \
         VALUES ('ghost', 'x', 'Ghost', 'card', '2026-05-29')",
        [],
    )
    .unwrap();

    rebuild(&conn, sample());

    let ghosts: i64 = conn
        .query_row("SELECT count(*) FROM cards WHERE slug='ghost'", [], |r| r.get(0))
        .unwrap();
    assert_eq!(ghosts, 0, "rebuild must drop rows not on the filesystem");
}

#[test]
fn card_rows_carry_each_kind_of_status() {
    let adr = Card::Adr(AdrCard {
        id: "01d".to_string(),
        title: "D".to_string(),
        card_type: CardType::Adr,
        created: "2026-01-02".to_string(),
        adr_number: 12,
        planning_status: PlanningStatus::InDiscussion,
        supersedes: Vec::new(),
        superseded_by: Vec::new(),
        assignee: None,
        skills: Vec::new(),
        priority: Some(Priority::Critical),
        depends_on: Vec::new(),
        blocks: Vec::new(),
        linked: Vec::new(),
        waypoints: Vec::new(),
        phase: Some(3),
        updated: None,
        tags: Vec::new(),
    });
    let row = card_row(&"d".to_string(), &adr);
    assert_eq!(row.slug, "d");
    assert_eq!(row.id, "01d");
    assert_eq!(row.card_type, "adr");
    assert_eq!(row.priority, Some("critical"));
    assert_eq!(row.phase, Some(3));
    assert_eq!(row.planning_status, Some("in-discussion"));
    assert_eq!(row.building_status, None);
    assert_eq!(row.adr_number, Some(12));
    assert_eq!(row.phase_number, None);

    let phase = Card::Phase(PhaseCard {
        id: "01p".to_string(),
        title: "P".to_string(),
        card_type: CardType::Phase,
        created: "2026-01-02".to_string(),
        phase_number: 4,
        criteria: vec!["c".to_string()],
        estimated_weeks_bits: Some(2.5f64.to_bits()),
        assignee: None,
        skills: Vec::new(),
        priority: None,
        depends_on: Vec::new(),
        blocks: Vec::new(),
        linked: Vec::new(),
        waypoints: Vec::new(),
        phase: None,
        updated: None,
        tags: Vec::new(),
    });
    let row = card_row(&"p".to_string(), &phase);
    assert_eq!(row.card_type, "phase");
    assert_eq!(row.phase_number, Some(4));
    assert_eq!(row.priority, None);

    let wp = Card::Waypoint(WaypointCard {
        id: "01w".to_string(),
        title: "W".to_string(),
        card_type: CardType::Waypoint,
        created: "2026-01-02".to_string(),
        slug: "w".to_string(),
        status: WaypointStatus::Abandoned,
        criteria: Vec::new(),
        target_date: None,
        reached_date: None,
        description: None,
        assignee: None,
        skills: Vec::new(),
        priority: Some(Priority::Low),
        depends_on: Vec::new(),
        blocks: Vec::new(),
        linked: Vec::new(),
        phase: None,
        updated: None,
        tags: Vec::new(),
    });
    let row = card_row(&"w".to_string(), &wp);
    assert_eq!(row.card_type, "waypoint");
    assert_eq!(row.waypoint_status, Some("abandoned"));
    assert_eq!(row.priority, Some("low"));
}

#[test]
fn relation_rows_follow_field_order() {
    let mut c = work("01a", "A", BuildingStatus::Pending, &["x", "y"]);
    if let Card::Work(w) = &mut c {
        w.blocks = vec!["z".to_string()];
        w.linked = vec!["l".to_string()];
    }
    let (cards, rels) = mirror_rows(&vec![("a".to_string(), c)]);
    assert_eq!(cards.len(), 1);
    let got: Vec<(String, &str, String)> =
        rels.iter().map(|r| (r.from_slug.clone(), r.kind, r.to_slug.clone())).collect();
    assert_eq!(
        got,
        [
            ("a".to_string(), "depends_on", "x".to_string()),
            ("a".to_string(), "depends_on", "y".to_string()),
            ("a".to_string(), "blocks", "z".to_string()),
            ("a".to_string(), "linked", "l".to_string()),
        ]
    );
}
