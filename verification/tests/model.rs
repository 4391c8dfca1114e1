use berlin_core::model::{
    BuildingStatus, Card, CardType, PlanningStatus, Priority, WaypointCard, WaypointStatus,
};

#[test]
fn enum_spellings() {
    assert_eq!(CardType::Card.as_str(), "card");
    assert_eq!(CardType::Adr.as_str(), "adr");
    assert_eq!(CardType::Phase.as_str(), "phase");
    assert_eq!(CardType::Waypoint.as_str(), "waypoint");
    assert_eq!(BuildingStatus::InProgress.as_str(), "in-progress");
    assert_eq!(BuildingStatus::Archived.as_str(), "archived");
    assert_eq!(PlanningStatus::InDiscussion.as_str(), "in-discussion");
    assert_eq!(PlanningStatus::Withdrawn.as_str(), "withdrawn");
    assert_eq!(WaypointStatus::Planned.as_str(), "planned");
    assert_eq!(Priority::High.as_str(), "high");
}

#[test]
fn card_accessors_read_the_variant() {
    let wp = Card::Waypoint(WaypointCard {
        id: "01w".to_string(),
        title: "W".to_string(),
        card_type: CardType::Waypoint,
        created: "2026-05-29".to_string(),
        slug: "w".to_string(),
        status: WaypointStatus::Active,
        criteria: vec!["a".to_string(), "b".to_string()],
        target_date: None,
        reached_date: None,
        description: None,
        assignee: None,
        skills: Vec::new(),
        priority: Some(Priority::Medium),
        depends_on: vec!["d".to_string()],
        blocks: Vec::new(),
        linked: vec!["l".to_string()],
        phase: Some(2),
        updated: None,
        tags: Vec::new(),
    });
    assert_eq!(wp.id(), "01w");
    assert_eq!(wp.title(), "W");
    assert_eq!(wp.card_type(), CardType::Waypoint);
    assert_eq!(wp.created(), "2026-05-29");
    assert_eq!(wp.criteria(), ["a", "b"]);
    assert_eq!(wp.depends_on(), ["d"]);
    assert!(wp.blocks().is_empty());
    assert_eq!(wp.linked(), ["l"]);
    assert_eq!(wp.priority(), Some(Priority::Medium));
    assert_eq!(wp.phase(), Some(2));
}
