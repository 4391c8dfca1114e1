use berlin_core::links::{check, insert_sorted, resolve, LinkProblem, RelationField};
use berlin_core::model::{
    BuildingStatus, Card, CardType, PhaseCard, WaypointCard, WaypointStatus, WorkCard,
};

fn strings(v: &[&str]) -> Vec<String> {
    v.iter().map(|s| s.to_string()).collect()
}

fn work(id: &str, title: &str, depends_on: &[&str], blocks: &[&str], linked: &[&str]) -> Card {
    Card::Work(WorkCard {
        id: id.to_string(),
        title: title.to_string(),
        card_type: CardType::Card,
        created: "2026-05-29".to_string(),
        building_status: BuildingStatus::Pending,
        assignee: None,
        skills: Vec::new(),
        priority: None,
        depends_on: strings(depends_on),
        blocks: strings(blocks),
        linked: strings(linked),
        waypoints: Vec::new(),
        phase: None,
        updated: None,
        tags: Vec::new(),
    })
}

fn phase(id: &str, title: &str, number: u32, criteria: &[&str]) -> Card {
    Card::Phase(PhaseCard {
        id: id.to_string(),
        title: title.to_string(),
        card_type: CardType::Phase,
        created: "2026-05-29".to_string(),
        phase_number: number,
        criteria: strings(criteria),
        estimated_weeks_bits: None,
        assignee: None,
        skills: Vec::new(),
        priority: None,
        depends_on: Vec::new(),
        blocks: Vec::new(),
        linked: Vec::new(),
        waypoints: Vec::new(),
        phase: None,
        updated: None,
        tags: Vec::new(),
    })
}

fn waypoint(id: &str, slug: &str, title: &str, criteria: &[&str]) -> Card {
    Card::Waypoint(WaypointCard {
        id: id.to_string(),
        title: title.to_string(),
        card_type: CardType::Waypoint,
        created: "2026-05-29".to_string(),
        slug: slug.to_string(),
        status: WaypointStatus::Active,
        criteria: strings(criteria),
        target_date: None,
        reached_date: None,
        description: None,
        assignee: None,
        skills: Vec::new(),
        priority: None,
        depends_on: Vec::new(),
        blocks: Vec::new(),
        linked: Vec::new(),
        phase: None,
        updated: None,
        tags: Vec::new(),
    })
}

fn entry(slug: &str, card: Card) -> (String, Card) {
    (slug.to_string(), card)
}

#[test]
fn sound_graph_has_no_problems() {
    let res = resolve(vec![
        entry("a", work("01a", "A", &["b"], &[], &[])),
        entry("b", work("01b", "B", &[], &["a"], &[])),
    ]);
    assert!(res.is_sound(), "problems: {:?}", res.problems);
    assert_eq!(res.by_slug.len(), 2);
}

#[test]
fn dangling_reference_is_reported() {
    let res = resolve(vec![entry("a", work("01a", "a", &["missing"], &[], &[]))]);
    assert_eq!(res.problems.len(), 1);
    assert!(matches!(
        &res.problems[0],
        LinkProblem::Dangling { to, field: RelationField::DependsOn, .. } if to == "missing"
    ));
}

#[test]
fn waypoint_in_criteria_is_rejected() {
    // Cards are listed before waypoints, as discovery orders them.
    let res = resolve(vec![
        entry("ph", phase("01ph", "Ph", 9, &["wp-x"])),
        entry("wp-x", waypoint("01wp", "wp-x", "WP", &[])),
    ]);
    assert_eq!(res.problems.len(), 1, "problems: {:?}", res.problems);
    assert!(matches!(
        &res.problems[0],
        LinkProblem::WaypointInCriteria { waypoint, .. } if waypoint == "wp-x"
    ));
}

#[test]
fn duplicate_slug_across_cards_and_waypoints_is_reported() {
    let res = resolve(vec![
        entry("dup", work("01c", "C", &[], &[], &[])),
        entry("dup", waypoint("01w", "dup", "W", &[])),
    ]);
    assert!(
        res.problems
            .iter()
            .any(|p| matches!(p, LinkProblem::DuplicateSlug { slug } if slug == "dup")),
        "problems: {:?}",
        res.problems
    );
}

#[test]
fn duplicate_keeps_the_later_card() {
    let res = resolve(vec![
        entry("dup", work("01c", "C", &[], &[], &[])),
        entry("dup", waypoint("01w", "dup", "W", &[])),
    ]);
    assert_eq!(res.by_slug.len(), 1);
    assert_eq!(res.by_slug[0].1.id(), "01w");
    assert_eq!(res.problems, vec![LinkProblem::DuplicateSlug { slug: "dup".to_string() }]);
}

#[test]
fn resolution_is_in_slug_order() {
    let res = resolve(vec![
        entry("c", work("01c", "C", &[], &[], &[])),
        entry("a", work("01a", "A", &[], &[], &[])),
        entry("b", work("01b", "B", &[], &[], &[])),
    ]);
    let slugs: Vec<&str> = res.by_slug.iter().map(|(s, _)| s.as_str()).collect();
    assert_eq!(slugs, ["a", "b", "c"]);
    assert!(res.is_sound());
}

#[test]
fn problems_follow_slug_then_field_order() {
    let by_slug = vec![
        entry("a", work("01a", "A", &["x"], &["y"], &["z"])),
        entry("b", phase("01b", "B", 1, &["w", "q"])),
        entry("q", waypoint("01q", "q", "Q", &[])),
    ];
    let problems = check(&by_slug);
    let text: Vec<String> = problems.iter().map(|p| p.message()).collect();
    assert_eq!(
        text,
        [
            "a: depends_on -> `x` does not resolve",
            "a: blocks -> `y` does not resolve",
            "a: linked -> `z` does not resolve",
            "b: criteria -> `w` does not resolve",
            "b: criteria references waypoint `q` (waypoints may not be criteria \u{2014} ADR-011)",
        ]
    );
}

#[test]
fn link_problem_messages() {
    let d = LinkProblem::DuplicateSlug { slug: "s".to_string() };
    assert_eq!(d.message(), "duplicate slug `s` (slugs must be project-unique)");
    let w = LinkProblem::WaypointInCriteria { owner: "o".to_string(), waypoint: "w".to_string() };
    assert_eq!(
        w.message(),
        "o: criteria references waypoint `w` (waypoints may not be criteria \u{2014} ADR-011)"
    );
    assert_eq!(RelationField::Linked.as_str(), "linked");
    assert_eq!(RelationField::Criteria.as_str(), "criteria");
}

#[test]
fn insert_sorted_reports_replacement() {
    let mut v: Vec<(String, Card)> = Vec::new();
    assert!(!insert_sorted(&mut v, "m".to_string(), work("1", "M", &[], &[], &[])));
    assert!(!insert_sorted(&mut v, "a".to_string(), work("2", "A", &[], &[], &[])));
    assert!(insert_sorted(&mut v, "m".to_string(), work("3", "M2", &[], &[], &[])));
    let slugs: Vec<&str> = v.iter().map(|(s, _)| s.as_str()).collect();
    assert_eq!(slugs, ["a", "m"]);
    assert_eq!(v[1].1.id(), "3");
}
