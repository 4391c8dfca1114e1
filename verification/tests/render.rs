use berlin_core::render::{
    base_copies_file, base_descends_into, finish_report, is_invariant_floor, normalize_separators,
    overlay_action, projection, render_preflight, RenderReport,
};
use berlin_core::Error;

#[test]
fn renders_base_plus_overlay() {
    assert!(render_preflight("wp", true, false, false, "/out/rendered").is_ok());
    // Base: the root's why.md, cards/c/card.md and .fsberlin/config.yaml are
    // copied; waypoints/ is not entered at the root.
    assert!(base_descends_into(true, "cards"));
    assert!(base_descends_into(true, ".fsberlin"));
    assert!(!base_descends_into(true, "waypoints"));
    let base = ["why.md", "cards/c/card.md", ".fsberlin/config.yaml"];
    let copied = base.iter().filter(|r| base_copies_file(r)).count();
    // Overlay: the descriptor is skipped, the card shadows, extra.md is new.
    let mut overlaid = Vec::new();
    for rel in ["waypoint.md", "extra.md", "cards/c/card.md"] {
        if overlay_action(rel).unwrap() {
            overlaid.push(rel.to_string());
        }
    }
    let report = finish_report(copied, overlaid);
    assert_eq!(report.overlaid, ["cards/c/card.md", "extra.md"]);
    assert!(report.base_files >= 3);
}

#[test]
fn rejects_invariant_floor_overlay() {
    let err = overlay_action("why.md").unwrap_err();
    assert!(matches!(err, Error::Render(_)));
    assert!(err.message().contains("why.md"));
}

#[test]
fn unknown_waypoint_errors() {
    assert!(matches!(render_preflight("nope", false, false, false, "/out/r"), Err(Error::Render(_))));
}

#[test]
fn preflight_messages() {
    match render_preflight("nope", false, true, true, "/o") {
        Err(Error::Render(m)) => assert_eq!(m, "no waypoint `nope`"),
        other => panic!("unexpected {other:?}"),
    }
    match render_preflight("wp", true, true, true, "/o") {
        Err(Error::Render(m)) => assert_eq!(m, "output directory must be outside the project"),
        other => panic!("unexpected {other:?}"),
    }
    match render_preflight("wp", true, false, true, "/o") {
        Err(Error::Render(m)) => assert_eq!(m, "/o is not empty (refusing to clobber)"),
        other => panic!("unexpected {other:?}"),
    }
}

#[test]
fn invariant_floor_paths() {
    assert!(is_invariant_floor("why.md"));
    assert!(is_invariant_floor("schema"));
    assert!(is_invariant_floor("schema/card.schema.yaml"));
    assert!(!is_invariant_floor("cards/why.md"));
    assert!(!is_invariant_floor("schemas/x"));
    assert!(!is_invariant_floor("schem"));
    match overlay_action("schema/x.yaml") {
        Err(Error::Render(m)) => {
            assert_eq!(m, "overlay may not shadow invariant-floor file `schema/x.yaml`")
        }
        other => panic!("unexpected {other:?}"),
    }
    assert_eq!(overlay_action("waypoint.md").unwrap(), false);
    assert_eq!(overlay_action("cards/waypoint.md").unwrap(), true);
}

#[test]
fn base_walk_rules() {
    assert!(!base_descends_into(true, ".git"));
    assert!(!base_descends_into(false, "node_modules"));
    assert!(base_descends_into(false, "waypoints"));
    assert!(!base_copies_file(".fsberlin/index.sqlite"));
    assert!(base_copies_file(".fsberlin/config.yaml"));
    assert_eq!(normalize_separators("cards\\c\\card.md"), "cards/c/card.md");
    assert_eq!(normalize_separators("a/b"), "a/b");
}

#[test]
fn report_sorts_overlaid_paths() {
    let r = finish_report(5, vec!["b".to_string(), "a/z".to_string(), "a".to_string()]);
    assert_eq!(
        r,
        RenderReport { base_files: 5, overlaid: vec!["a".to_string(), "a/z".to_string(), "b".to_string()] }
    );
}

fn strings(v: &[&str]) -> Vec<String> {
    v.iter().map(|s| s.to_string()).collect()
}

#[test]
fn projection_writes_base_then_overlay() {
    let base = strings(&["why.md", "cards/c/card.md", ".fsberlin/index.sqlite", ".fsberlin/config.yaml"]);
    let overlay = strings(&["waypoint.md", "extra.md", "cards/c/card.md"]);
    let p = projection(base, overlay).unwrap();
    let files: Vec<(&str, bool)> = p.files.iter().map(|(r, o)| (r.as_str(), *o)).collect();
    assert_eq!(
        files,
        [
            ("why.md", false),
            ("cards/c/card.md", false),
            (".fsberlin/config.yaml", false),
            ("extra.md", true),
            ("cards/c/card.md", true),
        ]
    );
    assert_eq!(p.report.base_files, 3);
    assert_eq!(p.report.overlaid, ["cards/c/card.md", "extra.md"]);
}

#[test]
fn projection_refuses_an_invariant_floor_overlay() {
    match projection(strings(&["why.md"]), strings(&["extra.md", "schema/card.yaml", "why.md"])) {
        Err(Error::Render(m)) => {
            assert_eq!(m, "overlay may not shadow invariant-floor file `schema/card.yaml`")
        }
        other => panic!("unexpected {:?}", other.map(|p| p.report)),
    }
}
