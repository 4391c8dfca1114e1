use std::path::{Path, PathBuf};

use berlin_core::walk::{discover, is_opaque, yaml_stem_of, Layout, ListedFile, ListedFolder};

/// A listed directory entry `dir/name` whose descriptor `file` exists.
fn folder(dir: &Path, name: &str, file: &str) -> ListedFolder {
    ListedFolder {
        name: name.to_string(),
        is_dir: true,
        candidate: dir.join(name).join(file),
        candidate_is_file: true,
    }
}

/// A listed directory entry without its descriptor file.
fn empty_folder(dir: &Path, name: &str, file: &str) -> ListedFolder {
    ListedFolder {
        name: name.to_string(),
        is_dir: true,
        candidate: dir.join(name).join(file),
        candidate_is_file: false,
    }
}

/// A listed plain file `dir/name` (not a directory).
fn plain_file(dir: &Path, name: &str, file: &str) -> ListedFolder {
    ListedFolder {
        name: name.to_string(),
        is_dir: false,
        candidate: dir.join(name).join(file),
        candidate_is_file: false,
    }
}

fn listed(dir: &Path, name: &str) -> ListedFile {
    ListedFile { name: name.to_string(), path: dir.join(name), is_file: true }
}

fn assert_no_opaque_paths(layout: &Layout) {
    let discovered = layout
        .cards
        .iter()
        .map(|c| c.path.clone())
        .chain(layout.agents.iter().map(|a| a.path.clone()))
        .chain(layout.waypoints.iter().map(|w| w.path.clone()));
    for p in discovered {
        let s = p.to_string_lossy();
        assert!(!s.contains("/.beads/") && !s.contains("/.git/"), "leaked an opaque path: {s}");
    }
}

#[test]
fn is_opaque_knows_tool_dirs() {
    assert!(is_opaque(".beads"));
    assert!(is_opaque(".git"));
    assert!(!is_opaque("cards"));
}

#[test]
fn is_opaque_covers_every_default() {
    for name in [".git", ".beads", ".github", "node_modules", "target", "__pycache__", ".idea", ".vscode"] {
        assert!(is_opaque(name), "{name}");
    }
    for name in ["", ".gi", "git", ".git/", "Target", "findings", "agents"] {
        assert!(!is_opaque(name), "{name}");
    }
}

#[test]
fn discover_finds_substrate_and_skips_opaque() {
    let root = PathBuf::from("/proj");
    let cards_dir = root.join("cards");
    let cards = vec![folder(&cards_dir, "real-card", "card.md"), folder(&cards_dir, ".beads", "card.md")];
    let wp_dir = root.join("waypoints");
    let waypoints = vec![folder(&wp_dir, "wp-1", "waypoint.md")];
    let agents_dir = root.join("agents");
    let agents = vec![listed(&agents_dir, "lari.yaml")];
    let config = Some(root.join(".fsberlin").join("config.yaml"));

    let layout = discover(root.clone(), cards, waypoints, agents, config, None);

    assert_eq!(layout.cards.len(), 1);
    assert_eq!(layout.cards[0].slug, "real-card");
    assert_eq!(layout.waypoints.len(), 1);
    assert_eq!(layout.agents.len(), 1);
    assert_eq!(layout.agents[0].id, "lari");
    assert!(layout.config.is_some());
    assert_no_opaque_paths(&layout);
}

#[test]
fn discover_missing_dirs_is_empty_not_error() {
    let layout = discover(PathBuf::from("/empty"), Vec::new(), Vec::new(), Vec::new(), None, None);
    assert!(layout.cards.is_empty());
    assert!(layout.agents.is_empty());
    assert!(layout.config.is_none());
}

#[test]
fn discovers_example_project() {
    let root = PathBuf::from("/repo/examples/sample-project");
    let cards_dir = root.join("cards");
    let cards = vec![
        folder(&cards_dir, "card-brew-the-mash", "card.md"),
        folder(&cards_dir, "card-buy-the-grain", "card.md"),
    ];
    let wp_dir = root.join("waypoints");
    let waypoints = vec![folder(&wp_dir, "waypoint-1-brew-day", "waypoint.md")];
    let agents_dir = root.join("agents");
    let agents = vec![listed(&agents_dir, "brewer.yaml")];
    let config = Some(root.join(".fsberlin").join("config.yaml"));
    let layout = discover(root.clone(), cards, waypoints, agents, config, Some(root.join("findings")));
    assert_eq!(layout.cards.len(), 2, "example has two cards");
    assert_eq!(layout.agents.len(), 1, "example has one agent");
    assert!(layout.config.is_some(), "example has a config");
}

#[test]
fn discovers_dogfooding_project_and_skips_opaque() {
    let root = PathBuf::from("/repo/berlin-development");
    let cards_dir = root.join("cards");
    let mut cards: Vec<ListedFolder> = (0..24)
        .map(|i| folder(&cards_dir, &format!("p1-card-{i:02}"), "card.md"))
        .collect();
    cards.push(folder(&cards_dir, ".beads", "card.md"));
    cards.push(folder(&cards_dir, ".git", "card.md"));
    cards.push(empty_folder(&cards_dir, "drafts", "card.md"));
    cards.push(plain_file(&cards_dir, "README.md", "card.md"));
    let wp_dir = root.join("waypoints");
    let waypoints = vec![
        folder(&wp_dir, "phase-0-spec-and-schema", "waypoint.md"),
        folder(&wp_dir, "phase-1-core", "waypoint.md"),
        folder(&wp_dir, "phase-2-mcp", "waypoint.md"),
        folder(&wp_dir, ".git", "waypoint.md"),
    ];
    let agents_dir = root.join("agents");
    let agents = vec![
        listed(&agents_dir, "lari.yaml"),
        listed(&agents_dir, "sentinel.yaml"),
        listed(&agents_dir, "notes.md"),
        listed(&agents_dir, "old.yaml.bak"),
    ];
    let config = Some(root.join(".fsberlin").join("config.yaml"));
    let layout = discover(root.clone(), cards, waypoints, agents, config, None);
    assert!(layout.cards.len() >= 20, "dogfooding has the full card set");
    assert_eq!(layout.waypoints.len(), 3, "three dogfooding waypoints");
    assert_eq!(layout.agents.len(), 2, "lari + sentinel");
    assert!(layout.config.is_some());
    for c in &layout.cards {
        let s = c.path.to_string_lossy();
        assert!(!s.contains("/.beads/") && !s.contains("/.git/"), "leaked an opaque path: {s}");
    }
}

#[test]
fn discover_sorts_by_slug_and_keeps_paths() {
    let root = PathBuf::from("/p");
    let cards_dir = root.join("cards");
    let cards = vec![
        folder(&cards_dir, "zeta", "card.md"),
        folder(&cards_dir, "alpha", "card.md"),
        folder(&cards_dir, "mid", "card.md"),
    ];
    let agents_dir = root.join("agents");
    let agents = vec![listed(&agents_dir, "b.yaml"), listed(&agents_dir, "a.yaml")];
    let layout = discover(root.clone(), cards, Vec::new(), agents, None, Some(root.join("findings")));
    let slugs: Vec<&str> = layout.cards.iter().map(|c| c.slug.as_str()).collect();
    assert_eq!(slugs, ["alpha", "mid", "zeta"]);
    assert_eq!(layout.cards[0].path, PathBuf::from("/p/cards/alpha/card.md"));
    let ids: Vec<&str> = layout.agents.iter().map(|a| a.id.as_str()).collect();
    assert_eq!(ids, ["a", "b"]);
    assert_eq!(layout.agents[0].path, PathBuf::from("/p/agents/a.yaml"));
    assert_eq!(layout.root, root);
    assert_eq!(layout.findings_dir, Some(PathBuf::from("/p/findings")));
}

#[test]
fn yaml_stem_takes_only_a_yaml_extension() {
    assert_eq!(yaml_stem_of("lari.yaml"), Some("lari".to_string()));
    assert_eq!(yaml_stem_of("a.b.yaml"), Some("a.b".to_string()));
    assert_eq!(yaml_stem_of("notes.yml"), None);
    assert_eq!(yaml_stem_of("yaml"), None);
    assert_eq!(yaml_stem_of(".yaml"), None);
    assert_eq!(yaml_stem_of("x.yaml.bak"), None);
    assert_eq!(yaml_stem_of("x.YAML"), None);
}

#[test]
fn layout_clones_equal() {
    let root = PathBuf::from("/p");
    let cards = vec![folder(&root.join("cards"), "a", "card.md")];
    let layout = discover(root.clone(), cards, Vec::new(), Vec::new(), None, None);
    let copy = layout.clone();
    assert_eq!(copy, layout);
    assert_eq!(copy.cards[0].path, PathBuf::from("/p/cards/a/card.md"));
}

#[test]
fn agents_are_yaml_files_only() {
    let root = PathBuf::from("/p");
    let dir = root.join("agents");
    let agents = vec![
        listed(&dir, "b.yaml"),
        listed(&dir, "a.yaml"),
        listed(&dir, "c.yml"),
        listed(&dir, "d.yaml.bak"),
        ListedFile { name: "e.yaml".to_string(), path: dir.join("e.yaml"), is_file: false },
    ];
    let layout = discover(root.clone(), Vec::new(), Vec::new(), agents, None, None);
    let got: Vec<(&str, PathBuf)> =
        layout.agents.iter().map(|a| (a.id.as_str(), a.path.clone())).collect();
    assert_eq!(got, [("a", dir.join("a.yaml")), ("b", dir.join("b.yaml"))]);
}
