use berlin_core::watch::{
    event_is_relevant, rebuild_outcome, watch_step, RebuildOutcome, WatchAction, WatchInput,
    WatchPhase,
};
use berlin_core::Error;

fn path(parts: &[&str]) -> Vec<String> {
    parts.iter().map(|s| s.to_string()).collect()
}

#[test]
fn tolerant_skips_broken_parse_and_keeps_prior_index() {
    assert_eq!(rebuild_outcome(Ok(2)), RebuildOutcome::Updated(2));
    match rebuild_outcome(Err(Error::Yaml("did not find expected node content".to_string()))) {
        RebuildOutcome::Skipped(m) => assert_eq!(m, "yaml error: did not find expected node content"),
        other => panic!("expected Skipped, got {other:?}"),
    }
    assert_eq!(rebuild_outcome(Ok(2)), RebuildOutcome::Updated(2));
}

#[test]
fn skipped_outcome_carries_the_error_message() {
    assert_eq!(
        rebuild_outcome(Err(Error::MissingFrontmatter)),
        RebuildOutcome::Skipped("no frontmatter block found".to_string())
    );
    assert_eq!(
        rebuild_outcome(Err(Error::Io("gone".to_string()))),
        RebuildOutcome::Skipped("i/o error: gone".to_string())
    );
}

#[test]
fn events_inside_opaque_dirs_are_ignored() {
    let git = path(&["/", "proj", ".git", "index"]);
    let beads = path(&["/", "proj", ".beads", "db"]);
    let card = path(&["/", "proj", "cards", "a", "card.md"]);
    assert!(!event_is_relevant(false, &vec![git.clone()]));
    assert!(!event_is_relevant(false, &vec![git.clone(), beads.clone()]));
    assert!(event_is_relevant(false, &vec![git, card.clone()]));
    assert!(event_is_relevant(false, &vec![card]));
    assert!(!event_is_relevant(false, &Vec::new()));
}

#[test]
fn watcher_errors_are_relevant() {
    assert!(event_is_relevant(true, &Vec::new()));
    assert!(event_is_relevant(true, &vec![path(&["proj", "target", "x"])]));
}

#[test]
fn watch_loop_transitions() {
    let relevant = WatchInput::Event { relevant: true };
    let irrelevant = WatchInput::Event { relevant: false };
    assert_eq!(watch_step(WatchPhase::Idle, irrelevant), (WatchPhase::Idle, WatchAction::Poll));
    assert_eq!(watch_step(WatchPhase::Idle, WatchInput::TimedOut), (WatchPhase::Idle, WatchAction::Poll));
    assert_eq!(watch_step(WatchPhase::Idle, relevant), (WatchPhase::Settling, WatchAction::Drain));
    assert_eq!(watch_step(WatchPhase::Settling, irrelevant), (WatchPhase::Settling, WatchAction::Drain));
    assert_eq!(watch_step(WatchPhase::Settling, WatchInput::TimedOut), (WatchPhase::Idle, WatchAction::Rebuild));
    assert_eq!(watch_step(WatchPhase::Settling, WatchInput::Disconnected), (WatchPhase::Idle, WatchAction::Rebuild));
    assert_eq!(watch_step(WatchPhase::Idle, WatchInput::Disconnected), (WatchPhase::Idle, WatchAction::Exit));
    assert_eq!(watch_step(WatchPhase::Idle, WatchInput::StopRequested), (WatchPhase::Idle, WatchAction::Exit));
    assert_eq!(watch_step(WatchPhase::Settling, WatchInput::StopRequested), (WatchPhase::Idle, WatchAction::Rebuild));
}
