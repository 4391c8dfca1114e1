use berlin_core::init::{
    check_init_target, civil_from_days, config_text, date_of_clock, iso_date, new_config_text, project_name,
    scaffold_dirs, today_iso, why_text,
};
use berlin_core::validate::{validate, FileOutcome};
use berlin_core::Error;

#[test]
fn today_iso_is_well_formed() {
    let d = today_iso();
    assert_eq!(d.len(), 10);
    assert_eq!(d.matches('-').count(), 2);
}

#[test]
fn civil_from_days_known_dates() {
    assert_eq!(civil_from_days(0), (1970, 1, 1));
    assert_eq!(civil_from_days(31), (1970, 2, 1));
    assert_eq!(civil_from_days(59), (1970, 3, 1));
    assert_eq!(civil_from_days(365), (1971, 1, 1));
    assert_eq!(civil_from_days(10957), (2000, 1, 1));
    assert_eq!(civil_from_days(11016), (2000, 2, 29));
    assert_eq!(civil_from_days(11017), (2000, 3, 1));
    assert_eq!(civil_from_days(19506), (2023, 5, 29));
    assert_eq!(civil_from_days(20602), (2026, 5, 29));
    assert_eq!(civil_from_days(2932896), (9999, 12, 31));
    assert_eq!(civil_from_days(2932897), (10000, 1, 1));
}

#[test]
fn iso_date_of_seconds() {
    assert_eq!(iso_date(0), "1970-01-01");
    assert_eq!(iso_date(86_399), "1970-01-01");
    assert_eq!(iso_date(86_400), "1970-01-02");
    assert_eq!(iso_date(951_782_400), "2000-02-29");
    assert_eq!(iso_date(1_780_012_800), "2026-05-29");
    assert_eq!(iso_date(253_402_300_800), "10000-01-01");
}

#[test]
fn init_refuses_a_non_empty_target() {
    let err = check_init_target("/tmp/x", true, false, false).unwrap_err();
    assert!(matches!(err, Error::Init(_)));
    assert_eq!(err.message(), "init error: /tmp/x is not empty (refusing to clobber)");
}

#[test]
fn init_target_rules() {
    assert!(check_init_target("/tmp/new", false, false, true).is_ok());
    assert!(check_init_target("/tmp/empty", true, false, true).is_ok());
    match check_init_target("/tmp/f", true, true, true) {
        Err(Error::Init(m)) => assert_eq!(m, "/tmp/f is a file"),
        other => panic!("unexpected {other:?}"),
    }
}

#[test]
fn scaffold_texts() {
    assert_eq!(
        scaffold_dirs(),
        ["cards", "agents", "waypoints", "findings/spymaster", "findings/sentinel", ".fsberlin"]
    );
    assert_eq!(project_name(Some("my-project".to_string())), "my-project");
    assert_eq!(project_name(None), "project");
    assert_eq!(
        config_text("01HX", "my-project", "2026-05-29"),
        "project_id: 01HX\nname: my-project\ncreated: 2026-05-29\nschema_version: \"0.1\"\n"
    );
    assert_eq!(
        why_text("my-project"),
        "# Why my-project\n\n(Describe why this project exists, in plain language.)\n"
    );
}

#[test]
fn new_config_has_a_fresh_ulid_and_todays_date() {
    let t = new_config_text("demo");
    let rest = t.strip_prefix("project_id: ").unwrap();
    let (id, rest) = rest.split_at(26);
    assert!(id.chars().all(|c| "0123456789ABCDEFGHJKMNPQRSTVWXYZ".contains(c)), "{id}");
    let rest = rest.strip_prefix("\nname: demo\ncreated: ").unwrap();
    let (date, rest) = rest.split_at(10);
    assert_eq!(date.matches('-').count(), 2);
    assert_eq!(rest, "\nschema_version: \"0.1\"\n");
    assert_ne!(new_config_text("demo"), t);
}

#[test]
fn init_creates_a_project_that_validates() {
    let dirs = scaffold_dirs();
    assert!(dirs.contains(&"cards"));
    assert!(dirs.contains(&"findings/spymaster"));
    assert!(dirs.contains(&".fsberlin"));
    let name = project_name(Some("my-project".to_string()));
    let config = new_config_text(&name);
    let yaml: serde_yaml::Value = serde_yaml::from_str(&config).unwrap();
    assert_eq!(yaml["name"].as_str(), Some("my-project"));
    assert_eq!(yaml["schema_version"].as_str(), Some("0.1"));
    assert_eq!(yaml["project_id"].as_str().map(str::len), Some(26));
    assert!(why_text(&name).starts_with("# Why my-project"));
    let findings = validate(
        "my-project".to_string(),
        Some(FileOutcome { location: ".fsberlin/config.yaml".to_string(), error: None }),
        Vec::new(),
        Vec::new(),
    );
    assert!(findings.is_empty(), "a freshly initialized project must validate clean: {findings:?}");
}

#[test]
fn rerun_refuses_no_clobber() {
    assert!(check_init_target("/tmp/p", false, false, true).is_ok());
    // Second run sees a populated project and refuses.
    assert!(matches!(check_init_target("/tmp/p", true, false, false).unwrap_err(), Error::Init(_)));
}

#[test]
fn a_clock_before_the_epoch_is_dated_at_the_epoch() {
    assert_eq!(date_of_clock(None), "1970-01-01");
    assert_eq!(date_of_clock(Some(0)), "1970-01-01");
    assert_eq!(date_of_clock(Some(86_400)), "1970-01-02");
}
