use git_issue::model::{Config, IdGeneration, Meta, Priority, Relationship, Settings, User, Users};
use git_issue::update::{apply_changes, count_updated, new_issue, next_id, FieldChanges, NewError, SetError};
use indexmap::IndexMap;

fn config() -> Config {
    Config {
        commit_auto: false,
        commit_message: String::new(),
        list_columns: vec!["id".to_string()],
        states: vec!["new".to_string(), "active".to_string(), "closed".to_string()],
        types: vec!["feature".to_string(), "bug".to_string()],
        relationships: vec![("related".to_string(), Relationship { link: Some("related".to_string()) })],
        export_csv_separator: ';',
        id_generation: IdGeneration::Sequential,
        priority_default: Priority::Empty,
    }
}

fn users() -> Users {
    Users { users: vec![User { id: "alice".to_string() }, User { id: "bob".to_string() }] }
}

fn settings(user: &str) -> Settings {
    Settings { editor: "vi".to_string(), user: user.to_string() }
}

fn none() -> FieldChanges {
    FieldChanges {
        title: None,
        state: None,
        type_: None,
        reporter: None,
        assignee: None,
        priority: None,
        due_date: None,
        labels: None,
        labels_add: None,
        labels_remove: None,
    }
}

fn issue() -> Meta {
    Meta {
        id: 1,
        title: "Label test".to_string(),
        state: "new".to_string(),
        type_: String::new(),
        labels: vec![],
        reporter: String::new(),
        assignee: String::new(),
        priority: Priority::P2,
        due_date: String::new(),
        relationships: IndexMap::new(),
        created: "2026-01-01T00:00:00Z".to_string(),
        updated: "2026-01-01T00:00:00Z".to_string(),
    }
}

const NOW: &str = "2026-03-01T12:00:00Z";

fn apply(m: Meta, ch: &FieldChanges) -> Result<(Meta, Vec<String>), SetError> {
    apply_changes(m, ch, &config(), &users(), &settings("bob"), NOW)
}

#[test]
fn set_labels_add_remove_and_overwrite() {
    let ch = FieldChanges { labels_add: Some(vec!["cli".to_string(), "critical".to_string()]), ..none() };
    let (m, fields) = apply(issue(), &ch).unwrap();
    assert_eq!(m.labels, vec!["cli", "critical"]);
    assert_eq!(fields, vec!["labels"]);
    assert_eq!(m.updated, NOW);

    let (m2, fields) = apply(m, &ch).unwrap();
    assert!(fields.is_empty());
    assert_eq!(m2.updated, NOW);

    let ch = FieldChanges { labels_remove: Some(vec!["cli".to_string()]), ..none() };
    let (m3, _) = apply(m2, &ch).unwrap();
    assert_eq!(m3.labels, vec!["critical"]);

    let ch = FieldChanges { labels: Some(vec!["new-label".to_string(), String::new()]), ..none() };
    let (m4, _) = apply(m3, &ch).unwrap();
    assert_eq!(m4.labels, vec!["new-label"]);

    let ch = FieldChanges { labels: Some(vec![]), ..none() };
    let (m5, fields) = apply(m4, &ch).unwrap();
    assert!(m5.labels.is_empty());
    assert_eq!(fields, vec!["labels"]);
}

#[test]
fn set_fields_in_order_with_checks() {
    let ch = FieldChanges {
        title: Some("Renamed".to_string()),
        state: Some("active".to_string()),
        type_: Some("bug".to_string()),
        assignee: Some("me".to_string()),
        priority: Some(Priority::P0),
        due_date: Some("2026-01-15".to_string()),
        ..none()
    };
    let (m, fields) = apply(issue(), &ch).unwrap();
    assert_eq!(fields, vec!["title", "state", "type", "assignee", "priority", "due_date"]);
    assert_eq!(m.assignee, "bob");
    assert_eq!(m.priority, Priority::P0);

    let bad = FieldChanges { state: Some("perfect".to_string()), ..none() };
    assert!(matches!(apply(issue(), &bad), Err(SetError::InvalidState(ref s)) if s == "perfect"));
    let bad = FieldChanges { type_: Some("experiment".to_string()), ..none() };
    assert!(matches!(apply(issue(), &bad), Err(SetError::InvalidType(_))));
    let bad = FieldChanges { reporter: Some("duck".to_string()), ..none() };
    assert!(matches!(apply(issue(), &bad), Err(SetError::InvalidReporter(_))));
    let bad = FieldChanges { assignee: Some("duck".to_string()), ..none() };
    assert!(matches!(apply(issue(), &bad), Err(SetError::InvalidAssignee(_))));
    for d in ["not-a-date", "15.01.2026", "2026-02-30"] {
        let bad = FieldChanges { due_date: Some(d.to_string()), ..none() };
        assert!(matches!(apply(issue(), &bad), Err(SetError::InvalidDueDate)), "{d}");
    }
    let me = FieldChanges { assignee: Some("me".to_string()), ..none() };
    let r = apply_changes(issue(), &me, &config(), &users(), &settings("duck"), NOW);
    assert!(matches!(r, Err(SetError::UnresolvedMe)));
}

#[test]
fn set_unchanged_value_is_not_checked() {
    let mut m = issue();
    m.state = "legacy".to_string();
    let ch = FieldChanges { state: Some("legacy".to_string()), ..none() };
    let (m, fields) = apply(m, &ch).unwrap();
    assert!(fields.is_empty());
    assert_eq!(m.updated, "2026-01-01T00:00:00Z");
}

#[test]
fn new_issue_starts_in_first_state() {
    let ch = FieldChanges {
        type_: Some("feature".to_string()),
        reporter: Some("me".to_string()),
        priority: Some(Priority::P1),
        labels: Some(vec!["frontend".to_string(), "ui".to_string()]),
        ..none()
    };
    let m = new_issue(7, "Complex issue", &ch, &config(), &users(), &settings("bob"), NOW).unwrap();
    assert_eq!(m.id, 7);
    assert_eq!(m.state, "new");
    assert_eq!(m.reporter, "bob");
    assert_eq!(m.labels, vec!["frontend", "ui"]);
    assert_eq!(m.created, NOW);
    assert_eq!(m.updated, NOW);

    let mut cfg = config();
    cfg.states.clear();
    assert!(matches!(new_issue(1, "x", &none(), &cfg, &users(), &settings(""), NOW), Err(NewError::NoStates)));
    let bad = FieldChanges { due_date: Some("2026-02-30".to_string()), ..none() };
    assert!(matches!(
        new_issue(1, "x", &bad, &config(), &users(), &settings(""), NOW),
        Err(NewError::Invalid(SetError::InvalidDueDate))
    ));
}

#[test]
fn next_id_follows_the_largest() {
    assert_eq!(next_id(&vec![]), Some(1));
    assert_eq!(next_id(&vec![3, 1, 2]), Some(4));
    assert_eq!(next_id(&vec![u32::MAX]), None);
}

#[test]
fn count_updated_records() {
    assert_eq!(count_updated(&vec![]), None);
    assert_eq!(count_updated(&vec![0, 0]), None);
    assert_eq!(count_updated(&vec![2, 0, 1]), Some(2));
}

#[test]
fn config_well_formedness() {
    let mut cfg = config();
    assert!(cfg.is_well_formed());
    cfg.relationships.push(("related".to_string(), Relationship { link: None }));
    assert!(!cfg.is_well_formed());
}
