use git_issue::model::{Config, IdGeneration, Meta, Priority, Relationship, Settings, User, Users};
use git_issue::query::get_column_value;
use git_issue::update::{apply_changes, new_issue, FieldChanges, SetError};

fn config() -> Config {
    Config {
        commit_auto: false,
        commit_message: "[issue] {action} #{id}: {title}".to_string(),
        list_columns: vec!["id".to_string(), "state".to_string(), "assignee".to_string(), "title".to_string()],
        states: vec!["new".to_string(), "active".to_string(), "closed".to_string(), "deleted".to_string()],
        types: vec!["bug".to_string(), "feature".to_string(), "task".to_string()],
        relationships: vec![("related".to_string(), Relationship { link: Some("related".to_string()) })],
        export_csv_separator: ';',
        id_generation: IdGeneration::Sequential,
        priority_default: Priority::Empty,
    }
}

fn users() -> Users {
    Users { users: vec![User { id: "alice".to_string() }, User { id: "bob".to_string() }] }
}

fn settings(user: &str) -> Settings {
    Settings { editor: "git".to_string(), user: user.to_string() }
}

fn none() -> FieldChanges {
    FieldChanges {
        title: None,
        state: None,
        type_: None,
        reporter: None,
        assignee: None,
        priority: None,
        due_date: None,
        labels: None,
        labels_add: None,
        labels_remove: None,
    }
}

const NOW: &str = "2026-01-10T08:00:00Z";

fn create(id: u32, title: &str, ch: &FieldChanges) -> Meta {
    new_issue(id, title, ch, &config(), &users(), &settings(""), NOW).expect("new failed")
}

fn set(m: Meta, ch: FieldChanges) -> Result<Meta, SetError> {
    apply_changes(m, &ch, &config(), &users(), &settings(""), NOW).map(|(m, _)| m)
}

fn set_as(m: Meta, ch: FieldChanges, user: &str) -> Result<Meta, SetError> {
    apply_changes(m, &ch, &config(), &users(), &settings(user), NOW).map(|(m, _)| m)
}

fn strings(v: &[&str]) -> Vec<String> {
    v.iter().map(|s| s.to_string()).collect()
}

fn labels_scenario() {
    let m = create(1, "Label test", &none());
    let m = set(m, FieldChanges { labels_add: Some(strings(&["cli", "critical"])), ..none() }).expect("set labels_add failed");
    assert_eq!(m.labels, vec!["cli", "critical"]);
    let m = set(m, FieldChanges { labels_add: Some(strings(&["ui"])), ..none() }).expect("set labels_add 2 failed");
    assert_eq!(m.labels, vec!["cli", "critical", "ui"]);
    let m = set(m, FieldChanges { labels_remove: Some(strings(&["critical"])), ..none() }).expect("set labels_remove failed");
    assert_eq!(m.labels, vec!["cli", "ui"]);
    let m = set(m, FieldChanges { labels: Some(strings(&["new-label"])), ..none() }).expect("set labels (overwrite) failed");
    assert_eq!(m.labels, vec!["new-label"]);
    let m = set(m, FieldChanges { labels: Some(strings(&[""])), ..none() }).expect("set labels clear failed");
    assert!(m.labels.is_empty());
}

#[test]
fn set_tests_test_set_labels() {
    labels_scenario();
}

#[test]
fn integration_test_test_set_labels() {
    labels_scenario();
}

#[test]
fn test_set_assignee() {
    let m = create(1, "Issue 1", &none());
    assert_eq!(get_column_value("assignee", &m), "-");
    let m = set(m, FieldChanges { assignee: Some("bob".to_string()), ..none() }).expect("set assignee failed");
    assert_eq!(get_column_value("assignee", &m), "bob");
    let r = set(create(1, "Issue 1", &FieldChanges { assignee: Some("bob".to_string()), ..none() }), FieldChanges {
        assignee: Some("duck".to_string()),
        ..none()
    });
    assert!(r.is_err(), "set assignee successful but should fail");
    let m = set(m, FieldChanges { assignee: Some(String::new()), ..none() }).expect("remove assignee failed");
    assert_eq!(get_column_value("assignee", &m), "-");
}

#[test]
fn test_set_reporter() {
    let m = create(1, "Issue 1", &none());
    assert_eq!(get_column_value("reporter", &m), "-");
    let m = set(m, FieldChanges { reporter: Some("bob".to_string()), ..none() }).expect("set reporter failed");
    assert_eq!(get_column_value("reporter", &m), "bob");
    let r = set(create(1, "Issue 1", &none()), FieldChanges { reporter: Some("duck".to_string()), ..none() });
    assert!(r.is_err(), "set reporter successful but should fail");
    let m = set(m, FieldChanges { reporter: Some(String::new()), ..none() }).expect("remove reporter failed");
    assert_eq!(get_column_value("reporter", &m), "-");
}

#[test]
fn test_set_state() {
    let m = create(1, "Issue 1", &none());
    assert_eq!(get_column_value("state", &m), "new");
    let m = set(m, FieldChanges { state: Some("active".to_string()), ..none() }).expect("set state failed");
    assert_eq!(get_column_value("state", &m), "active");
    let r = set(create(1, "Issue 1", &none()), FieldChanges { state: Some("perfect".to_string()), ..none() });
    assert!(r.is_err(), "set state successful but should fail");
    let r = set(create(1, "Issue 1", &none()), FieldChanges { state: Some(String::new()), ..none() });
    assert!(r.is_err(), "remove state successful but should fail");
    assert_eq!(get_column_value("state", &m), "active");
}

#[test]
fn test_set_type() {
    let m = create(1, "Issue 1", &none());
    assert_eq!(get_column_value("type", &m), "-");
    let m = set(m, FieldChanges { type_: Some("feature".to_string()), ..none() }).expect("set type failed");
    assert_eq!(get_column_value("type", &m), "feature");
    let r = set(create(1, "Issue 1", &none()), FieldChanges { type_: Some("experiment".to_string()), ..none() });
    assert!(r.is_err(), "set type successful but should fail");
    let m = set(m, FieldChanges { type_: Some(String::new()), ..none() }).expect("remove type failed");
    assert_eq!(get_column_value("type", &m), "-");
}

#[test]
fn test_set_priority() {
    let m = create(1, "Issue 1", &none());
    assert_eq!(get_column_value("priority", &m), "-");
    let m = set(m, FieldChanges { priority: Some(Priority::from_str("P1").unwrap()), ..none() }).expect("set priority failed");
    assert_eq!(get_column_value("priority", &m), "P1");
    let m = set(m, FieldChanges { priority: Some(Priority::from_str("p0").unwrap()), ..none() }).expect("set priority failed");
    assert_eq!(get_column_value("priority", &m), "P0");
    assert!(Priority::from_str("P5").is_err(), "set priority successful but should fail");
    assert!(Priority::from_str("3").is_err(), "set priority successful but should fail");
    let m = set(m, FieldChanges { priority: Some(Priority::from_str("").unwrap()), ..none() }).expect("remove priority failed");
    assert_eq!(get_column_value("priority", &m), "-");
}

#[test]
fn test_set_due_date() {
    let m = create(1, "Issue 1", &none());
    assert_eq!(get_column_value("due_date", &m), "-");
    let m = set(m, FieldChanges { due_date: Some("2026-01-15".to_string()), ..none() }).expect("set due_date failed");
    assert_eq!(get_column_value("due_date", &m), "2026-01-15");
    for bad in ["not-a-date", "15.01.2026", "2026-02-30"] {
        let r = set(create(1, "Issue 1", &none()), FieldChanges { due_date: Some(bad.to_string()), ..none() });
        assert!(r.is_err(), "set due_date successful but should fail");
    }
    let m = set(m, FieldChanges { due_date: Some(String::new()), ..none() }).expect("remove due_date failed");
    assert_eq!(get_column_value("due_date", &m), "-");
}

#[test]
fn test_set_me() {
    let m = create(1, "Issue 1", &FieldChanges { reporter: Some("alice".to_string()), assignee: Some("alice".to_string()), ..none() });
    let me = || FieldChanges { reporter: Some("me".to_string()), assignee: Some("me".to_string()), ..none() };
    let m = set(m, me()).expect("set reporter/assignee failed");
    assert_eq!(get_column_value("reporter", &m), "-");
    assert_eq!(get_column_value("assignee", &m), "-");
    let m = set_as(m, me(), "bob").expect("set reporter/assignee failed");
    assert_eq!(get_column_value("reporter", &m), "bob");
    assert_eq!(get_column_value("assignee", &m), "bob");
}

#[test]
fn test_set_bulk() {
    let issues: Vec<Meta> = (1..=4)
        .map(|i| create(i, &format!("Issue {i}"), &FieldChanges { assignee: Some("alice".to_string()), ..none() }))
        .collect();
    let mut updated = Vec::new();
    for m in issues {
        let ch = if m.id <= 3 { FieldChanges { state: Some("active".to_string()), ..none() } } else { none() };
        updated.push(set(m, ch).expect("bulk set state failed"));
    }
    for m in &updated[..3] {
        assert_eq!(m.state, "active");
    }
    assert_eq!(updated[3].state, "new");
    let r = set(updated.remove(0), FieldChanges { state: Some("perfect".to_string()), ..none() });
    assert!(r.is_err(), "bulk set state successful but should fail");
    for m in updated {
        let m = set(m, FieldChanges { assignee: Some("bob".to_string()), ..none() }).expect("bulk set assignee failed");
        assert_eq!(m.assignee, "bob");
    }
}
