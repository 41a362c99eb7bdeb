use git_issue::model::{Config, IdGeneration, Meta, Priority, Relationship, Settings, User, Users};
use git_issue::update::{new_issue, FieldChanges, NewError, SetError};

fn config() -> Config {
    Config {
        commit_auto: false,
        commit_message: "[issue] {action} #{id}: {title}".to_string(),
        list_columns: vec!["id".to_string(), "state".to_string(), "assignee".to_string(), "title".to_string()],
        states: vec!["new".to_string(), "active".to_string(), "closed".to_string(), "deleted".to_string()],
        types: vec!["bug".to_string(), "feature".to_string(), "task".to_string()],
        relationships: vec![("related".to_string(), Relationship { link: Some("related".to_string()) })],
        export_csv_separator: ';',
        id_generation: IdGeneration::Sequential,
        priority_default: Priority::Empty,
    }
}

fn users() -> Users {
    Users { users: vec![User { id: "alice".to_string() }, User { id: "bob".to_string() }] }
}

fn settings(user: &str) -> Settings {
    Settings { editor: "git".to_string(), user: user.to_string() }
}

fn none() -> FieldChanges {
    FieldChanges {
        title: None,
        state: None,
        type_: None,
        reporter: None,
        assignee: None,
        priority: None,
        due_date: None,
        labels: None,
        labels_add: None,
        labels_remove: None,
    }
}

const NOW: &str = "2026-01-10T08:00:00Z";

fn create(title: &str, ch: &FieldChanges) -> Result<Meta, NewError> {
    new_issue(1, title, ch, &config(), &users(), &settings(""), NOW)
}

fn assert_plain(m: &Meta, title: &str) {
    assert_eq!(m.id, 1);
    assert_eq!(m.title, title);
    assert_eq!(m.type_, "");
    assert_eq!(m.assignee, "");
    assert_eq!(m.due_date, "");
    assert!(m.labels.is_empty());
}

fn full() -> FieldChanges {
    FieldChanges {
        type_: Some("feature".to_string()),
        assignee: Some("alice".to_string()),
        reporter: Some("bob".to_string()),
        priority: Some(Priority::P0),
        due_date: Some("2026-01-15".to_string()),
        labels: Some(vec!["frontend".to_string(), "ui".to_string()]),
        ..none()
    }
}

#[test]
fn test_new_simple() {
    let m = create("Simple issue", &none()).expect("new failed");
    assert_plain(&m, "Simple issue");
    assert_eq!(m.reporter, "");
    assert_eq!(m.priority.tag(), "");
    assert_eq!(m.state, "new");
}

#[test]
fn test_new_initial_metadata() {
    let m = create("Complex issue", &full()).expect("new with metadata failed");
    assert_eq!(m.id, 1);
    assert_eq!(m.title, "Complex issue");
    assert_eq!(m.type_, "feature");
    assert_eq!(m.assignee, "alice");
    assert_eq!(m.reporter, "bob");
    assert_eq!(m.priority.tag(), "P0");
    assert_eq!(m.due_date, "2026-01-15");
    assert_eq!(m.labels, vec!["frontend", "ui"]);
    assert_eq!(m.state, "new");
}

#[test]
fn test_new_with_initial_metadata() {
    let m = create("Complex issue", &full()).expect("new with metadata failed");
    assert_eq!(m.type_, "feature");
    assert_eq!(m.assignee, "alice");
    assert_eq!(m.priority, Priority::P0);
    assert_eq!(m.due_date, "2026-01-15");
    assert_eq!(m.labels, vec!["frontend", "ui"]);
    assert_eq!(m.state, "new");
}

#[test]
fn test_new_empty_metadata() {
    let ch = FieldChanges {
        type_: Some(String::new()),
        assignee: Some(String::new()),
        reporter: Some(String::new()),
        priority: Some(Priority::Empty),
        due_date: Some(String::new()),
        labels: Some(vec![String::new()]),
        ..none()
    };
    let m = create("Another issue", &ch).expect("new with metadata failed");
    assert_plain(&m, "Another issue");
    assert_eq!(m.reporter, "");
    assert_eq!(m.priority.tag(), "");
    assert_eq!(m.state, "new");
}

#[test]
fn test_new_changed_default_reporter() {
    let m = new_issue(1, "Bob's issue", &none(), &config(), &users(), &settings("bob"), NOW).expect("new failed");
    assert_plain(&m, "Bob's issue");
    assert_eq!(m.reporter, "bob");
    assert_eq!(m.priority.tag(), "");
    assert_eq!(m.state, "new");
}

#[test]
fn test_new_changed_default_state() {
    let mut cfg = config();
    cfg.states = vec!["open".to_string(), "active".to_string(), "closed".to_string(), "deleted".to_string()];
    let m = new_issue(1, "Just an issue", &none(), &cfg, &users(), &settings(""), NOW).expect("new failed");
    assert_plain(&m, "Just an issue");
    assert_eq!(m.reporter, "");
    assert_eq!(m.priority.tag(), "");
    assert_eq!(m.state, "open");
}

#[test]
fn test_new_changed_default_priority() {
    let mut cfg = config();
    cfg.priority_default = Priority::from_str("P2").unwrap();
    let m = new_issue(1, "Just an issue", &none(), &cfg, &users(), &settings(""), NOW).expect("new failed");
    assert_plain(&m, "Just an issue");
    assert_eq!(m.reporter, "");
    assert_eq!(m.priority.tag(), "P2");
    assert_eq!(m.state, "new");
}

#[test]
fn test_new_invalid_metadata() {
    let bad = FieldChanges { state: Some("unknown".to_string()), ..none() };
    assert!(create("Title", &bad).is_err(), "new with invalid state successful but should fail");
    let bad = FieldChanges { type_: Some("unknown".to_string()), ..none() };
    assert!(create("Title", &bad).is_err(), "new with invalid type successful but should fail");
    assert!(Priority::from_str("P5").is_err(), "new with invalid priority successful but should fail");
    let bad = FieldChanges { reporter: Some("unknown_user".to_string()), ..none() };
    assert!(create("Title", &bad).is_err(), "new with invalid reporter successful but should fail");
    let bad = FieldChanges { assignee: Some("unknown_user".to_string()), ..none() };
    assert!(create("Title", &bad).is_err(), "new with invalid assignee successful but should fail");
    let bad = FieldChanges { due_date: Some("2026-02-30".to_string()), ..none() };
    assert!(
        matches!(create("Title", &bad), Err(NewError::Invalid(SetError::InvalidDueDate))),
        "new with invalid due_date successful but should fail"
    );
}

#[test]
fn test_invalid_due_date() {
    let bad = FieldChanges { due_date: Some("not-a-date".to_string()), ..none() };
    let e = create("Bad date", &bad).unwrap_err();
    match e {
        NewError::Invalid(e) => assert!(e.message().contains("Invalid due_date format")),
        NewError::NoStates => panic!("unexpected error"),
    }
    assert!(create("Valid issue", &none()).is_ok());
}

#[test]
fn test_new_me() {
    let me = FieldChanges { reporter: Some("me".to_string()), assignee: Some("me".to_string()), ..none() };
    let m = create("Issue 1", &me).expect("new 1 failed");
    assert_eq!(m.reporter, "");
    assert_eq!(m.assignee, "");
    let m = new_issue(2, "Issue 2", &me, &config(), &users(), &settings("bob"), NOW).expect("new 1 failed");
    assert_eq!(m.reporter, "bob");
    assert_eq!(m.assignee, "bob");
}
