use git_issue::fields::{FieldContext, QueryError, ValueKind};
use git_issue::list;
use git_issue::model::{
    Config, Filter, IdGeneration, Meta, Priority, Relationship, Settings, Sorting, User, Users,
};
use git_issue::query::ListResult;
use git_issue::render::{calculate_column_widths, to_csv_field};
use indexmap::IndexMap;

fn config() -> Config {
    Config {
        commit_auto: false,
        commit_message: "[issue] {action} #{id}: {title}".to_string(),
        list_columns: vec!["id".to_string(), "state".to_string(), "assignee".to_string(), "title".to_string()],
        states: vec!["new".to_string(), "active".to_string(), "closed".to_string()],
        types: vec!["feature".to_string(), "bug".to_string()],
        relationships: vec![
            ("related".to_string(), Relationship { link: Some("related".to_string()) }),
            ("parent".to_string(), Relationship { link: Some("child".to_string()) }),
            ("child".to_string(), Relationship { link: Some("parent".to_string()) }),
        ],
        export_csv_separator: ';',
        id_generation: IdGeneration::Sequential,
        priority_default: Priority::Empty,
    }
}

fn settings() -> Settings {
    Settings { editor: "vi".to_string(), user: "alice".to_string() }
}

fn users() -> Users {
    Users {
        users: vec![
            User { id: "alice".to_string() },
            User { id: "bob".to_string() },
            User { id: "carol".to_string() },
        ],
    }
}

#[allow(clippy::too_many_arguments)]
fn issue(
    id: u32,
    type_: &str,
    assignee: &str,
    reporter: &str,
    labels: &[&str],
    priority: Priority,
    due_date: &str,
) -> Meta {
    Meta {
        id,
        title: format!("Issue {id}"),
        state: "new".to_string(),
        type_: type_.to_string(),
        labels: labels.iter().map(|l| l.to_string()).collect(),
        reporter: reporter.to_string(),
        assignee: assignee.to_string(),
        priority,
        due_date: due_date.to_string(),
        relationships: IndexMap::new(),
        created: format!("2026-01-0{id}T08:00:00Z"),
        updated: format!("2026-01-0{id}T09:00:00Z"),
    }
}

/// The three issues of the filter and sort scenarios.
fn three() -> Vec<Meta> {
    vec![
        issue(1, "feature", "alice", "bob", &["ui", "cli"], Priority::P1, "2026-01-30"),
        issue(2, "feature", "alice", "carol", &["ui", "gui"], Priority::P3, "2027-01-02"),
        issue(3, "bug", "carol", "carol", &["fw"], Priority::Empty, "2026-06-16"),
    ]
}

fn strings(v: &[&str]) -> Vec<String> {
    v.iter().map(|s| s.to_string()).collect()
}

fn filters(v: &[&str]) -> Option<Vec<Filter>> {
    Some(v.iter().map(|s| Filter::from_str(s).expect("valid filter")).collect())
}

fn sorts(v: &[&str]) -> Option<Vec<Sorting>> {
    Some(v.iter().map(|s| Sorting::from_str(s).expect("valid sort")).collect())
}

fn run(
    issues: Vec<Meta>,
    descriptions: &Vec<(u32, String)>,
    columns: Option<Vec<String>>,
    filter: Option<Vec<Filter>>,
    sort: Option<Vec<Sorting>>,
) -> Result<ListResult, QueryError> {
    list(&config(), &settings(), &users(), issues, descriptions, columns, filter, sort)
}

fn ids_of(r: &ListResult) -> Vec<u32> {
    r.issues.iter().map(|i| i.id).collect()
}

fn filtered(f: &[&str]) -> Vec<u32> {
    let r = run(three(), &vec![], Some(strings(&["id"])), filters(f), sorts(&["id=asc"])).expect("list with filter failed");
    ids_of(&r)
}

fn sorted(s: &[&str]) -> Vec<u32> {
    let r = run(three(), &vec![], Some(strings(&["id"])), None, sorts(s)).expect("list with sort failed");
    ids_of(&r)
}

fn cell(r: &ListResult, id: u32, col: &str) -> String {
    let c = r.columns.iter().position(|x| x == col).expect("column");
    let row = r.issues.iter().find(|i| i.id == id).expect("row");
    row.data[c].clone()
}

#[test]
fn test_list_columns() {
    let issues = || {
        (1..=3)
            .map(|i| issue(i, "feature", "alice", "bob", &["ui", "cli"], Priority::P1, "2026-01-02"))
            .collect::<Vec<_>>()
    };

    let r = run(issues(), &vec![], None, None, None).expect("list failed");
    assert_eq!(r.columns, strings(&["id", "state", "assignee", "title"]));
    assert_eq!(cell(&r, 2, "title"), "Issue 2");
    assert_eq!(cell(&r, 1, "assignee"), "alice");

    let mut cfg = config();
    cfg.list_columns = strings(&[
        "type", "priority", "labels", "reporter", "due_date", "related", "parent", "child", "created", "updated",
    ]);
    let r = list(&cfg, &settings(), &users(), issues(), &vec![], None, None, None).expect("list with changed default columns failed");
    assert_eq!(r.columns, cfg.list_columns);
    assert_eq!(cell(&r, 1, "reporter"), "bob");
    assert_eq!(cell(&r, 1, "type"), "feature");
    assert_eq!(cell(&r, 1, "labels"), "ui,cli");
    assert_eq!(cell(&r, 1, "priority"), "P1");
    assert_eq!(cell(&r, 1, "due_date"), "2026-01-02");
    assert_eq!(cell(&r, 1, "related"), "-");

    let r = run(issues(), &vec![], Some(strings(&["id", "title", "priority"])), None, None).expect("list with columns failed");
    assert_eq!(r.columns, strings(&["id", "title", "priority"]));
    assert_eq!(cell(&r, 3, "title"), "Issue 3");

    let r = run(issues(), &vec![], Some(strings(&["*"])), None, None).expect("list with wildcard failed");
    assert_eq!(
        r.columns,
        strings(&[
            "id", "title", "state", "type", "labels", "reporter", "assignee", "priority", "due_date", "related", "parent",
            "child", "created", "updated",
        ])
    );
    assert_eq!(cell(&r, 1, "state"), "new");
    assert_eq!(cell(&r, 1, "labels"), "ui,cli");
}

#[test]
fn test_list_filter() {
    assert_eq!(filtered(&[]), vec![1, 2, 3]);
    assert_eq!(filtered(&["id=2"]), vec![2]);
    assert_eq!(filtered(&["id=1,3"]), vec![1, 3]);
    assert_eq!(filtered(&["assignee=alice"]), vec![1, 2]);
    assert_eq!(filtered(&["reporter=bob"]), vec![1]);
    assert_eq!(filtered(&["priority=P3"]), vec![2]);
    assert_eq!(filtered(&["priority="]), vec![3]);
    assert_eq!(filtered(&["type=bug"]), vec![3]);
    assert_eq!(filtered(&["labels=ui"]), vec![1, 2]);
    assert_eq!(filtered(&["labels=fw"]), vec![3]);
    assert_eq!(filtered(&["labels=gui,cli"]), vec![1, 2]);
    assert_eq!(filtered(&["labels=ui", "labels=gui"]), vec![2]);
    assert_eq!(filtered(&["labels=bla"]), Vec::<u32>::new());
    assert_eq!(filtered(&["due_date=2026-06-16"]), vec![3]);
    assert_eq!(filtered(&["id>1", "id<3"]), vec![2]);
    assert_eq!(filtered(&["priority<P2"]), vec![1, 3]);
    assert_eq!(filtered(&["due_date<2027-01-01"]), vec![1, 3]);
    let r = run(three(), &vec![], None, filters(&["due_date<2027"]), None);
    assert!(matches!(r, Err(QueryError::InvalidValue(ValueKind::Date))));
    assert_eq!(filtered(&["labels=ui", "reporter=carol"]), vec![2]);

    let descriptions = vec![(2, "This is a detailed description about the driver problem in this issue.".to_string())];
    let r = run(
        three(),
        &descriptions,
        Some(strings(&["id"])),
        filters(&["assignee=alice", "description=*driver*"]),
        None,
    )
    .expect("list with description filter failed");
    assert_eq!(ids_of(&r), vec![2]);
}

#[test]
fn test_list_sort() {
    assert_eq!(sorted(&[]), vec![3, 2, 1]);
    let r = run(three(), &vec![], Some(strings(&["id"])), None, None).expect("list without sort failed");
    assert_eq!(ids_of(&r), vec![3, 2, 1]);
    assert_eq!(sorted(&["id=asc"]), vec![1, 2, 3]);
    assert_eq!(sorted(&["id=desc"]), vec![3, 2, 1]);
    assert_eq!(sorted(&["due_date=asc"]), vec![1, 3, 2]);
    assert_eq!(sorted(&["due_date=desc"]), vec![2, 3, 1]);
    assert_eq!(sorted(&["assignee=asc", "reporter=desc"]), vec![2, 1, 3]);
}

#[test]
fn end_to_end_priority_filter_and_due_date_sort() {
    assert_eq!(filtered(&["priority<P2"]), vec![1, 3]);
    assert_eq!(sorted(&["due_date=asc"]), vec![1, 3, 2]);
}

#[test]
fn sort_by_priority_reverses_for_distinct_priorities() {
    let asc = sorted(&["priority=asc"]);
    let mut desc = sorted(&["priority=desc"]);
    assert_eq!(asc, vec![3, 1, 2]);
    desc.reverse();
    assert_eq!(desc, asc);
}

#[test]
fn sort_is_stable_for_equal_keys() {
    let r = run(three(), &vec![], Some(strings(&["id"])), None, sorts(&["type=asc"])).expect("sort failed");
    assert_eq!(ids_of(&r), vec![3, 1, 2]);
    let r = run(three(), &vec![], Some(strings(&["id"])), None, sorts(&["assignee=asc"])).expect("sort failed");
    assert_eq!(ids_of(&r), vec![1, 2, 3]);
}

#[test]
fn sort_missing_relationship_is_lowest_both_ways() {
    let mut issues = three();
    issues[1].relationships.insert("related".to_string(), vec![3]);
    let r = run(issues, &vec![], Some(strings(&["id", "related"])), None, sorts(&["related=asc", "id=asc"])).expect("sort failed");
    assert_eq!(ids_of(&r), vec![1, 3, 2]);
    assert_eq!(cell(&r, 2, "related"), "3");
    let mut issues = three();
    issues[1].relationships.insert("related".to_string(), vec![3]);
    let r = run(issues, &vec![], Some(strings(&["id"])), None, sorts(&["related=desc", "id=asc"])).expect("sort failed");
    assert_eq!(ids_of(&r), vec![2, 1, 3]);
}

#[test]
fn filter_gt_lt_on_id_is_numeric() {
    assert_eq!(filtered(&["id>2"]), vec![3]);
    assert_eq!(filtered(&["id<2"]), vec![1]);
    assert_eq!(filtered(&["id>0"]), vec![1, 2, 3]);
    assert_eq!(filtered(&["id>3"]), Vec::<u32>::new());
}

#[test]
fn filter_me_resolves_to_settings_user() {
    assert_eq!(filtered(&["assignee=me"]), vec![1, 2]);
    assert_eq!(filtered(&["assignee=me,carol"]), vec![1, 2, 3]);
}

#[test]
fn filter_relationship_empty_pattern_matches_unset() {
    let mut issues = three();
    issues[0].relationships.insert("child".to_string(), vec![2]);
    let r = run(issues, &vec![], Some(strings(&["id"])), filters(&["child="]), sorts(&["id=asc"])).expect("filter failed");
    assert_eq!(ids_of(&r), vec![2, 3]);
    let mut issues = three();
    issues[0].relationships.insert("child".to_string(), vec![2]);
    let r = run(issues, &vec![], Some(strings(&["id"])), filters(&["child=2"]), None).expect("filter failed");
    assert_eq!(ids_of(&r), vec![1]);
}

#[test]
fn filter_due_date_alias_and_wildcards() {
    assert_eq!(filtered(&["due-date=2026-*"]), vec![1, 3]);
    assert_eq!(filtered(&["title=ISSUE *"]), vec![1, 2, 3]);
    assert_eq!(filtered(&["title= issue 2 "]), vec![2]);
}

#[test]
fn list_rejects_unknown_column() {
    let r = run(three(), &vec![], Some(strings(&["id", "nope"])), None, None);
    assert!(matches!(r, Err(QueryError::InvalidField { context: FieldContext::Columns, ref name }) if name == "nope"));
    let r = run(three(), &vec![], Some(strings(&["description"])), None, None);
    assert!(matches!(r, Err(QueryError::InvalidField { context: FieldContext::Columns, .. })));
}

#[test]
fn list_rejects_unknown_sort_and_filter_fields() {
    let r = run(three(), &vec![], None, None, sorts(&["description=asc"]));
    assert!(matches!(r, Err(QueryError::InvalidField { context: FieldContext::Sort, .. })));
    let r = run(three(), &vec![], None, filters(&["nope=1"]), None);
    assert!(matches!(r, Err(QueryError::InvalidField { context: FieldContext::Filter, ref name }) if name == "nope"));
    let mut cfg = config();
    cfg.list_columns = strings(&["id", "bogus"]);
    let r = list(&cfg, &settings(), &users(), three(), &vec![], None, None, None);
    assert!(matches!(r, Err(QueryError::InvalidField { context: FieldContext::DefaultColumns, .. })));
}

#[test]
fn list_rejects_bad_values_and_operators() {
    let r = run(three(), &vec![], None, filters(&["id=x"]), None);
    assert!(matches!(r, Err(QueryError::InvalidValue(ValueKind::Id))));
    let r = run(three(), &vec![], None, filters(&["priority=P9"]), None);
    assert!(matches!(r, Err(QueryError::InvalidValue(ValueKind::Priority))));
    let r = run(three(), &vec![], None, filters(&["title>a"]), None);
    assert!(matches!(r, Err(QueryError::UnsupportedOperator(ref f)) if f == "title"));
    let r = run(three(), &vec![], None, filters(&["due_date<2026-02-30"]), None);
    assert!(matches!(r, Err(QueryError::InvalidValue(ValueKind::Date))));
    assert_eq!(filtered(&["created<2026-01-02"]), vec![1]);
    let e = QueryError::UnsupportedOperator("title".to_string());
    assert_eq!(e.message(), "Operator '>' and '<' not supported for field: title");
}

#[test]
fn column_widths_and_csv_fields() {
    let r = run(three(), &vec![], Some(strings(&["id", "title", "labels"])), None, sorts(&["id=asc"])).expect("list failed");
    assert_eq!(calculate_column_widths(&r), vec![4, 9, 8]);
    assert_eq!(to_csv_field("Issue 1", ';'), "\"Issue 1\";");
    assert_eq!(to_csv_field("", ','), "\"\",");
}

#[test]
fn test_list_basic() {
    let created = |id: u32| {
        git_issue::update::new_issue(
            id,
            &format!("Issue {id}"),
            &git_issue::update::FieldChanges {
                title: None,
                state: None,
                type_: None,
                reporter: None,
                assignee: None,
                priority: None,
                due_date: None,
                labels: None,
                labels_add: None,
                labels_remove: None,
            },
            &config(),
            &users(),
            &settings(),
            "2026-01-01T00:00:00Z",
        )
        .expect("new failed")
    };
    let issues = || (1..=3).map(created).collect::<Vec<_>>();

    let r = run(issues(), &vec![], None, None, None).expect("list failed");
    assert_eq!(r.columns, strings(&["id", "state", "assignee", "title"]));
    assert!(!r.columns.contains(&"priority".to_string()));
    for id in 1..=3 {
        assert_eq!(cell(&r, id, "title"), format!("Issue {id}"));
    }

    let r = run(issues(), &vec![], Some(strings(&["id", "title", "priority"])), None, None).expect("list with columns failed");
    assert_eq!(r.columns, strings(&["id", "title", "priority"]));
    assert_eq!(cell(&r, 3, "title"), "Issue 3");

    let r = run(issues(), &vec![], Some(strings(&["*"])), None, None).expect("list with wildcard failed");
    for col in ["id", "state", "assignee", "title", "priority", "labels", "type", "due_date", "created", "updated"] {
        assert!(r.columns.contains(&col.to_string()), "{col}");
    }
    assert_eq!(cell(&r, 1, "title"), "Issue 1");
}
