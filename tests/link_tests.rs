use git_issue::link;
use git_issue::link::LinkError;
use git_issue::model::{Config, IdGeneration, Meta, Priority, Relationship, RelationshipLink};
use indexmap::IndexMap;

fn config() -> Config {
    Config {
        commit_auto: false,
        commit_message: "[issue] {action} #{id}: {title}".to_string(),
        list_columns: vec!["id".to_string(), "state".to_string(), "assignee".to_string(), "title".to_string()],
        states: vec!["new".to_string(), "active".to_string(), "closed".to_string()],
        types: vec!["feature".to_string(), "bug".to_string()],
        relationships: vec![
            ("related".to_string(), Relationship { link: Some("related".to_string()) }),
            ("parent".to_string(), Relationship { link: Some("child".to_string()) }),
            ("child".to_string(), Relationship { link: Some("parent".to_string()) }),
        ],
        export_csv_separator: ';',
        id_generation: IdGeneration::Sequential,
        priority_default: Priority::Empty,
    }
}

fn issue(id: u32) -> Meta {
    Meta {
        id,
        title: format!("Issue {id}"),
        state: "new".to_string(),
        type_: String::new(),
        labels: vec![],
        reporter: String::new(),
        assignee: String::new(),
        priority: Priority::Empty,
        due_date: String::new(),
        relationships: IndexMap::new(),
        created: "2026-01-01T00:00:00Z".to_string(),
        updated: "2026-01-01T00:00:00Z".to_string(),
    }
}

fn store(n: u32) -> Vec<Meta> {
    (1..=n).map(issue).collect()
}

fn links(s: &str) -> Option<Vec<RelationshipLink>> {
    Some(vec![RelationshipLink::from_str(s).expect("valid link")])
}

fn ids(s: &[Meta], id: u32, rel: &str) -> Option<Vec<u32>> {
    s.iter().find(|m| m.id == id).and_then(|m| m.relationships.get(rel).cloned())
}

const NOW: &str = "2026-02-01T10:00:00Z";

#[test]
fn test_link_add_bidirectional_symmetric() {
    let cfg = config();
    let mut s = store(3);

    link(&mut s, &cfg, 1, links("related=2"), None, NOW).expect("link --add failed");
    assert_eq!(ids(&s, 1, "related"), Some(vec![2]));
    assert_eq!(ids(&s, 2, "related"), Some(vec![1]));

    link(&mut s, &cfg, 1, links("related=3"), None, NOW).expect("link --add failed");
    assert_eq!(ids(&s, 1, "related"), Some(vec![2, 3]));
    assert_eq!(ids(&s, 3, "related"), Some(vec![1]));
    assert_eq!(ids(&s, 2, "related"), Some(vec![1]));
}

#[test]
fn test_link_add_bidirectional_asymmetric() {
    let cfg = config();
    let mut s = store(5);

    link(&mut s, &cfg, 1, links("child=2"), None, NOW).expect("link --add failed");
    assert_eq!(ids(&s, 1, "child"), Some(vec![2]));
    assert_eq!(ids(&s, 2, "parent"), Some(vec![1]));

    link(&mut s, &cfg, 1, links("child=3"), None, NOW).expect("link --add failed");
    assert_eq!(ids(&s, 1, "child"), Some(vec![2, 3]));
    assert_eq!(ids(&s, 3, "parent"), Some(vec![1]));
    assert_eq!(ids(&s, 2, "parent"), Some(vec![1]));

    link(&mut s, &cfg, 4, links("parent=5"), None, NOW).expect("link --add failed");
    assert_eq!(ids(&s, 4, "parent"), Some(vec![5]));
    assert_eq!(ids(&s, 5, "child"), Some(vec![4]));
}

#[test]
fn test_link_add_unidirectional() {
    let mut cfg = config();
    cfg.relationships.push(("inspired_by".to_string(), Relationship { link: None }));
    let mut s = store(3);

    link(&mut s, &cfg, 1, links("inspired_by=2"), None, NOW).expect("link --add failed");
    assert_eq!(ids(&s, 1, "inspired_by"), Some(vec![2]));
    assert_eq!(ids(&s, 2, "inspired_by"), None);
}

#[test]
fn test_link_add_invalid() {
    let cfg = config();
    let mut s = store(2);

    let r = link(&mut s, &cfg, 1, links("inspired_by=2"), None, NOW);
    assert!(matches!(r, Err(LinkError::UnknownRelationship(ref n)) if n == "inspired_by"));

    let r = link(&mut s, &cfg, 1, links("related=1"), None, NOW);
    assert!(matches!(r, Err(LinkError::SelfLink)));

    let r = link(&mut s, &cfg, 1, links("related=3"), None, NOW);
    assert!(matches!(r, Err(LinkError::NotFound(3))));

    link(&mut s, &cfg, 1, links("related=2"), None, NOW).expect("link --add failed");
    let r = link(&mut s, &cfg, 1, links("related=2"), None, NOW);
    assert!(matches!(r, Err(LinkError::NoOp)));
}

#[test]
fn test_link_remove_bidirectional_symmetric() {
    let cfg = config();
    let mut s = store(3);

    link(&mut s, &cfg, 1, links("related=2,3"), None, NOW).expect("link --add failed");
    assert_eq!(ids(&s, 1, "related"), Some(vec![2, 3]));
    assert_eq!(ids(&s, 2, "related"), Some(vec![1]));
    assert_eq!(ids(&s, 3, "related"), Some(vec![1]));

    link(&mut s, &cfg, 1, None, links("related=2"), NOW).expect("link --remove failed");
    assert_eq!(ids(&s, 1, "related"), Some(vec![3]));
    assert_eq!(ids(&s, 2, "related"), Some(vec![]));
    assert_eq!(ids(&s, 3, "related"), Some(vec![1]));
}

#[test]
fn test_link_remove_bidirectional_asymmetric() {
    let cfg = config();
    let mut s = store(3);

    link(&mut s, &cfg, 1, links("child=2,3"), None, NOW).expect("link --add failed");
    assert_eq!(ids(&s, 1, "child"), Some(vec![2, 3]));
    assert_eq!(ids(&s, 2, "parent"), Some(vec![1]));
    assert_eq!(ids(&s, 3, "parent"), Some(vec![1]));

    link(&mut s, &cfg, 1, None, links("child=2"), NOW).expect("link --remove failed");
    assert_eq!(ids(&s, 1, "child"), Some(vec![3]));
    assert_eq!(ids(&s, 2, "parent"), Some(vec![]));
    assert_eq!(ids(&s, 3, "parent"), Some(vec![1]));
}

#[test]
fn link_stamps_only_changed_records() {
    let cfg = config();
    let mut s = store(3);
    link(&mut s, &cfg, 1, links("related=2"), None, NOW).expect("link failed");
    assert_eq!(s[0].updated, NOW);
    assert_eq!(s[1].updated, NOW);
    assert_eq!(s[2].updated, "2026-01-01T00:00:00Z");
}

#[test]
fn link_symmetry_then_remove_clears_both_sides() {
    let cfg = config();
    let mut s = store(2);
    link(&mut s, &cfg, 1, links("related=2"), None, NOW).expect("add failed");
    assert!(ids(&s, 2, "related").unwrap().contains(&1));
    link(&mut s, &cfg, 1, None, links("related=2"), NOW).expect("remove failed");
    assert!(!ids(&s, 1, "related").unwrap().contains(&2));
    assert!(!ids(&s, 2, "related").unwrap().contains(&1));
}

#[test]
fn link_directional_pair_does_not_mirror_on_same_type() {
    let cfg = config();
    let mut s = store(2);
    link(&mut s, &cfg, 1, links("child=2"), None, NOW).expect("add failed");
    assert_eq!(ids(&s, 2, "child"), None);
    assert_eq!(ids(&s, 2, "parent"), Some(vec![1]));
}

#[test]
fn link_self_link_leaves_records_untouched() {
    let cfg = config();
    let mut s = store(3);
    let r = link(&mut s, &cfg, 1, links("related=2"), links("related=1"), NOW);
    assert!(matches!(r, Err(LinkError::SelfLink)));
    assert_eq!(ids(&s, 1, "related"), None);
    assert_eq!(ids(&s, 2, "related"), None);
    assert_eq!(s[0].updated, "2026-01-01T00:00:00Z");
}

#[test]
fn link_add_present_target_keeps_one_copy() {
    let cfg = config();
    let mut s = store(3);
    link(&mut s, &cfg, 1, links("related=2"), None, NOW).expect("add failed");
    link(&mut s, &cfg, 1, links("related=2,3"), None, NOW).expect("idempotent add failed");
    assert_eq!(ids(&s, 1, "related"), Some(vec![2, 3]));
    assert_eq!(ids(&s, 2, "related"), Some(vec![1]));
}

#[test]
fn link_remove_absent_target_is_noop() {
    let cfg = config();
    let mut s = store(3);
    let r = link(&mut s, &cfg, 1, None, links("related=2"), NOW);
    assert!(matches!(r, Err(LinkError::NoOp)));
    assert_eq!(ids(&s, 1, "related"), None);
}

#[test]
fn link_unknown_source_is_not_found() {
    let cfg = config();
    let mut s = store(2);
    let r = link(&mut s, &cfg, 9, links("related=2"), None, NOW);
    assert!(matches!(r, Err(LinkError::NotFound(9))));
}

#[test]
fn link_error_messages() {
    assert_eq!(LinkError::SelfLink.message(), "Invalid target ID: cannot link issue to itself.");
    assert_eq!(LinkError::NoOp.message(), "No changes made to relationships");
}

#[test]
fn link_adds_before_removes() {
    let cfg = config();
    let mut s = store(3);
    link(&mut s, &cfg, 1, links("related=2"), None, NOW).expect("add failed");
    link(&mut s, &cfg, 1, links("related=3"), links("related=2"), NOW).expect("add and remove failed");
    assert_eq!(ids(&s, 1, "related"), Some(vec![3]));
    assert_eq!(ids(&s, 2, "related"), Some(vec![]));
    assert_eq!(ids(&s, 3, "related"), Some(vec![1]));
}
