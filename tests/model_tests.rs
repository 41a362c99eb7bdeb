use git_issue::fields::is_valid_iso_date;
use git_issue::model::{
    cache_path, config_path, dash_if_empty, gitissues_base, is_valid_state, is_valid_type, is_valid_user, issue_attachments_dir,
    issue_desc_path, issue_dir, issue_exports_dir, issue_meta_path, issue_tmp_show_dir, padded_id, read_u32,
    settings_path, user_handle_me, users_path, Config, Filter, IdGeneration, Operator, Order, Priority, Settings,
    Sorting, User, Users,
};
use git_issue::model::RelationshipLink;
use git_issue::model::commit_message;
use git_issue::text::{do_strings_match, replace_text};

fn config() -> Config {
    Config {
        commit_auto: true,
        commit_message: "[issue] {action} #{id}: {title}".to_string(),
        list_columns: vec!["id".to_string()],
        states: vec!["new".to_string(), "active".to_string(), "closed".to_string()],
        types: vec!["feature".to_string(), "bug".to_string()],
        relationships: vec![],
        export_csv_separator: ';',
        id_generation: IdGeneration::Timestamp,
        priority_default: Priority::Empty,
    }
}

fn users() -> Users {
    Users { users: vec![User { id: "alice".to_string() }, User { id: "bob".to_string() }] }
}

#[test]
fn match_is_reflexive() {
    for v in ["Issue 1", "  Mixed Case  ", "a*b", "", "2026-01-30"] {
        assert!(do_strings_match(v, v), "{v}");
    }
}

#[test]
fn match_wildcards() {
    assert!(do_strings_match("anything", "*"));
    assert!(do_strings_match("foo", "f*o"));
    assert!(!do_strings_match("foo", "bar"));
    assert!(do_strings_match("foo", "f*"));
    assert!(!do_strings_match("foo", "*x*"));
    assert!(do_strings_match("a.b", "a.b"));
    assert!(!do_strings_match("axb", "a.b"));
    assert!(do_strings_match("", ""));
    assert!(!do_strings_match("x", ""));
}

#[test]
fn match_is_case_insensitive_and_trimmed() {
    assert!(do_strings_match("  HELLO World ", "hello world"));
    assert!(do_strings_match("Straße", "STRASSE") || do_strings_match("Straße", "straße"));
    assert!(do_strings_match("ÉCOLE", "école"));
    assert!(do_strings_match("\tfoo\u{3000}", "foo"));
    assert!(do_strings_match("foo", "\u{a0}foo\n"));
    assert!(!do_strings_match("f oo", "foo"));
}

#[test]
fn match_or_list() {
    for v in ["a", "b", "c", "ab"] {
        assert_eq!(do_strings_match(v, "a,b"), do_strings_match(v, "a") || do_strings_match(v, "b"), "{v}");
    }
    assert!(do_strings_match("b", "a, b"));
    assert!(!do_strings_match("c", "a,b"));
}

#[test]
fn priority_tokens() {
    assert_eq!(Priority::from_str("P0"), Ok(Priority::P0));
    assert_eq!(Priority::from_str("p4"), Ok(Priority::P4));
    assert_eq!(Priority::from_str(""), Ok(Priority::Empty));
    assert_eq!(Priority::from_str("P5"), Err("Unknown priority: P5".to_string()));
    assert_eq!(Priority::Empty.as_int(), 0);
    assert_eq!(Priority::P0.as_int(), 1);
    assert_eq!(Priority::P4.as_int(), 5);
    assert!(Priority::Empty.as_int() < Priority::P0.as_int());
    assert_eq!(Priority::P3.tag(), "P3");
    assert_eq!(Priority::Empty.tag(), "");
}

#[test]
fn filter_parser_picks_operator_by_priority() {
    let f = Filter::from_str("due_date<2026-01-01").unwrap();
    assert_eq!((f.field.as_str(), f.operator, f.value.as_str()), ("due_date", Operator::Lt, "2026-01-01"));
    let f = Filter::from_str("id>3").unwrap();
    assert_eq!(f.operator, Operator::Gt);
    let f = Filter::from_str("a<b=c").unwrap();
    assert_eq!((f.field.as_str(), f.operator, f.value.as_str()), ("a<b", Operator::Eq, "c"));
    let f = Filter::from_str("title=").unwrap();
    assert_eq!(f.value, "");
    assert!(Filter::from_str("nothing").is_err());
}

#[test]
fn sorting_parser() {
    let s = Sorting::from_str("priority=DESC").unwrap();
    assert_eq!((s.field.as_str(), s.order), ("priority", Order::Desc));
    assert_eq!(Sorting::from_str("id=Asc").unwrap().order, Order::Asc);
    assert!(Sorting::from_str("id=up").is_err());
    assert!(Sorting::from_str("id").is_err());
}

#[test]
fn relationship_link_parser() {
    let l = RelationshipLink::from_str("related=2, 3").unwrap();
    assert_eq!(l.relationship, "related");
    assert_eq!(l.target_ids, vec![2, 3]);
    assert_eq!(RelationshipLink::from_str("child=+7").unwrap().target_ids, vec![7]);
    assert_eq!(RelationshipLink::from_str("related=2,x").unwrap_err(), "invalid target id: x");
    assert_eq!(RelationshipLink::from_str("related=").unwrap_err(), "invalid target id: ");
    assert_eq!(RelationshipLink::from_str("related=4294967296").unwrap_err(), "invalid target id: 4294967296");
    assert!(RelationshipLink::from_str("related").is_err());
}

#[test]
fn read_u32_bounds() {
    assert_eq!(read_u32("0"), Some(0));
    assert_eq!(read_u32("4294967295"), Some(u32::MAX));
    assert_eq!(read_u32("4294967296"), None);
    assert_eq!(read_u32("+12"), Some(12));
    assert_eq!(read_u32("-1"), None);
    assert_eq!(read_u32(""), None);
    assert_eq!(read_u32("+"), None);
    assert_eq!(read_u32(" 1"), None);
}

#[test]
fn validity_checks() {
    let cfg = config();
    assert!(is_valid_state(&cfg, "active"));
    assert!(!is_valid_state(&cfg, ""));
    assert!(is_valid_type(&cfg, ""));
    assert!(is_valid_type(&cfg, "bug"));
    assert!(!is_valid_type(&cfg, "experiment"));
    assert!(is_valid_user(&users(), "me"));
    assert!(is_valid_user(&users(), ""));
    assert!(is_valid_user(&users(), "bob"));
    assert!(!is_valid_user(&users(), "duck"));
    assert!(is_valid_iso_date("2026-01-15"));
    assert!(is_valid_iso_date(""));
    assert!(!is_valid_iso_date("2026-02-30"));
    assert!(!is_valid_iso_date("15.01.2026"));
    assert!(!is_valid_iso_date("not-a-date"));
}

#[test]
fn me_is_resolved_from_settings() {
    let settings = Settings { editor: "vi".to_string(), user: "bob".to_string() };
    let mut v = "me".to_string();
    assert!(user_handle_me(&users(), &settings, &mut v).is_ok());
    assert_eq!(v, "bob");
    let mut v = "alice".to_string();
    assert!(user_handle_me(&users(), &settings, &mut v).is_ok());
    assert_eq!(v, "alice");
    let bad = Settings { editor: "vi".to_string(), user: "duck".to_string() };
    let mut v = "me".to_string();
    assert!(user_handle_me(&users(), &bad, &mut v).is_err());
    assert_eq!(v, "me");
    let sentinel = Settings { editor: "vi".to_string(), user: "me".to_string() };
    let mut v = "me".to_string();
    assert!(user_handle_me(&users(), &sentinel, &mut v).is_err());
    let with_me = Users { users: vec![User { id: "me".to_string() }] };
    assert!(user_handle_me(&with_me, &sentinel, &mut v).is_err());
    let empty = Settings { editor: "vi".to_string(), user: String::new() };
    assert!(user_handle_me(&users(), &empty, &mut v).is_ok());
    assert_eq!(v, "");
}

#[test]
fn paths_and_ids() {
    assert_eq!(padded_id(1), "0000000001");
    assert_eq!(padded_id(4294967295), "4294967295");
    assert_eq!(gitissues_base(), ".gitissues");
    assert_eq!(config_path(), ".gitissues/config.yaml");
    assert_eq!(settings_path(), ".gitissues/settings.yaml");
    assert_eq!(users_path(), ".gitissues/users.yaml");
    assert_eq!(issue_dir(12), ".gitissues/issues/0000000012");
    assert_eq!(issue_meta_path(1), ".gitissues/issues/0000000001/meta.yaml");
    assert_eq!(issue_desc_path(1), ".gitissues/issues/0000000001/description.md");
    assert_eq!(issue_attachments_dir(1), ".gitissues/issues/0000000001/attachments");
    assert_eq!(issue_tmp_show_dir(7), ".gitissues/.tmp/show-7");
    assert_eq!(issue_exports_dir(), ".gitissues/exports");
    assert_eq!(cache_path(), ".gitissues/.tmp/cache.txt");
    assert_eq!(dash_if_empty(""), "-");
    assert_eq!(dash_if_empty("x"), "x");
}

#[test]
fn commit_message_fills_template() {
    assert_eq!(
        commit_message("[issue] {action} #{id}: {title}", "links updated", 12, "Fix it"),
        "[issue] links updated #12: Fix it"
    );
    assert_eq!(commit_message("{id}{id}", "a", 7, "t"), "77");
    assert_eq!(commit_message("{action}", "{id}", 3, "t"), "3");
    assert_eq!(replace_text("aaa", "aa", "b"), "ba");
    assert_eq!(replace_text("abc", "x", "y"), "abc");
}
