use mind_store::commands::ls::{
    add_entry, groups_for_entry, matches_filters, namespace_components, namespace_matches,
    node_children_to_json, parse_date, parse_filters, print_tree, root_children_to_json,
    sorted_children, GroupBy, StoredEntry, TreeNode,
};
use mind_store::entry::{Entry, Kind, Priority, Status};
use mind_store::time::Date;

#[test]
fn namespace_prefix_match_uses_hierarchy_prefix() {
    assert!(namespace_matches(Some("personal/garage"), Some("personal")));
    assert!(namespace_matches(Some("personal"), Some("personal")));
    assert!(!namespace_matches(Some("work"), Some("personal")));
    assert!(!namespace_matches(None, Some("personal")));
}

#[test]
fn sorted_children_keeps_ungrouped_last() {
    let mut root = TreeNode::default();
    root.insert_path(&["ungrouped".to_string(), "zeta".to_string()]);
    root.insert_path(&["alpha".to_string(), "one".to_string()]);
    root.insert_path(&["beta".to_string(), "two".to_string()]);
    let ordered = sorted_children(&root)
        .into_iter()
        .map(|(name, _)| name.to_string())
        .collect::<Vec<_>>();
    assert_eq!(ordered, vec!["alpha".to_string(), "beta".to_string(), "ungrouped".to_string()]);
}

#[test]
fn tree_supports_same_name_entry_and_folder() {
    let mut root = TreeNode::default();
    root.insert_path(&["test".to_string(), "test".to_string()]);
    root.insert_path(&["test".to_string(), "test".to_string(), "child".to_string()]);
    let level = root.child("test").unwrap().child("test").unwrap();
    assert!(level.is_entry);
    assert!(!level.children.is_empty());
}

#[test]
fn group_by_tags_creates_multiple_groups() {
    let mut entry = Entry::new(
        "Title".to_string(),
        Kind::Idea,
        Priority::Medium,
        Status::Active,
    ).unwrap();
    entry.tags = vec!["rust".to_string(), "urgent".to_string()];
    let stored = StoredEntry {
        slug: "rework".to_string(),
        entry,
    };
    let groups = groups_for_entry(&stored, GroupBy::Tags);
    assert_eq!(groups.len(), 2);
}

#[test]
fn group_by_priority_uses_required_priority() {
    let entry = Entry::new(
        "Title".to_string(),
        Kind::Todo,
        Priority::Medium,
        Status::Active,
    ).unwrap();
    let stored = StoredEntry {
        slug: "task".to_string(),
        entry,
    };
    let groups = groups_for_entry(&stored, GroupBy::Priority);
    assert_eq!(groups, vec![vec!["medium".to_string()]]);

    let mut entry2 = Entry::new(
        "Title".to_string(),
        Kind::Todo,
        Priority::Medium,
        Status::Active,
    ).unwrap();
    entry2.priority = Priority::High;
    let stored2 = StoredEntry {
        slug: "task2".to_string(),
        entry: entry2,
    };
    let groups2 = groups_for_entry(&stored2, GroupBy::Priority);
    assert_eq!(groups2, vec![vec!["high".to_string()]]);
}

#[test]
fn group_by_status_uses_status_value() {
    let mut entry = Entry::new(
        "Title".to_string(),
        Kind::Todo,
        Priority::Medium,
        Status::Active,
    ).unwrap();
    entry.status = Status::Done;
    let stored = StoredEntry {
        slug: "task".to_string(),
        entry,
    };
    let groups = groups_for_entry(&stored, GroupBy::Status);
    assert_eq!(groups, vec![vec!["done".to_string()]]);
}

fn entry_with(kind: Kind, tags: &[&str], namespace: Option<&str>, deadline: Option<Date>) -> Entry {
    let mut e = Entry::new("T".to_string(), kind, Priority::Medium, Status::Active).unwrap();
    e.tags = tags.iter().map(|t| t.to_string()).collect();
    e.namespace = namespace.map(|n| n.to_string());
    e.deadline = deadline;
    e
}

#[test]
fn group_by_tags_sorts_and_dedups_and_keeps_ungrouped() {
    let stored = StoredEntry { slug: "s".to_string(), entry: entry_with(Kind::Idea, &["zeta", "alpha", "zeta"], None, None) };
    let groups = groups_for_entry(&stored, GroupBy::Tags);
    assert_eq!(groups, vec![vec!["alpha".to_string()], vec!["zeta".to_string()]]);
    let bare = StoredEntry { slug: "s".to_string(), entry: entry_with(Kind::Idea, &[], None, None) };
    assert_eq!(groups_for_entry(&bare, GroupBy::Tags), vec![vec!["ungrouped".to_string()]]);
}

#[test]
fn group_by_namespace_and_kind() {
    let stored = StoredEntry { slug: "s".to_string(), entry: entry_with(Kind::Note, &[], Some("a/b"), None) };
    assert_eq!(groups_for_entry(&stored, GroupBy::Namespace), vec![vec!["a".to_string(), "b".to_string()]]);
    assert_eq!(groups_for_entry(&stored, GroupBy::Kind), vec![vec!["note".to_string()]]);
    let bare = StoredEntry { slug: "s".to_string(), entry: entry_with(Kind::Note, &[], None, None) };
    assert_eq!(groups_for_entry(&bare, GroupBy::Namespace), vec![vec!["ungrouped".to_string()]]);
}

#[test]
fn namespace_components_split_at_slashes() {
    assert_eq!(namespace_components(Some("a/b/c")), vec!["a", "b", "c"]);
    assert!(namespace_components(None).is_empty());
}

#[test]
fn group_parse_is_case_insensitive_and_reports_unknown() {
    assert_eq!(GroupBy::parse("TAGS").unwrap(), GroupBy::Tags);
    assert_eq!(GroupBy::parse("namespace").unwrap(), GroupBy::Namespace);
    assert_eq!(
        GroupBy::parse("color").unwrap_err(),
        "unknown group 'color', expected one of: namespace, kind, priority, status, tags"
    );
}

#[test]
fn parse_date_reads_iso_dates_and_reports_errors() {
    assert_eq!(parse_date(Some("2026-03-15"), "--before").unwrap(), Some(Date { year: 2026, month: 3, day: 15 }));
    assert_eq!(parse_date(None, "--before").unwrap(), None);
    let err = parse_date(Some("15-03-2026"), "--before").unwrap_err();
    assert!(err.starts_with("invalid --before date format: "));
}

#[test]
fn parse_filters_reports_first_error() {
    assert_eq!(
        parse_filters(Some("bogus"), Some("nope"), None, &[], None, None, None).err().unwrap(),
        "unknown kind: bogus"
    );
    assert_eq!(
        parse_filters(None, Some("nope"), None, &[], None, None, None).err().unwrap(),
        "unknown priority: nope"
    );
    assert_eq!(
        parse_filters(None, None, Some("x"), &[], None, None, None).err().unwrap(),
        "unknown status: x"
    );
    assert!(parse_filters(None, None, None, &[], None, None, Some("bad")).err().unwrap().starts_with("invalid --after date format: "));
}

#[test]
fn matches_filters_checks_each_filter() {
    let d = |y, m, dd| Date { year: y, month: m, day: dd };
    let e = entry_with(Kind::Todo, &["Rust", "cli"], None, Some(d(2026, 3, 10)));
    let all = parse_filters(None, None, None, &[], None, None, None).unwrap();
    assert!(matches_filters(&e, &all));
    let kind = parse_filters(Some("TODO"), None, None, &[], None, None, None).unwrap();
    assert!(matches_filters(&e, &kind));
    let other_kind = parse_filters(Some("idea"), None, None, &[], None, None, None).unwrap();
    assert!(!matches_filters(&e, &other_kind));
    let tag = parse_filters(None, None, None, &["RUST".to_string(), "web".to_string()], None, None, None).unwrap();
    assert!(matches_filters(&e, &tag));
    let no_tag = parse_filters(None, None, None, &["web".to_string()], None, None, None).unwrap();
    assert!(!matches_filters(&e, &no_tag));
    let before = parse_filters(None, None, None, &[], None, Some("2026-03-15"), None).unwrap();
    assert!(matches_filters(&e, &before));
    let before_early = parse_filters(None, None, None, &[], None, Some("2026-03-10"), None).unwrap();
    assert!(!matches_filters(&e, &before_early));
    let after = parse_filters(None, None, None, &[], None, None, Some("2026-03-01")).unwrap();
    assert!(matches_filters(&e, &after));
    let exact = parse_filters(None, None, None, &[], Some("2026-03-10"), None, None).unwrap();
    assert!(matches_filters(&e, &exact));
    let no_deadline = entry_with(Kind::Todo, &[], None, None);
    assert!(!matches_filters(&no_deadline, &after));
}

#[test]
fn add_entry_files_entries_under_their_groups() {
    let filters = parse_filters(None, None, None, &[], None, None, None).unwrap();
    let mut root = TreeNode::default();
    add_entry(&mut root, "rework".to_string(), entry_with(Kind::Idea, &[], Some("/personal/garage/"), None), GroupBy::Namespace, None, &filters).unwrap();
    add_entry(&mut root, "loose".to_string(), entry_with(Kind::Idea, &[], None, None), GroupBy::Namespace, None, &filters).unwrap();
    let garage = root.child("personal").unwrap().child("garage").unwrap();
    assert!(garage.child("rework").unwrap().is_entry);
    assert!(root.child("ungrouped").unwrap().child("loose").unwrap().is_entry);
    let err = add_entry(&mut root, "bad".to_string(), entry_with(Kind::Idea, &[], Some("a/../b"), None), GroupBy::Namespace, None, &filters);
    assert_eq!(err.unwrap_err(), "namespace contains invalid path segments");
    let mut other = TreeNode::default();
    add_entry(&mut other, "w".to_string(), entry_with(Kind::Idea, &[], Some("work"), None), GroupBy::Namespace, Some("personal"), &filters).unwrap();
    assert!(other.children.is_empty());
}

#[test]
fn json_and_lines_render_folders_and_entries() {
    let mut root = TreeNode::default();
    root.insert_path(&["ungrouped".to_string(), "z".to_string()]);
    root.insert_path(&["a".to_string(), "x".to_string()]);
    root.insert_path(&["a".to_string()]);
    let json = root_children_to_json(&root);
    let names: Vec<(String, String)> = json.iter().map(|j| (j.name.clone(), j.kind.clone())).collect();
    assert_eq!(
        names,
        vec![
            ("a".to_string(), "entry".to_string()),
            ("a".to_string(), "folder".to_string()),
            ("ungrouped".to_string(), "folder".to_string()),
        ]
    );
    assert_eq!(json[1].children.len(), 1);
    assert_eq!(json[1].children[0].name, "x");
    assert_eq!(node_children_to_json(&TreeNode::default()).len(), 0);

    let mut lines = Vec::new();
    print_tree(&root, "", true, &mut lines);
    let text: Vec<String> = lines
        .iter()
        .map(|l| format!("{}{}{}{}", l.lead, l.branch, l.name, if l.folder { "/" } else { "" }))
        .collect();
    assert_eq!(
        text,
        vec![
            "├── a".to_string(),
            "├── a/".to_string(),
            "│   └── x".to_string(),
            "└── ungrouped/".to_string(),
            "    └── z".to_string(),
        ]
    );
}

#[test]
fn insert_path_reads_back() {
    let mut root = TreeNode::default();
    root.insert_path(&["a".to_string(), "b".to_string()]);
    assert!(!root.child("a").unwrap().is_entry);
    assert!(root.child("a").unwrap().child("b").unwrap().is_entry);
    let empty: Vec<String> = Vec::new();
    root.insert_path(&empty);
    assert_eq!(root.children.len(), 1);
}
