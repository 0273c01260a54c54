use mind_store::entry::{
    default_priority, default_status, normalize_namespace, normalize_tags, Entry, Kind, Priority,
    Status,
};

#[test]
fn kinds_read_whatever_the_case() {
    assert_eq!(Kind::from_str("TODO").unwrap(), Kind::Todo);
    assert_eq!(Kind::from_str("Idea").unwrap(), Kind::Idea);
    assert_eq!(Kind::from_str("task").unwrap_err(), "unknown kind: task");
    assert_eq!(Priority::from_str("CRITICAL").unwrap(), Priority::Critical);
    assert_eq!(Priority::from_str("urgent").unwrap_err(), "unknown priority: urgent");
    assert_eq!(Status::from_str("Done").unwrap(), Status::Done);
    assert_eq!(Status::from_str("open").unwrap_err(), "unknown status: open");
}

#[test]
fn names_read_back() {
    for k in [Kind::Idea, Kind::Todo, Kind::Note] {
        assert_eq!(Kind::from_str(&k.to_string()).unwrap(), k);
    }
    for p in [Priority::Low, Priority::Medium, Priority::High, Priority::Critical] {
        assert_eq!(Priority::from_str(&p.to_string()).unwrap(), p);
    }
    for s in [Status::Active, Status::Done, Status::Archived] {
        assert_eq!(Status::from_str(&s.to_string()).unwrap(), s);
    }
    assert_eq!(Priority::Critical.to_string(), "critical");
    assert_eq!(Status::Archived.to_string(), "archived");
}

#[test]
fn defaults_are_medium_and_active() {
    assert_eq!(default_priority(), Priority::Medium);
    assert_eq!(default_status(), Status::Active);
}

#[test]
fn normalize_tags_trims_drops_blank_and_case_duplicates() {
    let tags = vec![" Rust ".to_string(), "".to_string(), "rust".to_string(), "cli".to_string(), "  ".to_string(), "CLI".to_string()];
    assert_eq!(normalize_tags(&tags), vec!["Rust".to_string(), "cli".to_string()]);
    let once = normalize_tags(&tags);
    assert_eq!(normalize_tags(&once), once);
}

#[test]
fn normalize_namespace_cases() {
    assert_eq!(normalize_namespace(" /personal/garage/ ").unwrap().as_deref(), Some("personal/garage"));
    assert_eq!(normalize_namespace(" / ").unwrap(), None);
    assert_eq!(normalize_namespace("a//b").unwrap_err(), "namespace cannot contain empty segments");
    assert_eq!(normalize_namespace("a/./b").unwrap_err(), "namespace contains invalid path segments");
    assert_eq!(normalize_namespace("../a").unwrap_err(), "namespace contains invalid path segments");
    let once = normalize_namespace("work/x").unwrap().unwrap();
    assert_eq!(normalize_namespace(&once).unwrap().unwrap(), once);
}

#[test]
fn new_entry_and_touch() {
    let mut e = Entry::new("T".to_string(), Kind::Note, Priority::Low, Status::Done).unwrap();
    assert_eq!(e.created, e.updated);
    assert!(e.description.is_none() && e.tags.is_empty() && e.deadline.is_none() && e.namespace.is_none());
    assert!(e.created.secs > 1_600_000_000);
    assert!(e.created.nanos < 1_000_000_000);
    let created = e.created;
    e.updated = mind_store::time::Timestamp { secs: 0, nanos: 1_500_000_000 };
    e.touch().unwrap();
    assert_eq!(e.created, created);
    assert!(e.updated.nanos < 1_000_000_000);
    assert!(e.updated.secs >= created.secs);
    assert_eq!(e.title, "T");
}

#[test]
fn normalize_entry() {
    let mut e = Entry::new("T".to_string(), Kind::Note, Priority::Low, Status::Done).unwrap();
    e.description = Some("  text  ".to_string());
    e.tags = vec!["a".to_string(), " A ".to_string(), " b".to_string()];
    e.namespace = Some("/x/y/".to_string());
    e.normalize().unwrap();
    assert_eq!(e.description.as_deref(), Some("text"));
    assert_eq!(e.tags, vec!["a".to_string(), "b".to_string()]);
    assert_eq!(e.namespace.as_deref(), Some("x/y"));

    let mut blank = Entry::new("T".to_string(), Kind::Note, Priority::Low, Status::Done).unwrap();
    blank.description = Some("   ".to_string());
    blank.namespace = Some("a//b".to_string());
    blank.tags = vec![" z ".to_string()];
    assert_eq!(blank.normalize().unwrap_err(), "namespace cannot contain empty segments");
    assert!(blank.description.is_none());
    assert_eq!(blank.tags, vec!["z".to_string()]);
    assert_eq!(blank.namespace.as_deref(), Some("a//b"));
}
