use mind_store::commands::insert::parse_deadline;
use mind_store::commands::show::show_fields;
use mind_store::time::{timestamp_after_epoch, Timestamp};
use mind_store::commands::edit::{edit_step, EditDraft, EditStep};
use mind_store::commands::ls::TreeNode;
use mind_store::commands::prompt::{Answer, Question};
use mind_store::entry::{normalize_namespace, normalize_tags, Entry, Kind, Priority, Status};
use mind_store::store::{entry_path, entry_slug, parse_namespace_and_slug};
use mind_store::time::Date;

#[test]
fn normalized_tags_keep_every_tag_up_to_case() {
    let tags = vec![" Rust".to_string(), "rust".to_string(), "  ".to_string(), "CLI ".to_string()];
    let out = normalize_tags(&tags);
    assert_eq!(out, vec!["Rust".to_string(), "CLI".to_string()]);
    assert!(out.len() <= tags.len());
    assert_eq!(normalize_tags(&out), out);
}

#[test]
fn identifier_reads_back_its_parts() {
    assert_eq!(
        parse_namespace_and_slug("personal/garage/rework").unwrap(),
        (Some("personal/garage".to_string()), "rework".to_string())
    );
    assert_eq!(parse_namespace_and_slug("rework").unwrap(), (None, "rework".to_string()));
    let path = entry_path("/store", "personal/rework").unwrap();
    assert_eq!(path, "/store/rework.toml");
    assert_eq!(entry_slug(&path, true).as_deref(), Some("rework"));
}

#[test]
fn namespace_is_read_again_as_itself() {
    let n = normalize_namespace(" /a/b.c/ ").unwrap().unwrap();
    assert_eq!(n, "a/b.c");
    assert_eq!(normalize_namespace(&n).unwrap().as_deref(), Some("a/b.c"));
}

fn path(parts: &[&str]) -> Vec<String> {
    parts.iter().map(|p| p.to_string()).collect()
}

#[test]
fn repeated_or_empty_insertion_changes_nothing() {
    let mut root = TreeNode::default();
    root.insert_path(&path(&["work", "x"]));
    root.insert_path(&path(&["work", "y"]));
    let before = root.child("work").unwrap().children.len();
    root.insert_path(&path(&["work", "x"]));
    root.insert_path(&[]);
    assert_eq!(root.children.len(), 1);
    assert!(!root.is_entry);
    let work = root.child("work").unwrap();
    assert_eq!(work.children.len(), before);
    assert!(work.child("x").unwrap().is_entry);
    assert!(work.child("x").unwrap().children.is_empty());
}

#[test]
fn accepting_every_default_keeps_the_entry() {
    let mut e = Entry::new("T".to_string(), Kind::Todo, Priority::High, Status::Done).unwrap();
    e.description = Some("text".to_string());
    e.tags = vec!["a".to_string(), "b c".to_string()];
    e.deadline = Some(Date { year: 2026, month: 3, day: 4 });
    let kept = e.clone();
    let mut d = EditDraft::new(e);
    let mut answer = None;
    loop {
        match edit_step(&mut d, answer.take()) {
            EditStep::Ask(Question::Choose { selected, .. }) => answer = Some(Answer::Chosen(selected)),
            EditStep::Ask(Question::Edit { .. }) => answer = Some(Answer::Edited(None)),
            EditStep::Ask(Question::Line { initial, .. }) => answer = Some(Answer::Text(initial)),
            EditStep::Next => {}
            EditStep::Failed(e) => panic!("{e}"),
            EditStep::Finished => break,
        }
    }
    assert_eq!(d.entry.kind, kept.kind);
    assert_eq!(d.entry.description, kept.description);
    assert_eq!(d.entry.priority, kept.priority);
    assert_eq!(d.entry.status, kept.status);
    assert_eq!(d.entry.deadline, kept.deadline);
    assert_eq!(d.entry.tags, kept.tags);
}

#[test]
fn four_digit_years_are_written_and_read_zero_padded() {
    let mut e = Entry::new("T".to_string(), Kind::Todo, Priority::High, Status::Done).unwrap();
    e.deadline = Some(Date { year: 42, month: 3, day: 4 });
    let mut d = EditDraft::new(e);
    for answer in [Answer::Chosen(1), Answer::Edited(None), Answer::Chosen(2), Answer::Chosen(1)] {
        assert!(matches!(edit_step(&mut d, Some(answer)), EditStep::Next));
    }
    match edit_step(&mut d, None) {
        EditStep::Ask(Question::Line { initial, .. }) => assert_eq!(initial, "0042-03-04"),
        _ => panic!("expected the deadline"),
    }
    assert_eq!(parse_deadline("0042-03-04").unwrap(), Date { year: 42, month: 3, day: 4 });
    assert!(parse_deadline("2026-02-29").is_err());
}

#[test]
fn timestamps_after_the_epoch() {
    assert_eq!(timestamp_after_epoch(1_700_000_000, 5), Some(Timestamp { secs: 1_700_000_000, nanos: 5 }));
    assert_eq!(timestamp_after_epoch(253_402_300_799, 0), Some(Timestamp { secs: 253_402_300_799, nanos: 0 }));
    assert_eq!(timestamp_after_epoch(u64::MAX, 0), None);
}

#[test]
fn show_lays_out_the_fields() {
    let mut e = Entry::new("T".to_string(), Kind::Todo, Priority::High, Status::Done).unwrap();
    let plain: Vec<(String, String)> =
        show_fields("x", &e, "c", "u").into_iter().map(|f| (f.label, f.value)).collect();
    assert_eq!(plain[1], ("Namespace".to_string(), "ungrouped".to_string()));
    assert_eq!(plain.len(), 7);
    e.namespace = Some("work".to_string());
    e.deadline = Some(Date { year: 2026, month: 12, day: 20 });
    e.tags = vec!["a".to_string(), "b".to_string()];
    let full: Vec<(String, String)> =
        show_fields("x", &e, "c", "u").into_iter().map(|f| (f.label, f.value)).collect();
    assert_eq!(
        full,
        vec![
            ("Slug".to_string(), "x".to_string()),
            ("Namespace".to_string(), "work".to_string()),
            ("Kind".to_string(), "todo".to_string()),
            ("Priority".to_string(), "high".to_string()),
            ("Status".to_string(), "done".to_string()),
            ("Created".to_string(), "c".to_string()),
            ("Updated".to_string(), "u".to_string()),
            ("Deadline".to_string(), "2026-12-20".to_string()),
            ("Tags".to_string(), "a, b".to_string()),
        ]
    );
}
