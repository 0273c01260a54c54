use mind_store::commands::edit::{edit_step, EditDraft, EditStep};
use mind_store::commands::insert::{insert_step, InsertDraft, InsertFlags, InsertStep};
use mind_store::commands::prompt::{Answer, Question};
use mind_store::entry::{Entry, Kind, Priority, Status};
use mind_store::time::Date;

fn no_flags() -> InsertFlags {
    InsertFlags { title: None, kind: None, description: None, priority: None, status: None, deadline: None, tags: None }
}

fn question(step: InsertStep) -> Question {
    match step {
        InsertStep::Ask(q) => q,
        _ => panic!("expected a question"),
    }
}

fn prompt_of(q: &Question) -> String {
    match q {
        Question::Line { prompt, .. } | Question::Choose { prompt, .. } => prompt.clone(),
        Question::Edit { .. } => "editor".to_string(),
    }
}

#[test]
fn interactive_insert_asks_what_flags_leave_open() {
    let mut flags = no_flags();
    flags.kind = Some("Todo".to_string());
    let mut d = InsertDraft::new("garage".to_string(), None, flags);

    match question(insert_step(&mut d, None)) {
        Question::Line { prompt, default, .. } => {
            assert_eq!(prompt, "Title");
            assert_eq!(default.as_deref(), Some("garage"));
        }
        _ => panic!("expected a line"),
    }
    assert!(matches!(insert_step(&mut d, Some(Answer::Text("Garage rework".to_string()))), InsertStep::Next));
    // The kind comes from its flag.
    assert!(matches!(insert_step(&mut d, None), InsertStep::Next));
    match question(insert_step(&mut d, None)) {
        Question::Edit { initial } => assert_eq!(initial, "Enter description (optional, save and close editor when done)"),
        _ => panic!("expected the editor"),
    }
    assert!(matches!(insert_step(&mut d, Some(Answer::Edited(Some("  fix door \n".to_string())))), InsertStep::Next));
    assert_eq!(prompt_of(&question(insert_step(&mut d, None))), "Namespace (leave empty for ungrouped)");
    assert!(matches!(insert_step(&mut d, Some(Answer::Text("personal/garage/".to_string()))), InsertStep::Next));
    match question(insert_step(&mut d, None)) {
        Question::Choose { prompt, items, selected } => {
            assert_eq!(prompt, "Priority");
            assert_eq!(items, vec!["low", "medium", "high", "critical"]);
            assert_eq!(selected, 1);
        }
        _ => panic!("expected a choice"),
    }
    assert!(matches!(insert_step(&mut d, Some(Answer::Chosen(2))), InsertStep::Next));
    match question(insert_step(&mut d, None)) {
        Question::Choose { prompt, items, selected } => {
            assert_eq!(prompt, "Status");
            assert_eq!(items, vec!["active", "done", "archived"]);
            assert_eq!(selected, 0);
        }
        _ => panic!("expected a choice"),
    }
    assert!(matches!(insert_step(&mut d, Some(Answer::Chosen(0))), InsertStep::Next));
    assert_eq!(prompt_of(&question(insert_step(&mut d, None))), "Deadline (YYYY-MM-DD, leave empty to skip)");
    assert!(matches!(insert_step(&mut d, Some(Answer::Text("2026-12-20".to_string()))), InsertStep::Next));
    assert_eq!(prompt_of(&question(insert_step(&mut d, None))), "Tags (comma-separated, leave empty to skip)");
    match insert_step(&mut d, Some(Answer::Text("rust, CLI, Rust,".to_string()))) {
        InsertStep::Built(e) => {
            assert_eq!(e.title, "Garage rework");
            assert_eq!(e.kind, Kind::Todo);
            assert_eq!(e.description.as_deref(), Some("fix door"));
            assert_eq!(e.namespace.as_deref(), Some("personal/garage"));
            assert_eq!(e.priority, Priority::High);
            assert_eq!(e.status, Status::Active);
            assert_eq!(e.deadline, Some(Date { year: 2026, month: 12, day: 20 }));
            assert_eq!(e.tags, vec!["rust".to_string(), "CLI".to_string()]);
            assert_eq!(e.created, e.updated);
        }
        _ => panic!("expected the entry"),
    }
}

#[test]
fn interactive_insert_takes_flags_and_reports_errors() {
    let mut flags = no_flags();
    flags.title = Some("  ".to_string());
    flags.kind = Some("thing".to_string());
    let mut d = InsertDraft::new("x".to_string(), Some("work".to_string()), flags);
    // A blank title flag is no title.
    assert!(matches!(insert_step(&mut d, None), InsertStep::Ask(Question::Line { .. })));
    assert!(matches!(insert_step(&mut d, Some(Answer::Text("X".to_string()))), InsertStep::Next));
    match insert_step(&mut d, None) {
        InsertStep::Failed(e) => assert_eq!(e, "unknown kind: thing"),
        _ => panic!("expected a failure"),
    }
    // An answer that does not fit the question is ignored.
    assert!(matches!(insert_step(&mut d, Some(Answer::Chosen(7))), InsertStep::Failed(_)));

    let mut flags = no_flags();
    flags.title = Some("T".to_string());
    flags.kind = Some("note".to_string());
    flags.description = Some("   ".to_string());
    flags.priority = Some("low".to_string());
    flags.status = Some("done".to_string());
    flags.deadline = Some("someday".to_string());
    let mut d = InsertDraft::new("y".to_string(), Some("work".to_string()), flags);
    for _ in 0..6 {
        assert!(matches!(insert_step(&mut d, None), InsertStep::Next));
    }
    match insert_step(&mut d, None) {
        InsertStep::Failed(e) => assert!(e.starts_with("invalid date format: ")),
        _ => panic!("expected a failure"),
    }

    let mut d = InsertDraft::new("z".to_string(), None, no_flags());
    assert!(matches!(insert_step(&mut d, Some(Answer::Text("Z".to_string()))), InsertStep::Next));
    assert!(matches!(insert_step(&mut d, Some(Answer::Chosen(2))), InsertStep::Next));
    assert!(matches!(insert_step(&mut d, Some(Answer::Edited(None))), InsertStep::Next));
    match insert_step(&mut d, Some(Answer::Text("a//b".to_string()))) {
        InsertStep::Failed(e) => assert_eq!(e, "namespace cannot contain empty segments"),
        _ => panic!("expected a failure"),
    }
}

fn edit_question(step: EditStep) -> Question {
    match step {
        EditStep::Ask(q) => q,
        _ => panic!("expected a question"),
    }
}

#[test]
fn interactive_edit_starts_from_current_values() {
    let mut e = Entry::new("T".to_string(), Kind::Note, Priority::Critical, Status::Done).unwrap();
    e.description = Some("old text".to_string());
    e.tags = vec!["a".to_string(), "b".to_string()];
    e.deadline = Some(Date { year: 2026, month: 3, day: 4 });
    let created = e.created;
    let mut d = EditDraft::new(e);

    match edit_question(edit_step(&mut d, None)) {
        Question::Choose { prompt, selected, .. } => {
            assert_eq!(prompt, "Kind");
            assert_eq!(selected, 2);
        }
        _ => panic!("expected a choice"),
    }
    assert!(matches!(edit_step(&mut d, Some(Answer::Chosen(1))), EditStep::Next));
    match edit_question(edit_step(&mut d, None)) {
        Question::Edit { initial } => assert_eq!(initial, "old text"),
        _ => panic!("expected the editor"),
    }
    // A blank text keeps the description.
    assert!(matches!(edit_step(&mut d, Some(Answer::Edited(Some(" \n".to_string())))), EditStep::Next));
    match edit_question(edit_step(&mut d, None)) {
        Question::Choose { prompt, selected, .. } => {
            assert_eq!(prompt, "Priority");
            assert_eq!(selected, 3);
        }
        _ => panic!("expected a choice"),
    }
    assert!(matches!(edit_step(&mut d, Some(Answer::Chosen(0))), EditStep::Next));
    match edit_question(edit_step(&mut d, None)) {
        Question::Choose { selected, .. } => assert_eq!(selected, 1),
        _ => panic!("expected a choice"),
    }
    assert!(matches!(edit_step(&mut d, Some(Answer::Chosen(2))), EditStep::Next));
    match edit_question(edit_step(&mut d, None)) {
        Question::Line { prompt, initial, default } => {
            assert_eq!(prompt, "Deadline (YYYY-MM-DD, clear to remove)");
            assert_eq!(initial, "2026-03-04");
            assert_eq!(default, None);
        }
        _ => panic!("expected a line"),
    }
    match edit_step(&mut d, Some(Answer::Text("3/4".to_string()))) {
        EditStep::Failed(e) => assert!(e.starts_with("invalid date format: ")),
        _ => panic!("expected a failure"),
    }
    assert!(matches!(edit_step(&mut d, Some(Answer::Text(String::new()))), EditStep::Next));
    match edit_question(edit_step(&mut d, None)) {
        Question::Line { initial, default, .. } => {
            assert_eq!(initial, "a, b");
            assert_eq!(default, None);
        }
        _ => panic!("expected a line"),
    }
    assert!(matches!(edit_step(&mut d, Some(Answer::Text(" x , y".to_string()))), EditStep::Finished));
    let e = d.entry;
    assert_eq!(e.kind, Kind::Todo);
    assert_eq!(e.description.as_deref(), Some("old text"));
    assert_eq!(e.priority, Priority::Low);
    assert_eq!(e.status, Status::Archived);
    assert_eq!(e.deadline, None);
    assert_eq!(e.tags, vec!["x".to_string(), "y".to_string()]);
    assert_eq!(e.created, created);
}
