use mind_store::commands::edit::{apply_flags, not_found};
use mind_store::commands::find::find_match;
use mind_store::commands::git_cmd;
use mind_store::commands::grep::{entry_name, grep_lines};
use mind_store::commands::insert::{already_exists, build_from_flags, clean_text, effective_namespace, parse_deadline, parse_tags};
use mind_store::entry::{Entry, Kind, Priority, Status};
use mind_store::extensions::{config_path, configured_binaries};
use mind_store::git::{self, CommitPhase, GitStep, InitPhase, RemotePhase};
use mind_store::time::Date;

fn args(step: &GitStep) -> Vec<String> {
    match step {
        GitStep::Run(a) => a.clone(),
        GitStep::Finish(_) => panic!("expected a command"),
    }
}

fn outcome(step: GitStep) -> Result<(), String> {
    match step {
        GitStep::Finish(r) => r,
        GitStep::Run(_) => panic!("expected the end"),
    }
}

#[test]
fn commit_runs_only_when_status_reports_changes() {
    let (p, s) = git::add_and_commit("mind: add x", CommitPhase::Start, None);
    assert_eq!(args(&s), vec!["add", "-A"]);
    let (p, s) = git::add_and_commit("mind: add x", p, Some(Ok(String::new())));
    assert_eq!(args(&s), vec!["status", "--porcelain"]);
    let (_, s2) = git::add_and_commit("mind: add x", CommitPhase::Checked, Some(Ok(" \n".to_string())));
    assert_eq!(outcome(s2), Ok(()));
    let (p, s) = git::add_and_commit("mind: add x", p, Some(Ok(" M x.toml\n".to_string())));
    assert_eq!(args(&s), vec!["commit", "-m", "mind: add x"]);
    let (_, s) = git::add_and_commit("mind: add x", p, Some(Ok(String::new())));
    assert_eq!(outcome(s), Ok(()));
    let (_, s) = git::add_and_commit("m", CommitPhase::Added, Some(Err("boom".to_string())));
    assert_eq!(outcome(s), Err("boom".to_string()));
}

#[test]
fn init_and_remote_steps() {
    let (p, s) = git::init(InitPhase::Start, None);
    assert_eq!(args(&s), vec!["init"]);
    assert_eq!(outcome(git::init(p, Some(Ok(String::new()))).1), Ok(()));
    let (p, s) = git::set_remote("u", RemotePhase::Start, None);
    assert_eq!(args(&s), vec!["remote", "add", "origin", "u"]);
    let (p2, s2) = git::set_remote("u", p, Some(Err("exists".to_string())));
    assert_eq!(args(&s2), vec!["remote", "set-url", "origin", "u"]);
    assert_eq!(outcome(git::set_remote("u", p2, Some(Err("bad".to_string()))).1), Err("bad".to_string()));
    assert_eq!(outcome(git::set_remote("u", RemotePhase::Adding, Some(Ok(String::new()))).1), Ok(()));
}

#[test]
fn git_outcomes() {
    let a = vec!["status".to_string(), "--porcelain".to_string()];
    assert_eq!(git::run_git_outcome(&a, true, "out".to_string(), ""), Ok("out".to_string()));
    assert_eq!(git::run_git_outcome(&a, false, String::new(), "fatal"), Err("git status --porcelain: fatal".to_string()));
    assert_eq!(git::passthrough(&a, false), Err("git status --porcelain failed".to_string()));
    assert!(git::passthrough(&a, true).is_ok());
}

#[test]
fn git_cmd_needs_store_and_arguments() {
    assert!(git_cmd::run("/s", true, &vec!["log".to_string()]).is_ok());
    assert_eq!(git_cmd::run("/s", true, &vec![]).unwrap_err(), "No git arguments provided. Usage: mind git <args...>");
    assert_eq!(git_cmd::run("/s", false, &vec![]).unwrap_err(), "Mind store not found at /s. Run `mind init` first.");
}

#[test]
fn find_matches_slug_title_and_namespace() {
    let mut e = Entry::new("Garage Rework".to_string(), Kind::Idea, Priority::Low, Status::Active).unwrap();
    e.namespace = Some("personal/garage".to_string());
    assert_eq!(find_match("rework", &e, "GARAGE").as_deref(), Some("personal/garage/rework"));
    assert_eq!(find_match("rework", &e, "kitchen"), None);
    let plain = Entry::new("Other".to_string(), Kind::Idea, Priority::Low, Status::Active).unwrap();
    assert_eq!(find_match("x1", &plain, "oth").as_deref(), Some("x1"));
}

#[test]
fn grep_keeps_matching_lines() {
    let text = "title = \"Rust CLI\"\r\nkind = \"idea\"\ntags = [\"rust\"]\n";
    assert_eq!(
        grep_lines(text, "RUST"),
        Some(vec!["title = \"Rust CLI\"".to_string(), "tags = [\"rust\"]".to_string()])
    );
    assert_eq!(grep_lines(text, "python"), None);
    assert_eq!(grep_lines("a\nb", "a\nb"), None);
    assert_eq!(entry_name("/s", "/s/rework.toml"), "rework");
    assert_eq!(entry_name("/s", "/s/old/task.toml"), "old/task");
}

#[test]
fn build_from_flags_builds_normalised_entries() {
    let e = build_from_flags(
        "rework",
        Some("  Garage  "),
        Some("personal/garage".to_string()),
        "TODO",
        Some("  plan  "),
        "high",
        None,
        Some("2026-12-20"),
        Some("rust, cli ,RUST,,"),
    )
    .unwrap();
    assert_eq!(e.title, "Garage");
    assert_eq!(e.kind, Kind::Todo);
    assert_eq!(e.priority, Priority::High);
    assert_eq!(e.status, Status::Active);
    assert_eq!(e.description.as_deref(), Some("plan"));
    assert_eq!(e.deadline, Some(Date { year: 2026, month: 12, day: 20 }));
    assert_eq!(e.tags, vec!["rust".to_string(), "cli".to_string()]);
    assert_eq!(e.namespace.as_deref(), Some("personal/garage"));
    assert_eq!(e.created, e.updated);

    let d = build_from_flags("s", Some("   "), None, "idea", Some("  "), "low", Some("done"), None, None).unwrap();
    assert_eq!(d.title, "s");
    assert_eq!(d.description, None);
    assert_eq!(d.status, Status::Done);
    assert!(d.tags.is_empty());
}

#[test]
fn build_from_flags_errors_in_order() {
    assert_eq!(build_from_flags("s", None, None, "x", None, "y", None, None, None).unwrap_err(), "unknown kind: x");
    assert_eq!(build_from_flags("s", None, None, "idea", None, "y", None, None, None).unwrap_err(), "unknown priority: y");
    assert_eq!(build_from_flags("s", None, None, "idea", None, "low", Some("z"), None, None).unwrap_err(), "unknown status: z");
    assert!(build_from_flags("s", None, None, "idea", None, "low", None, Some("soon"), None).unwrap_err().starts_with("invalid date format: "));
    assert_eq!(
        build_from_flags("s", None, Some("a//b".to_string()), "idea", None, "low", None, None, None).unwrap_err(),
        "namespace cannot contain empty segments"
    );
}

#[test]
fn insert_helpers() {
    assert_eq!(parse_tags(" a,b , A"), vec!["a".to_string(), "b".to_string()]);
    assert_eq!(clean_text(Some("  x ")).as_deref(), Some("x"));
    assert_eq!(clean_text(Some("  ")), None);
    assert_eq!(effective_namespace(Some("/w/"), Some("c".to_string())).unwrap().as_deref(), Some("w"));
    assert_eq!(effective_namespace(None, Some("c".to_string())).unwrap().as_deref(), Some("c"));
    assert_eq!(parse_deadline("2026-01-02").unwrap(), Date { year: 2026, month: 1, day: 2 });
    assert_eq!(already_exists("x"), "Entry 'x' already exists. Use `mind edit x` instead.");
    assert_eq!(not_found("x"), "Entry 'x' not found.");
}

fn sample() -> Entry {
    let mut e = Entry::new("T".to_string(), Kind::Idea, Priority::Low, Status::Active).unwrap();
    e.description = Some("first".to_string());
    e.tags = vec!["a".to_string()];
    e.deadline = Some(Date { year: 2026, month: 1, day: 1 });
    e.namespace = Some("work".to_string());
    e
}

#[test]
fn apply_flags_updates_only_given_fields() {
    let mut e = sample();
    apply_flags(&mut e, None, None, None, None, Some("second"), Some("HIGH"), Some("done"), Some("none"), Some("x, y")).unwrap();
    assert_eq!(e.description.as_deref(), Some("first\nsecond"));
    assert_eq!(e.priority, Priority::High);
    assert_eq!(e.status, Status::Done);
    assert_eq!(e.deadline, None);
    assert_eq!(e.tags, vec!["x".to_string(), "y".to_string()]);
    assert_eq!(e.kind, Kind::Idea);
    assert_eq!(e.namespace.as_deref(), Some("work"));
    apply_flags(&mut e, Some(" New "), Some("none"), Some("note"), Some("replaced"), None, None, None, Some("2027-05-06"), Some("none")).unwrap();
    assert_eq!(e.title, "New");
    assert_eq!(e.namespace, None);
    assert_eq!(e.kind, Kind::Note);
    assert_eq!(e.description.as_deref(), Some("replaced"));
    assert_eq!(e.deadline, Some(Date { year: 2027, month: 5, day: 6 }));
    assert!(e.tags.is_empty());
}

#[test]
fn apply_flags_stops_at_first_bad_flag() {
    let mut e = sample();
    assert_eq!(
        apply_flags(&mut e, None, None, None, Some("a"), Some("b"), None, None, None, None).unwrap_err(),
        "use either --description or --append-description, not both"
    );
    assert_eq!(e.description.as_deref(), Some("first"));
    assert_eq!(apply_flags(&mut e, None, None, Some("note"), Some("new"), None, Some("bad"), Some("done"), None, None).unwrap_err(), "unknown priority: bad");
    // The flags before the bad one are applied, the ones after it are not.
    assert_eq!(e.kind, Kind::Note);
    assert_eq!(e.description.as_deref(), Some("new"));
    assert_eq!(e.priority, Priority::Low);
    assert_eq!(e.status, Status::Active);
    assert_eq!(apply_flags(&mut e, None, Some("a/.."), None, None, None, None, None, None, None).unwrap_err(), "namespace contains invalid path segments");
    assert_eq!(e.namespace.as_deref(), Some("work"));
}

#[test]
fn extension_configuration() {
    assert_eq!(config_path(Some("/home/u".to_string())), "/home/u/.config/mind-store/config.toml");
    assert_eq!(config_path(None), ".config/mind-store/config.toml");
    assert_eq!(
        configured_binaries(Some(vec!["mind-calendar".to_string(), "  ".to_string(), "b".to_string()])),
        vec!["mind-calendar".to_string(), "b".to_string()]
    );
    assert!(configured_binaries(None).is_empty());
}
