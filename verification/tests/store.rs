use mind_store::store::{
    check_namespace, ensure_store_exists, entry_path, entry_slug, parse_namespace_and_slug,
    resolve_identifier, list_entry_paths, store_dir, validate_slug,
};

#[test]
fn validate_slug_accepts_flat_identifiers() {
    assert_eq!(validate_slug("rework").unwrap(), "rework");
    assert_eq!(validate_slug("project-x_1").unwrap(), "project-x_1");
}

#[test]
fn validate_slug_rejects_path_separators() {
    assert!(validate_slug("personal/rework").is_err());
    assert!(validate_slug("../rework").is_err());
}

#[test]
fn parse_namespace_and_slug_splits_compat_identifier() {
    let (namespace, slug) = parse_namespace_and_slug("personal/garage/rework").unwrap();
    assert_eq!(namespace.as_deref(), Some("personal/garage"));
    assert_eq!(slug, "rework");
}

#[test]
fn parse_namespace_and_slug_slug_only() {
    let (namespace, slug) = parse_namespace_and_slug("rework").unwrap();
    assert_eq!(namespace, None);
    assert_eq!(slug, "rework");
}

#[test]
fn validate_slug_trims_and_drops_toml_extensions() {
    assert_eq!(validate_slug("  idea.toml ").unwrap(), "idea");
    assert_eq!(validate_slug("idea.toml.toml").unwrap(), "idea");
    assert_eq!(validate_slug("v1.2").unwrap(), "v1.2");
}

#[test]
fn validate_slug_errors() {
    assert_eq!(validate_slug("   ").unwrap_err(), "slug cannot be empty");
    assert_eq!(validate_slug(".toml").unwrap_err(), "slug cannot be empty");
    assert_eq!(validate_slug("a\\b").unwrap_err(), "slug cannot contain path separators");
    assert_eq!(
        validate_slug("caf\u{e9}").unwrap_err(),
        "slug can only contain letters, numbers, '-', '_' and '.'"
    );
    assert_eq!(
        validate_slug("two words").unwrap_err(),
        "slug can only contain letters, numbers, '-', '_' and '.'"
    );
}

#[test]
fn validate_slug_is_idempotent() {
    for input in ["rework", " a.toml", "x.y.toml.toml", "A-b_c"] {
        let once = validate_slug(input).unwrap();
        assert_eq!(validate_slug(&once).unwrap(), once);
    }
}

#[test]
fn parse_identifier_errors() {
    assert_eq!(parse_namespace_and_slug(" / ").unwrap_err(), "entry identifier cannot be empty");
    assert_eq!(
        parse_namespace_and_slug("a//b/slug").unwrap_err(),
        "namespace cannot contain empty segments"
    );
    assert_eq!(
        parse_namespace_and_slug("a/../slug").unwrap_err(),
        "namespace contains invalid path segments"
    );
    assert_eq!(parse_namespace_and_slug("ns/bad slug").unwrap_err(), "slug can only contain letters, numbers, '-', '_' and '.'");
}

#[test]
fn parse_identifier_trims_outer_slashes() {
    let (namespace, slug) = parse_namespace_and_slug(" /work/x/ ").unwrap();
    assert_eq!(namespace.as_deref(), Some("work"));
    assert_eq!(slug, "x");
}

#[test]
fn entry_path_is_flat() {
    assert_eq!(entry_path("/s", "personal/garage/rework").unwrap(), "/s/rework.toml");
    assert_eq!(entry_path("/s/", "rework").unwrap(), "/s/rework.toml");
    assert_eq!(entry_path("/s", "rework").unwrap(), entry_path("/s", "a/b/rework").unwrap());
}

#[test]
fn resolve_identifier_gives_path_namespace_and_slug() {
    let (path, ns, slug) = resolve_identifier("/store", "work/task").unwrap();
    assert_eq!(path, "/store/task.toml");
    assert_eq!(ns.as_deref(), Some("work"));
    assert_eq!(slug, "task");
}

#[test]
fn store_dir_prefers_the_variable() {
    assert_eq!(store_dir(Some("/custom".to_string()), Some("/home/u".to_string())), "/custom");
    assert_eq!(store_dir(None, Some("/home/u".to_string())), "/home/u/.mind-store");
    assert_eq!(store_dir(None, Some("/home/u/".to_string())), "/home/u/.mind-store");
}

#[test]
fn ensure_store_exists_reports_missing_store() {
    assert!(ensure_store_exists("/s", true).is_ok());
    assert_eq!(
        ensure_store_exists("/s", false).unwrap_err(),
        "Mind store not found at /s. Run `mind init` first."
    );
}

#[test]
fn entry_slug_takes_stem_of_toml_files() {
    assert_eq!(entry_slug("/s/rework.toml", true).as_deref(), Some("rework"));
    assert_eq!(entry_slug("/s/a.b.toml", true).as_deref(), Some("a.b"));
    assert_eq!(entry_slug("/s/rework.toml", false), None);
    assert_eq!(entry_slug("/s/notes.txt", true), None);
    assert_eq!(entry_slug("/s/.toml", true), None);
    assert_eq!(entry_slug("/s/README", true), None);
}

#[test]
fn list_entry_paths_filters_and_sorts() {
    let items = vec![
        ("/s/zeta.toml".to_string(), true),
        ("/s/.hidden.toml".to_string(), true),
        ("/s/alpha.toml".to_string(), true),
        ("/s/dir.toml".to_string(), false),
        ("/s/notes.md".to_string(), true),
        ("/s/.git".to_string(), false),
    ];
    assert_eq!(
        list_entry_paths(&items),
        vec!["/s/alpha.toml".to_string(), "/s/zeta.toml".to_string()]
    );
}

#[test]
fn check_namespace_reports_mismatch() {
    assert!(check_namespace("x", &None, &Some("a".to_string())).is_ok());
    assert!(check_namespace("x", &Some("a".to_string()), &Some("a".to_string())).is_ok());
    assert_eq!(
        check_namespace("x", &Some("a".to_string()), &None).unwrap_err(),
        "Entry 'x' exists but is in namespace 'ungrouped' (requested 'a')."
    );
    assert_eq!(
        check_namespace("x", &Some("a".to_string()), &Some("b".to_string())).unwrap_err(),
        "Entry 'x' exists but is in namespace 'b' (requested 'a')."
    );
}
