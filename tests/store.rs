use elm_forbid_imports::{
    aggregate, all_in_config, current_usages_of, exit_code, diff_usages, CheckResult, ErrorLocation, ForbiddenImport,
    FoundImport, ImportMap, PathError, Position, Store, Usage,
};

const CONFIG: &str = "/proj/forbidden-imports.toml";

fn store() -> Store {
    Store::new(CONFIG.to_string())
}

fn found(import: &str, path: &str, row: usize, column: usize) -> FoundImport {
    FoundImport { import: import.to_string(), path: path.to_string(), position: Position { row, column } }
}

fn hint_of(r: &CheckResult) -> Option<String> {
    match &r.error_location {
        ErrorLocation::InElmSource { hint } => hint.clone(),
        ErrorLocation::InConfig => None,
    }
}

#[test]
fn forbid_adds_then_replaces_hint() {
    let mut s = store();
    s.forbid("Html.Events".to_string(), None);
    s.forbid("Json.Decode".to_string(), Some("use our decoders".to_string()));
    s.forbid("Html.Events".to_string(), Some("use our wrapper".to_string()));
    let f = s.forbidden();
    assert_eq!(f.len(), 2);
    assert_eq!(f[0].name, "Html.Events");
    assert_eq!(f[0].hint.as_deref(), Some("use our wrapper"));
    assert_eq!(f[1].name, "Json.Decode");
}

#[test]
fn unforbid_removes_only_that_name() {
    let mut s = store();
    s.forbid("A".to_string(), None);
    s.forbid("B".to_string(), None);
    s.unforbid("A".to_string());
    s.unforbid("Missing".to_string());
    assert_eq!(s.forbidden().len(), 1);
    assert_eq!(s.forbidden()[0].name, "B");
}

#[test]
fn roots_are_stored_relative() {
    let mut s = store();
    s.add_root("/proj/pkgA".to_string()).unwrap();
    s.add_root("/proj/pkgA".to_string()).unwrap();
    s.add_root("/other/pkgB".to_string()).unwrap();
    assert_eq!(s.roots(), &vec!["pkgA".to_string(), "../other/pkgB".to_string()]);
}

#[test]
fn add_then_remove_root_restores_roots() {
    let mut s = store();
    s.add_root("/proj/lib".to_string()).unwrap();
    let before = s.roots().clone();
    s.add_root("/proj/pkgA".to_string()).unwrap();
    s.remove_root("/proj/pkgA".to_string()).unwrap();
    assert_eq!(s.roots(), &before);
}

#[test]
fn relative_config_resolves_against_its_directory() {
    let s = Store::new("forbidden-imports.toml".to_string());
    assert_eq!(s.relative_to_config_path(&"pkgA".to_string()).unwrap(), "pkgA");
}

#[test]
fn config_without_parent_is_an_error() {
    let mut s = Store::new(String::new());
    assert_eq!(s.add_root("pkgA".to_string()), Err(PathError::NoParent));
    assert!(s.roots().is_empty());
}

#[test]
fn no_relative_path_is_an_error() {
    let mut s = store();
    assert_eq!(s.add_root("pkgA".to_string()), Err(PathError::NoRelativePath));
    assert_eq!(s.remove_root("pkgA".to_string()), Err(PathError::NoRelativePath));
}

#[test]
fn check_reports_new_usage_with_hint() {
    let mut s = Store::new(String::from(CONFIG));
    s.forbid("Html.Events".to_string(), Some("use our wrapper".to_string()));
    let scan = aggregate(vec![found("Html.Events", "/proj/src/Main.elm", 3, 7), found("Html", "/proj/src/Main.elm", 4, 7)]);
    let results = s.check(&scan, &"/proj".to_string());
    assert_eq!(results.len(), 1);
    let r = &results[0];
    assert_eq!(r.path, "src/Main.elm");
    assert_eq!(r.position, Some(Position { row: 3, column: 7 }));
    assert_eq!(r.import, "Html.Events");
    assert_eq!(hint_of(r).as_deref(), Some("use our wrapper"));
    assert!(!r.error_is_in_config());
}

#[test]
fn check_reports_removed_usage_then_update_clears_it() {
    let mut s = store();
    s.forbid("Html.Events".to_string(), None);
    let parent = "/proj".to_string();
    s.update(&aggregate(vec![found("Html.Events", "/proj/Foo.elm", 2, 7)]), &parent);
    assert_eq!(s.forbidden()[0].usages, vec!["Foo.elm".to_string()]);
    let edited = aggregate(vec![found("Html", "/proj/Foo.elm", 2, 7)]);
    let results = s.check(&edited, &parent);
    assert_eq!(results.len(), 1);
    assert_eq!(results[0].path, "Foo.elm");
    assert_eq!(results[0].import, "Html.Events");
    assert_eq!(results[0].position, None);
    assert!(results[0].error_is_in_config());
    s.update(&edited, &parent);
    assert!(s.forbidden()[0].usages.is_empty());
    assert!(s.check(&edited, &parent).is_empty());
}

#[test]
fn check_counts_added_and_removed() {
    let names = |v: &[&str]| v.iter().map(|s| s.to_string()).collect::<Vec<String>>();
    let recorded = names(&["A.elm", "B.elm", "C.elm"]);
    let current = vec![
        Usage { path: "B.elm".to_string(), position: Position { row: 2, column: 7 } },
        Usage { path: "D.elm".to_string(), position: Position { row: 5, column: 7 } },
        Usage { path: "E.elm".to_string(), position: Position { row: 1, column: 9 } },
    ];
    let events = diff_usages(&"X".to_string(), &None, &recorded, &current);
    let in_source: Vec<&str> = events.iter().filter(|e| !e.error_is_in_config()).map(|e| e.path.as_str()).collect();
    let in_config: Vec<&str> = events.iter().filter(|e| e.error_is_in_config()).map(|e| e.path.as_str()).collect();
    assert_eq!(in_source, vec!["D.elm", "E.elm"]);
    assert_eq!(in_config, vec!["A.elm", "C.elm"]);
    assert_eq!(events[1].position, Some(Position { row: 1, column: 9 }));
}

#[test]
fn update_then_check_is_clean() {
    let mut s = store();
    s.forbid("Html".to_string(), None);
    s.forbid("Dict".to_string(), None);
    let scan = aggregate(vec![
        found("Html", "/proj/a/One.elm", 1, 7),
        found("Html", "/proj/Two.elm", 3, 7),
        found("Dict", "/proj/Two.elm", 4, 7),
    ]);
    let parent = "/proj".to_string();
    assert_eq!(s.check(&scan, &parent).len(), 3);
    s.update(&scan, &parent);
    assert!(s.check(&scan, &parent).is_empty());
}

#[test]
fn current_usages_keep_last_position_per_file() {
    let scan = aggregate(vec![found("Html", "/proj/B.elm", 1, 7), found("Html", "/proj/A.elm", 9, 7), found("Html", "/proj/A.elm", 3, 7)]);
    let usages = current_usages_of(scan.get(&"Html".to_string()).unwrap(), &"/proj".to_string());
    let got: Vec<(String, usize)> = usages.iter().map(|u| (u.path.clone(), u.position.row)).collect();
    assert_eq!(got, vec![("A.elm".to_string(), 9), ("B.elm".to_string(), 1)]);
}

#[test]
fn empty_scan_map_has_no_group() {
    let m = ImportMap::new();
    assert!(m.get(&"Html".to_string()).is_none());
}

#[test]
fn parts_round_trip() {
    let mut s = store();
    s.add_root("/proj/pkgA".to_string()).unwrap();
    s.forbid("Html.Events".to_string(), Some("use our wrapper".to_string()));
    s.update(&aggregate(vec![found("Html.Events", "/proj/pkgA/Foo.elm", 1, 7)]), &"/proj".to_string());
    let (config, roots, forbidden) = s.into_parts();
    let back = Store::from_parts(config.clone(), roots.clone(), forbidden).unwrap();
    assert_eq!(back.config_path(), &config);
    assert_eq!(back.roots(), &roots);
    assert_eq!(back.forbidden()[0].name, "Html.Events");
    assert_eq!(back.forbidden()[0].hint.as_deref(), Some("use our wrapper"));
    assert_eq!(back.forbidden()[0].usages, vec!["pkgA/Foo.elm".to_string()]);
}

#[test]
fn parts_with_repeats_are_refused() {
    let entry = |n: &str| ForbiddenImport { name: n.to_string(), hint: None, usages: vec![] };
    assert!(Store::from_parts(CONFIG.to_string(), vec!["a".to_string(), "a".to_string()], vec![]).is_none());
    assert!(Store::from_parts(CONFIG.to_string(), vec![], vec![entry("A"), entry("A")]).is_none());
    let twice = ForbiddenImport { name: "B".to_string(), hint: None, usages: vec!["x".to_string(), "x".to_string()] };
    assert!(Store::from_parts(CONFIG.to_string(), vec![], vec![twice]).is_none());
    assert!(Store::from_parts(CONFIG.to_string(), vec!["a".to_string()], vec![entry("A"), entry("B")]).is_some());
    assert!(Store::from_parts(CONFIG.to_string(), vec![], vec![entry("B"), entry("A")]).is_none());
}

#[test]
fn exit_code_follows_findings() {
    let mut s = store();
    s.forbid("Html.Events".to_string(), Some("use our wrapper".to_string()));
    let parent = "/proj".to_string();
    let scan = aggregate(vec![found("Html.Events", "/proj/src/Main.elm", 3, 7)]);
    let results = s.check(&scan, &parent);
    assert_eq!(exit_code(&results), 1);
    assert!(!all_in_config(&results));
    s.update(&scan, &parent);
    let clean = s.check(&scan, &parent);
    assert_eq!(exit_code(&clean), 0);
    assert!(!all_in_config(&clean));
    let gone = s.check(&ImportMap::new(), &parent);
    assert_eq!(exit_code(&gone), 1);
    assert!(all_in_config(&gone));
}

#[test]
fn forbidden_names_and_events_in_name_order() {
    let mut s = store();
    s.forbid("Json.Decode".to_string(), None);
    s.forbid("Html".to_string(), None);
    s.forbid("Dict".to_string(), None);
    let names: Vec<&str> = s.forbidden().iter().map(|f| f.name.as_str()).collect();
    assert_eq!(names, vec!["Dict", "Html", "Json.Decode"]);
    let scan = aggregate(vec![
        found("Json.Decode", "/proj/A.elm", 1, 7),
        found("Html", "/proj/B.elm", 2, 7),
        found("Dict", "/proj/C.elm", 3, 7),
    ]);
    let events: Vec<String> = s.check(&scan, &"/proj".to_string()).iter().map(|e| e.import.clone()).collect();
    assert_eq!(events, vec!["Dict", "Html", "Json.Decode"]);
}
