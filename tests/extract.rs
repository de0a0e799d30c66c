use elm_forbid_imports::{aggregate, directories_to_walk, FoundImport, ImportFinder, ImportPattern, Position, ScanError};

fn pattern() -> ImportPattern {
    ImportPattern::new().expect("the import pattern compiles")
}

fn names(found: &[(String, Position)]) -> Vec<(String, usize, usize)> {
    found.iter().map(|(n, p)| (n.clone(), p.row, p.column)).collect()
}

#[test]
fn no_declaration_yields_nothing() {
    let p = pattern();
    assert!(p.extract_text("").is_empty());
    assert!(p.extract_text("module Main exposing (main)\n\nmain = text \"import Html\"\n").is_empty());
    assert!(p.extract_text("-- import Html\n  imports Foo\nimport html\n").is_empty());
}

#[test]
fn dotted_name_and_column() {
    let p = pattern();
    let found = p.extract_text("import Pkg.Sub.Name\n");
    assert_eq!(names(&found), vec![("Pkg.Sub.Name".to_string(), 1, 7)]);
    let found = p.extract_text("import    Html.Events exposing (onClick)\n");
    assert_eq!(names(&found), vec![("Html.Events".to_string(), 1, 10)]);
}

#[test]
fn declaration_on_line_three() {
    let p = pattern();
    let found = p.extract_text("module Main exposing (main)\n\nimport Html.Events\nimport Html as H\n");
    assert_eq!(
        names(&found),
        vec![("Html.Events".to_string(), 3, 7), ("Html".to_string(), 4, 7)]
    );
}

#[test]
fn imports_after_blank_lines_and_comments_are_found() {
    let p = pattern();
    let text = "import A\n\n-- a comment\nimport B exposing\n    ( b\n    )\nimport C\n\nmain = 1\n";
    assert_eq!(
        names(&p.extract_text(text)),
        vec![("A".to_string(), 1, 7), ("B".to_string(), 4, 7), ("C".to_string(), 7, 7)]
    );
}

#[test]
fn crlf_line_endings() {
    let p = pattern();
    let text = "module M exposing (..)\r\nimport Json.Decode\r\nimport Dict\r\n";
    assert_eq!(
        names(&p.extract_text(text)),
        vec![("Json.Decode".to_string(), 2, 7), ("Dict".to_string(), 3, 7)]
    );
}

#[test]
fn find_imports_attaches_path() {
    let p = pattern();
    let path = "/proj/src/Foo.elm".to_string();
    let found = p.find_imports(&path, b"import Html.Events\n").unwrap();
    assert_eq!(found.len(), 1);
    assert_eq!(found[0].import, "Html.Events");
    assert_eq!(found[0].path, "/proj/src/Foo.elm");
    assert_eq!(found[0].position, Position { row: 1, column: 7 });
}

#[test]
fn non_text_content_is_an_error() {
    let p = pattern();
    let path = "/proj/src/Bad.elm".to_string();
    assert_eq!(p.find_imports(&path, &[0x69, 0xff, 0xfe]).unwrap_err(), ScanError::NotText);
}

fn found(import: &str, path: &str, row: usize) -> FoundImport {
    FoundImport {
        import: import.to_string(),
        path: path.to_string(),
        position: Position { row, column: 7 },
    }
}

fn paths(v: &[FoundImport]) -> Vec<(String, usize)> {
    v.iter().map(|f| (f.path.clone(), f.position.row)).collect()
}

#[test]
fn aggregate_collapses_duplicates() {
    let m = aggregate(vec![
        found("Html", "/a.elm", 1),
        found("Html", "/a.elm", 1),
        found("Html", "/b.elm", 2),
        found("Dict", "/a.elm", 2),
    ]);
    let html = m.get(&"Html".to_string()).unwrap();
    assert_eq!(paths(html), vec![("/a.elm".to_string(), 1), ("/b.elm".to_string(), 2)]);
    assert_eq!(m.get(&"Dict".to_string()).unwrap().len(), 1);
    assert!(m.get(&"Json".to_string()).is_none());
}

#[test]
fn aggregate_orders_by_path_then_position() {
    let m = aggregate(vec![
        found("Html", "/src/b.elm", 2),
        found("Html", "/src/a.elm", 5),
        found("Html", "/src/a.elm", 1),
        found("Html", "/src/a/z.elm", 1),
    ]);
    assert_eq!(
        paths(m.get(&"Html".to_string()).unwrap()),
        vec![
            ("/src/a.elm".to_string(), 1),
            ("/src/a.elm".to_string(), 5),
            ("/src/a/z.elm".to_string(), 1),
            ("/src/b.elm".to_string(), 2),
        ]
    );
}

#[test]
fn aggregate_ignores_arrival_order() {
    let one = aggregate(vec![found("Html", "/a.elm", 1), found("Dict", "/b.elm", 1), found("Html", "/c.elm", 3)]);
    let two = aggregate(vec![found("Html", "/c.elm", 3), found("Html", "/a.elm", 1), found("Dict", "/b.elm", 1)]);
    for name in ["Html", "Dict", "Json"] {
        let name = name.to_string();
        match (one.get(&name), two.get(&name)) {
            (Some(a), Some(b)) => assert_eq!(paths(a), paths(b)),
            (None, None) => {}
            _ => panic!("the two scans disagree on {}", name),
        }
    }
}

#[test]
fn source_directories_join_each_root() {
    let finder = ImportFinder::new(vec!["/proj/app".to_string(), "/proj/lib".to_string()]);
    let declared = vec![vec!["src".to_string(), "tests".to_string()], vec!["src".to_string()]];
    assert_eq!(
        finder.source_directories(&declared),
        vec!["/proj/app/src", "/proj/app/tests", "/proj/lib/src"]
    );
}

#[test]
fn no_source_directory_is_an_error() {
    let finder = ImportFinder::new(vec!["/proj/app".to_string()]);
    let dirs = finder.source_directories(&vec![vec![]]);
    assert!(dirs.is_empty());
    assert_eq!(directories_to_walk(dirs).unwrap_err(), ScanError::NoSourceDirectories);
    let empty = ImportFinder::new(vec![]);
    assert_eq!(directories_to_walk(empty.source_directories(&vec![])).unwrap_err(), ScanError::NoSourceDirectories);
    assert_eq!(directories_to_walk(vec!["/proj/src".to_string()]).unwrap(), vec!["/proj/src".to_string()]);
}

#[test]
fn indentation_before_keyword() {
    let p = pattern();
    let found = p.extract_text("  import Html\n\timport Dict.Extra\n");
    assert_eq!(names(&found), vec![("Html".to_string(), 1, 9), ("Dict.Extra".to_string(), 2, 8)]);
}
