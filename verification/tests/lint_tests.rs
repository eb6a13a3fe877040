use kb::index::artifacts::{DepEdge, TreeRecord};
use kb::policy::lint::{
    check_rule_prefixes, lint_all_at, scan_forbidden_fields, validate_dep_edges, validate_repo_path,
    validate_tree_records, LintInputs,
};

fn dir(path: &str) -> TreeRecord {
    TreeRecord { path: path.to_string(), kind: "dir".to_string(), bytes: None, lines: None, lang: None, top_symbols: None }
}

fn file(path: &str) -> TreeRecord {
    TreeRecord {
        path: path.to_string(),
        kind: "file".to_string(),
        bytes: Some(1),
        lines: Some(1),
        lang: Some("rust".to_string()),
        top_symbols: Some(vec!["a".to_string(), "b".to_string()]),
    }
}

#[test]
fn tree_records_must_be_well_formed_and_sorted() {
    assert!(validate_tree_records(&vec![dir("src/"), file("src/lib.rs")]).is_ok());
    assert_eq!(
        validate_tree_records(&vec![file("src/lib.rs"), dir("src/")]).unwrap_err().message,
        "tree.jsonl is not sorted"
    );
    assert_eq!(validate_tree_records(&vec![dir("src")]).unwrap_err().message, "dir path must end with '/'");
    let mut f = file("a.rs");
    f.top_symbols = Some(vec!["b".to_string(), "a".to_string()]);
    assert_eq!(validate_tree_records(&vec![f]).unwrap_err().message, "top_symbols must be sorted");
}

#[test]
fn generated_paths_stay_in_the_repository() {
    assert_eq!(validate_repo_path("/etc", "file").unwrap_err().message, "absolute paths are not allowed");
    assert_eq!(validate_repo_path("a\\b", "file").unwrap_err().message, "paths must use '/' separators");
    assert_eq!(validate_repo_path("a/../b", "file").unwrap_err().message, "path must not contain '..'");
    assert!(validate_repo_path("a/b", "file").is_ok());
}

#[test]
fn edges_need_exactly_one_target_and_a_known_kind() {
    let edge = |kind: &str, to_path: Option<&str>, to_external: Option<&str>| DepEdge {
        from_path: "a.c".to_string(),
        kind: kind.to_string(),
        to_path: to_path.map(str::to_string),
        to_external: to_external.map(str::to_string),
        raw: None,
    };
    let c_kind: String = ['i', 'n', 'c', 'l', 'u', 'd', 'e'].iter().collect();
    assert!(validate_dep_edges(&vec![edge(&c_kind, Some("b.h"), None)]).is_ok());
    assert_eq!(
        validate_dep_edges(&vec![edge("import", None, None)]).unwrap_err().message,
        "deps edge must have exactly one of to_path/to_external"
    );
    assert_eq!(validate_dep_edges(&vec![edge("weird", Some("b.h"), None)]).unwrap_err().message, "invalid deps kind");
}

#[test]
fn timestamp_like_fields_are_forbidden() {
    assert!(scan_forbidden_fields("kb/gen/tree.jsonl", "{\"path\":\"a\"}").is_ok());
    assert_eq!(
        scan_forbidden_fields("kb/gen/tree.jsonl", "{\"mtime\":1}").unwrap_err().message,
        "forbidden timestamp-like fields found"
    );
}

#[test]
fn rule_prefixes_must_be_normalized() {
    assert!(check_rule_prefixes(&vec![Some("src/".to_string()), None]).is_ok());
    let err = check_rule_prefixes(&vec![None, Some("./src/".to_string())]).unwrap_err();
    assert_eq!(err.message, "when_path_prefix must be normalized");
    assert_eq!(err.details[0].key, "normalized");
    assert_eq!(err.details[0].value, "src/");
}

fn inputs() -> LintInputs {
    LintInputs {
        obligations: Ok("[[rule]]\nid = \"core\"\nwhen_path_prefix = \"src/\"\n".to_string()),
        configs: vec![Ok("[[tag]]\nid = \"ok\"\n".to_string())],
        kb_meta: Ok(Ok(1)),
        tree: Ok(vec![Ok(dir("src/")), Ok(file("src/lib.rs"))]),
        symbols: Ok(vec![]),
        deps: Ok(vec![]),
        gen_texts: vec![Ok("{}".to_string()), Ok(String::new()), Ok(String::new()), Ok(String::new())],
        module_cards: vec![Ok("id = \"core\"\ntitle = \"Core\"\n".to_string())],
        facts: None,
        sessions: vec![],
    }
}

#[test]
fn lint_passes_a_clean_repository() {
    assert!(lint_all_at(inputs()).is_ok());
}

#[test]
fn lint_reports_the_first_problem() {
    let mut i = inputs();
    i.kb_meta = Ok(Ok(2));
    assert_eq!(lint_all_at(i).unwrap_err().message, "kb_format_version must be 1");
    let mut i = inputs();
    i.obligations = Err("missing".to_string());
    i.kb_meta = Ok(Ok(2));
    assert_eq!(lint_all_at(i).unwrap_err().message, "kb/config/obligations.toml is required");
    let mut i = inputs();
    i.sessions = vec![Ok("{\"session_id\":".to_string())];
    assert_eq!(lint_all_at(i).unwrap_err().message, "failed to parse session json");
    let mut i = inputs();
    i.sessions = vec![Ok("{\"session_id\":\"a\"}".to_string())];
    assert!(lint_all_at(i).is_ok());
    let mut i = inputs();
    i.obligations = Ok("[[rule]]\nid = \"core\"\nwhen_path_prefix = \"./src\"\n".to_string());
    assert_eq!(lint_all_at(i).unwrap_err().message, "when_path_prefix must be normalized");
    let mut i = inputs();
    i.obligations = Ok("[[rule]\n".to_string());
    assert_eq!(lint_all_at(i).unwrap_err().message, "failed to parse obligations.toml");
    let mut i = inputs();
    i.module_cards = vec![Ok("id = ".to_string())];
    assert_eq!(lint_all_at(i).unwrap_err().message, "failed to parse module card");
    let mut i = inputs();
    i.configs = vec![Err("denied".to_string())];
    assert_eq!(lint_all_at(i).unwrap_err().message, "failed to read config");
}

#[test]
fn a_regenerated_tree_passes_lint() {
    let files = vec![
        kb::index::tree::file_tree_record("src/query/pack.rs", b"fn a() {}\n"),
        kb::index::tree::file_tree_record("README.md", b"# kb\n"),
        kb::index::tree::file_tree_record("src/lib.rs", b"mod query;\n"),
    ];
    let tree = kb::index::tree::tree_records(files);
    let paths: Vec<&str> = tree.iter().map(|r| r.path.as_str()).collect();
    assert_eq!(paths, vec!["README.md", "src/", "src/lib.rs", "src/query/", "src/query/pack.rs"]);
    assert!(validate_tree_records(&tree).is_ok());
}

#[test]
fn regenerated_deps_pass_lint() {
    let repo_files = vec!["web/app.ts".to_string(), "web/util.ts".to_string(), "src/lib.rs".to_string()];
    let mut edges = kb::index::deps::file_dep_edges(
        "web/app.ts",
        b"import { a } from \"./util\";\nconst x = require(\"lodash\");\nimport(\"./util\");\n",
        &repo_files,
    );
    edges.extend(kb::index::deps::file_dep_edges("src/lib.rs", b"use std::fmt;\nuse serde::Serialize;\n", &repo_files));
    let sorted = kb::index::deps::sorted_dep_edges(&edges);
    assert_eq!(sorted.len(), 5);
    assert!(validate_dep_edges(&sorted).is_ok());
}

#[test]
fn regenerated_symbols_pass_lint() {
    let tag = |name: &str, path: &str, line: u64, pattern: Option<&str>| kb::index::symbols::CtagsRecord {
        ty: "tag".to_string(),
        name: Some(name.to_string()),
        path: Some(path.to_string()),
        pattern: pattern.map(|p| p.to_string()),
        language: Some("Rust".to_string()),
        line: Some(line),
        end: Some(line + 2),
        kind: Some("function".to_string()),
        signature: None,
        scope: None,
    };
    let records = vec![
        tag("foo", "./src/lib.rs", 1, Some("/^pub fn foo() {}$/")),
        tag("bar", "src\\main.rs", 4, None),
    ];
    let symbols = kb::index::symbols::symbol_records(&records).unwrap();
    assert_eq!(symbols.len(), 2);
    assert!(symbols.iter().all(|s| kb::policy::lint::is_valid_symbol_id(&s.symbol_id)));
    assert!(kb::policy::lint::validate_symbol_records(&symbols).is_ok());
}

#[test]
fn building_symbols_twice_gives_the_same_records() {
    let rec = kb::index::symbols::CtagsRecord {
        ty: "tag".to_string(),
        name: Some("foo".to_string()),
        path: Some("src/lib.rs".to_string()),
        pattern: None,
        language: None,
        line: Some(1),
        end: None,
        kind: Some("function".to_string()),
        signature: None,
        scope: None,
    };
    let a = kb::index::symbols::symbol_records(&vec![rec]).unwrap();
    let rec2 = kb::index::symbols::CtagsRecord {
        ty: "tag".to_string(),
        name: Some("foo".to_string()),
        path: Some("src/lib.rs".to_string()),
        pattern: None,
        language: None,
        line: Some(1),
        end: None,
        kind: Some("function".to_string()),
        signature: None,
        scope: None,
    };
    let b = kb::index::symbols::symbol_records(&vec![rec2]).unwrap();
    assert_eq!(format!("{a:?}"), format!("{b:?}"));
    assert!(a[0].symbol_id.starts_with("sym:v1:") && a[0].symbol_id.len() == 71);
}

#[test]
fn edges_sort_by_target_then_raw_and_keep_distinct_ties() {
    let edge = |to_path: Option<&str>, to_external: Option<&str>, raw: Option<&str>| DepEdge {
        from_path: "web/app.ts".to_string(),
        kind: "import".to_string(),
        to_path: to_path.map(|s| s.to_string()),
        to_external: to_external.map(|s| s.to_string()),
        raw: raw.map(|s| s.to_string()),
    };
    let edges = vec![
        edge(None, Some("web/util.ts"), Some("import x")),
        edge(Some("web/util.ts"), None, None),
        edge(Some("web/util.ts"), None, None),
        edge(None, Some("a"), None),
    ];
    let sorted = kb::index::deps::sorted_dep_edges(&edges);
    assert_eq!(sorted.len(), 3);
    assert_eq!(sorted[0].to_external.as_deref(), Some("a"));
    assert_eq!(sorted[1].to_path.as_deref(), Some("web/util.ts"));
    assert_eq!(sorted[2].raw.as_deref(), Some("import x"));
}
