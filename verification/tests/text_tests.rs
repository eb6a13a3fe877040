use kb::json::json_array_text;
use kb::error::{ErrorCode, KbError};
use kb::query::list::{
    list_facts_text, list_modules_text, list_symbols_text, list_tags_text, FactSummary, ListFactsOutput,
    ListModulesOutput, ListSymbolsOutput, ListTagsOutput, ModuleListEntry, SymbolListEntry,
};
use kb::query::plan::{plan_diff_text, ChangedPath, PlanDiffOutput, Required, TriggeredRule};

#[test]
fn errors_print_as_code_and_message() {
    let err = KbError::not_found("missing thing");
    assert_eq!(err.to_text(), "NOT_FOUND: missing thing");
    let j = err.to_json_error();
    assert_eq!(j.error.code, "NOT_FOUND");
    assert_eq!(j.error.message, "missing thing");
    assert_eq!(ErrorCode::BackendMissing.as_str(), "BACKEND_MISSING");
}

#[test]
fn list_outputs_render_one_line_each() {
    let tags = ListTagsOutput { tags: vec!["a".to_string(), "b".to_string()] };
    assert_eq!(list_tags_text(&tags), "a\nb");
    let modules = ListModulesOutput {
        modules: vec![
            ModuleListEntry { module_id: "core".to_string(), title: "Core".to_string() },
            ModuleListEntry { module_id: "web".to_string(), title: "Web UI".to_string() },
        ],
    };
    assert_eq!(list_modules_text(&modules), "core: Core\nweb: Web UI");
    let facts = ListFactsOutput {
        fact_type: None,
        tag: None,
        facts: vec![FactSummary { fact_id: "f.a".to_string(), fact_type: "note".to_string(), tags: vec![] }],
    };
    assert_eq!(list_facts_text(&facts), "f.a");
    let symbols = ListSymbolsOutput {
        path: "src/lib.rs".to_string(),
        kind: None,
        symbols: vec![SymbolListEntry {
            symbol_id: "sym:v1:ab".to_string(),
            name: "run".to_string(),
            qualified_name: "app::run".to_string(),
        }],
    };
    assert_eq!(list_symbols_text(&symbols), "sym:v1:ab app::run");
    assert_eq!(list_tags_text(&ListTagsOutput { tags: vec![] }), "");
}

#[test]
fn a_plan_renders_its_sections() {
    let plan = PlanDiffOutput {
        diff_source: "worktree".to_string(),
        policy: "default".to_string(),
        changed_paths: vec![ChangedPath { path: "src/lib.rs".to_string(), change_kind: "modify".to_string() }],
        affected_modules: vec!["core".to_string()],
        triggered_rules: vec![TriggeredRule { id: "core".to_string(), when_path_prefix: "src/".to_string() }],
        required: Required {
            module_cards: vec!["core".to_string(), "web".to_string()],
            fact_types: vec![],
            session_capsule: true,
        },
    };
    assert_eq!(
        plan_diff_text(&plan),
        "diff_source: worktree\npolicy: default\nchanged_paths:\n- src/lib.rs (modify)\ntriggered_rules:\n- core (prefix=src/)\nrequired:\n- module_cards: core, web\n- fact_types: \n- session_capsule: true"
    );
}


fn tree_file(path: &str) -> kb::index::artifacts::TreeRecord {
    kb::index::artifacts::TreeRecord {
        path: path.to_string(),
        kind: "file".to_string(),
        bytes: Some(3),
        lines: Some(1),
        lang: Some("rust".to_string()),
        top_symbols: None,
    }
}

#[test]
fn describe_outputs_render_their_sections() {
    let p = kb::query::describe::DescribePathOutput {
        path: "src/".to_string(),
        depth: 2,
        dirs: Some(vec!["src/query/".to_string()]),
        files: Some(vec![tree_file("src/lib.rs")]),
        entrypoints: None,
    };
    assert_eq!(kb::query::describe::describe_path_text(&p), "path: src/\ndepth: 2\ndirs:\n- src/query/\nfiles:\n- src/lib.rs");
    let m = kb::query::describe::DescribeModuleOutput {
        module_id: "core".to_string(),
        card: Some(kb::query::describe::ModuleCardOut {
            id: "core".to_string(),
            title: "Core".to_string(),
            owners: vec![],
            tags: vec![],
        }),
        entrypoints: Some(vec!["src/lib.rs".to_string()]),
        edit_points: None,
        related_facts: Some(vec![]),
    };
    assert_eq!(
        kb::query::describe::describe_module_text(&m),
        "module_id: core\ntitle: Core\nentrypoints:\n- src/lib.rs\nrelated_facts:"
    );
    let s = kb::query::describe::DescribeSymbolOutput {
        symbol_id: "sym:v1:ab".to_string(),
        def: Some(kb::query::describe::SymbolDef {
            path: "src/lib.rs".to_string(),
            line: 12,
            end_line: None,
            kind: "function".to_string(),
            name: "run".to_string(),
            qualified_name: "run".to_string(),
        }),
        signature: Some("()".to_string()),
        uses: Some(vec![]),
        deps: Some(vec![]),
    };
    assert_eq!(
        kb::query::describe::describe_symbol_text(&s),
        "symbol_id: sym:v1:ab\ndef: src/lib.rs:12\nsignature: ()\ndeps: 0\nuses: 0"
    );
}

#[test]
fn string_lists_render_as_compact_json() {
    assert_eq!(json_array_text(&vec![]), "[]");
    assert_eq!(json_array_text(&vec!["a".to_string(), "b/c".to_string()]), "[\"a\",\"b/c\"]");
    assert_eq!(
        json_array_text(&vec!["q\"b".to_string(), "s\\d".to_string(), "\n\t\u{1}\u{7f}é".to_string()]),
        "[\"q\\\"b\",\"s\\\\d\",\"\\n\\t\\u0001\u{7f}é\"]"
    );
}

#[test]
fn an_error_can_take_another_message() {
    let err = KbError::invalid_argument("first").with_detail("k", "v").with_message("second");
    assert_eq!(err.message, "second");
    assert_eq!(err.code, ErrorCode::InvalidArgument);
    assert_eq!(err.details.len(), 1);
}

#[test]
fn describing_a_path_twice_gives_the_same_output() {
    let tree = || vec![
        kb::index::tree::dir_tree_record("src/".to_string()),
        kb::index::tree::file_tree_record("src/lib.rs", b"pub fn foo() {}\n"),
    ];
    let wanted = vec![kb::query::describe::DescribePathInclude::Dirs, kb::query::describe::DescribePathInclude::Files];
    let run = || kb::query::describe::describe_path_at("src/", 1, &wanted, Ok(tree()), Ok(vec![]), Ok(vec![])).unwrap();
    let a = run();
    let b = run();
    assert_eq!(format!("{a:?}"), format!("{b:?}"));
    assert_eq!(a.dirs, Some(vec!["src/".to_string()]));
    let files: Vec<String> = a.files.unwrap().iter().map(|f| f.path.clone()).collect();
    assert_eq!(files, vec!["src/lib.rs".to_string()]);
}
