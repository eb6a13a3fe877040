use kb::query::pack::{gate_snippet_line, SNIPPET_HARD_LINE_CHARS};

#[test]
fn gate_snippet_line_trims_whitespace() {
    assert_eq!(gate_snippet_line("hello\t \t"), "hello");
}

#[test]
fn gate_snippet_line_keeps_reasonable_lines() {
    let line = "a".repeat(SNIPPET_HARD_LINE_CHARS);
    assert_eq!(gate_snippet_line(&line), line);
}

#[test]
fn gate_snippet_line_truncates_pathological_lines() {
    let line = "a".repeat(SNIPPET_HARD_LINE_CHARS + 10);
    let out = gate_snippet_line(&line);
    assert!(out.starts_with("[kb truncated "));
    assert!(out.contains("head='"));
    assert!(out.contains("tail='"));
    assert!(out.len() < SNIPPET_HARD_LINE_CHARS);
}

use kb::config::obligations::{ObligationRule, ObligationsConfig};
use kb::index::artifacts::{DepEdge, SymbolRecord, TreeRecord};
use kb::json::{JsonField, JsonValue};
use kb::query::module_card::ModuleCardToml;
use kb::query::pack::{
    expand_paths, pack_diff_at, pack_selectors_at, select_for_diff, select_for_selectors, shed_selectors_pack,
    summarize_selectors, SelectorInputs,
};
use kb::query::plan::{plan_diff_at, Policy};
use kb::repo::diff::{ChangeKind, DiffPathChange};
use kb::repo::diff_source::DiffSource;

fn file_record(path: &str) -> TreeRecord {
    TreeRecord {
        path: path.to_string(),
        kind: "file".to_string(),
        bytes: Some(16),
        lines: Some(1),
        lang: Some("rust".to_string()),
        top_symbols: None,
    }
}

fn dir_record(path: &str) -> TreeRecord {
    TreeRecord { path: path.to_string(), kind: "dir".to_string(), bytes: None, lines: None, lang: None, top_symbols: None }
}

fn symbol(id: &str, path: &str, line: u64) -> SymbolRecord {
    SymbolRecord {
        symbol_id: id.to_string(),
        lang: "rust".to_string(),
        path: path.to_string(),
        kind: "function".to_string(),
        name: "foo".to_string(),
        qualified_name: "foo".to_string(),
        line,
        end_line: None,
        signature: None,
        scope: None,
    }
}

fn core_card() -> ModuleCardToml {
    ModuleCardToml {
        id: "core".to_string(),
        title: "Core".to_string(),
        owners: vec![],
        tags: vec![],
        entrypoints: vec!["src/lib.rs".to_string()],
        edit_points: vec![],
        related_facts: vec!["fact:core:contract:api".to_string()],
    }
}

fn fact(id: &str, ty: &str) -> JsonValue {
    JsonValue::Object(vec![
        JsonField { key: "fact_id".to_string(), value: JsonValue::Str(id.to_string()) },
        JsonField { key: "type".to_string(), value: JsonValue::Str(ty.to_string()) },
    ])
}

fn fact_id(v: &JsonValue) -> String {
    match v {
        JsonValue::Object(fields) => fields
            .iter()
            .find(|f| f.key == "fact_id")
            .and_then(|f| match &f.value {
                JsonValue::Str(s) => Some(s.clone()),
                _ => None,
            })
            .unwrap_or_default(),
        _ => String::new(),
    }
}

#[test]
fn selectors_are_trimmed_sorted_and_unique() {
    let inputs = SelectorInputs {
        paths: vec![" src/b.rs ".to_string(), "src/a.rs".to_string(), "".to_string(), "src/a.rs".to_string()],
        modules: vec![],
        symbols: vec![],
        facts: vec![],
    };
    let summary = summarize_selectors(&inputs);
    assert_eq!(summary.paths, vec!["src/a.rs".to_string(), "src/b.rs".to_string()]);
    assert!(summary.modules.is_empty());
}

#[test]
fn selector_pack_expands_modules_to_paths_and_facts() {
    let inputs = SelectorInputs { modules: vec!["core".to_string()], ..Default::default() };
    let summary = summarize_selectors(&inputs);
    let reads = vec![Ok(("id = \"core\"\r\ntitle = \"Core\"\r\n".to_string(), Ok(core_card())))];
    let tree = vec![dir_record("src/"), file_record("src/lib.rs")];
    let symbols = vec![symbol("sym:v1:aaa", "src/lib.rs", 1)];
    let selection = select_for_selectors(&summary, &reads, tree, symbols, Vec::<DepEdge>::new()).unwrap();
    assert_eq!(selection.fact_ids, vec!["fact:core:contract:api".to_string()]);
    let texts: Vec<_> = selection.snippet_symbols.iter().map(|_| Ok("pub fn foo() {}\n".to_string())).collect();
    let facts = Ok(vec![Ok(fact("fact:other", "contract")), Ok(fact("fact:core:contract:api", "contract"))]);
    let out = pack_selectors_at(summary, selection, &texts, facts, 200000, 10).unwrap();
    assert!(out.tree.iter().any(|r| r.path == "src/lib.rs"));
    assert_eq!(out.modules.len(), 1);
    assert_eq!(out.modules[0].module_id, "core");
    assert_eq!(out.modules[0].path, "kb/atlas/modules/core.toml");
    assert_eq!(out.modules[0].text, "id = \"core\"\ntitle = \"Core\"\n");
    assert_eq!(out.facts.len(), 1);
    assert_eq!(fact_id(&out.facts[0]), "fact:core:contract:api");
    assert!(out.snippets.iter().any(|s| s.path == "src/lib.rs" && s.text == "pub fn foo() {}"));
    let file = out.tree.iter().find(|r| r.path == "src/lib.rs").unwrap();
    assert_eq!(file.top_symbols, Some(vec!["sym:v1:aaa".to_string()]));
}

#[test]
fn a_card_that_does_not_parse_is_reported() {
    let inputs = SelectorInputs { modules: vec!["core".to_string()], ..Default::default() };
    let summary = summarize_selectors(&inputs);
    let reads = vec![Ok(("id = ".to_string(), Err("expected a value".to_string())))];
    let err = select_for_selectors(&summary, &reads, vec![], vec![], vec![]).unwrap_err();
    assert_eq!(err.message, "failed to parse module card");
    let keys: Vec<&str> = err.details.iter().map(|d| d.key.as_str()).collect();
    assert_eq!(keys, vec!["cause", "module_id"]);
}

#[test]
fn the_budget_sheds_snippets_first() {
    let inputs = SelectorInputs { paths: vec!["src/lib.rs".to_string()], ..Default::default() };
    let summary = summarize_selectors(&inputs);
    let tree = vec![dir_record("src/"), file_record("src/lib.rs")];
    let symbols = vec![symbol("sym:v1:aaa", "src/lib.rs", 1)];
    let selection = select_for_selectors(&summary, &vec![], tree, symbols, vec![]).unwrap();
    let texts: Vec<_> = selection.snippet_symbols.iter().map(|_| Ok("pub fn foo() {}\n".to_string())).collect();
    let mut out = pack_selectors_at(summary, selection, &texts, Ok(vec![]), 10, 10).unwrap();
    assert_eq!(out.snippets.len(), 1);
    assert_eq!(shed_selectors_pack(&mut out, 5).unwrap(), true);
    assert_eq!(out.snippets.len(), 1);
    assert_eq!(shed_selectors_pack(&mut out, 500).unwrap(), false);
    assert_eq!(out.snippets.len(), 0);
    assert_eq!(out.symbols.len(), 1);
    assert_eq!(shed_selectors_pack(&mut out, 500).unwrap(), false);
    assert_eq!(out.symbols.len(), 0);
    assert_eq!(shed_selectors_pack(&mut out, 500).unwrap(), false);
    assert_eq!(out.tree.len(), 0);
    let err = shed_selectors_pack(&mut out, 500).unwrap_err();
    assert_eq!(err.message, "max_bytes is too small to fit required metadata");
    assert_eq!(err.details[0].key, "max_bytes");
    assert_eq!(err.details[0].value, "10");
}

#[test]
fn expansion_follows_dependency_edges_both_ways() {
    let files = vec!["a.rs".to_string(), "b.rs".to_string(), "c.rs".to_string()];
    let deps = vec![DepEdge {
        from_path: "b.rs".to_string(),
        kind: "import".to_string(),
        to_path: Some("a.rs".to_string()),
        to_external: None,
        raw: None,
    }];
    let seeds = vec!["a.rs".to_string()];
    assert_eq!(expand_paths(&seeds, &deps, &files, 0), vec!["a.rs".to_string()]);
    assert_eq!(expand_paths(&seeds, &deps, &files, 1), vec!["a.rs".to_string(), "b.rs".to_string()]);
    assert_eq!(expand_paths(&seeds, &deps, &files, 5), vec!["a.rs".to_string(), "b.rs".to_string()]);
}

#[test]
fn diff_pack_covers_changed_files_and_required_cards() {
    let config = ObligationsConfig {
        rule: vec![ObligationRule {
            id: "core".to_string(),
            when_path_prefix: "src/".to_string(),
            require_module_card: Some("core".to_string()),
            require_fact_types: None,
            require_session_capsule: None,
        }],
    };
    let changes = vec![DiffPathChange { path: "src/lib.rs".to_string(), change_kind: ChangeKind::Modify }];
    let plan = plan_diff_at(&DiffSource::Worktree, Policy::Default, &config, &changes).unwrap();
    assert_eq!(plan.required.module_cards, vec!["core".to_string()]);
    let reads = vec![Ok("id = \"core\"\ntitle = \"Core\"\n".to_string())];
    let tree = vec![dir_record("src/"), file_record("src/lib.rs")];
    let symbols = vec![symbol("sym:v1:aaa", "src/lib.rs", 1)];
    let selection = select_for_diff(&plan, &reads, Ok(vec![]), Ok(tree), Ok(symbols), Ok(vec![]), 1).unwrap();
    assert_eq!(selection.included_paths, vec!["src/lib.rs".to_string()]);
    let texts: Vec<_> = selection.snippet_symbols.iter().map(|_| Ok("pub fn foo() {}\n".to_string())).collect();
    let out = pack_diff_at(plan, selection, &texts, 1, 200000, 10).unwrap();
    assert_eq!(out.diff_source, "worktree");
    assert!(!out.tree.is_empty());
    assert!(!out.symbols.is_empty());
    assert!(!out.modules.is_empty());
    assert_eq!(out.snippets.len(), 1);
}

#[test]
fn each_shedding_step_removes_one_item() {
    let inputs = SelectorInputs { paths: vec!["src/lib.rs".to_string()], ..Default::default() };
    let summary = summarize_selectors(&inputs);
    let tree = vec![dir_record("src/"), file_record("src/lib.rs")];
    let symbols = vec![symbol("sym:v1:aaa", "src/lib.rs", 1), symbol("sym:v1:bbb", "src/lib.rs", 2)];
    let selection = select_for_selectors(&summary, &vec![], tree, symbols, vec![]).unwrap();
    let texts: Vec<_> = selection.snippet_symbols.iter().map(|_| Ok("pub fn foo() {}\n".to_string())).collect();
    let mut out = pack_selectors_at(summary, selection, &texts, Ok(vec![]), 10, 10).unwrap();
    let items = |o: &kb::query::pack::PackSelectorsOutput| {
        o.snippets.len() + o.deps.len() + o.symbols.len() + o.tree.len() + o.facts.len() + o.modules.len()
    };
    let start = items(&out);
    assert!(start > 0);
    let mut steps = 0;
    loop {
        let before = items(&out);
        match shed_selectors_pack(&mut out, 1000) {
            Ok(fits) => {
                assert!(!fits);
                assert_eq!(items(&out) + 1, before);
            }
            Err(err) => {
                assert_eq!(before, 0);
                assert_eq!(err.message, "max_bytes is too small to fit required metadata");
                break;
            }
        }
        steps += 1;
    }
    assert_eq!(steps, start);
}

#[test]
fn snippets_keep_within_their_line_budget() {
    let text = "l1\nl2\nl3\nl4\nl5\nl6\n".to_string();
    let reqs = vec![symbol("sym:v1:a", "src/lib.rs", 2), symbol("sym:v1:b", "src/lib.rs", 6)];
    let texts = vec![Ok(text.clone()), Ok(text)];
    let snippets = kb::query::pack::build_snippets(3, &reqs, &texts).unwrap();
    assert_eq!(snippets.len(), 2);
    assert_eq!((snippets[0].start_line, snippets[0].end_line), (2, 4));
    assert_eq!(snippets[0].text, "l2\nl3\nl4");
    assert_eq!((snippets[1].start_line, snippets[1].end_line), (6, 6));
    assert_eq!(snippets[1].text, "l6");
    assert!(kb::query::pack::build_snippets(0, &reqs, &vec![Ok(String::new()), Ok(String::new())]).unwrap().is_empty());
}
