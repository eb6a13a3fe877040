use kb::index::check::check_gen_comparisons;
use kb::index::deps::resolve_js_relative;
use kb::index::git_inputs::parse_name_status_z;
use kb::index::symbols::{canonical_symbol_key, sha256_hex};
use kb::index::tree::{count_lines, parent_dirs};
use kb::policy::lint::is_valid_symbol_id;

#[test]
fn resolves_relative_import_when_unambiguous() {
    let repo_files = vec!["src/index.ts".to_string(), "src/util.ts".to_string()];
    assert_eq!(
        resolve_js_relative("src/index.ts", "./util", &repo_files),
        Some("src/util.ts".to_string())
    );
}

#[test]
fn rejects_relative_import_when_ambiguous() {
    let repo_files = vec![
        "src/index.ts".to_string(),
        "src/util.js".to_string(),
        "src/util.ts".to_string(),
    ];
    assert_eq!(resolve_js_relative("src/index.ts", "./util", &repo_files), None);
}

#[test]
fn git_inputs_parse_name_status_handles_renames() {
    let bytes = b"R100\0old.txt\0new.txt\0M\0a.txt\0";
    let parsed = parse_name_status_z(bytes).unwrap();
    assert_eq!(
        parsed,
        vec![
            (
                "R100".to_string(),
                vec!["old.txt".to_string(), "new.txt".to_string()]
            ),
            ("M".to_string(), vec!["a.txt".to_string()]),
        ]
    );
}

#[test]
fn symbol_id_is_stable() {
    let key = canonical_symbol_key(
        "rust",
        "src/lib.rs",
        "function",
        "crate::parse_thing",
        "pat_sha256=abc",
    );
    assert_eq!(sha256_hex(key.as_bytes()), sha256_hex(key.as_bytes()));
}

#[test]
fn parent_dirs_use_trailing_slash() {
    assert_eq!(parent_dirs("src/lib.rs"), vec!["src/".to_string()]);
    assert_eq!(
        parent_dirs("src/repo/path.rs"),
        vec!["src/".to_string(), "src/repo/".to_string()]
    );
    assert_eq!(parent_dirs("Cargo.toml"), Vec::<String>::new());
}

#[test]
fn count_lines_matches_spec() {
    assert_eq!(count_lines(b""), 0);
    assert_eq!(count_lines(b"a"), 1);
    assert_eq!(count_lines(b"a\n"), 1);
    assert_eq!(count_lines(b"a\nb"), 2);
    assert_eq!(count_lines(b"a\nb\n"), 2);
}

#[test]
fn sha256_hex_of_abc_is_the_standard_digest() {
    assert_eq!(
        sha256_hex(b"abc"),
        "ba7816bf8f01cfea414140de5dae2223b00361a396177a9cb410ff61f20015ad"
    );
}

#[test]
fn symbol_ids_have_the_v1_form() {
    let hex = "ba7816bf8f01cfea414140de5dae2223b00361a396177a9cb410ff61f20015ad";
    assert!(is_valid_symbol_id(&format!("sym:v1:{hex}")));
    assert!(!is_valid_symbol_id(&format!("sym:v1:{}", hex.to_uppercase())));
    assert!(!is_valid_symbol_id(&format!("sym:v1:{}", &hex[1..])));
    assert!(!is_valid_symbol_id(&format!("sym:v3:{hex}")));
    assert!(!is_valid_symbol_id("sym:v3:0123456789abcdef"));
}

#[test]
fn fresh_generated_files_pass_the_comparison() {
    let same = vec![
        Ok((b"a".to_vec(), Some(b"a".to_vec()))),
        Ok((b"b".to_vec(), Some(b"b".to_vec()))),
        Ok((b"c".to_vec(), Some(b"c".to_vec()))),
        Ok((b"d".to_vec(), Some(b"d".to_vec()))),
    ];
    assert!(check_gen_comparisons(&same).is_ok());
}

#[test]
fn stale_generated_files_are_listed() {
    let cmp = vec![
        Ok((b"a".to_vec(), Some(b"a".to_vec()))),
        Ok((b"b".to_vec(), None)),
        Ok((b"c".to_vec(), Some(b"x".to_vec()))),
        Ok((b"d".to_vec(), Some(b"d".to_vec()))),
    ];
    let err = check_gen_comparisons(&cmp).unwrap_err();
    assert_eq!(err.message, "kb/gen artifacts are stale");
    let diffs: Vec<&str> = err.details.iter().map(|d| d.value.as_str()).collect();
    assert_eq!(diffs, vec!["kb/gen/symbols.jsonl", "kb/gen/tree.jsonl"]);
}

#[test]
fn an_appended_tree_line_makes_the_index_stale() {
    let tree = b"{\"path\":\"src/\",\"kind\":\"dir\"}\n".to_vec();
    let mut appended = tree.clone();
    appended.extend_from_slice(b"{\"path\":\"x\",\"kind\":\"file\"}\n");
    let cmp = vec![
        Ok((b"m".to_vec(), Some(b"m".to_vec()))),
        Ok((tree, Some(appended))),
        Ok((b"s".to_vec(), Some(b"s".to_vec()))),
        Ok((b"d".to_vec(), Some(b"d".to_vec()))),
    ];
    let err = check_gen_comparisons(&cmp).unwrap_err();
    assert_eq!(err.message, "kb/gen artifacts are stale");
    assert_eq!(err.details.len(), 1);
    assert_eq!((err.details[0].key.as_str(), err.details[0].value.as_str()), ("diff", "kb/gen/tree.jsonl"));
}

#[test]
fn a_root_level_importer_has_no_base_directory() {
    let repo_files = vec!["util.ts".to_string(), "/x/util.ts".to_string()];
    assert_eq!(resolve_js_relative("/app.ts", "./util", &repo_files), Some("util.ts".to_string()));
    assert_eq!(resolve_js_relative("/x/app.ts", "./util", &repo_files), Some("/x/util.ts".to_string()));
}
