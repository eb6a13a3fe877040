use kb::error::{ErrorCode, KbError};
use kb::query::read::{text_if_found, text_of_read};
use kb::repo::diff_source::DiffSource;
use kb::repo::diff::parse_name_status_z;
use kb::repo::path::RepoPath;
use kb::repo::prefix::normalize_path_prefix;

#[test]
fn diff_parse_name_status_handles_renames() {
    let bytes = b"R100\0old.txt\0new.txt\0M\0a.txt\0";
    let parsed = parse_name_status_z(bytes).unwrap();
    assert_eq!(
        parsed,
        vec![
            (
                "R100".to_string(),
                vec!["old.txt".to_string(), "new.txt".to_string()]
            ),
            ("M".to_string(), vec!["a.txt".to_string()]),
        ]
    );
}

#[test]
fn normalize_rejects_parent_dir_escape() {
    assert!(RepoPath::parse("../x").is_err());
    assert!(RepoPath::parse("a/../../x").is_err());
}

#[test]
fn normalize_rejects_absolute_paths() {
    assert!(RepoPath::parse("/abs/path").is_err());
    assert!(RepoPath::parse("C:\\abs\\path").is_err());
}

#[test]
fn normalize_accepts_repo_relative_paths() {
    assert_eq!(RepoPath::parse("src/lib.rs").unwrap().as_str(), "src/lib.rs");
    assert_eq!(
        RepoPath::parse("./src/./lib.rs").unwrap().as_str(),
        "src/lib.rs"
    );
    assert_eq!(
        RepoPath::parse("src\\\\lib.rs").unwrap().as_str(),
        "src/lib.rs"
    );
}

#[test]
fn normalize_path_prefix_preserves_trailing_slash() {
    assert_eq!(normalize_path_prefix("src/").unwrap(), "src/");
    assert_eq!(normalize_path_prefix("src/lib.rs").unwrap(), "src/lib.rs");
}

#[test]
fn parsing_a_parsed_path_gives_it_back() {
    let once = RepoPath::parse("./src//./lib.rs").unwrap();
    let twice = RepoPath::parse(once.as_str()).unwrap();
    assert_eq!(twice.as_str(), once.as_str());
}

#[test]
fn normalizing_a_normalized_prefix_gives_it_back() {
    let once = normalize_path_prefix(" ./src\\kb/ ").unwrap();
    assert_eq!(once, "src/kb/");
    assert_eq!(normalize_path_prefix(&once).unwrap(), once);
}

#[test]
fn a_displayed_diff_source_parses_back() {
    for d in [DiffSource::Staged, DiffSource::Worktree, DiffSource::Commit("abc123".to_string())] {
        assert_eq!(DiffSource::parse(&d.as_display()).unwrap(), d);
    }
    assert_eq!(DiffSource::parse("  commit:abc \n").unwrap(), DiffSource::Commit("abc".to_string()));
    assert!(DiffSource::parse("commit:").is_err());
}

#[test]
fn reads_become_text_or_nothing() {
    assert_eq!(text_of_read(Ok(b"hi\n".to_vec()), "a.txt").unwrap(), "hi\n");
    let err = text_of_read(Ok(vec![0xff, 0x41]), "a.txt").unwrap_err();
    assert_eq!(err.code, ErrorCode::InvalidArgument);
    assert_eq!(err.message, "file is not valid utf-8");
    let keys: Vec<&str> = err.details.iter().map(|d| d.key.as_str()).collect();
    assert_eq!(keys, vec!["cause", "path"]);
    assert_eq!(err.details[1].value, "a.txt");
    assert_eq!(text_of_read(Err(KbError::not_found("gone")), "a.txt").unwrap_err().message, "gone");
    assert_eq!(text_if_found(Ok("x".to_string())).unwrap(), Some("x".to_string()));
    assert_eq!(text_if_found(Err(KbError::not_found("gone"))).unwrap(), None);
    assert_eq!(text_if_found(Err(KbError::internal("io", "boom"))).unwrap_err().message, "boom");
}
