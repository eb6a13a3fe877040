use kb::query::session::{
    locate_session_capsule, session_check_at, session_finalize_at, session_rel_path, validate_capsule,
    validate_session_id, SessionCapsule, VerificationKind,
};
use kb::repo::diff::{ChangeKind, DiffPathChange};

fn capsule(id: &str) -> SessionCapsule {
    SessionCapsule {
        session_id: id.to_string(),
        tags: vec![],
        summary: String::new(),
        decisions: vec![],
        pitfalls: vec![],
        verification: vec![],
        refs: vec![],
    }
}

#[test]
fn session_ids_are_checked() {
    assert!(validate_session_id("PR-1234").is_ok());
    assert_eq!(validate_session_id("").unwrap_err().message, "session id must not be empty");
    assert_eq!(validate_session_id("-x").unwrap_err().message, "invalid session id");
    assert_eq!(validate_session_id("a/b").unwrap_err().message, "invalid session id");
}

#[test]
fn capsule_paths_follow_year_and_month() {
    assert_eq!(session_rel_path("PR-1234", 2024, 3), "kb/sessions/2024/03/PR-1234.json");
    assert_eq!(session_rel_path("x", 987, 11), "kb/sessions/0987/11/x.json");
}

#[test]
fn finalize_merges_verification_and_appends_refs() {
    let mut c = capsule("PR-1234");
    c.verification = vec!["lint".to_string()];
    let changes = vec![
        DiffPathChange { path: "kb/gen/tree.jsonl".to_string(), change_kind: ChangeKind::Modify },
        DiffPathChange { path: "src/lib.rs".to_string(), change_kind: ChangeKind::Modify },
    ];
    let out = session_finalize_at(
        "PR-1234",
        Ok(Ok(c)),
        &vec![VerificationKind::Tests, VerificationKind::Lint],
        Ok(changes),
        Ok(None),
    )
    .unwrap();
    assert_eq!(out.verification, vec!["lint".to_string(), "tests".to_string()]);
    assert_eq!(out.refs, vec!["src/lib.rs".to_string()]);
}

#[test]
fn finalize_refuses_a_capsule_of_another_session() {
    let err = session_finalize_at("PR-1", Ok(Ok(capsule("PR-2"))), &vec![], Ok(vec![]), Ok(None)).unwrap_err();
    assert_eq!(err.message, "session_id does not match requested id");
    let keys: Vec<&str> = err.details.iter().map(|d| d.key.as_str()).collect();
    assert_eq!(keys, vec!["expected", "found"]);
}

#[test]
fn check_rejects_absolute_paths() {
    let mut c = capsule("PR-1234");
    c.summary = "notes\n  /etc/passwd".to_string();
    let err = session_check_at("PR-1234", Ok(Ok(c)), Ok(None)).unwrap_err();
    assert_eq!(err.message, "absolute paths are not allowed in session capsules");
    assert_eq!(err.details[0].value, "summary");
}

#[test]
fn check_rejects_unsorted_lists_and_unknown_kinds() {
    let mut c = capsule("PR-1234");
    c.tags = vec!["b".to_string(), "a".to_string()];
    assert_eq!(validate_capsule(&c, None).unwrap_err().message, "field must be stable-sorted unique");
    let mut c = capsule("PR-1234");
    c.verification = vec!["fuzz".to_string()];
    assert_eq!(validate_capsule(&c, None).unwrap_err().message, "unknown verification kind");
}

#[test]
fn a_capsule_is_found_once() {
    assert_eq!(
        locate_session_capsule("PR-1", Ok(vec!["kb/sessions/2024/01/PR-1.json".to_string()])).unwrap(),
        "kb/sessions/2024/01/PR-1.json"
    );
    assert_eq!(locate_session_capsule("PR-1", Ok(vec![])).unwrap_err().message, "session capsule not found");
    let err = locate_session_capsule(
        "PR-1",
        Ok(vec!["kb/sessions/2024/01/PR-1.json".to_string(), "kb/sessions/2024/02/PR-1.json".to_string()]),
    )
    .unwrap_err();
    assert_eq!(err.message, "multiple session capsules found");
    assert_eq!(err.details[0].key, "candidates");
    assert_eq!(err.details[0].value, "[\"kb/sessions/2024/01/PR-1.json\",\"kb/sessions/2024/02/PR-1.json\"]");
}

#[test]
fn finalizing_twice_gives_the_same_capsule() {
    let mut c = capsule("PR-7");
    c.verification = vec!["lint".to_string()];
    c.refs = vec!["README.md".to_string()];
    let changes = || {
        vec![
            DiffPathChange { path: "src/main.rs".to_string(), change_kind: ChangeKind::Add },
            DiffPathChange { path: "docs/a.md".to_string(), change_kind: ChangeKind::Modify },
        ]
    };
    let kinds = vec![VerificationKind::Tests];
    let once = session_finalize_at("PR-7", Ok(Ok(c)), &kinds, Ok(changes()), Ok(None)).unwrap();
    let twice = session_finalize_at("PR-7", Ok(Ok(once.clone())), &kinds, Ok(changes()), Ok(None)).unwrap();
    assert_eq!(once.refs, twice.refs);
    assert_eq!(once.verification, twice.verification);
    assert_eq!(once.tags, twice.tags);
    assert_eq!(once.refs, vec!["README.md".to_string(), "docs/a.md".to_string(), "src/main.rs".to_string()]);
}

#[test]
fn finalizing_twice_merges_both_calls() {
    let changes = || vec![DiffPathChange { path: "src/lib.rs".to_string(), change_kind: ChangeKind::Modify }];
    let once = session_finalize_at(
        "PR-1234",
        Ok(Ok(capsule("PR-1234"))),
        &vec![VerificationKind::Tests, VerificationKind::Lint, VerificationKind::Tests],
        Ok(changes()),
        Ok(None),
    )
    .unwrap();
    assert_eq!(once.verification, vec!["lint".to_string(), "tests".to_string()]);
    assert_eq!(once.refs, vec!["src/lib.rs".to_string()]);
    let twice =
        session_finalize_at("PR-1234", Ok(Ok(once)), &vec![VerificationKind::Bench], Ok(changes()), Ok(None)).unwrap();
    assert_eq!(twice.verification, vec!["bench".to_string(), "lint".to_string(), "tests".to_string()]);
    assert_eq!(twice.refs, vec!["src/lib.rs".to_string()]);
}
