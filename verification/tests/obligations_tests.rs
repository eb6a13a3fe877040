use kb::error::KbError;
use kb::json::{JsonField, JsonValue};
use kb::policy::obligations::obligations_check_at;
use kb::query::plan::{PlanDiffOutput, Required};
use kb::repo::diff::{ChangeKind, DiffPathChange};
use kb::repo::diff_source::DiffSource;

fn plan(cards: &[&str], types: &[&str], session: bool) -> PlanDiffOutput {
    PlanDiffOutput {
        diff_source: "worktree".to_string(),
        policy: "default".to_string(),
        changed_paths: vec![],
        affected_modules: vec![],
        triggered_rules: vec![],
        required: Required {
            module_cards: cards.iter().map(|s| s.to_string()).collect(),
            fact_types: types.iter().map(|s| s.to_string()).collect(),
            session_capsule: session,
        },
    }
}

fn change(path: &str) -> DiffPathChange {
    DiffPathChange { path: path.to_string(), change_kind: ChangeKind::Modify }
}

fn fact(id: &str, ty: &str) -> JsonValue {
    JsonValue::Object(vec![
        JsonField { key: "fact_id".to_string(), value: JsonValue::Str(id.to_string()) },
        JsonField { key: "type".to_string(), value: JsonValue::Str(ty.to_string()) },
    ])
}

#[test]
fn met_obligations_pass() {
    let p = plan(&["core"], &["decision"], true);
    let changes = vec![
        change("kb/atlas/modules/core.toml"),
        change("kb/facts/facts.jsonl"),
        change("kb/sessions/2024/01/s.json"),
    ];
    let reads: Vec<Result<(), KbError>> = vec![Ok(())];
    let facts = Ok(vec![Ok(fact("f.a", "decision"))]);
    assert!(obligations_check_at(&DiffSource::Worktree, &p, &changes, &reads, facts).is_ok());
}

#[test]
fn unmet_obligations_are_listed() {
    let p = plan(&["core", "web"], &["decision"], true);
    let changes = vec![change("kb/atlas/modules/core.toml")];
    let reads: Vec<Result<(), KbError>> = vec![Ok(()), Err(KbError::not_found("missing"))];
    let facts = Ok(vec![Ok(fact("f.a", "note"))]);
    let err = obligations_check_at(&DiffSource::Worktree, &p, &changes, &reads, facts).unwrap_err();
    assert_eq!(err.message, "obligations unmet");
    let details: Vec<(String, String)> = err.details.iter().map(|d| (d.key.clone(), d.value.clone())).collect();
    assert_eq!(
        details,
        vec![
            ("diff_source".to_string(), "worktree".to_string()),
            ("missing_fact_types".to_string(), "[\"decision\"]".to_string()),
            ("missing_fact_updates".to_string(), "[\"decision\"]".to_string()),
            ("missing_module_card_updates".to_string(), "[\"web\"]".to_string()),
            ("missing_module_cards".to_string(), "[\"web\"]".to_string()),
            ("missing_session_capsule".to_string(), "true".to_string()),
        ]
    );
}
