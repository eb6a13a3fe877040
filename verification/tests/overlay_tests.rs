use kb::config::obligations::{ObligationRule, ObligationsConfig};
use kb::config::tags::{TagEntry, TagsConfig};
use kb::json::{JsonField, JsonValue};
use kb::overlay::{facts_upsert_at, obligations_upsert_rule_at, tags_upsert_at};

fn registry() -> TagsConfig {
    TagsConfig {
        tag: vec![
            TagEntry { id: "zeta".to_string(), description: Some("last".to_string()) },
            TagEntry { id: "alpha".to_string(), description: None },
        ],
    }
}

#[test]
fn a_tags_upsert_keeps_the_other_tags_sorted() {
    let text = tags_upsert_at(Ok(Some(registry())), "  mid ", Some("Middle".to_string())).unwrap();
    assert_eq!(
        text,
        "[[tag]]\nid = \"alpha\"\n\n[[tag]]\nid = \"mid\"\ndescription = \"Middle\"\n\n[[tag]]\nid = \"zeta\"\ndescription = \"last\"\n"
    );
}

#[test]
fn a_tags_upsert_without_description_keeps_the_old_one() {
    let text = tags_upsert_at(Ok(Some(registry())), "zeta", None).unwrap();
    assert_eq!(text, "[[tag]]\nid = \"alpha\"\n\n[[tag]]\nid = \"zeta\"\ndescription = \"last\"\n");
}

#[test]
fn a_tags_upsert_rejects_a_bad_id() {
    let err = tags_upsert_at(Ok(None), "a b", None).unwrap_err();
    assert_eq!(err.message, "invalid id");
    let err = tags_upsert_at(Ok(None), "   ", None).unwrap_err();
    assert_eq!(err.message, "id must not be empty");
}

#[test]
fn a_rule_upsert_replaces_its_rule_and_keeps_the_others() {
    let existing = ObligationsConfig {
        rule: vec![
            ObligationRule {
                id: "web".to_string(),
                when_path_prefix: "web/".to_string(),
                require_module_card: None,
                require_fact_types: None,
                require_session_capsule: None,
            },
            ObligationRule {
                id: "core".to_string(),
                when_path_prefix: "src/".to_string(),
                require_module_card: None,
                require_fact_types: None,
                require_session_capsule: None,
            },
        ],
    };
    let text = obligations_upsert_rule_at(
        Ok(existing),
        "core",
        "src/",
        Some("core".to_string()),
        &vec!["b".to_string(), "a".to_string(), "b".to_string()],
        Some(true),
    )
    .unwrap();
    assert_eq!(
        text,
        "[[rule]]\nid = \"core\"\nwhen_path_prefix = \"src/\"\nrequire_module_card = \"core\"\nrequire_fact_types = [\"a\", \"b\"]\nrequire_session_capsule = true\n\n[[rule]]\nid = \"web\"\nwhen_path_prefix = \"web/\"\n"
    );
}

fn fact(id: &str, ty: &str) -> JsonValue {
    JsonValue::Object(vec![
        JsonField { key: "fact_id".to_string(), value: JsonValue::Str(id.to_string()) },
        JsonField { key: "type".to_string(), value: JsonValue::Str(ty.to_string()) },
    ])
}

fn str_field(v: &JsonValue, key: &str) -> String {
    match v {
        JsonValue::Object(fields) => fields
            .iter()
            .find(|f| f.key == key)
            .map(|f| match &f.value {
                JsonValue::Str(s) => s.clone(),
                _ => String::new(),
            })
            .unwrap_or_default(),
        _ => String::new(),
    }
}

#[test]
fn a_fact_upsert_keeps_the_other_facts() {
    let existing = vec![Ok(fact("f.b", "note")), Ok(fact("f.a", "note")), Ok(fact("f.c", "note"))];
    let out = facts_upsert_at("f.a", "decision", &vec![], &vec![], None, Ok(None), Ok(existing)).unwrap();
    let ids: Vec<String> = out.iter().map(|v| str_field(v, "fact_id")).collect();
    assert_eq!(ids, vec!["f.a", "f.b", "f.c"]);
    assert_eq!(str_field(&out[0], "type"), "decision");
    let out = facts_upsert_at("f.d", "note", &vec![], &vec![], None, Ok(None), Ok(vec![Ok(fact("f.a", "note"))])).unwrap();
    let ids: Vec<String> = out.iter().map(|v| str_field(v, "fact_id")).collect();
    assert_eq!(ids, vec!["f.a", "f.d"]);
}
