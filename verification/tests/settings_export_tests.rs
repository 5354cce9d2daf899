use finance_manager::export::{count_uncategorized, export_result, export_warning, newest_first_order};
use finance_manager::llm_config::{
    apply_update, default_model, to_view, LlmConfig, LlmConfigUpdate,
};
use finance_manager::stored::{check_schema_version, make_rule_id, rule_fields, rules_kept_after_delete};

fn cfg(key: &str) -> LlmConfig {
    LlmConfig { enabled: true, model: "m".to_string(), api_key: key.to_string() }
}

#[test]
fn default_config_is_disabled_with_default_model() {
    let c = LlmConfig::default();
    assert!(!c.enabled);
    assert_eq!(c.model, "gemini-2.0-flash");
    assert_eq!(default_model(), "gemini-2.0-flash");
    assert!(c.api_key.is_empty());
}

#[test]
fn view_hides_the_key() {
    assert_eq!(to_view(&cfg("")).api_key_hint, "");
    assert!(!to_view(&cfg("")).api_key_set);
    assert_eq!(to_view(&cfg("abcdef")).api_key_hint, "•••");
    assert_eq!(to_view(&cfg("AIzaSyA_BCDE")).api_key_hint, "•••BCDE");
    assert!(to_view(&cfg("AIzaSyA_BCDE")).api_key_set);
    // Six bytes but fewer characters: still the bare mask.
    assert_eq!(to_view(&cfg("ééé")).api_key_hint, "•••");
    // Over six bytes in two characters: both shown.
    assert_eq!(to_view(&cfg("😀😀")).api_key_hint, "•••😀😀");
}

#[test]
fn update_applies_given_fields_only() {
    let mut c = cfg("old");
    let ch = apply_update(
        &mut c,
        LlmConfigUpdate { enabled: Some(false), model: Some("  gemini-pro ".to_string()), api_key: None },
    );
    assert!(!c.enabled);
    assert_eq!(c.model, "gemini-pro");
    assert_eq!(c.api_key, "old");
    assert!(ch.enabled_changed && ch.model_changed && !ch.api_key_changed && !ch.api_key_cleared);
    let ch = apply_update(
        &mut c,
        LlmConfigUpdate { enabled: None, model: Some("   ".to_string()), api_key: Some(String::new()) },
    );
    assert_eq!(c.model, "gemini-pro");
    assert_eq!(c.api_key, "");
    assert!(ch.api_key_changed && ch.api_key_cleared);
}

#[test]
fn schema_gate_names_the_document() {
    assert!(check_schema_version(1, 1, "llm config").is_ok());
    assert_eq!(
        check_schema_version(2, 1, "llm config"),
        Err("llm config has unsupported schema version 2".to_string())
    );
}

#[test]
fn rule_fields_are_trimmed_and_required() {
    assert_eq!(rule_fields("  SWIGGY ", " Food "), Ok(("SWIGGY".to_string(), "Food".to_string())));
    assert_eq!(rule_fields(" ", "Food"), Err("match value and category are required".to_string()));
    assert_eq!(rule_fields("X", ""), Err("match value and category are required".to_string()));
}

#[test]
fn rule_ids_are_user_prefixed_hex() {
    let id = make_rule_id();
    assert!(id.starts_with("user:"));
    assert_eq!(id.len(), 17);
    assert!(id[5..].chars().all(|c| c.is_ascii_hexdigit() && !c.is_ascii_uppercase()));
}

#[test]
fn deleting_a_rule_keeps_the_others() {
    let ids: Vec<String> = vec!["a", "b", "a", "c"].into_iter().map(|s| s.to_string()).collect();
    assert_eq!(rules_kept_after_delete(&ids, "a"), Ok(vec![1, 3]));
    assert_eq!(rules_kept_after_delete(&ids, "z"), Err("rule z not found".to_string()));
}

#[test]
fn uncategorized_rows_are_counted_case_insensitively() {
    let cats = vec![
        None,
        Some("uncategorized".to_string()),
        Some("Groceries".to_string()),
        Some("UNCATEGORIZED".to_string()),
    ];
    assert_eq!(count_uncategorized(&cats), 3);
}

#[test]
fn export_warning_matches_the_count() {
    assert_eq!(export_warning(0), None);
    assert_eq!(
        export_warning(1).as_deref(),
        Some("1 transaction still Uncategorized — exported anyway, but the per-category breakdown will under-attribute spend.")
    );
    assert_eq!(
        export_warning(4).as_deref(),
        Some("4 transactions still Uncategorized — exported anyway, but the per-category breakdown will under-attribute spend.")
    );
    let r = export_result("out.xlsx".to_string(), 10, 0, 2, 1);
    assert!(r.warning.is_none());
    assert_eq!(r.transaction_count, 10);
}

#[test]
fn rows_are_written_latest_first() {
    let dates: Vec<String> = vec!["2026-03-01", "2026-05-01", "2026-04-01"]
        .into_iter()
        .map(|s| s.to_string())
        .collect();
    assert_eq!(newest_first_order(&dates), vec![1, 2, 0]);
}

#[test]
fn rows_with_the_same_date_keep_their_order() {
    let dates: Vec<String> =
        ["2026-04-01", "2026-05-01", "2026-04-01", "2026-05-01"].iter().map(|s| s.to_string()).collect();
    assert_eq!(newest_first_order(&dates), vec![1, 3, 0, 2]);
}
