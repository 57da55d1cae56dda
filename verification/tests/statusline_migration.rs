use codex_hud_ops::statusline_migration::{
    array_matches_exact_items, decide_statusline, has_hud_signal, hud_items_list,
    legacy_hud_items_list, statusline_config_update, ConfigShape,
};

#[test]
fn migrates_legacy_status_line_to_hud_defaults() {
    let raw = r#"
model = "gpt-5.3-codex"

[tui]
status_line = [
  "model-with-reasoning",
  "git-branch",
  "context-remaining",
  "context-used",
]
"#;
    let updated = statusline_config_update(Some(raw)).unwrap().unwrap();
    assert!(updated.contains("\"permission-mode\""));
    assert!(updated.contains("\"auth-chip\""));
    assert!(updated.contains("\"tool-calls\""));
    assert!(updated.contains("\"ctx-bar\""));
    assert!(updated.contains("\"five-hour-bar\""));
    assert!(updated.contains("\"weekly-bar\""));
    assert!(updated.contains("gpt-5.3-codex"));
}

#[test]
fn keeps_existing_hud_statusline_configuration_unchanged() {
    let original = r#"
[tui]
status_line = [
  "model-with-reasoning",
  "permission-mode",
  "auth-chip",
]
"#;
    assert_eq!(statusline_config_update(Some(original)), Ok(None));
}

#[test]
fn creates_statusline_config_when_config_file_missing() {
    let created = statusline_config_update(None).unwrap().unwrap();
    assert!(created.contains("[tui]"));
    assert!(created.contains("\"permission-mode\""));
    assert!(created.contains("\"auth-chip\""));
    assert!(created.contains("\"tool-calls\""));
    assert!(created.contains("\"ctx-bar\""));
    assert!(created.contains("\"five-hour-bar\""));
    assert!(created.contains("\"weekly-bar\""));
}

#[test]
fn unreadable_or_odd_configs_are_left_alone() {
    assert_eq!(statusline_config_update(Some("not = = toml")), Ok(None));
    assert_eq!(statusline_config_update(Some("tui = 3\n")), Ok(None));
}

#[test]
fn legacy_list_is_upgraded_and_config_without_tui_gets_one() {
    let legacy: Vec<String> = legacy_hud_items_list().iter().map(|s| format!("\"{s}\"")).collect();
    let raw = format!("[tui]\nstatus_line = [{}]\n", legacy.join(", "));
    let out = statusline_config_update(Some(&raw)).unwrap().unwrap();
    assert!(!out.contains("session-id"));
    let fresh = statusline_config_update(Some("model = \"m\"\n")).unwrap().unwrap();
    assert!(fresh.contains("[tui]"));
    assert!(fresh.contains("\"weekly-bar\""));
}

#[test]
fn decision_over_shapes() {
    let some = |v: &[&str]| v.iter().map(|s| Some(s.to_string())).collect::<Vec<_>>();
    assert!(!decide_statusline(&ConfigShape::Unreadable));
    assert!(!decide_statusline(&ConfigShape::RootNotTable));
    assert!(!decide_statusline(&ConfigShape::TuiNotTable));
    assert!(decide_statusline(&ConfigShape::StatusLine(None)));
    assert!(decide_statusline(&ConfigShape::StatusLine(Some(some(&["git-branch"])))));
    assert!(!decide_statusline(&ConfigShape::StatusLine(Some(some(&["auth-chip"])))));
    let legacy = legacy_hud_items_list();
    assert!(decide_statusline(&ConfigShape::StatusLine(Some(some(&legacy)))));
    assert!(!decide_statusline(&ConfigShape::StatusLine(Some(some(&hud_items_list())))));
    assert!(has_hud_signal(&[None, Some("ctx-bar".to_string())]));
    assert!(!has_hud_signal(&[None, Some("x".to_string())]));
    assert!(array_matches_exact_items(&some(&["a", "b"]), &["a", "b"]));
    assert!(!array_matches_exact_items(&[Some("a".to_string()), None], &["a", "b"]));
}

#[test]
fn second_migration_changes_nothing() {
    let raw = "[tui]\nstatus_line = [\"git-branch\"]\n";
    let once = statusline_config_update(Some(raw)).unwrap().unwrap();
    assert_eq!(statusline_config_update(Some(&once)), Ok(None));
    let fresh = statusline_config_update(None).unwrap().unwrap();
    assert_eq!(statusline_config_update(Some(&fresh)), Ok(None));
}
