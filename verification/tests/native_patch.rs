use codex_hud_ops::native_install::{select_source_root, stock_outcome_for_mode};
use codex_hud_ops::support_gate::InstallMode;
use codex_hud_ops::uninstall::exact_state_reversal;
use codex_hud_ops::native_install::{
    backup_path_for, gate_rejection_outcome, map_target_rel_to_real, patch_npm_launcher,
    plan_source_patch, strip_managed_patch_block, InstallOutcome, SourcePatchPlan,
};
use codex_hud_ops::native_patch::{apply_marker_replace, native_patch_targets};

#[test]
fn patch_targets_match_statusline_contract_set() {
    let targets = native_patch_targets();
    assert!(targets.contains(&"codex-rs/tui/src/slash_command.rs".to_string()));
    assert!(targets.contains(&"codex-rs/tui/src/chatwidget.rs".to_string()));
    assert!(targets.contains(&"codex-rs/tui/src/app.rs".to_string()));
    assert!(targets.contains(&"codex-rs/tui/src/bottom_pane/status_line_setup.rs".to_string()));
    assert_eq!(targets.len(), 4);
}

#[test]
fn marker_replace_is_idempotent_once_patched() {
    let original = "SlashCommand::Statusline /* codex-hud-managed */";
    let out = apply_marker_replace(
        original,
        "SlashCommand::Statusline",
        "SlashCommand::Statusline /* codex-hud-managed */",
    )
    .unwrap();
    assert_eq!(out, original);
}

#[test]
fn marker_replace_replaces_first_marker_or_fails() {
    assert_eq!(apply_marker_replace("a M b M", "M", "X"), Ok("a X b M".to_string()));
    assert_eq!(
        apply_marker_replace("nothing here", "M", "X"),
        Err("patch marker not found".to_string())
    );
}

#[test]
fn npm_launcher_patch_is_undone_by_strip() {
    let original = "#!/usr/bin/env node\nconst updatedPath = \"x\";\nconst env = { ...process.env, PATH: updatedPath };\n";
    let patched = patch_npm_launcher(original).unwrap();
    assert!(patched.contains("codex-hud-managed"));
    assert!(patched.contains("env.CODEX_HUD_NATIVE_PATCH = \"1\";"));
    assert_eq!(patch_npm_launcher(&patched), Ok(patched.clone()));
    assert_eq!(strip_managed_patch_block(&patched), original);
}

#[test]
fn strip_without_both_marks_keeps_text() {
    assert_eq!(strip_managed_patch_block("plain\n"), "plain\n");
    assert_eq!(
        strip_managed_patch_block("a/* codex-hud-managed:start */b"),
        "a/* codex-hud-managed:start */b"
    );
    assert_eq!(
        strip_managed_patch_block("a/* codex-hud-managed:start */x/* codex-hud-managed:end */\n\n\nz"),
        "az"
    );
}

#[test]
fn target_and_backup_paths() {
    assert_eq!(
        map_target_rel_to_real("/src/codex-rs", "codex-rs/tui/src/app.rs"),
        "/src/codex-rs/tui/src/app.rs"
    );
    assert_eq!(map_target_rel_to_real("/npm/codex", "bin/codex.js"), "/npm/codex/bin/codex.js");
    assert_eq!(
        backup_path_for("/src/codex-rs", "codex-rs/tui/src/app.rs"),
        "/src/codex-rs/.codex-hud/backups/codex-rs/tui/src/app.bak"
    );
    assert_eq!(
        backup_path_for("/npm/codex", "bin/codex.js"),
        "/npm/codex/.codex-hud/backups/bin/codex.bak"
    );
}

#[test]
fn source_plan_stops_at_missing_or_unpatchable_target() {
    let targets = vec!["codex-rs/a.rs".to_string(), "codex-rs/b.rs".to_string()];
    let ok = plan_source_patch(
        "/r",
        &targets,
        &vec![
            Some("x SlashCommand::Statusline y".to_string()),
            Some("SlashCommand::Statusline /* codex-hud-managed */".to_string()),
        ],
    )
    .unwrap();
    match ok {
        SourcePatchPlan::Steps(steps) => {
            assert_eq!(steps.len(), 2);
            assert_eq!(steps[0].target, "/r/a.rs");
            assert_eq!(steps[0].patched, "x SlashCommand::Statusline /* codex-hud-managed */ y");
            assert_eq!(steps[0].backup, "/r/.codex-hud/backups/codex-rs/a.bak");
            assert_eq!(steps[1].patched, steps[1].original);
        }
        SourcePatchPlan::Unavailable => panic!("expected steps"),
    }
    let missing = plan_source_patch("/r", &targets, &vec![Some("SlashCommand::Statusline".to_string()), None]).unwrap();
    assert!(matches!(missing, SourcePatchPlan::Unavailable));
    let err = plan_source_patch("/r", &targets, &vec![Some("no marker".to_string()), None]);
    assert!(matches!(err, Err(e) if e == "patch marker not found"));
}

#[test]
fn gate_rejection_becomes_stock_run() {
    assert_eq!(
        gate_rejection_outcome("invalid signature"),
        InstallOutcome::RanStock { reason: "compatibility gate rejected patch: invalid signature".to_string() }
    );
}

#[test]
fn stock_outcome_follows_support_decision() {
    assert_eq!(stock_outcome_for_mode(&InstallMode::PatchAndRunManaged), None);
    assert_eq!(
        stock_outcome_for_mode(&InstallMode::RunStock { reason: "unsupported compatibility key".to_string() }),
        Some(InstallOutcome::RanStock { reason: "unsupported compatibility key".to_string() })
    );
}

#[test]
fn reverse_patch_requires_exact_patched_state() {
    assert_eq!(exact_state_reversal("CURRENT-UNEXPECTED", "PATCHED-EXPECTED", "ORIGINAL-STOCK"), None);
}

#[test]
fn reverse_patch_rewrites_when_current_content_matches_expected() {
    assert_eq!(
        exact_state_reversal("PATCHED-EXPECTED", "PATCHED-EXPECTED", "ORIGINAL-STOCK"),
        Some("ORIGINAL-STOCK".to_string())
    );
}

#[test]
fn source_root_is_the_nearest_checkout() {
    let ancestors = vec!["/r/codex-rs/target/debug".to_string(), "/r/codex-rs/target".to_string(), "/r/codex-rs".to_string(), "/r".to_string()];
    assert_eq!(
        select_source_root(&ancestors, &[false, false, true, false], &[false, false, false, true]),
        Some("/r/codex-rs".to_string())
    );
    assert_eq!(
        select_source_root(&ancestors, &[false, false, false, false], &[false, false, false, true]),
        Some("/r/codex-rs".to_string())
    );
    assert_eq!(select_source_root(&ancestors, &[false; 4], &[false; 4]), None);
}
