use codex_hud_ops::compatibility::resolve_launch_mode;
use codex_hud_ops::install_message::build_install_next_steps;
use codex_hud_ops::{preflight, uninstall_mode, PreflightInput};

#[test]
fn unsupported_key_runs_stock_codex() {
    let mode = resolve_launch_mode("0.95.0+zzz", &["0.94.0+abc".to_string()]);
    assert_eq!(mode, "stock_codex");
}

#[test]
fn supported_key_runs_patched_codex() {
    let keys = vec!["0.94.0+abc".to_string(), "0.95.0+zzz".to_string()];
    assert_eq!(resolve_launch_mode("0.95.0+zzz", &keys), "patched_codex");
    assert_eq!(resolve_launch_mode("0.95.0+zz", &keys), "stock_codex");
}

#[test]
fn install_output_includes_shell_reload_guidance() {
    let message = build_install_next_steps(".zshrc");
    assert!(message.contains("Restart your shell"));
    assert!(message.contains("source ~/.zshrc"));
}

#[test]
fn uninstall_mode_is_non_interactive() {
    assert_eq!(uninstall_mode(), "non_interactive_no_prompt");
}

#[test]
fn preflight_fails_when_codex_missing() {
    let input = PreflightInput {
        codex_path: None,
        ..PreflightInput::default()
    };

    let err = preflight(&input).unwrap_err();
    assert!(err.contains("Codex binary not found"));
}

#[test]
fn preflight_fails_for_unsupported_version_sha() {
    let input = PreflightInput {
        codex_path: Some("/usr/local/bin/codex".to_string()),
        codex_version: Some("0.95.0".to_string()),
        codex_sha256: Some("zzz999".to_string()),
        supported_keys: vec!["0.94.0+abc123".to_string()],
    };

    let err = preflight(&input).unwrap_err();
    assert!(err.contains("Unsupported Codex version+sha"));
    assert!(err.contains("stock Codex"));
}

#[test]
fn preflight_rejects_missing_version() {
    let input = PreflightInput {
        codex_path: Some("/usr/local/bin/codex".to_string()),
        codex_version: None,
        codex_sha256: Some("zzz999".to_string()),
        supported_keys: vec!["0.95.0+zzz999".to_string()],
    };

    let err = preflight(&input).unwrap_err();
    assert!(err.contains("Codex version unavailable"));
}

#[test]
fn preflight_rejects_missing_sha256() {
    let input = PreflightInput {
        codex_path: Some("/usr/local/bin/codex".to_string()),
        codex_version: Some("0.95.0".to_string()),
        codex_sha256: None,
        supported_keys: vec!["0.95.0+zzz999".to_string()],
    };

    let err = preflight(&input).unwrap_err();
    assert!(err.contains("Codex sha256 unavailable"));
}

#[test]
fn preflight_passes_for_supported_key_and_matches_launch_mode() {
    let input = PreflightInput {
        codex_path: Some("/usr/local/bin/codex".to_string()),
        codex_version: Some("0.95.0".to_string()),
        codex_sha256: Some("zzz999".to_string()),
        supported_keys: vec!["0.95.0+zzz999".to_string()],
    };
    assert_eq!(preflight(&input), Ok(()));
    assert_eq!(resolve_launch_mode("0.95.0+zzz999", &input.supported_keys), "patched_codex");
}

#[test]
fn preflight_reports_the_unsupported_key() {
    let input = PreflightInput {
        codex_path: Some("/usr/local/bin/codex".to_string()),
        codex_version: Some("0.95.0".to_string()),
        codex_sha256: Some("zzz999".to_string()),
        supported_keys: vec![],
    };
    assert_eq!(
        preflight(&input),
        Err("Unsupported Codex version+sha 0.95.0+zzz999; codex-hud leaves stock Codex in place".to_string())
    );
}
