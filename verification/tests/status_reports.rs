use codex_hud_ops::integration_flow::{
    integration_status_details_report, integration_status_report, parse_policy_fields, HomeFacts,
};
use codex_hud_ops::status::{redact_secret_like, render_status_details, render_status_summary, StatusSnapshot};

#[test]
fn details_include_paths_and_hashes() {
    let s = StatusSnapshot {
        installed: true,
        shim_present: true,
        rc_block_present: true,
        compatible: false,
        codex_version: Some("0.95.0".to_string()),
        codex_sha256: Some("abc123".to_string()),
        managed_root: Some("/home/u/.codex-hud".to_string()),
        stock_codex_path: Some("/usr/local/bin/codex".to_string()),
        patch_mode: Some("stock".to_string()),
        patch_reason: Some("unsupported compatibility key".to_string()),
        compat_key: Some("0.95.0+deadbeef".to_string()),
        compat_refresh_source: Some("local-cache-fallback".to_string()),
    };

    let text = render_status_details(&s);
    assert!(text.contains("codex_version: 0.95.0"));
    assert!(text.contains("codex_sha256: abc123"));
    assert!(text.contains("managed_root: /home/u/.codex-hud"));
    assert!(text.contains("stock_codex_path: /usr/local/bin/codex"));
    assert!(text.contains("patch_mode: stock"));
    assert!(text.contains("patch_reason: unsupported compatibility key"));
    assert!(text.contains("compat_key: 0.95.0+deadbeef"));
    assert!(text.contains("compat_refresh_source: local-cache-fallback"));
    assert!(text.contains("unsupported_notice: shown_once"));
}

#[test]
fn details_do_not_echo_secret_values() {
    let s = StatusSnapshot {
        codex_sha256: Some("sk-secret-token-123".to_string()),
        ..StatusSnapshot::default()
    };
    let text = render_status_details(&s);
    assert!(!text.contains("sk-secret-token-123"));
}

#[test]
fn summary_contains_core_install_state() {
    let s = StatusSnapshot {
        installed: true,
        shim_present: true,
        rc_block_present: true,
        compatible: true,
        codex_version: Some("0.94.0".to_string()),
        patch_mode: Some("patched".to_string()),
        compat_key: Some("0.104.0+abc123".to_string()),
        compat_refresh_source: Some("github-release".to_string()),
        ..StatusSnapshot::default()
    };

    let text = render_status_summary(&s);
    assert!(text.contains("installed: yes"));
    assert!(text.contains("shim: present"));
    assert!(text.contains("compatibility: supported"));
    assert!(text.contains("patch_mode: patched"));
    assert!(text.contains("compat_key: 0.104.0+abc123"));
    assert!(text.contains("refresh_source: github-release"));
}

#[test]
fn summary_of_default_snapshot_is_exact() {
    assert_eq!(
        render_status_summary(&StatusSnapshot::default()),
        "codex-hud status\ninstalled: no\nshim: missing\ncompatibility: unsupported\npatch_mode: unknown\ncompat_key: unknown\nrefresh_source: unknown"
    );
}

#[test]
fn details_of_default_snapshot_is_exact() {
    assert_eq!(
        render_status_details(&StatusSnapshot::default()),
        "codex-hud status details\ninstalled: false\nshim_present: false\nrc_block_present: false\ncompatible: false\ncodex_version: unknown\ncodex_sha256: unknown\nmanaged_root: unknown\nstock_codex_path: unknown\npatch_mode: unknown\npatch_reason: unknown\ncompat_key: unknown\ncompat_refresh_source: unknown\nunsupported_notice: shown_once"
    );
}

#[test]
fn redaction_ignores_case_and_keeps_plain_values() {
    assert_eq!(redact_secret_like("Bearer abc"), "[redacted]");
    assert_eq!(redact_secret_like("my-TOKEN"), "[redacted]");
    assert_eq!(redact_secret_like("SK-1"), "[redacted]");
    assert_eq!(redact_secret_like("/usr/local/bin/codex"), "/usr/local/bin/codex");
}

fn facts() -> HomeFacts {
    HomeFacts {
        shim_present: false,
        runtime_present: false,
        rc_text: String::new(),
        managed_root: "/h/.codex-hud".to_string(),
        stock_codex_path_text: None,
        policy_text: None,
        compat_key_text: None,
        refresh_source_text: None,
    }
}

#[test]
fn status_works_when_rc_file_and_policy_files_are_missing() {
    let out = integration_status_report(&facts());
    assert!(out.contains("installed: no"));
    assert!(out.contains("compatibility: supported"));
    assert!(out.ends_with("\nruntime: missing"));
}

#[test]
fn status_reads_policy_and_compat_files_with_trimming() {
    let f = HomeFacts {
        policy_text: Some("mode=patched\nreason=ok\n".to_string()),
        compat_key_text: Some(" key \n".to_string()),
        refresh_source_text: Some(" source \n".to_string()),
        ..facts()
    };
    let out = integration_status_report(&f);
    assert!(out.contains("patch_mode: patched"));
    assert!(out.contains("compat_key: key"));
    assert!(out.contains("refresh_source: source"));
}

#[test]
fn status_reads_policy_reason_without_mode_line() {
    let f = HomeFacts {
        policy_text: Some("reason=unsupported compatibility key\n".to_string()),
        ..facts()
    };
    let out = integration_status_report(&f);
    assert!(out.contains("compatibility: unsupported"));
}

#[test]
fn status_details_uses_policy_reason_to_mark_incompatible() {
    let f = HomeFacts {
        shim_present: true,
        policy_text: Some("mode=stock\nreason=unsupported compatibility key\n".to_string()),
        compat_key_text: Some(" 0.104.0+abc \n".to_string()),
        refresh_source_text: Some(" github-release \n".to_string()),
        ..facts()
    };
    let out = integration_status_details_report(&f);
    assert!(out.contains("compatible: false"));
    assert!(out.contains("compat_key: 0.104.0+abc"));
    assert!(out.contains("compat_refresh_source: github-release"));
}

#[test]
fn status_details_reads_existing_rc_file_without_block() {
    let f = HomeFacts { rc_text: "# user config\n".to_string(), ..facts() };
    let out = integration_status_details_report(&f);
    assert!(out.contains("rc_block_present: false"));
    assert!(out.contains("compatible: true"));
}

#[test]
fn runtime_counts_as_installed_only_in_summary() {
    let f = HomeFacts { runtime_present: true, ..facts() };
    assert!(integration_status_report(&f).contains("installed: yes"));
    assert!(integration_status_report(&f).contains("runtime: present"));
    assert!(integration_status_details_report(&f).contains("installed: false"));
    let rc = HomeFacts { rc_text: "# BEGIN CODEX HUD MANAGED BLOCK\n".to_string(), ..facts() };
    assert!(integration_status_details_report(&rc).contains("installed: true"));
}

#[test]
fn policy_lines_later_override_earlier() {
    assert_eq!(
        parse_policy_fields("mode= a \nreason=r1\nmode=b\nother=x"),
        (Some("b".to_string()), Some("r1".to_string()))
    );
    assert_eq!(parse_policy_fields(""), (None, None));
}

#[test]
fn status_details_reads_stock_pointer_when_present() {
    let f = HomeFacts { stock_codex_path_text: Some(" /usr/bin/codex \n".to_string()), ..facts() };
    assert!(integration_status_details_report(&f).contains("stock_codex_path: /usr/bin/codex"));
}

#[test]
fn details_report_is_fourteen_field_lines() {
    let s = StatusSnapshot {
        compatible: true,
        codex_sha256: Some("Bearer xyz".to_string()),
        patch_reason: Some("ok".to_string()),
        ..StatusSnapshot::default()
    };
    let text = render_status_details(&s);
    let l: Vec<&str> = text.lines().collect();
    assert_eq!(l.len(), 14);
    assert_eq!(l[0], "codex-hud status details");
    assert_eq!(l[4], "compatible: true");
    assert_eq!(l[6], "codex_sha256: [redacted]");
    assert_eq!(l[10], "patch_reason: ok");
    assert_eq!(l[13], "unsupported_notice: not_applicable");
}

#[test]
fn status_after_install_and_after_uninstall() {
    let installed = HomeFacts { shim_present: true, runtime_present: true, ..facts() };
    let out = integration_status_report(&installed);
    assert!(out.contains("installed: yes"));
    assert!(out.contains("shim: present"));
    assert!(out.contains("runtime: present"));
    let removed = integration_status_report(&facts());
    assert!(removed.contains("installed: no"));
    assert!(removed.contains("shim: missing"));
    assert!(removed.contains("runtime: missing"));
}
