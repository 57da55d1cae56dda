use codex_hud_ops::shell_rc::{rc_text_with_block, rc_text_without_block};
use codex_hud_ops::unsupported_notice::{
    build_unsupported_notice_message, manual_unsupported_notice_reshow_available,
    notice_state_update,
};

#[test]
fn unsupported_notice_includes_support_check_action() {
    let msg = build_unsupported_notice_message("0.95.0+zzz");
    assert!(msg.contains("Run `codex-hud status details` to check compatibility support"));
}

#[test]
fn unsupported_notice_has_no_manual_reshow_control() {
    assert!(!manual_unsupported_notice_reshow_available());
}

#[test]
fn unsupported_notice_only_once_per_version() {
    let first = notice_state_update("", "0.95.0+zzz");
    assert_eq!(first, Some("0.95.0+zzz\n".to_string()));
    let state = first.unwrap();
    assert_eq!(notice_state_update(&state, "0.95.0+zzz"), None);
    let second = notice_state_update(&state, "0.96.0+aaa").unwrap();
    assert_eq!(second, "0.95.0+zzz\n0.96.0+aaa\n");
    assert_eq!(notice_state_update(&second, "0.96.0+aaa"), None);
}

#[test]
fn notice_state_ignores_blank_lines_and_spacing() {
    assert_eq!(notice_state_update("  a  \r\n\n\nb\n", "a"), None);
    assert_eq!(notice_state_update("  a  \r\n\n\nb", "c"), Some("a\nb\nc\n".to_string()));
}

#[test]
fn rc_block_is_appended_once() {
    let once = rc_text_with_block("export FOO=bar\n", "/home/u/.codex-hud/bin").unwrap();
    assert_eq!(rc_text_with_block(&once, "/home/u/.codex-hud/bin"), None);
    assert_eq!(once.matches("BEGIN CODEX HUD MANAGED BLOCK").count(), 1);
    assert!(once.contains("/home/u/.codex-hud/bin"));
    assert_eq!(
        once,
        "export FOO=bar\n\n# BEGIN CODEX HUD MANAGED BLOCK\nexport PATH=\"/home/u/.codex-hud/bin:$PATH\"\n# END CODEX HUD MANAGED BLOCK\n"
    );
}

#[test]
fn uninstall_removes_only_managed_block() {
    let content = r#"export FOO=bar
# BEGIN CODEX HUD MANAGED BLOCK
export PATH="/x/.codex-hud/bin:$PATH"
# END CODEX HUD MANAGED BLOCK
export BAR=baz
"#;
    let out = rc_text_without_block(content);
    assert!(out.contains("export FOO=bar"));
    assert!(out.contains("export BAR=baz"));
    assert!(!out.contains("CODEX HUD MANAGED BLOCK"));
    assert_eq!(out, "export FOO=bar\nexport BAR=baz\n");
}

#[test]
fn uninstall_does_not_modify_unmanaged_rc_content() {
    assert_eq!(
        rc_text_without_block("export FOO=bar\nexport BAR=baz\n"),
        "export FOO=bar\nexport BAR=baz\n"
    );
}

#[test]
fn install_then_remove_gives_the_original_back() {
    let added = rc_text_with_block("export FOO=bar\n", "/b").unwrap();
    assert_eq!(rc_text_without_block(&added), "export FOO=bar\n");
    let twice = "a\n\n# BEGIN CODEX HUD MANAGED BLOCK\nx\n# END CODEX HUD MANAGED BLOCK\n\nb\n";
    assert_eq!(rc_text_without_block(twice), "a\n\nb\n");
}
