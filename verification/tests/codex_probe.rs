use codex_hud_ops::codex_probe::{select_codex_package_root, select_codex_path};
use codex_hud_ops::codex_probe::{
    codex_version_from_output, compatibility_key, find_subslice, is_codex_hud_managed_shim,
    is_codex_package_json, normalized_sha256_hex, parse_codex_version_line,
    resolve_npm_vendor_binary_path_from_package_root, strip_managed_patch_block,
};

#[test]
fn find_subslice_handles_empty_and_oversized_needles() {
    assert_eq!(find_subslice(b"abc", b""), None);
    assert_eq!(find_subslice(b"ab", b"abc"), None);
    assert_eq!(find_subslice(b"abc", b"bc"), Some(1));
}

#[test]
fn managed_shim_detector_requires_expected_path_shape() {
    assert!(!is_codex_hud_managed_shim("codex", false));
    assert!(!is_codex_hud_managed_shim("tools/codex", false));
    assert!(!is_codex_hud_managed_shim(".codex-hud/bin/not-codex", false));
    assert!(is_codex_hud_managed_shim(".codex-hud/bin/codex", false));
}

#[test]
fn managed_shim_detector_accepts_absolute_and_extension_forms() {
    assert!(is_codex_hud_managed_shim("/home/u/.codex-hud/bin/codex", false));
    assert!(is_codex_hud_managed_shim("/home/u/.codex-hud/bin/CODEX.exe", false));
    assert!(is_codex_hud_managed_shim("/home/u/./.codex-hud//bin/codex/", false));
    assert!(!is_codex_hud_managed_shim("/home/u/.codex-hud/lib/codex", false));
    assert!(!is_codex_hud_managed_shim("/home/u/codex-hud/bin/codex", false));
}

#[test]
fn find_subslice_returns_first_occurrence() {
    assert_eq!(find_subslice(b"abab", b"ab"), Some(0));
    assert_eq!(find_subslice(b"xxabab", b"ab"), Some(2));
    assert_eq!(find_subslice(b"abc", b"abc"), Some(0));
    assert_eq!(find_subslice(b"abc", b"d"), None);
}

#[test]
fn version_line_takes_second_word_without_v_prefix() {
    assert_eq!(parse_codex_version_line("codex-cli 0.104.0"), Some("0.104.0".to_string()));
    assert_eq!(parse_codex_version_line("  codex   v0.95.0  extra"), Some("0.95.0".to_string()));
    assert_eq!(parse_codex_version_line("codex vv1"), Some("1".to_string()));
    assert_eq!(parse_codex_version_line("codex"), None);
    assert_eq!(parse_codex_version_line("   "), None);
    assert_eq!(parse_codex_version_line(""), None);
}

#[test]
fn version_comes_from_first_output_line() {
    assert_eq!(
        codex_version_from_output("codex-cli 0.104.0\nsecond line\n"),
        Ok("0.104.0".to_string())
    );
    assert_eq!(
        codex_version_from_output(""),
        Err("missing codex version output".to_string())
    );
    assert_eq!(
        codex_version_from_output("garbage\n"),
        Err("unable to parse codex version".to_string())
    );
}

#[test]
fn compatibility_key_joins_version_and_digest() {
    assert_eq!(compatibility_key("0.104.0", "abc"), "0.104.0+abc");
}

#[test]
fn managed_snippet_is_cut_out_of_launcher_bytes() {
    let patched = b"a\n/* codex-hud-managed:start */\nx\n/* codex-hud-managed:end */\nb\n";
    assert_eq!(strip_managed_patch_block(patched), b"a\nb\n".to_vec());
    let crlf = b"a\r\n/* codex-hud-managed:start */\r\nx\r\n/* codex-hud-managed:end */\r\nb\r\n";
    assert_eq!(strip_managed_patch_block(crlf), b"a\r\nb\r\n".to_vec());
    let unmatched = b"a /* codex-hud-managed:start */ b";
    assert_eq!(strip_managed_patch_block(unmatched), unmatched.to_vec());
}

#[test]
fn digest_is_lowercase_sha256_hex() {
    assert_eq!(
        normalized_sha256_hex(b"abc"),
        "ba7816bf8f01cfea414140de5dae2223b00361a396177a9cb410ff61f20015ad"
    );
}

#[test]
fn patched_and_stock_launchers_digest_alike() {
    let stock = b"const env = { ...process.env, PATH: updatedPath };\nrun();\n";
    let patched = b"const env = { ...process.env, PATH: updatedPath };\n/* codex-hud-managed:start */\nenv.CODEX_HUD_NATIVE_PATCH = \"1\";\n/* codex-hud-managed:end */\nrun();\n";
    assert_eq!(normalized_sha256_hex(stock), normalized_sha256_hex(patched));
}

#[test]
fn vendor_binary_path_follows_platform() {
    assert_eq!(
        resolve_npm_vendor_binary_path_from_package_root("/n/codex", "linux", "x86_64"),
        Ok("/n/codex/node_modules/@openai/codex-linux-x64/vendor/x86_64-unknown-linux-musl/codex/codex".to_string())
    );
    assert_eq!(
        resolve_npm_vendor_binary_path_from_package_root("/n/codex/", "windows", "aarch64"),
        Ok("/n/codex/node_modules/@openai/codex-win32-arm64/vendor/aarch64-pc-windows-msvc/codex/codex.exe".to_string())
    );
    assert_eq!(
        resolve_npm_vendor_binary_path_from_package_root("/n/codex", "freebsd", "x86_64"),
        Err("unsupported platform for npm codex vendor binary path resolution".to_string())
    );
}

#[test]
fn package_json_must_name_codex() {
    assert!(is_codex_package_json(r#"{"name":"@openai/codex","version":"0.104.0"}"#));
    assert!(!is_codex_package_json(r#"{"name":"other"}"#));
    assert!(!is_codex_package_json(r#"{"name":1}"#));
    assert!(!is_codex_package_json("not json"));
}

#[test]
fn explicit_codex_wins_and_shims_are_skipped() {
    let candidates = vec![
        "/home/u/.codex-hud/bin/codex".to_string(),
        "/usr/bin/codex".to_string(),
        "/opt/bin/codex".to_string(),
    ];
    assert_eq!(
        select_codex_path(None, false, &candidates, &[true, false, true], false),
        Ok("/opt/bin/codex".to_string())
    );
    assert_eq!(
        select_codex_path(Some("/x/codex"), true, &candidates, &[true, true, true], false),
        Ok("/x/codex".to_string())
    );
    assert_eq!(
        select_codex_path(Some("/x/codex"), false, &candidates, &[true, true, false], false),
        Ok("/usr/bin/codex".to_string())
    );
    assert_eq!(
        select_codex_path(None, false, &candidates, &[true, false, false], false),
        Err("Codex binary not found".to_string())
    );
}

#[test]
fn windows_paths_split_at_backslash_too() {
    assert!(is_codex_hud_managed_shim("C:\\Users\\u\\.codex-hud\\bin\\codex.exe", true));
    assert!(is_codex_hud_managed_shim("C:\\Users\\u/.codex-hud\\bin/codex.cmd", true));
    assert!(!is_codex_hud_managed_shim("C:\\Users\\u\\.codex-hud\\bin\\codex.exe", false));
    assert!(!is_codex_hud_managed_shim("C:\\Users\\u\\.codex-hud\\lib\\codex.exe", true));
    let candidates = vec![
        "C:\\Users\\u\\.codex-hud\\bin\\codex.exe".to_string(),
        "C:\\Program Files\\codex\\codex.exe".to_string(),
    ];
    assert_eq!(
        select_codex_path(None, false, &candidates, &[true, true], true),
        Ok("C:\\Program Files\\codex\\codex.exe".to_string())
    );
}

#[test]
fn package_root_is_the_first_ancestor_naming_codex() {
    let ancestors = vec!["/n/codex/bin".to_string(), "/n/codex".to_string(), "/n".to_string()];
    let texts = vec![
        None,
        Some(r#"{"name":"@openai/codex"}"#.to_string()),
        Some(r#"{"name":"@openai/codex"}"#.to_string()),
    ];
    assert_eq!(select_codex_package_root(&ancestors, &texts), Some("/n/codex".to_string()));
    let none = vec![None, Some(r#"{"name":"x"}"#.to_string()), None];
    assert_eq!(select_codex_package_root(&ancestors, &none), None);
}
