use codex_hud_ops::paths::{join_path, managed_paths, with_extension};
use codex_hud_ops::release_gate::release_gate_requirements;
use codex_hud_ops::shim::codex_shim_script;
use codex_hud_ops::compat_refresh::{compat_bundle_urls, download_failure};

#[test]
fn unix_path_matrix() {
    let p = managed_paths("/home/u", false);
    assert_eq!(p.root, "/home/u/.codex-hud");
    assert_eq!(p.bin_dir, "/home/u/.codex-hud/bin");
}

#[test]
fn windows_path_matrix() {
    let p = managed_paths("C:\\Users\\u", true);
    assert_eq!(p.root, "C:\\Users\\u\\.codex-hud");
    assert_eq!(p.bin_dir, "C:\\Users\\u\\.codex-hud\\bin");
}

#[test]
fn managed_paths_drop_trailing_separators() {
    let p = managed_paths("/home/u//", false);
    assert_eq!(p.root, "/home/u/.codex-hud");
    let w = managed_paths("C:\\Users\\u\\", true);
    assert_eq!(w.bin_dir, "C:\\Users\\u\\.codex-hud\\bin");
}

#[test]
fn joins_and_extensions_follow_std_paths() {
    assert_eq!(join_path("/a", "b"), "/a/b");
    assert_eq!(join_path("/a/", "b"), "/a/b");
    assert_eq!(join_path("/a", "/b"), "/b");
    assert_eq!(join_path("", "b"), "b");
    assert_eq!(with_extension("/a/b.rs", "bak"), "/a/b.bak");
    assert_eq!(with_extension("/a/b", "bak"), "/a/b.bak");
    assert_eq!(with_extension("/a/.hidden", "bak"), "/a/.hidden.bak");
    assert_eq!(with_extension("/a/b.tar.gz", "bak"), "/a/b.tar.bak");
    assert_eq!(with_extension("/a/", "bak"), "/a/");
}

#[test]
fn release_gate_requires_snapshot_tests() {
    let req = release_gate_requirements();
    assert!(req.contains(&"snapshot_tests".to_string()));
}

#[test]
fn release_gate_includes_cross_platform_smoke_matrix() {
    let req = release_gate_requirements();
    assert!(req.contains(&"smoke:macos-latest".to_string()));
    assert!(req.contains(&"smoke:ubuntu-latest".to_string()));
    assert!(req.contains(&"smoke:windows-latest".to_string()));
}

#[test]
fn release_gate_lists_six_requirements() {
    assert_eq!(release_gate_requirements().len(), 6);
}

#[test]
fn shim_quotes_stock_codex_path_and_preserves_passthrough_args() {
    let text = codex_shim_script("/opt/Codex App/bin/codex");
    assert!(text.contains("exec codex-hud run --stock-codex"));
    assert!(text.contains("\"/opt/Codex App/bin/codex\""));
    assert!(text.contains("\"$@\""));
    assert_eq!(
        text,
        "#!/usr/bin/env sh\nexec codex-hud run --stock-codex \"/opt/Codex App/bin/codex\" \"$@\"\n"
    );
}

#[test]
fn refresh_trims_trailing_slash_in_release_base_url() {
    let (m, k) = compat_bundle_urls(Some("http://127.0.0.1:9/x//"));
    assert_eq!(m, "http://127.0.0.1:9/x/compat.json");
    assert_eq!(k, "http://127.0.0.1:9/x/public_key.hex");
    let (dm, _) = compat_bundle_urls(None);
    assert_eq!(
        dm,
        "https://github.com/personal/codex-hud/releases/latest/download/compat.json"
    );
}

#[test]
fn download_failure_only_for_non_success_status() {
    assert_eq!(download_failure("u", 200, "200 OK"), None);
    assert_eq!(download_failure("u", 299, "299"), None);
    assert_eq!(
        download_failure("http://h/compat.json", 404, "404 Not Found"),
        Some("download failed: http://h/compat.json (404 Not Found)".to_string())
    );
    assert!(download_failure("u", 302, "302 Found").is_some());
}
