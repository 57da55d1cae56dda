use codex_hud_ops::manifest_signing::{sign_manifest_for_tests, test_public_key_hex_for_tests};
use codex_hud_ops::support_gate::{
    canonical_manifest_payload, resolve_install_mode, verify_manifest_signature,
    CompatibilityManifest, InstallMode,
};

#[test]
fn tampered_keys_fail_signature_validation() {
    let payload = "0.104.0+abc";
    let sig = sign_manifest_for_tests(payload);
    let pubkey = test_public_key_hex_for_tests();
    let err = verify_manifest_signature("0.104.0+zzz", &sig, &pubkey).unwrap_err();
    assert!(err.contains("invalid signature"));
}

#[test]
fn canonical_payload_verification_is_order_independent() {
    let payload = r#"{"schema_version":1,"supported_keys":["0.104.0+abc","0.104.0+def"]}"#;
    let sig = sign_manifest_for_tests(payload);
    let manifest = CompatibilityManifest {
        schema_version: 1,
        supported_keys: vec!["0.104.0+def".to_string(), "0.104.0+abc".to_string()],
        signature_hex: sig,
    };

    let pubkey = test_public_key_hex_for_tests();
    let mode = resolve_install_mode(&manifest, "0.104.0+abc", &pubkey).unwrap();
    assert_eq!(mode, InstallMode::PatchAndRunManaged);
}

#[test]
fn canonical_payload_sorts_and_escapes_keys() {
    let manifest = CompatibilityManifest {
        schema_version: 1,
        supported_keys: vec!["b".to_string(), "a\"q".to_string()],
        signature_hex: String::new(),
    };
    assert_eq!(
        canonical_manifest_payload(&manifest),
        Ok(r#"{"schema_version":1,"supported_keys":["a\"q","b"]}"#.to_string())
    );
    let empty = CompatibilityManifest {
        schema_version: 1,
        supported_keys: vec![],
        signature_hex: String::new(),
    };
    assert_eq!(
        canonical_manifest_payload(&empty),
        Ok(r#"{"schema_version":1,"supported_keys":[]}"#.to_string())
    );
}

#[test]
fn unlisted_key_runs_stock_with_reason() {
    let payload = r#"{"schema_version":1,"supported_keys":["0.104.0+abc"]}"#;
    let manifest = CompatibilityManifest {
        schema_version: 1,
        supported_keys: vec!["0.104.0+abc".to_string()],
        signature_hex: sign_manifest_for_tests(payload),
    };
    let mode = resolve_install_mode(&manifest, "0.104.0+zzz", &test_public_key_hex_for_tests()).unwrap();
    assert_eq!(
        mode,
        InstallMode::RunStock { reason: "unsupported compatibility key".to_string() }
    );
}

#[test]
fn gate_refuses_other_schema_and_bad_signature() {
    let manifest = CompatibilityManifest {
        schema_version: 2,
        supported_keys: vec!["k".to_string()],
        signature_hex: "00".to_string(),
    };
    assert_eq!(
        resolve_install_mode(&manifest, "k", &test_public_key_hex_for_tests()),
        Err("unsupported manifest schema version".to_string())
    );
    let unsigned = CompatibilityManifest {
        schema_version: 1,
        supported_keys: vec!["k".to_string()],
        signature_hex: "00".to_string(),
    };
    assert_eq!(
        resolve_install_mode(&unsigned, "k", &test_public_key_hex_for_tests()),
        Err("invalid signature".to_string())
    );
}
