//! The checks made before anything is installed: Codex must be found, its
//! version and digest known, and its compatibility key supported.
use vstd::prelude::*;

use crate::compatibility::launch_mode;
use crate::support_gate::key_listed;
use crate::text::{owned, views};

verus! {

/// What preflight knows of the installed Codex.
#[derive(Debug, Clone)]
pub struct PreflightInput {
    pub codex_path: Option<String>,
    pub codex_version: Option<String>,
    pub codex_sha256: Option<String>,
    pub supported_keys: Vec<String>,
}

impl Default for PreflightInput {
    /// Nothing known and no supported keys.
    fn default() -> (r: Self)
        ensures
            r.codex_path is None && r.codex_version is None && r.codex_sha256 is None,
            r.supported_keys@.len() == 0,
    {
        PreflightInput {
            codex_path: None,
            codex_version: None,
            codex_sha256: None,
            supported_keys: Vec::new(),
        }
    }
}

/// The compatibility key of the probed Codex, `version+sha256`.
pub open spec fn probed_key(input: PreflightInput) -> Seq<char> {
    input.codex_version->0@ + "+"@ + input.codex_sha256->0@
}

/// The refusal for an unsupported key.
pub open spec fn unsupported_key_message(key: Seq<char>) -> Seq<char> {
    "Unsupported Codex version+sha "@ + key + "; codex-hud leaves stock Codex in place"@
}

/// Why preflight refuses the input, checked in this order; `None` when
/// the install may go ahead.
pub open spec fn preflight_refusal(input: PreflightInput) -> Option<Seq<char>> {
    if input.codex_path is None {
        Some("Codex binary not found"@)
    } else if input.codex_version is None {
        Some("Codex version unavailable"@)
    } else if input.codex_sha256 is None {
        Some("Codex sha256 unavailable"@)
    } else if !views(input.supported_keys@).contains(probed_key(input)) {
        Some(unsupported_key_message(probed_key(input)))
    } else {
        None
    }
}

/// Checks that Codex was found, that its version and sha256 are known and
/// that its `version+sha256` key is supported; the error says which check
/// failed.
pub fn preflight(input: &PreflightInput) -> (r: Result<(), String>)
    ensures
        match r {
            Ok(()) => preflight_refusal(*input) is None,
            Err(e) => preflight_refusal(*input) == Some(e@),
        },
{
    if input.codex_path.is_none() {
        return Err(owned("Codex binary not found"));
    }
    let version = match &input.codex_version {
        Some(v) => v,
        None => return Err(owned("Codex version unavailable")),
    };
    let sha = match &input.codex_sha256 {
        Some(s) => s,
        None => return Err(owned("Codex sha256 unavailable")),
    };
    let mut key = version.clone();
    key.append("+");
    key.append(sha.as_str());
    proof {
        assert(key@ == probed_key(*input));
    }
    if key_listed(input.supported_keys.as_slice(), key.as_str()) {
        Ok(())
    } else {
        let mut msg = owned("Unsupported Codex version+sha ");
        msg.append(key.as_str());
        msg.append("; codex-hud leaves stock Codex in place");
        Err(msg)
    }
}

/// Preflight and the launcher agree: once Codex, its version and its
/// digest are known, preflight lets the install through exactly when the
/// launch mode for the probed key is the patched Codex.
pub proof fn lemma_preflight_agrees_with_launch_mode(input: PreflightInput)
    requires
        input.codex_path is Some,
        input.codex_version is Some,
        input.codex_sha256 is Some,
    ensures
        (preflight_refusal(input) is None) == (launch_mode(
            probed_key(input),
            views(input.supported_keys@),
        ) == "patched_codex"@),
{
    reveal_strlit("patched_codex");
    reveal_strlit("stock_codex");
    assert("patched_codex"@[0] != "stock_codex"@[0]);
}

/// Preflight lets an install through exactly when Codex was found, its
/// version and sha256 are known, and `<version>+<sha256>` is one of the
/// supported keys; and each refusal names what is missing, in the order
/// path, version, sha256.
pub proof fn lemma_preflight_passes_exactly_for_supported_keys(input: PreflightInput)
    ensures
        (preflight_refusal(input) is None) == (input.codex_path is Some
            && input.codex_version is Some && input.codex_sha256 is Some && views(
            input.supported_keys@,
        ).contains(input.codex_version->0@ + "+"@ + input.codex_sha256->0@)),
        input.codex_path is None ==> preflight_refusal(input) == Some("Codex binary not found"@),
        input.codex_path is Some && input.codex_version is None ==> preflight_refusal(input)
            == Some("Codex version unavailable"@),
        input.codex_path is Some && input.codex_version is Some && input.codex_sha256 is None
            ==> preflight_refusal(input) == Some("Codex sha256 unavailable"@),
{
}

} // verus!
