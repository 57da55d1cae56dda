//! Operations behind the codex-hud installer: compatibility gating of the
//! Codex binary, signed compatibility manifests, native patching of the
//! Codex launcher, shell rc management and status reporting.
use vstd::prelude::*;

pub mod codec;
pub mod codex_probe;
pub mod compat_refresh;
pub mod compatibility;
pub mod crypto;
pub mod install_message;
pub mod integration_flow;
pub mod manifest_signing;
pub mod native_install;
pub mod native_patch;
pub mod paths;
pub mod preflight;
pub mod release_gate;
pub mod shell_rc;
pub mod shim;
pub mod status;
pub mod statusline_migration;
pub mod support_gate;
pub mod text;
pub mod uninstall;
pub mod unsupported_notice;

pub use preflight::{preflight, PreflightInput};

verus! {

/// Whether the operations layer is available.
pub fn ops_ready() -> (r: bool)
    ensures
        r,
{
    true
}

/// How uninstalling runs: without asking anything.
pub fn uninstall_mode() -> (r: &'static str)
    ensures
        r@ == "non_interactive_no_prompt"@,
{
    "non_interactive_no_prompt"
}

} // verus!
