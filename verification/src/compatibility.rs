//! How Codex is launched for a compatibility key: the patched Codex when
//! the key is supported, the stock Codex otherwise.
use vstd::prelude::*;

use crate::support_gate::{key_listed, mode_for_key, InstallMode};
use crate::text::views;

verus! {

/// The launch mode for `current` among the supported keys.
pub open spec fn launch_mode(current: Seq<char>, supported: Seq<Seq<char>>) -> Seq<char> {
    if supported.contains(current) {
        "patched_codex"@
    } else {
        "stock_codex"@
    }
}

/// `patched_codex` when `current` is one of the supported keys, else
/// `stock_codex`.
pub fn resolve_launch_mode(current: &str, supported: &[String]) -> (r: &'static str)
    ensures
        r@ == launch_mode(current@, views(supported@)),
{
    if key_listed(supported, current) {
        "patched_codex"
    } else {
        "stock_codex"
    }
}

/// The support check and the launcher agree: for a key that the support
/// check has decided on under a trusted manifest, it patches exactly when
/// the launch mode for that key over the manifest's keys is the patched
/// Codex.
pub proof fn lemma_gate_agrees_with_launch_mode(
    mode: InstallMode,
    supported: Seq<Seq<char>>,
    key: Seq<char>,
)
    requires
        mode_for_key(mode, supported, key),
    ensures
        (mode is PatchAndRunManaged) == (launch_mode(key, supported) == "patched_codex"@),
{
    reveal_strlit("patched_codex");
    reveal_strlit("stock_codex");
    assert("patched_codex"@[0] != "stock_codex"@[0]);
}

/// The launcher runs the patched Codex exactly for a supported key and the
/// stock Codex for every other key.
pub proof fn lemma_launch_mode_follows_support(current: Seq<char>, supported: Seq<Seq<char>>)
    ensures
        supported.contains(current) ==> launch_mode(current, supported) == "patched_codex"@,
        !supported.contains(current) ==> launch_mode(current, supported) == "stock_codex"@,
{
}

} // verus!
