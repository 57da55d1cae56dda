//! The `codex` shim that codex-hud puts first on `PATH`: it hands every
//! invocation to `codex-hud run` along with the stock Codex path.
use vstd::prelude::*;

use crate::text::owned;

verus! {

/// The shim script for the stock Codex at `stock_codex_path`.
pub open spec fn shim_script(stock_codex_path: Seq<char>) -> Seq<char> {
    "#!/usr/bin/env sh\nexec codex-hud run --stock-codex \""@ + stock_codex_path
        + "\" \"$@\"\n"@
}

/// The text of the `codex` shim, which runs `codex-hud run` with the stock
/// Codex path quoted and the caller's arguments passed through.
pub fn codex_shim_script(stock_codex_path: &str) -> (r: String)
    ensures
        r@ == shim_script(stock_codex_path@),
{
    let mut out = owned("#!/usr/bin/env sh\nexec codex-hud run --stock-codex \"");
    out.append(stock_codex_path);
    out.append("\" \"$@\"\n");
    out
}

} // verus!
