//! What the installer prints when it is done.
use vstd::prelude::*;

use crate::text::owned;

verus! {

/// The closing message of an install, telling how to pick up the new
/// `PATH` from the shell rc file `rc_file` (relative to the home directory).
pub fn build_install_next_steps(rc_file: &str) -> (r: String)
    ensures
        r@ == "codex-hud install complete. Restart your shell, or run `source ~/"@ + rc_file@
            + "` to activate PATH changes."@,
{
    let mut out = owned("codex-hud install complete. Restart your shell, or run `source ~/");
    out.append(rc_file);
    out.append("` to activate PATH changes.");
    out
}

} // verus!
