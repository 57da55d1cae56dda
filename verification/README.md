# codex_hud_ops

The operations layer of the codex-hud installer, as a Verus-verified
library (`src/`) with a thin unverified shell around it (`app/`).

`src/` decides and computes: the compatibility key of the installed Codex
(version parsing, the launcher digest that ignores the codex-hud snippet),
the signed compatibility manifest and the support check, the native patch of
the npm launcher and of a source checkout, the shell rc block, the
`config.toml` status line migration, the once-per-key unsupported notice and
the status reports. Each public function states its result in its `ensures`,
and the properties that span functions are public proof functions (for
example `lemma_npm_patch_undone_by_strip`, `lemma_patched_launcher_digest`,
`lemma_rc_install_idempotent`, `lemma_notice_shown_once`).

Calls into `sha2`, `ed25519-dalek`, `hex`, `serde_json` and `toml` go
through small `#[verifier::external_body]` wrappers whose contracts name
their results.

`app/` reads and writes files, runs processes and downloads the bundle with
`reqwest`, and hands plain values to the library.
