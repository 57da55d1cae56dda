//! Patching of Codex source files at a marker.
use vstd::prelude::*;

use crate::text::{
    chars_of, contains, lemma_contains_middle, lemma_find_contains, owned,
    replace_first, replace_first_exec, str_contains, views,
};

verus! {

/// The text that marks a file as already patched by codex-hud.
pub const MANAGED_TAG: &'static str = "codex-hud-managed";

/// The source files of the Codex TUI that the status line patch touches.
pub open spec fn patch_target_paths() -> Seq<Seq<char>> {
    seq![
        "codex-rs/tui/src/slash_command.rs"@,
        "codex-rs/tui/src/chatwidget.rs"@,
        "codex-rs/tui/src/app.rs"@,
        "codex-rs/tui/src/bottom_pane/status_line_setup.rs"@,
    ]
}

/// The source files of the Codex TUI that the status line patch touches,
/// relative to the Codex repository.
pub fn native_patch_targets() -> (r: Vec<String>)
    ensures
        views(r@) == patch_target_paths(),
{
    let mut r: Vec<String> = Vec::new();
    r.push(owned("codex-rs/tui/src/slash_command.rs"));
    r.push(owned("codex-rs/tui/src/chatwidget.rs"));
    r.push(owned("codex-rs/tui/src/app.rs"));
    r.push(owned("codex-rs/tui/src/bottom_pane/status_line_setup.rs"));
    assert(views(r@) =~= patch_target_paths());
    r
}

/// What patching a text at a marker gives: the text unchanged when it is
/// already managed, an error when the marker is missing, and otherwise the
/// text with the first occurrence of the marker replaced.
pub open spec fn marker_replace(original: Seq<char>, marker: Seq<char>, replacement: Seq<char>) -> Result<
    Seq<char>,
    Seq<char>,
> {
    if contains(original, MANAGED_TAG@) {
        Ok(original)
    } else if !contains(original, marker) {
        Err("patch marker not found"@)
    } else {
        Ok(replace_first(original, marker, replacement))
    }
}

/// Replaces the first occurrence of `marker` with `replacement`, leaving a
/// text that already holds the managed tag untouched; `Err("patch marker
/// not found")` when the marker is missing.
pub fn apply_marker_replace(original: &str, marker: &str, replacement: &str) -> (r: Result<
    String,
    String,
>)
    ensures
        match r {
            Ok(t) => marker_replace(original@, marker@, replacement@) == Ok::<Seq<char>, Seq<char>>(t@),
            Err(e) => marker_replace(original@, marker@, replacement@) == Err::<Seq<char>, Seq<char>>(e@),
        },
{
    if str_contains(original, MANAGED_TAG) {
        return Ok(owned(original));
    }
    if !str_contains(original, marker) {
        return Err(owned("patch marker not found"));
    }
    let o = chars_of(original);
    let m = chars_of(marker);
    Ok(replace_first_exec(&o, &m, replacement))
}

/// Patching is idempotent when the replacement carries the managed tag: a
/// patched text is left as it is by a second patch.
pub proof fn lemma_marker_replace_idempotent(
    original: Seq<char>,
    marker: Seq<char>,
    replacement: Seq<char>,
)
    requires
        contains(replacement, MANAGED_TAG@),
    ensures
        match marker_replace(original, marker, replacement) {
            Ok(t) => marker_replace(t, marker, replacement) == Ok::<Seq<char>, Seq<char>>(t),
            Err(_) => true,
        },
{
    if !contains(original, MANAGED_TAG@) && contains(original, marker) {
        lemma_find_contains(original, marker);
        let i = crate::text::find(original, marker)->0;
        lemma_contains_middle(
            original.subrange(0, i),
            replacement,
            original.subrange(i + marker.len(), original.len() as int),
            MANAGED_TAG@,
        );
    }
}

} // verus!
