//! Native patching of an installed Codex: the npm launcher is patched in
//! place, a source checkout has each patch target patched after a backup.
//! The functions here decide and compute; the file operations are the
//! caller's.
use vstd::prelude::*;
use vstd::utf8::is_ascii_chars;

use crate::native_patch::{apply_marker_replace, marker_replace, MANAGED_TAG};
use crate::status::opt_view;
use crate::support_gate::InstallMode;
use crate::paths::{join_path, path_join, path_with_extension, with_extension};
use crate::text::{
    chars_of, contains, find, find_exec, lemma_contains_transitive, lemma_find_contains,
    lemma_find_from, matches_at, no_newline, owned, replace_first, starts_with, string_of_range,
    trim_start_char, views,
};

verus! {

/// Where the npm package keeps its launcher script.
pub const NPM_LAUNCHER_REL_PATH: &'static str = "bin/codex.js";

/// The launcher line after which the managed snippet goes.
pub const NPM_PATCH_MARKER: &'static str = "const env = { ...process.env, PATH: updatedPath };";

/// The launcher line followed by the managed snippet.
pub const NPM_PATCH_SNIPPET: &'static str = "const env = { ...process.env, PATH: updatedPath };\n/* codex-hud-managed:start */\nenv.CODEX_HUD_NATIVE_PATCH = \"1\";\n/* codex-hud-managed:end */";

/// The start of the managed snippet.
pub const MANAGED_BLOCK_START: &'static str = "/* codex-hud-managed:start */";

/// The end of the managed snippet.
pub const MANAGED_BLOCK_END: &'static str = "/* codex-hud-managed:end */";

/// The source text at which a patch target is patched.
pub const SOURCE_PATCH_MARKER: &'static str = "SlashCommand::Statusline";

/// What the source marker becomes.
pub const SOURCE_PATCH_REPLACEMENT: &'static str = "SlashCommand::Statusline /* codex-hud-managed */";

/// Why nothing is patched when the Codex layout lacks what the patch needs.
pub const SUBSTRATE_UNAVAILABLE: &'static str =
    "native patch substrate unavailable for installed codex layout";

/// Why nothing is patched when the compatibility bundle is missing.
pub const BUNDLE_UNAVAILABLE: &'static str = "compatibility bundle unavailable";

/// The result of a native install.
#[derive(Debug, Clone, PartialEq, Eq)]
pub enum InstallOutcome {
    Patched,
    RanStock { reason: String },
}

/// What a stock Codex run printed and how it exited.
#[derive(Debug, Clone, PartialEq, Eq)]
pub struct PassthroughOutput {
    pub status_code: i32,
    pub stdout: String,
    pub stderr: String,
}

/// `rel` without a leading `codex-rs/`.
pub open spec fn without_repo_prefix(rel: Seq<char>) -> Seq<char> {
    if starts_with(rel, "codex-rs/"@) {
        rel.subrange(9, rel.len() as int)
    } else {
        rel
    }
}

/// Where a patch target lives under the Codex root: the target's path
/// without its leading `codex-rs/`, joined onto the root.
pub open spec fn target_path(codex_root: Seq<char>, rel: Seq<char>) -> Seq<char> {
    path_join(codex_root, without_repo_prefix(rel))
}

/// Where the backup of a patch target goes: under `.codex-hud/backups` of
/// the root, at the target's own relative path, with extension `bak`.
pub open spec fn backup_path(codex_root: Seq<char>, rel: Seq<char>) -> Seq<char> {
    path_with_extension(path_join(path_join(codex_root, ".codex-hud/backups"@), rel), "bak"@)
}

/// The path of a patch target under the Codex root.
pub fn map_target_rel_to_real(codex_root: &str, rel: &str) -> (r: String)
    ensures
        r@ == target_path(codex_root@, rel@),
{
    let v = chars_of(rel);
    let prefix = chars_of("codex-rs/");
    proof {
        reveal_strlit("codex-rs/");
    }
    if crate::text::matches_at_exec(&v, &prefix, 0) {
        let trimmed = string_of_range(&v, 9, v.len());
        join_path(codex_root, trimmed.as_str())
    } else {
        join_path(codex_root, rel)
    }
}

/// The path of the backup of a patch target.
pub fn backup_path_for(codex_root: &str, rel: &str) -> (r: String)
    ensures
        r@ == backup_path(codex_root@, rel@),
{
    let backups = join_path(codex_root, ".codex-hud/backups");
    let target = join_path(backups.as_str(), rel);
    with_extension(target.as_str(), "bak")
}

/// The text with its managed snippet removed: when both the start and the
/// end mark occur, everything from the first start mark to the end of the
/// first end mark goes, along with the line breaks that follow it.
pub open spec fn without_managed_block(value: Seq<char>) -> Seq<char> {
    match (find(value, MANAGED_BLOCK_START@), find(value, MANAGED_BLOCK_END@)) {
        (Some(s), Some(e)) => value.subrange(0, s) + trim_start_char(
            value.subrange(e + MANAGED_BLOCK_END@.len(), value.len() as int),
            '\n',
        ),
        _ => value,
    }
}

/// `s[from..]` without its leading `\n` characters.
fn trim_newlines_from(v: &Vec<char>, from: usize) -> (r: String)
    requires
        from <= v.len(),
    ensures
        r@ == trim_start_char(v@.subrange(from as int, v@.len() as int), '\n'),
{
    let mut i = from;
    while i < v.len() && v[i] == '\n'
        invariant
            from <= i <= v.len(),
            trim_start_char(v@.subrange(from as int, v@.len() as int), '\n') == trim_start_char(
                v@.subrange(i as int, v@.len() as int),
                '\n',
            ),
        decreases v.len() - i,
    {
        proof {
            assert(v@.subrange(i as int, v@.len() as int).drop_first() =~= v@.subrange(
                i + 1,
                v@.len() as int,
            ));
        }
        i = i + 1;
    }
    proof {
        let rest = v@.subrange(i as int, v@.len() as int);
        if rest.len() > 0 {
            assert(rest[0] == v@[i as int]);
        }
    }
    string_of_range(v, i, v.len())
}

/// Removes the managed snippet from a patched launcher text.
pub fn strip_managed_patch_block(value: &str) -> (r: String)
    ensures
        r@ == without_managed_block(value@),
{
    let v = chars_of(value);
    let start = chars_of(MANAGED_BLOCK_START);
    let end = chars_of(MANAGED_BLOCK_END);
    match (find_exec(&v, &start), find_exec(&v, &end)) {
        (Some(s), Some(e)) => {
            proof {
                lemma_find_contains(v@, start@);
                lemma_find_contains(v@, end@);
            }
            let mut out = string_of_range(&v, 0, s);
            let tail = trim_newlines_from(&v, e + end.len());
            out.append(tail.as_str());
            out
        },
        _ => owned(value),
    }
}

/// Patches the npm launcher text: the managed snippet goes after the
/// launcher's `env` line.
pub fn patch_npm_launcher(original: &str) -> (r: Result<String, String>)
    ensures
        match r {
            Ok(t) => marker_replace(original@, NPM_PATCH_MARKER@, NPM_PATCH_SNIPPET@) == Ok::<
                Seq<char>,
                Seq<char>,
            >(t@),
            Err(e) => marker_replace(original@, NPM_PATCH_MARKER@, NPM_PATCH_SNIPPET@) == Err::<
                Seq<char>,
                Seq<char>,
            >(e@),
        },
{
    apply_marker_replace(original, NPM_PATCH_MARKER, NPM_PATCH_SNIPPET)
}

/// One step of a source patch: the target, its current text, its patched
/// text, and where its backup goes.
#[derive(Debug, Clone)]
pub struct PatchStep {
    pub rel: String,
    pub target: String,
    pub original: String,
    pub patched: String,
    pub backup: String,
}

/// The plan for patching a source checkout.
#[derive(Debug, Clone)]
pub enum SourcePatchPlan {
    /// A target is missing: nothing is patched.
    Unavailable,
    /// Every target is present and patchable: one step per target, in order.
    Steps(Vec<PatchStep>),
}

/// The source patch of the target text `current` (present, `Some`) patches.
pub open spec fn source_patch(current: Seq<char>) -> Result<Seq<char>, Seq<char>> {
    marker_replace(current, SOURCE_PATCH_MARKER@, SOURCE_PATCH_REPLACEMENT@)
}

/// Every target before position `n` is present and patches.
pub open spec fn patchable_prefix(current: Seq<Option<String>>, n: int) -> bool {
    forall|j: int|
        0 <= j < n ==> (#[trigger] current[j] matches Some(t) && source_patch(t@) is Ok)
}

/// The step for target `rel` with current text `original` under the root.
pub open spec fn step_matches(
    step: PatchStep,
    codex_root: Seq<char>,
    rel: Seq<char>,
    original: Seq<char>,
) -> bool {
    &&& step.rel@ == rel
    &&& step.target@ == target_path(codex_root, rel)
    &&& step.original@ == original
    &&& source_patch(original) == Ok::<Seq<char>, Seq<char>>(step.patched@)
    &&& step.backup@ == backup_path(codex_root, rel)
}

/// Uninstalling restores each source target from the backup that
/// installing wrote: from the path recorded for a step, the target and the
/// backup path computed again are the step's own, and the backup holds the
/// target's text from before the patch.
pub proof fn lemma_restore_reads_the_step_backup(
    step: PatchStep,
    codex_root: Seq<char>,
    rel: Seq<char>,
    original: Seq<char>,
)
    requires
        step_matches(step, codex_root, rel, original),
    ensures
        target_path(codex_root, step.rel@) == step.target@,
        backup_path(codex_root, step.rel@) == step.backup@,
        step.original@ == original,
{
}

/// Plans the patch of a source checkout. `targets` are the patch targets
/// and `current[i]` is the text of target `i`, `None` when it does not
/// exist. Targets are taken in order: the first missing one makes the
/// plan `Unavailable`, the first without its marker fails the plan with
/// the marker error; otherwise every target gets its step.
pub fn plan_source_patch(
    codex_root: &str,
    targets: &Vec<String>,
    current: &Vec<Option<String>>,
) -> (r: Result<SourcePatchPlan, String>)
    requires
        current.len() == targets.len(),
    ensures
        match r {
            Ok(SourcePatchPlan::Steps(steps)) => patchable_prefix(current@, current.len() as int)
                && steps.len() == targets.len() && forall|i: int|
                0 <= i < steps.len() ==> (current@[i] matches Some(t) && step_matches(
                    #[trigger] steps@[i],
                    codex_root@,
                    targets@[i]@,
                    t@,
                )),
            Ok(SourcePatchPlan::Unavailable) => exists|i: int|
                0 <= i < current.len() && patchable_prefix(current@, i) && #[trigger] current@[i]
                    is None,
            Err(e) => exists|i: int|
                0 <= i < current.len() && patchable_prefix(current@, i) && (
                #[trigger] current@[i] matches Some(t) && source_patch(t@) == Err::<
                    Seq<char>,
                    Seq<char>,
                >(e@)),
        },
{
    let mut steps: Vec<PatchStep> = Vec::new();
    let mut i: usize = 0;
    while i < targets.len()
        invariant
            i <= targets.len(),
            current.len() == targets.len(),
            patchable_prefix(current@, i as int),
            steps.len() == i,
            forall|j: int|
                0 <= j < i ==> (current@[j] matches Some(t) && step_matches(
                    #[trigger] steps@[j],
                    codex_root@,
                    targets@[j]@,
                    t@,
                )),
        decreases targets.len() - i,
    {
        let original = match &current[i] {
            Some(t) => t,
            None => {
                assert(current@[i as int] is None);
                return Ok(SourcePatchPlan::Unavailable);
            },
        };
        let patched = match apply_marker_replace(
            original.as_str(),
            SOURCE_PATCH_MARKER,
            SOURCE_PATCH_REPLACEMENT,
        ) {
            Ok(p) => p,
            Err(e) => {
                assert(current@[i as int] matches Some(t) && source_patch(t@) == Err::<
                    Seq<char>,
                    Seq<char>,
                >(e@));
                return Err(e);
            },
        };
        let rel = targets[i].clone();
        let target = map_target_rel_to_real(codex_root, rel.as_str());
        let backup = backup_path_for(codex_root, rel.as_str());
        let step = PatchStep { rel, target, original: original.clone(), patched, backup };
        steps.push(step);
        proof {
            assert forall|j: int| 0 <= j < i + 1 implies (#[trigger] current@[j] matches Some(t)
                && source_patch(t@) is Ok) by {
                if j < i {
                    assert(patchable_prefix(current@, i as int));
                }
            }
        }
        i = i + 1;
    }
    Ok(SourcePatchPlan::Steps(steps))
}

/// The root of a Codex source checkout above the binary: the first of the
/// binary's ancestors (nearest first) that holds the TUI sources itself
/// (`direct`), or whose `codex-rs` child does (`nested`); `None` when none
/// does, and then there is nothing to patch.
pub open spec fn first_source_root(
    ancestors: Seq<Seq<char>>,
    direct: Seq<bool>,
    nested: Seq<bool>,
) -> Option<Seq<char>>
    decreases ancestors.len(),
{
    if ancestors.len() == 0 || direct.len() == 0 || nested.len() == 0 {
        None
    } else if direct[0] {
        Some(ancestors[0])
    } else if nested[0] {
        Some(path_join(ancestors[0], "codex-rs"@))
    } else {
        first_source_root(ancestors.drop_first(), direct.drop_first(), nested.drop_first())
    }
}

/// Picks the source root: `ancestors` are the binary's ancestors, nearest
/// first; `direct_exists[i]` tells whether `ancestors[i]` holds
/// `tui/src/slash_command.rs` and `nested_exists[i]` whether its `codex-rs`
/// child does.
pub fn select_source_root(
    ancestors: &[String],
    direct_exists: &[bool],
    nested_exists: &[bool],
) -> (r: Option<String>)
    requires
        ancestors@.len() == direct_exists@.len(),
        ancestors@.len() == nested_exists@.len(),
    ensures
        opt_view(r) == first_source_root(views(ancestors@), direct_exists@, nested_exists@),
{
    let mut i: usize = 0;
    proof {
        assert(views(ancestors@).subrange(0, ancestors@.len() as int) =~= views(ancestors@));
        assert(direct_exists@.subrange(0, direct_exists@.len() as int) =~= direct_exists@);
        assert(nested_exists@.subrange(0, nested_exists@.len() as int) =~= nested_exists@);
    }
    while i < ancestors.len()
        invariant
            ancestors@.len() == direct_exists@.len(),
            ancestors@.len() == nested_exists@.len(),
            i <= ancestors@.len(),
            first_source_root(views(ancestors@), direct_exists@, nested_exists@)
                == first_source_root(
                views(ancestors@).subrange(i as int, ancestors@.len() as int),
                direct_exists@.subrange(i as int, direct_exists@.len() as int),
                nested_exists@.subrange(i as int, nested_exists@.len() as int),
            ),
        decreases ancestors.len() - i,
    {
        let ghost a = views(ancestors@).subrange(i as int, ancestors@.len() as int);
        let ghost d = direct_exists@.subrange(i as int, direct_exists@.len() as int);
        let ghost n = nested_exists@.subrange(i as int, nested_exists@.len() as int);
        proof {
            assert(a[0] == ancestors@[i as int]@);
            assert(d[0] == direct_exists@[i as int]);
            assert(n[0] == nested_exists@[i as int]);
            assert(a.drop_first() =~= views(ancestors@).subrange(i + 1, ancestors@.len() as int));
            assert(d.drop_first() =~= direct_exists@.subrange(i + 1, direct_exists@.len() as int));
            assert(n.drop_first() =~= nested_exists@.subrange(i + 1, nested_exists@.len() as int));
        }
        if direct_exists[i] {
            return Some(ancestors[i].clone());
        }
        if nested_exists[i] {
            return Some(join_path(ancestors[i].as_str(), "codex-rs"));
        }
        i = i + 1;
    }
    None
}

/// What an install reports for the support check's decision when it does
/// not patch: `None` when the decision is to patch, else the stock run with
/// the decision's reason.
pub fn stock_outcome_for_mode(mode: &InstallMode) -> (r: Option<InstallOutcome>)
    ensures
        match mode {
            InstallMode::PatchAndRunManaged => r is None,
            InstallMode::RunStock { reason } => r matches Some(
                InstallOutcome::RanStock { reason: x },
            ) && x@ == reason@,
        },
{
    match mode {
        InstallMode::PatchAndRunManaged => None,
        InstallMode::RunStock { reason } => Some(InstallOutcome::RanStock { reason: reason.clone() }),
    }
}

/// What an automatic install reports when the compatibility gate fails.
pub fn gate_rejection_outcome(err: &str) -> (r: InstallOutcome)
    ensures
        r matches InstallOutcome::RanStock { reason } && reason@
            == "compatibility gate rejected patch: "@ + err@,
{
    let mut reason = owned("compatibility gate rejected patch: ");
    reason.append(err);
    InstallOutcome::RanStock { reason }
}

} // verus!

verus! {

// ---------------------------------------------------------------------------
// Uninstall undoes install on the npm launcher
// ---------------------------------------------------------------------------

/// The line that the managed snippet adds to the launcher.
pub open spec fn snippet_body() -> Seq<char> {
    "env.CODEX_HUD_NATIVE_PATCH = \"1\";"@
}

/// The first occurrence, from its characterization.
proof fn lemma_find_is(h: Seq<char>, n: Seq<char>, q: int)
    requires
        matches_at(h, n, q),
        forall|j: int| 0 <= j < q ==> !matches_at(h, n, j),
    ensures
        find(h, n) == Some(q),
{
    lemma_find_from(h, n, 0);
}

/// The snippet is the marker, the start mark, the body line and the end
/// mark, on lines of their own; the marks hold the managed tag and no line
/// break, and the end mark does not occur in the start mark and the body.
pub proof fn lemma_snippet_parts()
    ensures
        NPM_PATCH_SNIPPET@ == NPM_PATCH_MARKER@ + seq!['\n'] + MANAGED_BLOCK_START@ + seq!['\n']
            + snippet_body() + seq!['\n'] + MANAGED_BLOCK_END@,
        no_newline(MANAGED_BLOCK_START@),
        no_newline(MANAGED_BLOCK_END@),
        matches_at(MANAGED_BLOCK_START@, MANAGED_TAG@, 3),
        matches_at(MANAGED_BLOCK_END@, MANAGED_TAG@, 3),
        !contains(MANAGED_BLOCK_START@ + seq!['\n'] + snippet_body(), MANAGED_BLOCK_END@),
        MANAGED_BLOCK_END@.len() == 27,
        MANAGED_BLOCK_START@.len() == 29,
        is_ascii_chars(MANAGED_BLOCK_START@),
        is_ascii_chars(MANAGED_BLOCK_END@),
{
    reveal_strlit("const env = { ...process.env, PATH: updatedPath };\n/* codex-hud-managed:start */\nenv.CODEX_HUD_NATIVE_PATCH = \"1\";\n/* codex-hud-managed:end */");
    reveal_strlit("const env = { ...process.env, PATH: updatedPath };");
    reveal_strlit("/* codex-hud-managed:start */");
    reveal_strlit("/* codex-hud-managed:end */");
    reveal_strlit("env.CODEX_HUD_NATIVE_PATCH = \"1\";");
    reveal_strlit("codex-hud-managed");
    assert(NPM_PATCH_SNIPPET@ =~= NPM_PATCH_MARKER@ + seq!['\n'] + MANAGED_BLOCK_START@ + seq![
        '\n',
    ] + snippet_body() + seq!['\n'] + MANAGED_BLOCK_END@);
    assert(MANAGED_BLOCK_START@.subrange(3, 20) =~= MANAGED_TAG@);
    assert(MANAGED_BLOCK_END@.subrange(3, 20) =~= MANAGED_TAG@);
    let t = MANAGED_BLOCK_START@ + seq!['\n'] + snippet_body();
    let e = MANAGED_BLOCK_END@;
    assert forall|j: int| !matches_at(t, e, j) by {
        if matches_at(t, e, j) {
            assert(t.subrange(j, j + 27)[20] == t[j + 20]);
            assert(t.subrange(j, j + 27)[21] == t[j + 21]);
        }
    }
}

/// An occurrence that lies inside the first `k` characters of the patched
/// text lies in the original text.
proof fn lemma_no_mark_before(
    original: Seq<char>,
    p: Seq<char>,
    k: int,
    mark: Seq<char>,
    j: int,
)
    requires
        0 <= k <= original.len(),
        k < p.len(),
        p.subrange(0, k) == original.subrange(0, k),
        p[k] == '\n',
        no_newline(mark),
        matches_at(mark, MANAGED_TAG@, 3),
        !contains(original, MANAGED_TAG@),
        0 <= j <= k,
    ensures
        !matches_at(p, mark, j),
{
    if matches_at(p, mark, j) {
        if j + mark.len() <= k {
            assert(original.subrange(j, j + mark.len()) =~= p.subrange(j, j + mark.len())) by {
                assert forall|t: int| 0 <= t < mark.len() implies #[trigger] original.subrange(
                    j,
                    j + mark.len(),
                )[t] == p.subrange(j, j + mark.len())[t] by {
                    assert(original.subrange(0, k)[j + t] == original[j + t]);
                    assert(p.subrange(0, k)[j + t] == p[j + t]);
                    assert(original.subrange(0, k)[j + t] == p.subrange(0, k)[j + t]);
                }
            }
            assert(matches_at(original, mark, j));
            lemma_contains_transitive(original, mark, MANAGED_TAG@);
        } else {
            assert(p.subrange(j, j + mark.len())[k - j] == p[k]);
        }
    }
}

/// Uninstalling undoes installing on the npm launcher: the launcher
/// patched with the managed snippet, once the snippet is stripped again,
/// is the original text. This holds for a launcher without managed marks
/// whose `env` line is followed by a single line break (not by a blank
/// line, whose break the stripping would take too).
pub proof fn lemma_npm_patch_undone_by_strip(original: Seq<char>)
    requires
        !contains(original, MANAGED_TAG@),
        find(original, NPM_PATCH_MARKER@) matches Some(i) && i + NPM_PATCH_MARKER@.len()
            < original.len() && original[i + NPM_PATCH_MARKER@.len()] == '\n' && (i
            + NPM_PATCH_MARKER@.len() + 1 == original.len() || original[i
            + NPM_PATCH_MARKER@.len() + 1] != '\n'),
    ensures
        marker_replace(original, NPM_PATCH_MARKER@, NPM_PATCH_SNIPPET@) matches Ok(p)
            && without_managed_block(p) == original,
{
    lemma_snippet_parts();
    let m = NPM_PATCH_MARKER@;
    let st = MANAGED_BLOCK_START@;
    let en = MANAGED_BLOCK_END@;
    let b = snippet_body();
    let nl = seq!['\n'];
    lemma_find_contains(original, m);
    let i = find(original, m)->0;
    let k = i + m.len();
    let pre = original.subrange(0, i);
    let rest = original.subrange(k, original.len() as int);
    let c = rest.subrange(1, rest.len() as int);
    let p = replace_first(original, m, NPM_PATCH_SNIPPET@);
    assert(p =~= pre + m + nl + st + nl + b + nl + en + rest);
    // the prefix up to the marker's end is the original's
    assert(p.subrange(0, k) =~= original.subrange(0, k)) by {
        assert(original.subrange(i, k) =~= m);
        assert forall|t: int| 0 <= t < k implies p.subrange(0, k)[t] == original.subrange(0, k)[t] by {
            if t >= i {
                assert(p[t] == m[t - i]);
                assert(original[t] == original.subrange(i, k)[t - i]);
            }
        }
    }
    assert(p[k] == '\n');
    // the first start mark
    let s0 = k + 1;
    assert(p.subrange(s0, s0 + st.len()) =~= st);
    assert forall|j: int| 0 <= j < s0 implies !matches_at(p, st, j) by {
        lemma_no_mark_before(original, p, k, st, j);
    }
    lemma_find_is(p, st, s0);
    // the first end mark
    let t = st + nl + b;
    let e0 = s0 + t.len() + 1;
    assert(p.subrange(s0, s0 + t.len()) =~= t);
    assert(p[e0 - 1] == '\n');
    assert(p.subrange(e0, e0 + en.len()) =~= en);
    assert forall|j: int| 0 <= j < e0 implies !matches_at(p, en, j) by {
        if j <= k {
            lemma_no_mark_before(original, p, k, en, j);
        } else if matches_at(p, en, j) {
            if j + en.len() <= e0 - 1 {
                assert(t.subrange(j - s0, j - s0 + en.len()) =~= p.subrange(j, j + en.len()));
                assert(matches_at(t, en, j - s0));
            } else {
                assert(p.subrange(j, j + en.len())[e0 - 1 - j] == p[e0 - 1]);
            }
        }
    }
    lemma_find_is(p, en, e0);
    // what stripping leaves
    let tail = p.subrange(e0 + en.len(), p.len() as int);
    assert(tail =~= rest);
    assert(rest[0] == '\n');
    assert(rest.drop_first() =~= c);
    assert(trim_start_char(rest, '\n') == trim_start_char(c, '\n'));
    if c.len() > 0 {
        assert(c[0] == original[k + 1]);
        assert(c[0] != '\n');
    }
    assert(trim_start_char(c, '\n') == c);
    assert(p.subrange(0, s0) + c =~= original);
}

} // verus!
