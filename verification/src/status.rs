//! The `codex-hud status` report: a short summary of the install state and
//! a detailed listing whose free-text fields are redacted when they look
//! like secrets.
use vstd::prelude::*;

use crate::text::{
    ascii_lower, ascii_lower_exec, chars_of, clean, contains, contains_exec, join,
    lemma_clean_concat, lemma_join_front, lemma_join_push, lemma_lines_cons,
    lemma_lines_of_clean_join, lines, matches_at, owned, strip_cr,
};

verus! {

/// What the status commands report about an installation.
#[derive(Debug, Clone)]
pub struct StatusSnapshot {
    pub installed: bool,
    pub shim_present: bool,
    pub rc_block_present: bool,
    pub compatible: bool,
    pub codex_version: Option<String>,
    pub codex_sha256: Option<String>,
    pub managed_root: Option<String>,
    pub stock_codex_path: Option<String>,
    pub patch_mode: Option<String>,
    pub patch_reason: Option<String>,
    pub compat_key: Option<String>,
    pub compat_refresh_source: Option<String>,
}

impl Default for StatusSnapshot {
    /// Every flag false and every field absent.
    fn default() -> (s: Self)
        ensures
            !s.installed && !s.shim_present && !s.rc_block_present && !s.compatible,
            s.codex_version is None && s.codex_sha256 is None && s.managed_root is None,
            s.stock_codex_path is None && s.patch_mode is None && s.patch_reason is None,
            s.compat_key is None && s.compat_refresh_source is None,
    {
        StatusSnapshot {
            installed: false,
            shim_present: false,
            rc_block_present: false,
            compatible: false,
            codex_version: None,
            codex_sha256: None,
            managed_root: None,
            stock_codex_path: None,
            patch_mode: None,
            patch_reason: None,
            compat_key: None,
            compat_refresh_source: None,
        }
    }
}

// ---------------------------------------------------------------------------
// Redaction
// ---------------------------------------------------------------------------

/// A value looks like a secret when, ignoring ASCII case, it holds `sk-`,
/// `token` or `bearer`.
pub open spec fn looks_secret(v: Seq<char>) -> bool {
    let l = ascii_lower(v);
    contains(l, "sk-"@) || contains(l, "token"@) || contains(l, "bearer"@)
}

/// The value as the details report shows it.
pub open spec fn redacted(v: Seq<char>) -> Seq<char> {
    if looks_secret(v) {
        "[redacted]"@
    } else {
        v
    }
}

/// The placeholder that replaces a secret-looking value does not itself
/// look like a secret.
pub proof fn lemma_placeholder_not_secret()
    ensures
        !looks_secret("[redacted]"@),
{
    reveal_strlit("[redacted]");
    reveal_strlit("sk-");
    reveal_strlit("token");
    reveal_strlit("bearer");
    let p = "[redacted]"@;
    let l = ascii_lower(p);
    assert(l =~= p);
    assert forall|i: int| !matches_at(l, "sk-"@, i) by {
        if matches_at(l, "sk-"@, i) {
            assert(l.subrange(i, i + 3)[0] == l[i]);
        }
    }
    assert forall|i: int| !matches_at(l, "token"@, i) by {
        if matches_at(l, "token"@, i) {
            assert(l.subrange(i, i + 5)[0] == l[i]);
            assert(l.subrange(i, i + 5)[1] == l[i + 1]);
        }
    }
    assert forall|i: int| !matches_at(l, "bearer"@, i) by {
        if matches_at(l, "bearer"@, i) {
            assert(l.subrange(i, i + 6)[0] == l[i]);
        }
    }
}

/// The value, or `[redacted]` when it looks like a secret; what comes out
/// never looks like a secret.
pub fn redact_secret_like(value: &str) -> (r: String)
    ensures
        r@ == redacted(value@),
        !looks_secret(r@),
{
    proof {
        lemma_placeholder_not_secret();
    }
    let lower = ascii_lower_exec(&chars_of(value));
    if contains_exec(&lower, &chars_of("sk-")) || contains_exec(&lower, &chars_of("token"))
        || contains_exec(&lower, &chars_of("bearer")) {
        owned("[redacted]")
    } else {
        owned(value)
    }
}

// ---------------------------------------------------------------------------
// The two reports
// ---------------------------------------------------------------------------

/// `yes` or `no`.
pub open spec fn yes_no(b: bool) -> Seq<char> {
    if b {
        "yes"@
    } else {
        "no"@
    }
}

/// A flag as `{}` formats a `bool`.
pub open spec fn bool_text(b: bool) -> Seq<char> {
    if b {
        "true"@
    } else {
        "false"@
    }
}

/// The view of an optional text.
pub open spec fn opt_view(o: Option<String>) -> Option<Seq<char>> {
    match o {
        Some(v) => Some(v@),
        None => None,
    }
}

/// The text, or `unknown` when it is absent.
pub open spec fn or_unknown(o: Option<Seq<char>>) -> Seq<char> {
    match o {
        Some(v) => v,
        None => "unknown"@,
    }
}

/// The redacted text, or `unknown` when it is absent.
pub open spec fn redacted_or_unknown(o: Option<Seq<char>>) -> Seq<char> {
    match o {
        Some(v) => redacted(v),
        None => "unknown"@,
    }
}

/// The summary report for these values.
pub open spec fn summary_text(
    installed: bool,
    shim_present: bool,
    compatible: bool,
    patch_mode: Option<Seq<char>>,
    compat_key: Option<Seq<char>>,
    refresh_source: Option<Seq<char>>,
) -> Seq<char> {
    "codex-hud status\ninstalled: "@ + yes_no(installed) + "\nshim: "@ + (if shim_present {
        "present"@
    } else {
        "missing"@
    }) + "\ncompatibility: "@ + (if compatible {
        "supported"@
    } else {
        "unsupported"@
    }) + "\npatch_mode: "@ + or_unknown(patch_mode) + "\ncompat_key: "@ + or_unknown(compat_key)
        + "\nrefresh_source: "@ + or_unknown(refresh_source)
}

/// The summary report of a snapshot.
pub open spec fn status_summary_text(s: StatusSnapshot) -> Seq<char> {
    summary_text(
        s.installed,
        s.shim_present,
        s.compatible,
        opt_view(s.patch_mode),
        opt_view(s.compat_key),
        opt_view(s.compat_refresh_source),
    )
}

/// The details report for these values: every field on a line of its
/// own, the free-text ones after the Codex version redacted, and whether
/// the unsupported notice applies (`shown_once` for an incompatible Codex).
pub open spec fn details_text(
    installed: bool,
    shim_present: bool,
    rc_block_present: bool,
    compatible: bool,
    codex_version: Option<Seq<char>>,
    codex_sha256: Option<Seq<char>>,
    managed_root: Option<Seq<char>>,
    stock_codex_path: Option<Seq<char>>,
    patch_mode: Option<Seq<char>>,
    patch_reason: Option<Seq<char>>,
    compat_key: Option<Seq<char>>,
    compat_refresh_source: Option<Seq<char>>,
) -> Seq<char> {
    join(
        details_lines_of(
            installed,
            shim_present,
            rc_block_present,
            compatible,
            codex_version,
            codex_sha256,
            managed_root,
            stock_codex_path,
            patch_mode,
            patch_reason,
            compat_key,
            compat_refresh_source,
        ),
        seq!['\n'],
    )
}

/// The lines of the details report for these values, one per field.
pub open spec fn details_lines_of(
    installed: bool,
    shim_present: bool,
    rc_block_present: bool,
    compatible: bool,
    codex_version: Option<Seq<char>>,
    codex_sha256: Option<Seq<char>>,
    managed_root: Option<Seq<char>>,
    stock_codex_path: Option<Seq<char>>,
    patch_mode: Option<Seq<char>>,
    patch_reason: Option<Seq<char>>,
    compat_key: Option<Seq<char>>,
    compat_refresh_source: Option<Seq<char>>,
) -> Seq<Seq<char>> {
    seq![
        "codex-hud status details"@,
        "installed: "@ + bool_text(installed),
        "shim_present: "@ + bool_text(shim_present),
        "rc_block_present: "@ + bool_text(rc_block_present),
        "compatible: "@ + bool_text(compatible),
        "codex_version: "@ + or_unknown(codex_version),
        "codex_sha256: "@ + redacted_or_unknown(codex_sha256),
        "managed_root: "@ + redacted_or_unknown(managed_root),
        "stock_codex_path: "@ + redacted_or_unknown(stock_codex_path),
        "patch_mode: "@ + redacted_or_unknown(patch_mode),
        "patch_reason: "@ + redacted_or_unknown(patch_reason),
        "compat_key: "@ + redacted_or_unknown(compat_key),
        "compat_refresh_source: "@ + redacted_or_unknown(compat_refresh_source),
        "unsupported_notice: "@ + (if compatible {
            "not_applicable"@
        } else {
            "shown_once"@
        }),
    ]
}

/// The details report of a snapshot.
pub open spec fn status_details_text(s: StatusSnapshot) -> Seq<char> {
    details_text(
        s.installed,
        s.shim_present,
        s.rc_block_present,
        s.compatible,
        opt_view(s.codex_version),
        opt_view(s.codex_sha256),
        opt_view(s.managed_root),
        opt_view(s.stock_codex_path),
        opt_view(s.patch_mode),
        opt_view(s.patch_reason),
        opt_view(s.compat_key),
        opt_view(s.compat_refresh_source),
    )
}

/// An optional text without line breaks.
pub open spec fn clean_field(o: Option<String>) -> bool {
    match o {
        Some(v) => clean(v@),
        None => true,
    }
}

/// The lines of the details report of a snapshot.
pub open spec fn details_lines(s: StatusSnapshot) -> Seq<Seq<char>> {
    details_lines_of(
        s.installed,
        s.shim_present,
        s.rc_block_present,
        s.compatible,
        opt_view(s.codex_version),
        opt_view(s.codex_sha256),
        opt_view(s.managed_root),
        opt_view(s.stock_codex_path),
        opt_view(s.patch_mode),
        opt_view(s.patch_reason),
        opt_view(s.compat_key),
        opt_view(s.compat_refresh_source),
    )
}

/// The shown text of a field has no line break when the field has none.
proof fn lemma_clean_shown(o: Option<String>)
    requires
        clean_field(o),
    ensures
        clean(or_unknown(opt_view(o))),
        clean(redacted_or_unknown(opt_view(o))),
{
    reveal_strlit("unknown");
    reveal_strlit("[redacted]");
}

/// Every line of the details report is free of line breaks when the
/// fields are.
proof fn lemma_details_lines_clean(s: StatusSnapshot)
    requires
        clean_field(s.codex_version),
        clean_field(s.codex_sha256),
        clean_field(s.managed_root),
        clean_field(s.stock_codex_path),
        clean_field(s.patch_mode),
        clean_field(s.patch_reason),
        clean_field(s.compat_key),
        clean_field(s.compat_refresh_source),
    ensures
        forall|i: int| 0 <= i < details_lines(s).len() ==> clean(#[trigger] details_lines(s)[i]),
        details_lines(s).len() == 14,
        details_lines(s).last().len() > 0,
{
    reveal_strlit("codex-hud status details");
    reveal_strlit("installed: ");
    reveal_strlit("shim_present: ");
    reveal_strlit("rc_block_present: ");
    reveal_strlit("compatible: ");
    reveal_strlit("codex_version: ");
    reveal_strlit("codex_sha256: ");
    reveal_strlit("managed_root: ");
    reveal_strlit("stock_codex_path: ");
    reveal_strlit("patch_mode: ");
    reveal_strlit("patch_reason: ");
    reveal_strlit("compat_key: ");
    reveal_strlit("compat_refresh_source: ");
    reveal_strlit("unsupported_notice: ");
    reveal_strlit("true");
    reveal_strlit("false");
    reveal_strlit("not_applicable");
    reveal_strlit("shown_once");
    lemma_clean_shown(s.codex_version);
    lemma_clean_shown(s.codex_sha256);
    lemma_clean_shown(s.managed_root);
    lemma_clean_shown(s.stock_codex_path);
    lemma_clean_shown(s.patch_mode);
    lemma_clean_shown(s.patch_reason);
    lemma_clean_shown(s.compat_key);
    lemma_clean_shown(s.compat_refresh_source);
    assert(clean(bool_text(s.installed)));
    assert(clean(bool_text(s.shim_present)));
    assert(clean(bool_text(s.rc_block_present)));
    assert(clean(bool_text(s.compatible)));
    lemma_clean_concat("installed: "@, bool_text(s.installed));
    lemma_clean_concat("shim_present: "@, bool_text(s.shim_present));
    lemma_clean_concat("rc_block_present: "@, bool_text(s.rc_block_present));
    lemma_clean_concat("compatible: "@, bool_text(s.compatible));
    lemma_clean_concat("codex_version: "@, or_unknown(opt_view(s.codex_version)));
    lemma_clean_concat("codex_sha256: "@, redacted_or_unknown(opt_view(s.codex_sha256)));
    lemma_clean_concat("managed_root: "@, redacted_or_unknown(opt_view(s.managed_root)));
    lemma_clean_concat("stock_codex_path: "@, redacted_or_unknown(opt_view(s.stock_codex_path)));
    lemma_clean_concat("patch_mode: "@, redacted_or_unknown(opt_view(s.patch_mode)));
    lemma_clean_concat("patch_reason: "@, redacted_or_unknown(opt_view(s.patch_reason)));
    lemma_clean_concat("compat_key: "@, redacted_or_unknown(opt_view(s.compat_key)));
    lemma_clean_concat("compat_refresh_source: "@, redacted_or_unknown(opt_view(s.compat_refresh_source)));
    lemma_clean_concat("unsupported_notice: "@, (if s.compatible { "not_applicable"@ } else { "shown_once"@ }));
}

/// Joining one more line.
proof fn lemma_join_step(ls: Seq<Seq<char>>, k: int)
    requires
        1 <= k < ls.len(),
    ensures
        join(ls.subrange(0, k + 1), seq!['\n']) == join(ls.subrange(0, k), seq!['\n'])
            + seq!['\n'] + ls[k],
{
    lemma_join_push(ls.subrange(0, k), ls[k], seq!['\n']);
    assert(ls.subrange(0, k).push(ls[k]) =~= ls.subrange(0, k + 1));
}

/// The details report of a snapshot whose fields hold no line breaks is
/// fourteen lines: the title, then one `name: value` line per field in a
/// fixed order, the free-text values after the Codex version redacted when
/// they look like secrets, and last whether the unsupported notice applies.
pub proof fn lemma_details_lines(s: StatusSnapshot)
    requires
        clean_field(s.codex_version),
        clean_field(s.codex_sha256),
        clean_field(s.managed_root),
        clean_field(s.stock_codex_path),
        clean_field(s.patch_mode),
        clean_field(s.patch_reason),
        clean_field(s.compat_key),
        clean_field(s.compat_refresh_source),
    ensures
        lines(status_details_text(s)) == details_lines(s),
        details_lines(s).len() == 14,
{
    lemma_details_lines_clean(s);
    lemma_lines_of_clean_join(details_lines(s));
}

/// How a flag reads in a report line.
pub open spec fn flag_word(b: bool) -> Seq<char> {
    if b {
        "true"@
    } else {
        "false"@
    }
}

/// How a field reads in a report line: `unknown` when absent; when it is to
/// be redacted and, ignoring ASCII case, holds `sk-`, `token` or `bearer`,
/// `[redacted]`; else its text.
pub open spec fn field_word(o: Option<String>, redact: bool) -> Seq<char> {
    match o {
        None => "unknown"@,
        Some(v) => if redact && (contains(ascii_lower(v@), "sk-"@) || contains(
            ascii_lower(v@),
            "token"@,
        ) || contains(ascii_lower(v@), "bearer"@)) {
            "[redacted]"@
        } else {
            v@
        },
    }
}

/// The lines of a text of lines joined with `\n` start with its first `k`
/// lines, when those hold no line break.
proof fn lemma_lines_join_prefix(ls: Seq<Seq<char>>, k: int)
    requires
        0 <= k < ls.len(),
        forall|i: int| 0 <= i < k ==> clean(#[trigger] ls[i]),
    ensures
        lines(join(ls, seq!['\n'])) == ls.subrange(0, k) + lines(
            join(ls.subrange(k, ls.len() as int), seq!['\n']),
        ),
    decreases k,
{
    let nl = seq!['\n'];
    if k == 0 {
        assert(ls.subrange(0, ls.len() as int) =~= ls);
        assert(ls.subrange(0, 0) + lines(join(ls, nl)) =~= lines(join(ls, nl)));
    } else {
        let a = ls[0];
        let rest = ls.drop_first();
        assert(clean(a));
        assert(seq![a] + rest =~= ls);
        assert forall|i: int| 0 <= i < k - 1 implies clean(#[trigger] rest[i]) by {
            assert(rest[i] == ls[i + 1]);
        }
        lemma_lines_join_prefix(rest, k - 1);
        lemma_join_front(a, rest, nl);
        lemma_lines_cons(a, join(rest, nl));
        if a.len() > 0 {
            assert(a.last() == a[a.len() - 1]);
        }
        assert(strip_cr(a) == a);
        assert(rest.subrange(k - 1, rest.len() as int) =~= ls.subrange(k, ls.len() as int));
        assert(seq![a] + rest.subrange(0, k - 1) =~= ls.subrange(0, k));
        assert(seq![a] + (rest.subrange(0, k - 1) + lines(
            join(ls.subrange(k, ls.len() as int), nl),
        )) =~= ls.subrange(0, k) + lines(join(ls.subrange(k, ls.len() as int), nl)));
    }
}

/// Whatever the snapshot holds, the details report opens with its title and
/// then one line per flag, in this order, each showing that very flag:
/// `installed`, `shim_present`, `rc_block_present`, `compatible`.
pub proof fn lemma_details_flag_lines(s: StatusSnapshot)
    ensures
        lines(status_details_text(s)).len() > 5,
        lines(status_details_text(s))[0] == "codex-hud status details"@,
        lines(status_details_text(s))[1] == "installed: "@ + flag_word(s.installed),
        lines(status_details_text(s))[2] == "shim_present: "@ + flag_word(s.shim_present),
        lines(status_details_text(s))[3] == "rc_block_present: "@ + flag_word(s.rc_block_present),
        lines(status_details_text(s))[4] == "compatible: "@ + flag_word(s.compatible),
{
    reveal_strlit("codex-hud status details");
    reveal_strlit("installed: ");
    reveal_strlit("shim_present: ");
    reveal_strlit("rc_block_present: ");
    reveal_strlit("compatible: ");
    reveal_strlit("true");
    reveal_strlit("false");
    reveal_strlit("unsupported_notice: ");
    let ls = details_lines(s);
    let nl = seq!['\n'];
    assert(clean(flag_word(s.installed)));
    assert(clean(flag_word(s.shim_present)));
    assert(clean(flag_word(s.rc_block_present)));
    assert(clean(flag_word(s.compatible)));
    lemma_clean_concat("installed: "@, flag_word(s.installed));
    lemma_clean_concat("shim_present: "@, flag_word(s.shim_present));
    lemma_clean_concat("rc_block_present: "@, flag_word(s.rc_block_present));
    lemma_clean_concat("compatible: "@, flag_word(s.compatible));
    assert forall|i: int| 0 <= i < 5 implies clean(#[trigger] ls[i]) by {}
    lemma_lines_join_prefix(ls, 5);
    let tail = ls.subrange(5, 14);
    assert(tail.len() == 9);
    assert(tail.last().len() > 0);
    assert(join(tail, nl).len() > 0) by {
        lemma_join_push(tail.drop_last(), tail.last(), nl);
        assert(tail.drop_last().push(tail.last()) =~= tail);
    }
    let t = join(tail, nl);
    crate::text::lemma_find_contains(t, nl);
    assert(lines(t).len() > 0);
}

/// The details report of a snapshot whose fields hold no line breaks is
/// fourteen lines: the title, one line per flag, one per field (the Codex
/// version as it is, the others redacted when they look like secrets, an
/// absent field as `unknown`), and last whether the unsupported notice
/// applies (`shown_once` exactly when Codex is not compatible).
pub proof fn lemma_details_report_lines(s: StatusSnapshot)
    requires
        clean_field(s.codex_version),
        clean_field(s.codex_sha256),
        clean_field(s.managed_root),
        clean_field(s.stock_codex_path),
        clean_field(s.patch_mode),
        clean_field(s.patch_reason),
        clean_field(s.compat_key),
        clean_field(s.compat_refresh_source),
    ensures
        lines(status_details_text(s)) == seq![
            "codex-hud status details"@,
            "installed: "@ + flag_word(s.installed),
            "shim_present: "@ + flag_word(s.shim_present),
            "rc_block_present: "@ + flag_word(s.rc_block_present),
            "compatible: "@ + flag_word(s.compatible),
            "codex_version: "@ + field_word(s.codex_version, false),
            "codex_sha256: "@ + field_word(s.codex_sha256, true),
            "managed_root: "@ + field_word(s.managed_root, true),
            "stock_codex_path: "@ + field_word(s.stock_codex_path, true),
            "patch_mode: "@ + field_word(s.patch_mode, true),
            "patch_reason: "@ + field_word(s.patch_reason, true),
            "compat_key: "@ + field_word(s.compat_key, true),
            "compat_refresh_source: "@ + field_word(s.compat_refresh_source, true),
            "unsupported_notice: "@ + (if s.compatible {
                "not_applicable"@
            } else {
                "shown_once"@
            }),
        ],
{
    lemma_details_lines(s);
    assert(details_lines(s) =~= seq![
        "codex-hud status details"@,
        "installed: "@ + flag_word(s.installed),
        "shim_present: "@ + flag_word(s.shim_present),
        "rc_block_present: "@ + flag_word(s.rc_block_present),
        "compatible: "@ + flag_word(s.compatible),
        "codex_version: "@ + field_word(s.codex_version, false),
        "codex_sha256: "@ + field_word(s.codex_sha256, true),
        "managed_root: "@ + field_word(s.managed_root, true),
        "stock_codex_path: "@ + field_word(s.stock_codex_path, true),
        "patch_mode: "@ + field_word(s.patch_mode, true),
        "patch_reason: "@ + field_word(s.patch_reason, true),
        "compat_key: "@ + field_word(s.compat_key, true),
        "compat_refresh_source: "@ + field_word(s.compat_refresh_source, true),
        "unsupported_notice: "@ + (if s.compatible {
            "not_applicable"@
        } else {
            "shown_once"@
        }),
    ]);
}

/// Redaction hides exactly the values that, ignoring ASCII case, hold
/// `sk-`, `token` or `bearer`, and shows every other value unchanged.
pub proof fn lemma_redaction_markers(v: Seq<char>)
    ensures
        contains(ascii_lower(v), "sk-"@) ==> redacted(v) == "[redacted]"@,
        contains(ascii_lower(v), "token"@) ==> redacted(v) == "[redacted]"@,
        contains(ascii_lower(v), "bearer"@) ==> redacted(v) == "[redacted]"@,
        !contains(ascii_lower(v), "sk-"@) && !contains(ascii_lower(v), "token"@) && !contains(
            ascii_lower(v),
            "bearer"@,
        ) ==> redacted(v) == v,
{
}

/// The summary's label texts split at their line breaks.
proof fn lemma_summary_labels()
    ensures
        "codex-hud status\ninstalled: "@ == "codex-hud status"@ + seq!['\n'] + "installed: "@,
        "\nshim: "@ == seq!['\n'] + "shim: "@,
        "\ncompatibility: "@ == seq!['\n'] + "compatibility: "@,
        "\npatch_mode: "@ == seq!['\n'] + "patch_mode: "@,
{
    reveal_strlit("codex-hud status\ninstalled: ");
    reveal_strlit("\nshim: ");
    reveal_strlit("\ncompatibility: ");
    reveal_strlit("\npatch_mode: ");
    reveal_strlit("codex-hud status");
    reveal_strlit("installed: ");
    reveal_strlit("shim: ");
    reveal_strlit("compatibility: ");
    reveal_strlit("patch_mode: ");
    assert("codex-hud status\ninstalled: "@ =~= "codex-hud status"@ + seq!['\n'] + "installed: "@);
    assert("\nshim: "@ =~= seq!['\n'] + "shim: "@);
    assert("\ncompatibility: "@ =~= seq!['\n'] + "compatibility: "@);
    assert("\npatch_mode: "@ =~= seq!['\n'] + "patch_mode: "@);
}

/// The summary's first four lines for a snapshot.
pub open spec fn summary_head(s: StatusSnapshot) -> Seq<Seq<char>> {
    seq![
        "codex-hud status"@,
        "installed: "@ + (if s.installed {
            "yes"@
        } else {
            "no"@
        }),
        "shim: "@ + (if s.shim_present {
            "present"@
        } else {
            "missing"@
        }),
        "compatibility: "@ + (if s.compatible {
            "supported"@
        } else {
            "unsupported"@
        }),
    ]
}

/// The summary's lines after the first four.
spec fn summary_tail(s: StatusSnapshot) -> Seq<char> {
    "patch_mode: "@ + or_unknown(opt_view(s.patch_mode)) + "\ncompat_key: "@ + or_unknown(
        opt_view(s.compat_key),
    ) + "\nrefresh_source: "@ + or_unknown(opt_view(s.compat_refresh_source))
}

/// Regrouping a text made of labels and values into lines.
proof fn lemma_regroup(
    l0: Seq<char>,
    ia: Seq<char>,
    y: Seq<char>,
    sa: Seq<char>,
    z: Seq<char>,
    ca: Seq<char>,
    w: Seq<char>,
    pa: Seq<char>,
    r: Seq<char>,
)
    ensures
        ({
            let nl = seq!['\n'];
            (l0 + nl + ia) + y + (nl + sa) + z + (nl + ca) + w + (nl + pa) + r == l0 + nl + ((ia
                + y) + nl + ((sa + z) + nl + ((ca + w) + nl + (pa + r))))
        }),
{
    let nl = seq!['\n'];
    let lhs = (l0 + nl + ia) + y + (nl + sa) + z + (nl + ca) + w + (nl + pa) + r;
    let rhs = l0 + nl + ((ia + y) + nl + ((sa + z) + nl + ((ca + w) + nl + (pa + r))));
    assert(lhs =~= rhs);
}

/// The summary for these values is its first four lines, each ended by
/// `\n`, and the rest.
pub proof fn lemma_summary_text_split(
    installed: bool,
    shim_present: bool,
    compatible: bool,
    patch_mode: Option<Seq<char>>,
    compat_key: Option<Seq<char>>,
    refresh_source: Option<Seq<char>>,
)
    ensures
        ({
            let nl = seq!['\n'];
            summary_text(installed, shim_present, compatible, patch_mode, compat_key, refresh_source)
                == "codex-hud status"@ + nl + (("installed: "@ + yes_no(installed)) + nl + ((
            "shim: "@ + (if shim_present {
                "present"@
            } else {
                "missing"@
            })) + nl + (("compatibility: "@ + (if compatible {
                "supported"@
            } else {
                "unsupported"@
            })) + nl + ("patch_mode: "@ + (or_unknown(patch_mode) + "\ncompat_key: "@ + or_unknown(
                compat_key,
            ) + "\nrefresh_source: "@ + or_unknown(refresh_source))))))
        }),
{
    lemma_summary_labels();
    let y = yes_no(installed);
    let z = if shim_present {
        "present"@
    } else {
        "missing"@
    };
    let w = if compatible {
        "supported"@
    } else {
        "unsupported"@
    };
    let r = or_unknown(patch_mode) + "\ncompat_key: "@ + or_unknown(compat_key)
        + "\nrefresh_source: "@ + or_unknown(refresh_source);
    assert("codex-hud status\ninstalled: "@ + y + "\nshim: "@ + z + "\ncompatibility: "@ + w
        + "\npatch_mode: "@ + or_unknown(patch_mode) + "\ncompat_key: "@ + or_unknown(compat_key)
        + "\nrefresh_source: "@ + or_unknown(refresh_source) =~= "codex-hud status\ninstalled: "@
        + y + "\nshim: "@ + z + "\ncompatibility: "@ + w + "\npatch_mode: "@ + r);
    lemma_regroup(
        "codex-hud status"@,
        "installed: "@,
        y,
        "shim: "@,
        z,
        "compatibility: "@,
        w,
        "patch_mode: "@,
        r,
    );
}

/// The summary says `compatibility: supported` for a compatible Codex and
/// `compatibility: unsupported` otherwise, whatever follows it.
pub proof fn lemma_summary_compat_line(
    installed: bool,
    shim_present: bool,
    compatible: bool,
    patch_mode: Option<Seq<char>>,
    compat_key: Option<Seq<char>>,
    refresh_source: Option<Seq<char>>,
    after: Seq<char>,
)
    ensures
        compatible ==> contains(
            summary_text(installed, shim_present, compatible, patch_mode, compat_key, refresh_source)
                + after,
            "compatibility: supported"@,
        ),
        !compatible ==> contains(
            summary_text(installed, shim_present, compatible, patch_mode, compat_key, refresh_source)
                + after,
            "compatibility: unsupported"@,
        ),
{
    lemma_summary_text_split(
        installed,
        shim_present,
        compatible,
        patch_mode,
        compat_key,
        refresh_source,
    );
    reveal_strlit("compatibility: ");
    reveal_strlit("supported");
    reveal_strlit("unsupported");
    reveal_strlit("compatibility: supported");
    reveal_strlit("compatibility: unsupported");
    let nl = seq!['\n'];
    let h1 = "installed: "@ + yes_no(installed);
    let h2 = "shim: "@ + (if shim_present {
        "present"@
    } else {
        "missing"@
    });
    let word = if compatible {
        "supported"@
    } else {
        "unsupported"@
    };
    let h3 = "compatibility: "@ + word;
    let tail = "patch_mode: "@ + (or_unknown(patch_mode) + "\ncompat_key: "@ + or_unknown(
        compat_key,
    ) + "\nrefresh_source: "@ + or_unknown(refresh_source));
    let a = "codex-hud status"@ + nl + h1 + nl + h2 + nl;
    let b = nl + tail + after;
    let text = summary_text(installed, shim_present, compatible, patch_mode, compat_key, refresh_source)
        + after;
    assert(text =~= a + h3 + b);
    assert(h3.subrange(0, h3.len() as int) =~= h3);
    assert(crate::text::matches_at(h3, h3, 0));
    crate::text::lemma_contains_middle(a, h3, b, h3);
    if compatible {
        assert(h3 =~= "compatibility: supported"@);
    } else {
        assert(h3 =~= "compatibility: unsupported"@);
    }
}

/// The summary is its first four lines, each ended by `\n`, and the rest.
proof fn lemma_summary_split(s: StatusSnapshot)
    ensures
        status_summary_text(s) == summary_head(s)[0] + seq!['\n'] + (summary_head(s)[1] + seq![
            '\n',
        ] + (summary_head(s)[2] + seq!['\n'] + (summary_head(s)[3] + seq!['\n'] + summary_tail(
            s,
        )))),
{
    lemma_summary_text_split(
        s.installed,
        s.shim_present,
        s.compatible,
        opt_view(s.patch_mode),
        opt_view(s.compat_key),
        opt_view(s.compat_refresh_source),
    );
    assert(summary_tail(s) =~= "patch_mode: "@ + (or_unknown(opt_view(s.patch_mode))
        + "\ncompat_key: "@ + or_unknown(opt_view(s.compat_key)) + "\nrefresh_source: "@
        + or_unknown(opt_view(s.compat_refresh_source))));
}

/// The summary's first four lines hold no line break.
proof fn lemma_summary_head_clean(s: StatusSnapshot)
    ensures
        forall|i: int| 0 <= i < 4 ==> clean(#[trigger] summary_head(s)[i]),
        summary_tail(s).len() > 0,
{
    reveal_strlit("codex-hud status");
    reveal_strlit("installed: ");
    reveal_strlit("shim: ");
    reveal_strlit("compatibility: ");
    reveal_strlit("patch_mode: ");
    reveal_strlit("yes");
    reveal_strlit("no");
    reveal_strlit("present");
    reveal_strlit("missing");
    reveal_strlit("supported");
    reveal_strlit("unsupported");
    let h = summary_head(s);
    lemma_clean_concat("installed: "@, if s.installed { "yes"@ } else { "no"@ });
    lemma_clean_concat("shim: "@, if s.shim_present { "present"@ } else { "missing"@ });
    lemma_clean_concat("compatibility: "@, if s.compatible { "supported"@ } else { "unsupported"@ });
    assert forall|i: int| 0 <= i < 4 implies clean(#[trigger] h[i]) by {}
}

/// Whatever the snapshot holds, the summary report opens with its title and
/// then, in this order, whether codex-hud is installed (`yes`/`no`), whether
/// the shim is `present` or `missing`, and whether Codex is `supported` or
/// `unsupported`, each from its own flag.
pub proof fn lemma_summary_flag_lines(s: StatusSnapshot)
    ensures
        lines(status_summary_text(s)).len() > 4,
        lines(status_summary_text(s)).subrange(0, 4) == summary_head(s),
{
    lemma_summary_split(s);
    lemma_summary_head_clean(s);
    let h = summary_head(s);
    let nl = seq!['\n'];
    let t4 = summary_tail(s);
    let t3 = h[3] + nl + t4;
    let t2 = h[2] + nl + t3;
    let t1 = h[1] + nl + t2;
    assert forall|i: int| 0 <= i < 4 implies strip_cr(#[trigger] h[i]) == h[i] by {
        assert(clean(h[i]));
        if h[i].len() > 0 {
            assert(h[i].last() == h[i][h[i].len() - 1]);
        }
    }
    assert(clean(h[0]) && clean(h[1]) && clean(h[2]) && clean(h[3]));
    lemma_lines_cons(h[0], t1);
    lemma_lines_cons(h[1], t2);
    lemma_lines_cons(h[2], t3);
    lemma_lines_cons(h[3], t4);
    crate::text::lemma_find_contains(t4, nl);
    assert(lines(t4).len() > 0);
    assert(lines(status_summary_text(s)) =~= h + lines(t4));
    assert(lines(status_summary_text(s)).subrange(0, 4) =~= h);
}

/// The lines of the summary after its first four, for texts without line
/// breaks.
proof fn lemma_summary_tail_lines(s: StatusSnapshot)
    requires
        clean_field(s.patch_mode),
        clean_field(s.compat_key),
        clean_field(s.compat_refresh_source),
    ensures
        lines(summary_tail(s)) == seq![
            "patch_mode: "@ + or_unknown(opt_view(s.patch_mode)),
            "compat_key: "@ + or_unknown(opt_view(s.compat_key)),
            "refresh_source: "@ + or_unknown(opt_view(s.compat_refresh_source)),
        ],
{
    reveal_strlit("\ncompat_key: ");
    reveal_strlit("\nrefresh_source: ");
    reveal_strlit("compat_key: ");
    reveal_strlit("refresh_source: ");
    reveal_strlit("patch_mode: ");
    let nl = seq!['\n'];
    let p = "patch_mode: "@ + or_unknown(opt_view(s.patch_mode));
    let c = "compat_key: "@ + or_unknown(opt_view(s.compat_key));
    let r = "refresh_source: "@ + or_unknown(opt_view(s.compat_refresh_source));
    assert("\ncompat_key: "@ =~= nl + "compat_key: "@);
    assert("\nrefresh_source: "@ =~= nl + "refresh_source: "@);
    assert(summary_tail(s) =~= p + nl + (c + nl + r));
    lemma_clean_shown(s.patch_mode);
    lemma_clean_shown(s.compat_key);
    lemma_clean_shown(s.compat_refresh_source);
    lemma_clean_concat("patch_mode: "@, or_unknown(opt_view(s.patch_mode)));
    lemma_clean_concat("compat_key: "@, or_unknown(opt_view(s.compat_key)));
    lemma_clean_concat("refresh_source: "@, or_unknown(opt_view(s.compat_refresh_source)));
    assert(strip_cr(p) == p) by {
        if p.len() > 0 {
            assert(p.last() == p[p.len() - 1]);
        }
    }
    assert(strip_cr(c) == c) by {
        if c.len() > 0 {
            assert(c.last() == c[c.len() - 1]);
        }
    }
    lemma_lines_cons(p, c + nl + r);
    lemma_lines_cons(c, r);
    assert(r.len() > 0);
    lemma_lines_of_clean_join(seq![r]);
    assert(join(seq![r], nl) == r);
    assert(lines(summary_tail(s)) =~= seq![p, c, r]);
}

/// The summary report of a snapshot whose texts hold no line breaks is
/// seven lines: the title, whether codex-hud is installed, the shim, the
/// compatibility, and then the patch mode, the compatibility key and the
/// refresh source, each as it is (not redacted) or `unknown` when absent.
pub proof fn lemma_summary_report_lines(s: StatusSnapshot)
    requires
        clean_field(s.patch_mode),
        clean_field(s.compat_key),
        clean_field(s.compat_refresh_source),
    ensures
        lines(status_summary_text(s)) == seq![
            "codex-hud status"@,
            "installed: "@ + yes_no(s.installed),
            "shim: "@ + (if s.shim_present {
                "present"@
            } else {
                "missing"@
            }),
            "compatibility: "@ + (if s.compatible {
                "supported"@
            } else {
                "unsupported"@
            }),
            "patch_mode: "@ + field_word(s.patch_mode, false),
            "compat_key: "@ + field_word(s.compat_key, false),
            "refresh_source: "@ + field_word(s.compat_refresh_source, false),
        ],
{
    lemma_summary_flag_lines(s);
    lemma_summary_tail_lines(s);
    lemma_summary_split(s);
    lemma_summary_head_clean(s);
    let h = summary_head(s);
    let nl = seq!['\n'];
    let t4 = summary_tail(s);
    let t3 = h[3] + nl + t4;
    let t2 = h[2] + nl + t3;
    let t1 = h[1] + nl + t2;
    assert forall|i: int| 0 <= i < 4 implies strip_cr(#[trigger] h[i]) == h[i] by {
        assert(clean(h[i]));
        if h[i].len() > 0 {
            assert(h[i].last() == h[i][h[i].len() - 1]);
        }
    }
    lemma_lines_cons(h[0], t1);
    lemma_lines_cons(h[1], t2);
    lemma_lines_cons(h[2], t3);
    lemma_lines_cons(h[3], t4);
    assert(lines(status_summary_text(s)) =~= h + lines(t4));
}

/// Appends the field's text, or `unknown` when it is absent.
fn append_or_unknown(out: &mut String, o: &Option<String>)
    ensures
        final(out)@ == old(out)@ + or_unknown(opt_view(*o)),
{
    match o {
        Some(v) => out.append(v.as_str()),
        None => out.append("unknown"),
    }
}

/// The summary report of a snapshot.
pub fn render_status_summary(s: &StatusSnapshot) -> (r: String)
    ensures
        r@ == status_summary_text(*s),
{
    let mut out = owned("codex-hud status\ninstalled: ");
    out.append(if s.installed { "yes" } else { "no" });
    out.append("\nshim: ");
    out.append(if s.shim_present { "present" } else { "missing" });
    out.append("\ncompatibility: ");
    out.append(if s.compatible { "supported" } else { "unsupported" });
    out.append("\npatch_mode: ");
    append_or_unknown(&mut out, &s.patch_mode);
    out.append("\ncompat_key: ");
    append_or_unknown(&mut out, &s.compat_key);
    out.append("\nrefresh_source: ");
    append_or_unknown(&mut out, &s.compat_refresh_source);
    out
}

/// `true` or `false`.
fn bool_str(b: bool) -> (r: &'static str)
    ensures
        r@ == bool_text(b),
{
    if b {
        "true"
    } else {
        "false"
    }
}

/// The field's text, or `unknown`.
fn shown(o: &Option<String>) -> (r: String)
    ensures
        r@ == or_unknown(opt_view(*o)),
{
    match o {
        Some(v) => v.clone(),
        None => owned("unknown"),
    }
}

/// The field's redacted text, or `unknown`.
fn shown_redacted(o: &Option<String>) -> (r: String)
    ensures
        r@ == redacted_or_unknown(opt_view(*o)),
{
    match o {
        Some(v) => redact_secret_like(v.as_str()),
        None => owned("unknown"),
    }
}

/// Appends line `k` of `ls`, made of `label` and `value`, after a `\n`.
fn append_line(
    out: &mut String,
    label: &str,
    value: &str,
    Ghost(ls): Ghost<Seq<Seq<char>>>,
    Ghost(k): Ghost<int>,
)
    requires
        1 <= k < ls.len(),
        old(out)@ == join(ls.subrange(0, k), seq!['\n']),
        ls[k] == label@ + value@,
    ensures
        final(out)@ == join(ls.subrange(0, k + 1), seq!['\n']),
{
    let ghost before = out@;
    crate::text::push_char(out, '\n');
    out.append(label);
    out.append(value);
    proof {
        lemma_join_step(ls, k);
        assert(out@ =~= before + seq!['\n'] + ls[k]);
    }
}

/// The details report of a snapshot.
pub fn render_status_details(s: &StatusSnapshot) -> (r: String)
    ensures
        r@ == status_details_text(*s),
{
    let ghost ls = details_lines(*s);
    let mut out = owned("codex-hud status details");
    proof {
        assert(ls.subrange(0, 1) =~= seq![ls[0]]);
    }
    append_line(&mut out, "installed: ", bool_str(s.installed), Ghost(ls), Ghost(1int));
    append_line(&mut out, "shim_present: ", bool_str(s.shim_present), Ghost(ls), Ghost(2int));
    append_line(&mut out, "rc_block_present: ", bool_str(s.rc_block_present), Ghost(ls), Ghost(3int));
    append_line(&mut out, "compatible: ", bool_str(s.compatible), Ghost(ls), Ghost(4int));
    append_line(&mut out, "codex_version: ", shown(&s.codex_version).as_str(), Ghost(ls), Ghost(5int));
    append_line(&mut out, "codex_sha256: ", shown_redacted(&s.codex_sha256).as_str(), Ghost(ls), Ghost(6int));
    append_line(&mut out, "managed_root: ", shown_redacted(&s.managed_root).as_str(), Ghost(ls), Ghost(7int));
    append_line(&mut out, "stock_codex_path: ", shown_redacted(&s.stock_codex_path).as_str(), Ghost(ls), Ghost(8int));
    append_line(&mut out, "patch_mode: ", shown_redacted(&s.patch_mode).as_str(), Ghost(ls), Ghost(9int));
    append_line(&mut out, "patch_reason: ", shown_redacted(&s.patch_reason).as_str(), Ghost(ls), Ghost(10int));
    append_line(&mut out, "compat_key: ", shown_redacted(&s.compat_key).as_str(), Ghost(ls), Ghost(11int));
    append_line(&mut out, "compat_refresh_source: ", shown_redacted(&s.compat_refresh_source).as_str(), Ghost(ls), Ghost(12int));
    append_line(&mut out, "unsupported_notice: ", if s.compatible { "not_applicable" } else { "shown_once" }, Ghost(ls), Ghost(13int));
    proof {
        assert(ls.subrange(0, 14) =~= ls);
    }
    out
}

} // verus!
