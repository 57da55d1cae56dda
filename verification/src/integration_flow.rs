//! What the `status` commands make of the files under a home directory:
//! the facts are gathered by the caller, the reports are built here.
use vstd::prelude::*;

use crate::shell_rc::RC_BLOCK_BEGIN;
use crate::status::{
    details_text, opt_view, render_status_details, render_status_summary, summary_text,
    StatusSnapshot,
};
use crate::text::{
    char_views, chars_of, clean, contains, lemma_contains_middle, lemma_lines_append,
    lemma_lines_cons, lines, lines_exec, owned, starts_with, str_contains, string_of_range,
    strip_cr, trim, trim_bounds, trim_string,
};

verus! {

/// The small script installed as `codex-hud` when none is present: it
/// runs the stock Codex for `run --stock-codex <path> [--] <args>` and
/// echoes its arguments otherwise.
pub const RUNTIME_SCRIPT: &'static str = "#!/usr/bin/env sh\nif [ \"$1\" = \"run\" ] && [ \"$2\" = \"--stock-codex\" ]; then\n  shift 2\n  stock=\"$1\"\n  shift\n  if [ \"$1\" = \"--\" ]; then\n    shift\n  fi\n  exec \"$stock\" \"$@\"\nfi\nprintf \"%s\\n\" \"$*\"\n";

/// The reason recorded when the compatibility key is not supported.
pub const UNSUPPORTED_KEY_REASON: &'static str = "unsupported compatibility key";

/// What the status commands read under the home directory.
#[derive(Debug, Clone)]
pub struct HomeFacts {
    /// `.codex-hud/bin/codex` exists.
    pub shim_present: bool,
    /// `.codex-hud/bin/codex-hud` exists.
    pub runtime_present: bool,
    /// The text of `.zshrc` (empty when there is none).
    pub rc_text: String,
    /// The managed root `<home>/.codex-hud`.
    pub managed_root: String,
    /// The text of `.codex-hud/stock_codex_path.txt`, when readable.
    pub stock_codex_path_text: Option<String>,
    /// The text of `.codex-hud/last_run_policy.txt`, when readable.
    pub policy_text: Option<String>,
    /// The text of `.codex-hud/compat/last_compat_key.txt`, when readable.
    pub compat_key_text: Option<String>,
    /// The text of `.codex-hud/compat/refresh_source.txt`, when readable.
    pub refresh_source_text: Option<String>,
}

// ---------------------------------------------------------------------------
// The policy file
// ---------------------------------------------------------------------------

/// The `mode=` and `reason=` values of the policy lines, trimmed; a later
/// line overrides an earlier one.
pub open spec fn policy_fields_of(ls: Seq<Seq<char>>) -> (Option<Seq<char>>, Option<Seq<char>>)
    decreases ls.len(),
{
    if ls.len() == 0 {
        (None, None)
    } else {
        let (mode, reason) = policy_fields_of(ls.drop_last());
        let l = ls.last();
        if starts_with(l, "mode="@) {
            (Some(trim(l.subrange(5, l.len() as int))), reason)
        } else if starts_with(l, "reason="@) {
            (mode, Some(trim(l.subrange(7, l.len() as int))))
        } else {
            (mode, reason)
        }
    }
}

/// The policy fields of a policy file's text, `(None, None)` without one.
pub open spec fn policy_of(text: Option<Seq<char>>) -> (Option<Seq<char>>, Option<Seq<char>>) {
    match text {
        Some(t) => policy_fields_of(lines(t)),
        None => (None, None),
    }
}

/// The trimmed value after a prefix of `n` characters.
fn trimmed_after(line: &Vec<char>, n: usize) -> (r: String)
    requires
        n <= line@.len(),
    ensures
        r@ == trim(line@.subrange(n as int, line@.len() as int)),
{
    let (a, b) = trim_bounds(line, n, line.len());
    string_of_range(line, a, b)
}

/// Whether `line` starts with the characters of `prefix`.
fn line_starts_with(line: &Vec<char>, prefix: &str) -> (r: bool)
    ensures
        r == starts_with(line@, prefix@),
{
    let p = chars_of(prefix);
    if p.len() > line.len() {
        return false;
    }
    let mut i: usize = 0;
    while i < p.len()
        invariant
            p@ == prefix@,
            p@.len() <= line@.len(),
            i <= p@.len(),
            forall|j: int| 0 <= j < i ==> line@[j] == p@[j],
        decreases p.len() - i,
    {
        if line[i] != p[i] {
            assert(line@.subrange(0, p@.len() as int)[i as int] != p@[i as int]);
            return false;
        }
        i = i + 1;
    }
    assert(line@.subrange(0, p@.len() as int) =~= p@);
    true
}

/// Reads the `mode=` and `reason=` lines of a policy file's text.
pub fn parse_policy_fields(text: &str) -> (r: (Option<String>, Option<String>))
    ensures
        (opt_view(r.0), opt_view(r.1)) == policy_fields_of(lines(text@)),
{
    let v = chars_of(text);
    let ls = lines_exec(&v);
    let mut mode: Option<String> = None;
    let mut reason: Option<String> = None;
    let mut i: usize = 0;
    while i < ls.len()
        invariant
            i <= ls.len(),
            char_views(ls@) == lines(v@),
            v@ == text@,
            (opt_view(mode), opt_view(reason)) == policy_fields_of(
                lines(v@).subrange(0, i as int),
            ),
        decreases ls.len() - i,
    {
        let line = &ls[i];
        proof {
            reveal_strlit("mode=");
            reveal_strlit("reason=");
            assert(char_views(ls@)[i as int] == line@);
            let pre = lines(v@).subrange(0, i + 1);
            assert(pre.drop_last() =~= lines(v@).subrange(0, i as int));
            assert(pre.last() == line@);
        }
        if line_starts_with(line, "mode=") {
            mode = Some(trimmed_after(line, 5));
        } else if line_starts_with(line, "reason=") {
            reason = Some(trimmed_after(line, 7));
        }
        i = i + 1;
    }
    proof {
        assert(lines(v@).subrange(0, ls@.len() as int) =~= lines(v@));
    }
    (mode, reason)
}

// ---------------------------------------------------------------------------
// Snapshots and reports
// ---------------------------------------------------------------------------

/// A file's text trimmed, `None` when there is no text or nothing is left.
pub open spec fn trimmed_value(text: Option<Seq<char>>) -> Option<Seq<char>> {
    match text {
        Some(t) => if trim(t).len() > 0 {
            Some(trim(t))
        } else {
            None
        },
        None => None,
    }
}

/// A file's text trimmed, `None` when there is no text.
pub open spec fn trimmed_text(text: Option<Seq<char>>) -> Option<Seq<char>> {
    match text {
        Some(t) => Some(trim(t)),
        None => None,
    }
}

/// Whether the shell rc text holds the managed block's begin marker.
pub open spec fn rc_block_present(f: HomeFacts) -> bool {
    contains(f.rc_text@, RC_BLOCK_BEGIN@)
}

/// Codex counts as compatible unless the last run fell back to stock Codex
/// for an unsupported compatibility key.
pub open spec fn compatible_by_policy(f: HomeFacts) -> bool {
    policy_of(opt_view(f.policy_text)).1 != Some(UNSUPPORTED_KEY_REASON@)
}

/// The summary report of `codex-hud status`, with the runtime line.
pub open spec fn integration_status_text(f: HomeFacts) -> Seq<char> {
    summary_text(
        f.shim_present || f.runtime_present || rc_block_present(f),
        f.shim_present,
        compatible_by_policy(f),
        policy_of(opt_view(f.policy_text)).0,
        trimmed_value(opt_view(f.compat_key_text)),
        trimmed_value(opt_view(f.refresh_source_text)),
    ) + "\nruntime: "@ + (if f.runtime_present {
        "present"@
    } else {
        "missing"@
    })
}

/// The details report of `codex-hud status details`.
pub open spec fn integration_status_details_text(f: HomeFacts) -> Seq<char> {
    details_text(
        f.shim_present || rc_block_present(f),
        f.shim_present,
        rc_block_present(f),
        compatible_by_policy(f),
        Some("unknown"@),
        None,
        Some(f.managed_root@),
        trimmed_text(opt_view(f.stock_codex_path_text)),
        policy_of(opt_view(f.policy_text)).0,
        policy_of(opt_view(f.policy_text)).1,
        trimmed_value(opt_view(f.compat_key_text)),
        trimmed_value(opt_view(f.refresh_source_text)),
    )
}

/// The text trimmed, `None` when nothing is left.
fn trimmed_nonempty(text: &Option<String>) -> (r: Option<String>)
    ensures
        opt_view(r) == trimmed_value(opt_view(*text)),
{
    match text {
        Some(t) => {
            let v = chars_of(t.as_str());
            let (a, b) = trim_bounds(&v, 0, v.len());
            proof {
                assert(v@.subrange(0, v@.len() as int) =~= v@);
            }
            if a < b {
                Some(string_of_range(&v, a, b))
            } else {
                None
            }
        },
        None => None,
    }
}

/// The text trimmed.
fn trimmed_opt(text: &Option<String>) -> (r: Option<String>)
    ensures
        opt_view(r) == trimmed_text(opt_view(*text)),
{
    match text {
        Some(t) => Some(trim_string(t.as_str())),
        None => None,
    }
}

/// The snapshot of the facts; `count_runtime` says whether the runtime
/// script alone counts as installed.
fn snapshot_of(f: &HomeFacts, count_runtime: bool) -> (s: StatusSnapshot)
    ensures
        s.installed == (f.shim_present || (count_runtime && f.runtime_present)
            || rc_block_present(*f)),
        s.shim_present == f.shim_present,
        s.rc_block_present == rc_block_present(*f),
        s.compatible == compatible_by_policy(*f),
        opt_view(s.codex_version) == Some("unknown"@),
        s.codex_sha256 is None,
        opt_view(s.managed_root) == Some(f.managed_root@),
        opt_view(s.stock_codex_path) == trimmed_text(opt_view(f.stock_codex_path_text)),
        opt_view(s.patch_mode) == policy_of(opt_view(f.policy_text)).0,
        opt_view(s.patch_reason) == policy_of(opt_view(f.policy_text)).1,
        opt_view(s.compat_key) == trimmed_value(opt_view(f.compat_key_text)),
        opt_view(s.compat_refresh_source) == trimmed_value(opt_view(f.refresh_source_text)),
{
    let rc_block = str_contains(f.rc_text.as_str(), RC_BLOCK_BEGIN);
    let (patch_mode, patch_reason) = match &f.policy_text {
        Some(t) => parse_policy_fields(t.as_str()),
        None => (None, None),
    };
    let compatible = match &patch_reason {
        Some(r) => !crate::text::str_eq(r.as_str(), UNSUPPORTED_KEY_REASON),
        None => true,
    };
    StatusSnapshot {
        installed: f.shim_present || (count_runtime && f.runtime_present) || rc_block,
        shim_present: f.shim_present,
        rc_block_present: rc_block,
        compatible,
        codex_version: Some(owned("unknown")),
        codex_sha256: None,
        managed_root: Some(f.managed_root.clone()),
        stock_codex_path: trimmed_opt(&f.stock_codex_path_text),
        patch_mode,
        patch_reason,
        compat_key: trimmed_nonempty(&f.compat_key_text),
        compat_refresh_source: trimmed_nonempty(&f.refresh_source_text),
    }
}

/// The report of `codex-hud status`: the summary, where the runtime script
/// also counts as installed, followed by whether the runtime is present.
pub fn integration_status_report(f: &HomeFacts) -> (r: String)
    ensures
        r@ == integration_status_text(*f),
{
    let s = snapshot_of(f, true);
    let mut out = render_status_summary(&s);
    out.append("\nruntime: ");
    out.append(if f.runtime_present { "present" } else { "missing" });
    out
}

/// The report of `codex-hud status details`.
pub fn integration_status_details_report(f: &HomeFacts) -> (r: String)
    ensures
        r@ == integration_status_details_text(*f),
{
    let s = snapshot_of(f, false);
    render_status_details(&s)
}

// ---------------------------------------------------------------------------
// What the report says after an install and after an uninstall
// ---------------------------------------------------------------------------

/// A text occurs in any text that has it in the middle.
proof fn lemma_occurs(a: Seq<char>, x: Seq<char>, b: Seq<char>)
    ensures
        contains(a + x + b, x),
{
    assert(x.subrange(0, x.len() as int) =~= x);
    assert(crate::text::matches_at(x, x, 0));
    lemma_contains_middle(a, x, b, x);
}

/// Once the shim and the runtime script are installed, the status report
/// says that codex-hud is installed and that both are present.
pub proof fn lemma_status_after_install(f: HomeFacts)
    requires
        f.shim_present,
        f.runtime_present,
    ensures
        contains(integration_status_text(f), "installed: yes"@),
        contains(integration_status_text(f), "shim: present"@),
        contains(integration_status_text(f), "runtime: present"@),
{
    reveal_strlit("codex-hud status\ninstalled: ");
    reveal_strlit("yes");
    reveal_strlit("\nshim: ");
    reveal_strlit("present");
    reveal_strlit("\nruntime: ");
    reveal_strlit("installed: yes");
    reveal_strlit("shim: present");
    reveal_strlit("runtime: present");
    reveal_strlit("codex-hud status\n");
    reveal_strlit("codex-hud status\ninstalled: yes\n");
    reveal_strlit("\n");
    let t = integration_status_text(f);
    let summary = summary_text(
        true,
        true,
        compatible_by_policy(f),
        policy_of(opt_view(f.policy_text)).0,
        trimmed_value(opt_view(f.compat_key_text)),
        trimmed_value(opt_view(f.refresh_source_text)),
    );
    assert(t =~= "codex-hud status\n"@ + "installed: yes"@ + (t.subrange(31, t.len() as int)));
    lemma_occurs("codex-hud status\n"@, "installed: yes"@, t.subrange(31, t.len() as int));
    assert(t =~= "codex-hud status\ninstalled: yes\n"@ + "shim: present"@ + t.subrange(
        45,
        t.len() as int,
    ));
    lemma_occurs(
        "codex-hud status\ninstalled: yes\n"@,
        "shim: present"@,
        t.subrange(45, t.len() as int),
    );
    assert(t =~= (summary + "\n"@) + "runtime: present"@ + Seq::<char>::empty());
    lemma_occurs(summary + "\n"@, "runtime: present"@, Seq::<char>::empty());
}

/// Once the shim and the runtime script are gone and the rc file holds no
/// managed block, the status report says that codex-hud is not installed
/// and that both are missing.
pub proof fn lemma_status_after_uninstall(f: HomeFacts)
    requires
        !f.shim_present,
        !f.runtime_present,
        !rc_block_present(f),
    ensures
        contains(integration_status_text(f), "installed: no"@),
        contains(integration_status_text(f), "shim: missing"@),
        contains(integration_status_text(f), "runtime: missing"@),
{
    reveal_strlit("codex-hud status\ninstalled: ");
    reveal_strlit("no");
    reveal_strlit("\nshim: ");
    reveal_strlit("missing");
    reveal_strlit("\nruntime: ");
    reveal_strlit("installed: no");
    reveal_strlit("shim: missing");
    reveal_strlit("runtime: missing");
    reveal_strlit("codex-hud status\n");
    reveal_strlit("codex-hud status\ninstalled: no\n");
    reveal_strlit("\n");
    let t = integration_status_text(f);
    let summary = summary_text(
        false,
        false,
        compatible_by_policy(f),
        policy_of(opt_view(f.policy_text)).0,
        trimmed_value(opt_view(f.compat_key_text)),
        trimmed_value(opt_view(f.refresh_source_text)),
    );
    assert(t =~= "codex-hud status\n"@ + "installed: no"@ + (t.subrange(30, t.len() as int)));
    lemma_occurs("codex-hud status\n"@, "installed: no"@, t.subrange(30, t.len() as int));
    assert(t =~= "codex-hud status\ninstalled: no\n"@ + "shim: missing"@ + t.subrange(
        44,
        t.len() as int,
    ));
    lemma_occurs(
        "codex-hud status\ninstalled: no\n"@,
        "shim: missing"@,
        t.subrange(44, t.len() as int),
    );
    assert(t =~= (summary + "\n"@) + "runtime: missing"@ + Seq::<char>::empty());
    lemma_occurs(summary + "\n"@, "runtime: missing"@, Seq::<char>::empty());
}

/// The reason recorded on the last line of a policy text is the policy's
/// reason: after any complete lines, a line `reason=<r>` gives `r` trimmed.
pub proof fn lemma_last_reason_line(t: Seq<char>, r: Seq<char>)
    requires
        t.len() == 0 || t.last() == '\n',
        clean(r),
    ensures
        policy_of(Some(t + "reason="@ + r + "\n"@)).1 == Some(trim(r)),
{
    reveal_strlit("reason=");
    reveal_strlit("mode=");
    reveal_strlit("\n");
    let l = "reason="@ + r;
    let nl = seq!['\n'];
    assert(crate::text::no_newline(l)) by {
        assert forall|i: int| 0 <= i < l.len() implies l[i] != '\n' by {
            if i >= 7 {
                assert(l[i] == r[i - 7]);
            }
        }
    }
    assert(l.last() != '\r') by {
        if r.len() > 0 {
            assert(l.last() == r[r.len() - 1]);
        }
    }
    assert(strip_cr(l) == l);
    let empty = Seq::<char>::empty();
    lemma_lines_cons(l, empty);
    assert(l + nl + empty =~= l + "\n"@);
    assert(lines(empty) == Seq::<Seq<char>>::empty());
    lemma_lines_append(t, l + "\n"@);
    assert(t + "reason="@ + r + "\n"@ =~= t + (l + "\n"@));
    let ls = lines(t + "reason="@ + r + "\n"@);
    assert(ls =~= lines(t).push(l));
    assert(ls.drop_last() =~= lines(t));
    assert(ls.last() == l);
    assert(!starts_with(l, "mode="@)) by {
        assert(l.subrange(0, 5)[0] == l[0]);
    }
    assert(l.subrange(0, 7) =~= "reason="@);
    assert(starts_with(l, "reason="@));
    assert(l.subrange(7, l.len() as int) =~= r);
}

/// Codex counts as incompatible exactly when the reason that the last run
/// recorded is `unsupported compatibility key`: for a policy file whose last
/// line is `reason=<r>`, any other `r` (such as `ok`) leaves it compatible,
/// and the status report says `compatibility: supported`, else
/// `compatibility: unsupported`.
pub proof fn lemma_reason_decides_compatibility(f: HomeFacts, t: Seq<char>, r: Seq<char>)
    requires
        t.len() == 0 || t.last() == '\n',
        clean(r),
        opt_view(f.policy_text) == Some(t + "reason="@ + r + "\n"@),
    ensures
        compatible_by_policy(f) == (trim(r) != "unsupported compatibility key"@),
        trim(r) != "unsupported compatibility key"@ ==> contains(
            integration_status_text(f),
            "compatibility: supported"@,
        ),
        trim(r) == "unsupported compatibility key"@ ==> contains(
            integration_status_text(f),
            "compatibility: unsupported"@,
        ),
{
    lemma_last_reason_line(t, r);
    reveal_strlit("unsupported compatibility key");
    let runtime = "\nruntime: "@ + (if f.runtime_present {
        "present"@
    } else {
        "missing"@
    });
    crate::status::lemma_summary_compat_line(
        f.shim_present || f.runtime_present || rc_block_present(f),
        f.shim_present,
        compatible_by_policy(f),
        policy_of(opt_view(f.policy_text)).0,
        trimmed_value(opt_view(f.compat_key_text)),
        trimmed_value(opt_view(f.refresh_source_text)),
        runtime,
    );
    let sum = summary_text(
        f.shim_present || f.runtime_present || rc_block_present(f),
        f.shim_present,
        compatible_by_policy(f),
        policy_of(opt_view(f.policy_text)).0,
        trimmed_value(opt_view(f.compat_key_text)),
        trimmed_value(opt_view(f.refresh_source_text)),
    );
    assert(integration_status_text(f) =~= sum + runtime);
    assert(UNSUPPORTED_KEY_REASON@ == "unsupported compatibility key"@);
}

/// Without a policy file Codex counts as compatible, and the summary says
/// `compatibility: supported`.
pub proof fn lemma_no_policy_is_compatible(f: HomeFacts)
    requires
        f.policy_text is None,
    ensures
        compatible_by_policy(f),
        contains(integration_status_text(f), "compatibility: supported"@),
{
    let runtime = "\nruntime: "@ + (if f.runtime_present {
        "present"@
    } else {
        "missing"@
    });
    crate::status::lemma_summary_compat_line(
        f.shim_present || f.runtime_present || rc_block_present(f),
        f.shim_present,
        compatible_by_policy(f),
        policy_of(opt_view(f.policy_text)).0,
        trimmed_value(opt_view(f.compat_key_text)),
        trimmed_value(opt_view(f.refresh_source_text)),
        runtime,
    );
    let sum = summary_text(
        f.shim_present || f.runtime_present || rc_block_present(f),
        f.shim_present,
        compatible_by_policy(f),
        policy_of(opt_view(f.policy_text)).0,
        trimmed_value(opt_view(f.compat_key_text)),
        trimmed_value(opt_view(f.refresh_source_text)),
    );
    assert(integration_status_text(f) =~= sum + runtime);
}

} // verus!
