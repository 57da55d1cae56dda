//! The codex-hud managed block of a shell rc file.
//!
//! Installation appends a block, delimited by marker lines and opened by a
//! blank line, that puts the managed bin directory on `PATH`;
//! uninstallation drops every line from a begin marker to the next end
//! marker, together with a blank line just before the begin marker. The functions here compute the new
//! rc text from the old one; reading and writing the file is the caller's.
use vstd::prelude::*;

use crate::text::{
    char_views, chars_eq, chars_of, contains, is_whitespace, join, lemma_join_lines_roundtrip,
    lemma_lines_append, lemma_lines_cons, lemma_lines_no_newline,
    lemma_lines_of_joined, lemma_trim_strip_cr, lines, lines_exec, matches_at, no_cr, no_newline,
    owned, str_contains, string_of, string_of_range, strip_cr, trim, trim_bounds, trim_end,
    trim_start,
};

verus! {

/// The line that opens the managed block.
pub const RC_BLOCK_BEGIN: &'static str = "# BEGIN CODEX HUD MANAGED BLOCK";

/// The line that closes the managed block.
pub const RC_BLOCK_END: &'static str = "# END CODEX HUD MANAGED BLOCK";

/// The begin marker's characters.
pub open spec fn begin_marker() -> Seq<char> {
    RC_BLOCK_BEGIN@
}

/// The end marker's characters.
pub open spec fn end_marker() -> Seq<char> {
    RC_BLOCK_END@
}

/// The line of the block that extends `PATH`.
pub open spec fn path_export_line(managed_bin_path: Seq<char>) -> Seq<char> {
    "export PATH=\""@ + managed_bin_path + ":$PATH\""@
}

/// The managed block appended to an rc file.
pub open spec fn rc_block(managed_bin_path: Seq<char>) -> Seq<char> {
    "\n"@ + begin_marker() + "\n"@ + path_export_line(managed_bin_path) + "\n"@ + end_marker()
        + "\n"@
}

/// The rc text already holds both markers.
pub open spec fn has_rc_block(existing: Seq<char>) -> bool {
    contains(existing, begin_marker()) && contains(existing, end_marker())
}

/// What installing the block does to the rc text: `None` when both markers
/// are already there (the file is left alone), else the text with the block
/// appended.
pub open spec fn rc_with_block(existing: Seq<char>, managed_bin_path: Seq<char>) -> Option<
    Seq<char>,
> {
    if has_rc_block(existing) {
        None
    } else {
        Some(existing + rc_block(managed_bin_path))
    }
}

/// The lines kept when dropping managed blocks; `in_block` tells whether a
/// begin marker has been seen without its end marker yet. An empty line
/// right before a begin marker belongs to the block (installation writes
/// it) and goes with it.
pub open spec fn kept_lines(ls: Seq<Seq<char>>, in_block: bool) -> Seq<Seq<char>>
    decreases ls.len(),
{
    if ls.len() == 0 {
        seq![]
    } else {
        let l = ls[0];
        let rest = ls.drop_first();
        if trim(l) == begin_marker() {
            kept_lines(rest, true)
        } else if trim(l) == end_marker() {
            kept_lines(rest, false)
        } else if in_block {
            kept_lines(rest, true)
        } else if l.len() == 0 && rest.len() > 0 && trim(rest[0]) == begin_marker() {
            kept_lines(rest, false)
        } else {
            seq![l] + kept_lines(rest, false)
        }
    }
}

/// The rc text with its managed blocks dropped: the kept lines joined with
/// `\n`, followed by a final `\n`.
pub open spec fn rc_without_block(existing: Seq<char>) -> Seq<char> {
    join(kept_lines(lines(existing), false), "\n"@) + "\n"@
}

/// Installs the managed block into the rc text `existing`: `None` when the
/// text already holds both markers, else the text with the block appended.
pub fn rc_text_with_block(existing: &str, managed_bin_path: &str) -> (r: Option<String>)
    ensures
        match r {
            Some(t) => rc_with_block(existing@, managed_bin_path@) == Some(t@),
            None => rc_with_block(existing@, managed_bin_path@) is None,
        },
{
    if str_contains(existing, RC_BLOCK_BEGIN) && str_contains(existing, RC_BLOCK_END) {
        return None;
    }
    let mut out = owned(existing);
    out.append("\n");
    out.append(RC_BLOCK_BEGIN);
    out.append("\n");
    out.append("export PATH=\"");
    out.append(managed_bin_path);
    out.append(":$PATH\"");
    out.append("\n");
    out.append(RC_BLOCK_END);
    out.append("\n");
    Some(out)
}

/// `join(ls, "\n")` of character vectors.
pub fn join_newline(ls: &Vec<Vec<char>>) -> (r: Vec<char>)
    ensures
        r@ == join(char_views(ls@), "\n"@),
{
    let mut out: Vec<char> = Vec::new();
    let mut i: usize = 0;
    proof {
        reveal_strlit("\n");
    }
    while i < ls.len()
        invariant
            i <= ls.len(),
            "\n"@ == seq!['\n'],
            out@ == join(char_views(ls@).subrange(0, i as int), "\n"@),
        decreases ls.len() - i,
    {
        let ghost before = out@;
        if i > 0 {
            out.push('\n');
        }
        let line = &ls[i];
        let mut k: usize = 0;
        while k < line.len()
            invariant
                k <= line.len(),
                out@ == (if i > 0 {
                    before + "\n"@
                } else {
                    before
                }) + line@.subrange(0, k as int),
            decreases line.len() - k,
        {
            out.push(line[k]);
            k = k + 1;
            assert(line@.subrange(0, k as int) =~= line@.subrange(0, k - 1).push(line@[k - 1]));
        }
        proof {
            let vs = char_views(ls@);
            let pre = vs.subrange(0, i as int);
            let next = vs.subrange(0, i + 1);
            assert(line@.subrange(0, line@.len() as int) =~= line@);
            assert(next.drop_last() =~= pre);
            assert(next.last() == line@);
            if i == 0 {
                assert(pre =~= Seq::<Seq<char>>::empty());
                assert(next.len() == 1);
                assert(out@ =~= join(next, "\n"@));
            } else {
                assert(out@ =~= join(next, "\n"@));
            }
        }
        i = i + 1;
    }
    assert(char_views(ls@).subrange(0, ls@.len() as int) =~= char_views(ls@));
    out
}

/// Whether the line, trimmed, is the target.
fn trims_to(line: &Vec<char>, target: &Vec<char>) -> (r: bool)
    ensures
        r == (trim(line@) == target@),
{
    let (a, b) = trim_bounds(line, 0, line.len());
    let trimmed = string_of_range(line, a, b);
    let tv = chars_of(trimmed.as_str());
    proof {
        assert(line@.subrange(0, line@.len() as int) =~= line@);
    }
    chars_eq(&tv, target)
}

/// Removes the managed block from the rc text: every line from a begin
/// marker line to the next end marker line (markers compared after
/// trimming) is dropped, with an empty line just before the begin marker,
/// and the remaining lines are joined with `\n` and end with a final `\n`.
pub fn rc_text_without_block(existing: &str) -> (r: String)
    ensures
        r@ == rc_without_block(existing@),
{
    let text = chars_of(existing);
    let all = lines_exec(&text);
    let begin = chars_of(RC_BLOCK_BEGIN);
    let end = chars_of(RC_BLOCK_END);
    let mut kept: Vec<Vec<char>> = Vec::new();
    let mut in_block = false;
    let mut i: usize = 0;
    assert(char_views(all@).subrange(0, all@.len() as int) =~= char_views(all@));
    assert(char_views(kept@) + kept_lines(char_views(all@), false) =~= kept_lines(
        char_views(all@),
        false,
    ));
    while i < all.len()
        invariant
            i <= all.len(),
            begin@ == begin_marker(),
            end@ == end_marker(),
            char_views(kept@) + kept_lines(char_views(all@).subrange(i as int, all@.len() as int), in_block)
                == kept_lines(char_views(all@), false),
        decreases all.len() - i,
    {
        let ghost rest = char_views(all@).subrange(i as int, all@.len() as int);
        let line = &all[i];
        proof {
            assert(rest[0] == line@);
            assert(rest.drop_first() =~= char_views(all@).subrange(i + 1, all@.len() as int));
        }
        let opens_block = line.len() == 0 && i + 1 < all.len() && trims_to(&all[i + 1], &begin);
        proof {
            if i + 1 < all.len() {
                assert(rest.drop_first()[0] == all@[i + 1]@);
            }
        }
        if trims_to(line, &begin) {
            in_block = true;
        } else if trims_to(line, &end) {
            in_block = false;
        } else if !in_block && !opens_block {
            let ghost before = kept@;
            kept.push(line.clone());
            proof {
                assert(char_views(kept@) =~= char_views(before).push(line@));
                assert(char_views(kept@) + kept_lines(rest.drop_first(), false) =~= char_views(
                    before,
                ) + (seq![line@] + kept_lines(rest.drop_first(), false)));
            }
        }
        i = i + 1;
    }
    proof {
        assert(char_views(all@).subrange(all@.len() as int, all@.len() as int) =~= Seq::<
            Seq<char>,
        >::empty());
        assert(char_views(kept@) + Seq::<Seq<char>>::empty() =~= char_views(kept@));
        assert(char_views(all@).subrange(0, all@.len() as int) =~= char_views(all@));
    }
    let joined = join_newline(&kept);
    let mut out = string_of(&joined);
    out.append("\n");
    out
}

// ---------------------------------------------------------------------------
// Laws
// ---------------------------------------------------------------------------

/// The line does not name a block marker, once trimmed.
pub open spec fn is_unmanaged_line(l: Seq<char>) -> bool {
    trim(l) != begin_marker() && trim(l) != end_marker()
}

/// Every kept line is an unmanaged line of the input.
proof fn lemma_kept_lines_props(ls: Seq<Seq<char>>, in_block: bool)
    requires
        forall|i: int| 0 <= i < ls.len() ==> no_newline(#[trigger] ls[i]),
    ensures
        forall|i: int|
            0 <= i < kept_lines(ls, in_block).len() ==> no_newline(
                #[trigger] kept_lines(ls, in_block)[i],
            ) && is_unmanaged_line(kept_lines(ls, in_block)[i]),
    decreases ls.len(),
{
    if ls.len() > 0 {
        let rest = ls.drop_first();
        assert forall|i: int| 0 <= i < rest.len() implies no_newline(#[trigger] rest[i]) by {
            assert(rest[i] == ls[i + 1]);
        }
        lemma_kept_lines_props(rest, true);
        lemma_kept_lines_props(rest, false);
        let l = ls[0];
        let k = kept_lines(ls, in_block);
        if trim(l) == begin_marker() {
            assert(k == kept_lines(rest, true));
        } else if trim(l) == end_marker() {
            assert(k == kept_lines(rest, false));
        } else if in_block {
            assert(k == kept_lines(rest, true));
        } else if l.len() == 0 && rest.len() > 0 && trim(rest[0]) == begin_marker() {
            assert(k == kept_lines(rest, false));
        } else {
            assert(k == seq![l] + kept_lines(rest, false));
            assert(no_newline(l));
            assert forall|i: int| 0 <= i < k.len() implies no_newline(#[trigger] k[i])
                && is_unmanaged_line(k[i]) by {
                if i > 0 {
                    assert(k[i] == kept_lines(rest, false)[i - 1]);
                }
            }
        }
    }
}

/// Lines outside any block, none of them a marker, are all kept.
proof fn lemma_kept_lines_unmanaged(ls: Seq<Seq<char>>, b: Seq<Seq<char>>)
    requires
        forall|i: int| 0 <= i < ls.len() ==> is_unmanaged_line(#[trigger] ls[i]),
        ls.len() == 0 || ls.last().len() > 0 || b.len() == 0 || trim(b[0]) != begin_marker(),
    ensures
        kept_lines(ls + b, false) == ls + kept_lines(b, false),
    decreases ls.len(),
{
    if ls.len() == 0 {
        assert(ls + b =~= b);
        assert(ls + kept_lines(b, false) =~= kept_lines(b, false));
    } else {
        let rest = ls.drop_first();
        assert forall|i: int| 0 <= i < rest.len() implies is_unmanaged_line(#[trigger] rest[i]) by {
            assert(rest[i] == ls[i + 1]);
        }
        assert(is_unmanaged_line(ls[0]));
        assert((ls + b).drop_first() =~= rest + b);
        assert((ls + b)[0] == ls[0]);
        lemma_kept_lines_unmanaged(rest, b);
        assert(seq![ls[0]] + (rest + kept_lines(b, false)) =~= ls + kept_lines(b, false));
    }
}

/// After removal, no line of the rc text names a block marker.
pub proof fn lemma_rc_removal_leaves_no_marker(existing: Seq<char>)
    ensures
        forall|i: int|
            0 <= i < lines(rc_without_block(existing)).len() ==> is_unmanaged_line(
                #[trigger] lines(rc_without_block(existing))[i],
            ),
{
    reveal_strlit("\n");
    reveal_strlit("# BEGIN CODEX HUD MANAGED BLOCK");
    reveal_strlit("# END CODEX HUD MANAGED BLOCK");
    let ls = lines(existing);
    lemma_lines_no_newline(existing);
    lemma_kept_lines_props(ls, false);
    let k = kept_lines(ls, false);
    assert("\n"@ =~= seq!['\n']);
    lemma_lines_of_joined(k);
    let out = lines(rc_without_block(existing));
    assert forall|i: int| 0 <= i < out.len() implies is_unmanaged_line(#[trigger] out[i]) by {
        if k.len() == 0 {
            assert(out[i] == Seq::<char>::empty());
            assert(trim(Seq::<char>::empty()) =~= Seq::<char>::empty());
            assert(begin_marker().len() > 0);
            assert(end_marker().len() > 0);
        } else {
            assert(out[i] == strip_cr(k[i]));
            lemma_trim_strip_cr(k[i]);
        }
    }
}

/// Removal leaves an rc text without marker lines as it is, when the text
/// is a sequence of complete `\n`-terminated lines without `\r`.
pub proof fn lemma_rc_removal_keeps_unmanaged_text(existing: Seq<char>)
    requires
        existing.len() > 0,
        existing.last() == '\n',
        no_cr(existing),
        forall|i: int| 0 <= i < lines(existing).len() ==> is_unmanaged_line(
            #[trigger] lines(existing)[i],
        ),
    ensures
        rc_without_block(existing) == existing,
{
    reveal_strlit("\n");
    let ls = lines(existing);
    lemma_kept_lines_unmanaged(ls, Seq::<Seq<char>>::empty());
    assert(ls + Seq::<Seq<char>>::empty() =~= ls);
    assert(kept_lines(Seq::<Seq<char>>::empty(), false) == Seq::<Seq<char>>::empty());
    assert("\n"@ =~= seq!['\n']);
    lemma_join_lines_roundtrip(existing);
}

/// Installing the block is idempotent: once installed, a second install
/// leaves the rc text alone.
pub proof fn lemma_rc_install_idempotent(existing: Seq<char>, managed_bin_path: Seq<char>)
    ensures
        match rc_with_block(existing, managed_bin_path) {
            Some(t) => rc_with_block(t, managed_bin_path) is None,
            None => true,
        },
{
    reveal_strlit("\n");
    if let Some(t) = rc_with_block(existing, managed_bin_path) {
        let b = begin_marker();
        let e = end_marker();
        let x = path_export_line(managed_bin_path);
        let n = existing.len() as int;
        assert(t =~= existing + "\n"@ + b + "\n"@ + x + "\n"@ + e + "\n"@);
        assert(t.subrange(n + 1, n + 1 + b.len()) =~= b);
        assert(matches_at(t, b, n + 1));
        let p = n + 1 + b.len() + 1 + x.len() + 1;
        let p = p as int;
        assert(t.subrange(p, p + e.len()) =~= e);
        assert(matches_at(t, e, p));
    }
}

/// Uninstall undoes install: removing the block from an rc text that the
/// block was appended to gives the original text back. This holds for an rc
/// text made of complete `\n`-terminated lines without `\r` or marker
/// lines, and a bin path without line breaks.
pub proof fn lemma_rc_install_then_remove(existing: Seq<char>, managed_bin_path: Seq<char>)
    requires
        existing.len() > 0,
        existing.last() == '\n',
        no_cr(existing),
        !contains(existing, begin_marker()),
        forall|i: int| 0 <= i < lines(existing).len() ==> is_unmanaged_line(
            #[trigger] lines(existing)[i],
        ),
        no_newline(managed_bin_path),
    ensures
        rc_with_block(existing, managed_bin_path) == Some(existing + rc_block(managed_bin_path)),
        rc_without_block(existing + rc_block(managed_bin_path)) == existing,
{
    reveal_strlit("\n");
    reveal_strlit("# BEGIN CODEX HUD MANAGED BLOCK");
    reveal_strlit("# END CODEX HUD MANAGED BLOCK");
    reveal_strlit("export PATH=\"");
    reveal_strlit(":$PATH\"");
    let nl = seq!['\n'];
    assert("\n"@ =~= nl);
    let b = begin_marker();
    let e = end_marker();
    let x = path_export_line(managed_bin_path);
    let empty = Seq::<char>::empty();
    // the block's own lines
    assert(no_newline(b));
    assert(no_newline(e));
    assert(no_newline(x)) by {
        assert forall|i: int| 0 <= i < x.len() implies x[i] != '\n' by {
            let p1 = "export PATH=\""@;
            let p2 = ":$PATH\""@;
            if i < p1.len() {
                assert(x[i] == p1[i]);
            } else if i < p1.len() + managed_bin_path.len() {
                assert(x[i] == managed_bin_path[i - p1.len()]);
            } else {
                assert(x[i] == p2[i - p1.len() - managed_bin_path.len()]);
            }
        }
    }
    let block = rc_block(managed_bin_path);
    let r3 = e + nl;
    let r2 = x + nl + r3;
    let r1 = b + nl + r2;
    assert(block =~= empty + nl + r1);
    lemma_lines_cons(empty, r1);
    lemma_lines_cons(b, r2);
    lemma_lines_cons(x, r3);
    assert(r3 =~= e + nl + empty);
    lemma_lines_cons(e, empty);
    assert(lines(empty) == Seq::<Seq<char>>::empty());
    assert(strip_cr(empty) == empty);
    assert(strip_cr(b) == b);
    assert(strip_cr(e) == e);
    assert(x.last() == '"');
    assert(strip_cr(x) == x);
    assert(lines(block) =~= seq![empty, b, x, e]);
    // which of those lines are kept
    assert(trim_start(b) == b);
    assert(trim_end(b) == b);
    assert(trim_start(e) == e);
    assert(trim_end(e) == e);
    assert(x[0] == 'e');
    assert(!is_whitespace(x[0]));
    assert(trim_start(x) == x);
    assert(trim_end(x) == x);
    assert(trim(empty) =~= empty);
    assert(x != b) by {
        assert(x[0] != b[0]);
    }
    assert(x != e) by {
        assert(x[0] != e[0]);
    }
    let bl = seq![empty, b, x, e];
    assert(bl.drop_first() =~= seq![b, x, e]);
    assert(seq![b, x, e].drop_first() =~= seq![x, e]);
    assert(seq![x, e].drop_first() =~= seq![e]);
    assert(seq![e].drop_first() =~= Seq::<Seq<char>>::empty());
    assert(e != b) by {
        assert(e.len() != b.len());
    }
    assert(trim(e) == e);
    assert(trim(b) == b);
    assert(trim(x) == x);
    assert(kept_lines(Seq::<Seq<char>>::empty(), false) == Seq::<Seq<char>>::empty());
    assert(seq![e][0] == e);
    assert(kept_lines(seq![e], true) == kept_lines(seq![e].drop_first(), false));
    assert(kept_lines(seq![e], true) == Seq::<Seq<char>>::empty());
    assert(kept_lines(seq![x, e], true) == Seq::<Seq<char>>::empty());
    assert(kept_lines(seq![b, x, e], false) == Seq::<Seq<char>>::empty());
    assert(bl[0] == empty && bl.drop_first()[0] == b);
    assert(kept_lines(bl, false) == kept_lines(bl.drop_first(), false));
    assert(kept_lines(bl, false) =~= Seq::<Seq<char>>::empty());
    // the whole text
    let ls = lines(existing);
    lemma_lines_append(existing, block);
    lemma_kept_lines_unmanaged(ls, bl);
    assert(ls.len() > 0) by {
        lemma_join_lines_roundtrip(existing);
        if ls.len() == 0 {
            assert(join(ls, nl) + nl =~= nl);
        }
    }
    assert(ls + Seq::<Seq<char>>::empty() =~= ls);
    lemma_join_lines_roundtrip(existing);
}

} // verus!
