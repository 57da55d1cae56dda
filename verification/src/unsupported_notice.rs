//! The notice shown when the installed Codex is not supported: shown once
//! per compatibility key, remembered in a state file that lists the keys
//! already seen, one per line.
use vstd::prelude::*;

use crate::text::{
    char_views, chars_eq, chars_of, is_trimmed, join, lemma_lines_no_newline, lemma_lines_of_joined,
    lemma_trim_shape, lines, lines_exec, no_newline, owned, push_char, strip_cr, trim, trim_bounds,
    append_chars,
};

verus! {

/// The trimmed lines that are not empty, in order.
pub open spec fn nonempty_trimmed(ls: Seq<Seq<char>>) -> Seq<Seq<char>>
    decreases ls.len(),
{
    if ls.len() == 0 {
        seq![]
    } else {
        let rest = nonempty_trimmed(ls.drop_last());
        let t = trim(ls.last());
        if t.len() > 0 {
            rest.push(t)
        } else {
            rest
        }
    }
}

/// The keys recorded in a state file's text.
pub open spec fn notice_keys(state: Seq<char>) -> Seq<Seq<char>> {
    nonempty_trimmed(lines(state))
}

/// The state file's new text after `key` was met: `None` when the key is
/// already recorded (no notice, nothing written), else the recorded keys
/// and `key`, one per line, each line ending with `\n` (the notice is shown).
pub open spec fn notice_state_after(state: Seq<char>, key: Seq<char>) -> Option<Seq<char>> {
    let keys = notice_keys(state);
    if keys.contains(key) {
        None
    } else {
        Some(join(keys.push(key), seq!['\n']) + seq!['\n'])
    }
}

/// Decides whether the notice for `key` is shown, given the state file's
/// text (empty when there is none yet): `None` when the key was seen
/// before, else the text to write back, which records the key.
pub fn notice_state_update(state: &str, key: &str) -> (r: Option<String>)
    ensures
        match r {
            Some(next) => notice_state_after(state@, key@) == Some(next@),
            None => notice_state_after(state@, key@) is None,
        },
{
    let v = chars_of(state);
    let ls = lines_exec(&v);
    let mut keys: Vec<Vec<char>> = Vec::new();
    let mut i: usize = 0;
    while i < ls.len()
        invariant
            i <= ls.len(),
            char_views(ls@) == lines(v@),
            char_views(keys@) == nonempty_trimmed(lines(v@).subrange(0, i as int)),
        decreases ls.len() - i,
    {
        let line = &ls[i];
        let (a, b) = trim_bounds(line, 0, line.len());
        proof {
            assert(line@.subrange(0, line@.len() as int) =~= line@);
            assert(char_views(ls@)[i as int] == line@);
            let pre = lines(v@).subrange(0, i + 1);
            assert(pre.drop_last() =~= lines(v@).subrange(0, i as int));
        }
        if a < b {
            let mut t: Vec<char> = Vec::new();
            let mut k = a;
            while k < b
                invariant
                    a <= k <= b <= line@.len(),
                    t@ =~= line@.subrange(a as int, k as int),
                decreases b - k,
            {
                t.push(line[k]);
                k = k + 1;
            }
            let ghost before = char_views(keys@);
            keys.push(t);
            proof {
                assert(char_views(keys@) =~= before.push(t@));
            }
        }
        i = i + 1;
    }
    proof {
        assert(lines(v@).subrange(0, ls@.len() as int) =~= lines(v@));
    }
    let key_v = chars_of(key);
    let mut j: usize = 0;
    while j < keys.len()
        invariant
            j <= keys.len(),
            key_v@ == key@,
            char_views(keys@) == notice_keys(state@),
            forall|t: int| 0 <= t < j ==> char_views(keys@)[t] != key@,
        decreases keys.len() - j,
    {
        proof {
            assert(char_views(keys@)[j as int] == keys@[j as int]@);
        }
        if chars_eq(&keys[j], &key_v) {
            proof {
                assert(notice_keys(state@)[j as int] == key@);
            }
            return None;
        }
        j = j + 1;
    }
    let ghost ks = char_views(keys@);
    proof {
        assert(!ks.contains(key@));
    }
    let mut out = String::new();
    let mut m: usize = 0;
    while m < keys.len()
        invariant
            m <= keys.len(),
            ks == char_views(keys@),
            m == 0 ==> out@ == Seq::<char>::empty(),
            m > 0 ==> out@ == join(ks.subrange(0, m as int), seq!['\n']),
        decreases keys.len() - m,
    {
        if m > 0 {
            push_char(&mut out, '\n');
        }
        append_chars(&mut out, &keys[m]);
        proof {
            assert(ks[m as int] == keys@[m as int]@);
            let p = ks.subrange(0, m + 1);
            if m == 0 {
                assert(p =~= seq![ks[0]]);
            } else {
                assert(p.drop_last() =~= ks.subrange(0, m as int));
                assert(p.last() == ks[m as int]);
            }
        }
        m = m + 1;
    }
    proof {
        assert(ks.subrange(0, ks.len() as int) =~= ks);
    }
    if keys.len() > 0 {
        push_char(&mut out, '\n');
    }
    append_chars(&mut out, &key_v);
    push_char(&mut out, '\n');
    proof {
        let all = ks.push(key@);
        if ks.len() == 0 {
            assert(all =~= seq![key@]);
        } else {
            assert(all.drop_last() =~= ks);
        }
        assert(out@ =~= join(all, seq!['\n']) + seq!['\n']);
    }
    Some(out)
}

/// Every key recorded is a trimmed text without `\n`.
proof fn lemma_nonempty_trimmed_items(ls: Seq<Seq<char>>)
    requires
        forall|i: int| 0 <= i < ls.len() ==> no_newline(#[trigger] ls[i]),
    ensures
        forall|i: int|
            0 <= i < nonempty_trimmed(ls).len() ==> is_trimmed(#[trigger] nonempty_trimmed(ls)[i])
                && no_newline(nonempty_trimmed(ls)[i]),
    decreases ls.len(),
{
    if ls.len() > 0 {
        let rest = nonempty_trimmed(ls.drop_last());
        assert forall|i: int| 0 <= i < ls.drop_last().len() implies no_newline(
            #[trigger] ls.drop_last()[i],
        ) by {
            assert(ls.drop_last()[i] == ls[i]);
        }
        lemma_nonempty_trimmed_items(ls.drop_last());
        lemma_trim_shape(ls.last());
        assert(no_newline(ls[ls.len() - 1]));
        let out = nonempty_trimmed(ls);
        assert forall|i: int| 0 <= i < out.len() implies is_trimmed(#[trigger] out[i])
            && no_newline(out[i]) by {
            if i < rest.len() {
                assert(out[i] == rest[i]);
            }
        }
    }
}

/// Lines that are all trimmed are kept as they are.
proof fn lemma_nonempty_trimmed_keeps(ls: Seq<Seq<char>>)
    requires
        forall|i: int| 0 <= i < ls.len() ==> is_trimmed(#[trigger] ls[i]),
    ensures
        nonempty_trimmed(ls) == ls,
    decreases ls.len(),
{
    if ls.len() > 0 {
        lemma_nonempty_trimmed_keeps(ls.drop_last());
        lemma_trim_shape(ls.last());
        assert(is_trimmed(ls[ls.len() - 1]));
        assert(ls.drop_last().push(ls.last()) =~= ls);
    }
}

/// The notice is shown once per key: when it is shown for a key (a trimmed,
/// non-empty key on one line), the new state records the keys seen before
/// and that key, and with that state the notice is not shown again for it.
pub proof fn lemma_notice_shown_once(state: Seq<char>, key: Seq<char>)
    requires
        key.len() > 0,
        trim(key) == key,
        no_newline(key),
    ensures
        notice_state_after(state, key) is None ==> notice_keys(state).contains(key),
        notice_state_after(state, key) matches Some(next) ==> notice_keys(next) == notice_keys(
            state,
        ).push(key) && notice_state_after(next, key) is None,
{
    if let Some(next) = notice_state_after(state, key) {
        let ks = notice_keys(state);
        let all = ks.push(key);
        lemma_lines_no_newline(state);
        lemma_nonempty_trimmed_items(lines(state));
        lemma_trim_shape(key);
        assert forall|i: int| 0 <= i < all.len() implies is_trimmed(#[trigger] all[i]) && no_newline(
            all[i],
        ) by {
            if i < ks.len() {
                assert(all[i] == ks[i]);
            }
        }
        lemma_lines_of_joined(all);
        assert(all.map_values(|l: Seq<char>| strip_cr(l)) =~= all);
        lemma_nonempty_trimmed_keeps(all);
        assert(all[all.len() - 1] == key);
    }
}

/// Every non-empty trimmed line is among the kept keys, and every kept key
/// is a trimmed line.
proof fn lemma_nonempty_trimmed_members(ls: Seq<Seq<char>>)
    ensures
        forall|i: int|
            0 <= i < ls.len() && trim(ls[i]).len() > 0 ==> nonempty_trimmed(ls).contains(
                #[trigger] trim(ls[i]),
            ),
        forall|j: int|
            0 <= j < nonempty_trimmed(ls).len() ==> exists|i: int|
                0 <= i < ls.len() && #[trigger] nonempty_trimmed(ls)[j] == trim(ls[i]),
    decreases ls.len(),
{
    if ls.len() > 0 {
        let init = ls.drop_last();
        lemma_nonempty_trimmed_members(init);
        let rest = nonempty_trimmed(init);
        let out = nonempty_trimmed(ls);
        assert forall|i: int| 0 <= i < ls.len() && trim(ls[i]).len() > 0 implies out.contains(
            #[trigger] trim(ls[i]),
        ) by {
            if i < ls.len() - 1 {
                assert(init[i] == ls[i]);
                assert(rest.contains(trim(init[i])));
                let k = choose|k: int| 0 <= k < rest.len() && rest[k] == trim(init[i]);
                assert(out[k] == rest[k]);
            } else {
                assert(out[out.len() - 1] == trim(ls.last()));
            }
        }
        assert forall|j: int| 0 <= j < out.len() implies exists|i: int|
            0 <= i < ls.len() && #[trigger] out[j] == trim(ls[i]) by {
            if j < rest.len() {
                assert(out[j] == rest[j]);
                let i = choose|i: int| 0 <= i < init.len() && rest[j] == trim(init[i]);
                assert(init[i] == ls[i]);
            } else {
                assert(out[j] == trim(ls[ls.len() - 1]));
            }
        }
    }
}

/// A key already recorded on any line of the state (that line trimmed
/// being the key) is not shown again and nothing is written; a key on no
/// line is shown and written, the new text ending with the key on a line
/// of its own.
pub proof fn lemma_notice_once_over_lines(state: Seq<char>, key: Seq<char>)
    requires
        key.len() > 0,
    ensures
        (exists|i: int| 0 <= i < lines(state).len() && #[trigger] trim(lines(state)[i]) == key)
            ==> notice_state_after(state, key) is None,
        (forall|i: int| 0 <= i < lines(state).len() ==> #[trigger] trim(lines(state)[i]) != key)
            ==> notice_state_after(state, key) is Some,
        notice_state_after(state, key) matches Some(next) ==> next.len() > key.len() && next.subrange(
            next.len() - key.len() - 1,
            next.len() as int,
        ) == key + seq!['\n'],
{
    if let Some(next) = notice_state_after(state, key) {
        let ks = notice_keys(state);
        let nl = seq!['\n'];
        if ks.len() == 0 {
            assert(ks.push(key) =~= seq![key]);
            assert(join(ks.push(key), nl) == key);
        } else {
            crate::text::lemma_join_push(ks, key, nl);
        }
        assert(next.subrange(next.len() - key.len() - 1, next.len() as int) =~= key + nl);
    }
    let ls = lines(state);
    lemma_nonempty_trimmed_members(ls);
    if exists|i: int| 0 <= i < ls.len() && #[trigger] trim(ls[i]) == key {
        let i = choose|i: int| 0 <= i < ls.len() && #[trigger] trim(ls[i]) == key;
        assert(notice_keys(state).contains(trim(ls[i])));
    }
    if forall|i: int| 0 <= i < ls.len() ==> #[trigger] trim(ls[i]) != key {
        let ks = notice_keys(state);
        if ks.contains(key) {
            let j = choose|j: int| 0 <= j < ks.len() && ks[j] == key;
            let i = choose|i: int| 0 <= i < ls.len() && #[trigger] ks[j] == trim(ls[i]);
            assert(trim(ls[i]) == key);
        }
    }
}

/// The notice for an unsupported compatibility key, pointing at the
/// command that checks support.
pub fn build_unsupported_notice_message(key: &str) -> (r: String)
    ensures
        r@ == "codex-hud is not yet compatible with "@ + key@
            + ". Run `codex-hud status details` to check compatibility support."@,
{
    let mut out = owned("codex-hud is not yet compatible with ");
    out.append(key);
    out.append(". Run `codex-hud status details` to check compatibility support.");
    out
}

/// The notice cannot be asked for again by hand: it is shown once per key.
pub fn manual_unsupported_notice_reshow_available() -> (r: bool)
    ensures
        !r,
{
    false
}

} // verus!
