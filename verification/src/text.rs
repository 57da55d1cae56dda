//! Character-level text model shared by the rest of the crate.
//!
//! Strings are reasoned about through their `Seq<char>` views. The spec
//! functions here state, over those views, what the std string operations
//! that the library relies on do (whitespace trimming, `lines`, substring
//! search, ASCII case folding), and the executable functions compute them.
use vstd::prelude::*;

verus! {

// ---------------------------------------------------------------------------
// Specifications
// ---------------------------------------------------------------------------

/// The characters for which `char::is_whitespace` holds (Unicode `White_Space`).
pub open spec fn is_whitespace(c: char) -> bool {
    let v = c as u32;
    ||| 0x09 <= v <= 0x0D
    ||| v == 0x20
    ||| v == 0x85
    ||| v == 0xA0
    ||| v == 0x1680
    ||| 0x2000 <= v <= 0x200A
    ||| v == 0x2028
    ||| v == 0x2029
    ||| v == 0x202F
    ||| v == 0x205F
    ||| v == 0x3000
}

/// `str::trim_start`: drops leading whitespace.
pub open spec fn trim_start(s: Seq<char>) -> Seq<char>
    decreases s.len(),
{
    if s.len() > 0 && is_whitespace(s[0]) {
        trim_start(s.drop_first())
    } else {
        s
    }
}

/// `str::trim_end`: drops trailing whitespace.
pub open spec fn trim_end(s: Seq<char>) -> Seq<char>
    decreases s.len(),
{
    if s.len() > 0 && is_whitespace(s.last()) {
        trim_end(s.drop_last())
    } else {
        s
    }
}

/// `str::trim`: drops leading and trailing whitespace.
pub open spec fn trim(s: Seq<char>) -> Seq<char> {
    trim_end(trim_start(s))
}

/// `str::trim_start_matches(c)` for a single character `c`.
pub open spec fn trim_start_char(s: Seq<char>, c: char) -> Seq<char>
    decreases s.len(),
{
    if s.len() > 0 && s[0] == c {
        trim_start_char(s.drop_first(), c)
    } else {
        s
    }
}

/// `str::trim_end_matches(c)` for a single character `c`.
pub open spec fn trim_end_char(s: Seq<char>, c: char) -> Seq<char>
    decreases s.len(),
{
    if s.len() > 0 && s.last() == c {
        trim_end_char(s.drop_last(), c)
    } else {
        s
    }
}

/// `needle` occurs in `hay` starting at position `i`.
pub open spec fn matches_at<T>(hay: Seq<T>, needle: Seq<T>, i: int) -> bool {
    0 <= i && i + needle.len() <= hay.len() && hay.subrange(i, i + needle.len()) == needle
}

/// The first position at or after `i` where `needle` occurs in `hay`.
pub open spec fn find_from<T>(hay: Seq<T>, needle: Seq<T>, i: int) -> Option<int>
    decreases hay.len() + 1 - i,
{
    if i < 0 || i + needle.len() > hay.len() {
        None
    } else if matches_at(hay, needle, i) {
        Some(i)
    } else {
        find_from(hay, needle, i + 1)
    }
}

/// `str::find`: the first position where `needle` occurs in `hay`.
pub open spec fn find<T>(hay: Seq<T>, needle: Seq<T>) -> Option<int> {
    find_from(hay, needle, 0)
}

/// `str::contains`: `needle` occurs somewhere in `hay`.
pub open spec fn contains<T>(hay: Seq<T>, needle: Seq<T>) -> bool {
    exists|i: int| matches_at(hay, needle, i)
}

/// `str::starts_with`.
pub open spec fn starts_with<T>(s: Seq<T>, prefix: Seq<T>) -> bool {
    matches_at(s, prefix, 0)
}

/// `str::replacen(pat, rep, 1)`: the first occurrence of `pat` replaced by `rep`.
pub open spec fn replace_first(s: Seq<char>, pat: Seq<char>, rep: Seq<char>) -> Seq<char> {
    match find(s, pat) {
        Some(i) => s.subrange(0, i) + rep + s.subrange(i + pat.len(), s.len() as int),
        None => s,
    }
}

/// The line content of one `\n`-terminated piece: a trailing `\r` is dropped.
pub open spec fn strip_cr(line: Seq<char>) -> Seq<char> {
    if line.len() > 0 && line.last() == '\r' {
        line.drop_last()
    } else {
        line
    }
}

/// `str::lines`: the text split at `\n`, each `\n`-terminated line losing
/// one trailing `\r`; the final line ending is optional and an empty text
/// has no lines.
pub open spec fn lines(s: Seq<char>) -> Seq<Seq<char>>
    decreases s.len(),
{
    if s.len() == 0 {
        seq![]
    } else {
        match find(s, seq!['\n']) {
            Some(i) => {
                proof {
                    lemma_find_from(s, seq!['\n'], 0);
                }
                seq![strip_cr(s.subrange(0, i))] + lines(s.subrange(i + 1, s.len() as int))
            },
            None => seq![s],
        }
    }
}

/// `char::to_ascii_lowercase`.
pub open spec fn ascii_lower_char(c: char) -> char {
    if 'A' <= c && c <= 'Z' {
        ((c as u8) + 32) as u8 as char
    } else {
        c
    }
}

/// `str::to_ascii_lowercase`.
pub open spec fn ascii_lower(s: Seq<char>) -> Seq<char> {
    s.map_values(|c: char| ascii_lower_char(c))
}

/// `str::eq_ignore_ascii_case`.
pub open spec fn eq_ignore_ascii_case(a: Seq<char>, b: Seq<char>) -> bool {
    ascii_lower(a) == ascii_lower(b)
}

/// The views of a sequence of strings.
pub open spec fn views(v: Seq<String>) -> Seq<Seq<char>> {
    v.map_values(|s: String| s@)
}

/// `v.join(sep)` over character sequences.
pub open spec fn join(v: Seq<Seq<char>>, sep: Seq<char>) -> Seq<char>
    decreases v.len(),
{
    if v.len() == 0 {
        seq![]
    } else if v.len() == 1 {
        v[0]
    } else {
        join(v.drop_last(), sep) + sep + v.last()
    }
}

// ---------------------------------------------------------------------------
// Lemmas
// ---------------------------------------------------------------------------

/// What `find_from` returns: the least matching position at or after `i`.
pub proof fn lemma_find_from(hay: Seq<char>, needle: Seq<char>, i: int)
    requires
        0 <= i,
    ensures
        match find_from(hay, needle, i) {
            Some(k) => i <= k && matches_at(hay, needle, k) && forall|j: int|
                i <= j < k ==> !matches_at(hay, needle, j),
            None => forall|j: int| i <= j ==> !matches_at(hay, needle, j),
        },
    decreases hay.len() + 1 - i,
{
    if i + needle.len() > hay.len() {
    } else if matches_at(hay, needle, i) {
    } else {
        lemma_find_from(hay, needle, i + 1);
    }
}

/// `find` is `Some` exactly when the needle occurs.
pub proof fn lemma_find_contains(hay: Seq<char>, needle: Seq<char>)
    ensures
        find(hay, needle) is Some <==> contains(hay, needle),
        match find(hay, needle) {
            Some(k) => matches_at(hay, needle, k) && forall|j: int|
                0 <= j < k ==> !matches_at(hay, needle, j),
            None => forall|j: int| !matches_at(hay, needle, j),
        },
{
    lemma_find_from(hay, needle, 0);
}

/// Trimming leading whitespace may skip any whitespace prefix first.
pub proof fn lemma_trim_start_skip(s: Seq<char>, i: int)
    requires
        0 <= i <= s.len(),
        forall|j: int| 0 <= j < i ==> is_whitespace(s[j]),
    ensures
        trim_start(s) == trim_start(s.subrange(i, s.len() as int)),
    decreases i,
{
    if i > 0 {
        assert(s.drop_first().subrange(i - 1, s.drop_first().len() as int) =~= s.subrange(
            i,
            s.len() as int,
        ));
        lemma_trim_start_skip(s.drop_first(), i - 1);
    } else {
        assert(s.subrange(0, s.len() as int) =~= s);
    }
}

/// Trimming trailing whitespace may skip any whitespace suffix first.
pub proof fn lemma_trim_end_skip(s: Seq<char>, k: int)
    requires
        0 <= k <= s.len(),
        forall|j: int| k <= j < s.len() ==> is_whitespace(s[j]),
    ensures
        trim_end(s) == trim_end(s.subrange(0, k)),
    decreases s.len() - k,
{
    if k < s.len() {
        assert(s.drop_last().subrange(0, k) =~= s.subrange(0, k));
        lemma_trim_end_skip(s.drop_last(), k);
    } else {
        assert(s.subrange(0, k) =~= s);
    }
}

/// For a one-character needle, `find` is the first position holding that character.
pub proof fn lemma_find_char(s: Seq<char>, c: char, m: int)
    requires
        0 <= m <= s.len(),
        forall|t: int| 0 <= t < m ==> s[t] != c,
        m == s.len() || s[m] == c,
    ensures
        find(s, seq![c]) == (if m < s.len() {
            Some(m)
        } else {
            None::<int>
        }),
{
    lemma_find_contains(s, seq![c]);
    assert forall|t: int| matches_at(s, seq![c], t) <==> (0 <= t < s.len() && s[t] == c) by {
        if 0 <= t < s.len() {
            if s[t] == c {
                assert(s.subrange(t, t + 1) =~= seq![c]);
            } else {
                assert(s.subrange(t, t + 1)[0] != c);
            }
        }
    }
    if m < s.len() {
        assert(matches_at(s, seq![c], m));
    }
    match find(s, seq![c]) {
        Some(k) => {
            assert(matches_at(s, seq![c], k));
            assert(s[k] == c);
            assert(k >= m);
            if m < s.len() {
                assert(!(m < k));
            }
        },
        None => {},
    }
}

/// The views of a sequence of character vectors.
pub open spec fn char_views(v: Seq<Vec<char>>) -> Seq<Seq<char>> {
    v.map_values(|x: Vec<char>| x@)
}

/// `join` split at its first element.
pub proof fn lemma_join_front(a: Seq<char>, rest: Seq<Seq<char>>, sep: Seq<char>)
    requires
        rest.len() >= 1,
    ensures
        join(seq![a] + rest, sep) == a + sep + join(rest, sep),
    decreases rest.len(),
{
    let all = seq![a] + rest;
    if rest.len() == 1 {
        assert(all.drop_last() =~= seq![a]);
        assert(all.last() == rest[0]);
        assert(join(all, sep) == join(all.drop_last(), sep) + sep + all.last());
        assert(join(seq![a], sep) == a);
        assert(join(rest, sep) == rest[0]);
    } else {
        assert(all.drop_last() =~= seq![a] + rest.drop_last());
        lemma_join_front(a, rest.drop_last(), sep);
        assert(all.last() == rest.last());
        assert(join(all, sep) == join(all.drop_last(), sep) + sep + all.last());
        assert(join(rest, sep) == join(rest.drop_last(), sep) + sep + rest.last());
        assert(join(all, sep) =~= a + sep + join(rest, sep));
    }
}

/// `join` of a sequence extended by one element.
pub proof fn lemma_join_push(ls: Seq<Seq<char>>, l: Seq<char>, sep: Seq<char>)
    requires
        ls.len() >= 1,
    ensures
        join(ls.push(l), sep) == join(ls, sep) + sep + l,
{
    assert(ls.push(l).drop_last() =~= ls);
}

/// No line of a text holds a `\n`.
pub open spec fn no_newline(s: Seq<char>) -> bool {
    forall|i: int| 0 <= i < s.len() ==> s[i] != '\n'
}

/// No character of a text is a `\r`.
pub open spec fn no_cr(s: Seq<char>) -> bool {
    forall|i: int| 0 <= i < s.len() ==> s[i] != '\r'
}

/// A text that starts with a line `a` (without `\n`) followed by `\n`.
pub proof fn lemma_lines_cons(a: Seq<char>, t: Seq<char>)
    requires
        no_newline(a),
    ensures
        lines(a + seq!['\n'] + t) == seq![strip_cr(a)] + lines(t),
{
    let s = a + seq!['\n'] + t;
    lemma_find_char(s, '\n', a.len() as int);
    assert(s.subrange(0, a.len() as int) =~= a);
    assert(s.subrange((a.len() + 1) as int, s.len() as int) =~= t);
}

/// The lines of a text are free of `\n`.
pub proof fn lemma_lines_no_newline(s: Seq<char>)
    ensures
        forall|i: int| 0 <= i < lines(s).len() ==> no_newline(#[trigger] lines(s)[i]),
    decreases s.len(),
{
    if s.len() > 0 {
        lemma_find_contains(s, seq!['\n']);
        match find(s, seq!['\n']) {
            Some(k) => {
                let first = s.subrange(0, k);
                assert forall|j: int| 0 <= j < first.len() implies first[j] != '\n' by {
                    if s[j] == '\n' {
                        assert(s.subrange(j, j + 1) =~= seq!['\n']);
                        assert(matches_at(s, seq!['\n'], j));
                    }
                }
                let rest = s.subrange(k + 1, s.len() as int);
                lemma_lines_no_newline(rest);
                assert(lines(s) == seq![strip_cr(first)] + lines(rest));
                assert forall|i: int| 0 <= i < lines(s).len() implies no_newline(
                    #[trigger] lines(s)[i],
                ) by {
                    if i > 0 {
                        assert(lines(s)[i] == lines(rest)[i - 1]);
                    } else {
                        assert(lines(s)[0] == strip_cr(first));
                    }
                }
            },
            None => {
                assert forall|j: int| 0 <= j < s.len() implies s[j] != '\n' by {
                    if s[j] == '\n' {
                        assert(s.subrange(j, j + 1) =~= seq!['\n']);
                        assert(matches_at(s, seq!['\n'], j));
                    }
                }
            },
        }
    }
}

/// Joining `\n`-free lines with `\n` and ending with `\n` gives back the
/// lines (each losing a trailing `\r`); no lines give one empty line.
pub proof fn lemma_lines_of_joined(ls: Seq<Seq<char>>)
    requires
        forall|i: int| 0 <= i < ls.len() ==> no_newline(#[trigger] ls[i]),
    ensures
        lines(join(ls, seq!['\n']) + seq!['\n']) == (if ls.len() == 0 {
            seq![Seq::<char>::empty()]
        } else {
            ls.map_values(|l: Seq<char>| strip_cr(l))
        }),
    decreases ls.len(),
{
    let nl = seq!['\n'];
    if ls.len() == 0 {
        lemma_lines_cons(Seq::<char>::empty(), Seq::<char>::empty());
        assert(Seq::<char>::empty() + nl + Seq::<char>::empty() =~= join(ls, nl) + nl);
        assert(strip_cr(Seq::<char>::empty()) == Seq::<char>::empty());
        assert(lines(Seq::<char>::empty()) == Seq::<Seq<char>>::empty());
        assert(seq![Seq::<char>::empty()] + Seq::<Seq<char>>::empty() =~= seq![
            Seq::<char>::empty(),
        ]);
    } else if ls.len() == 1 {
        assert(no_newline(ls[0]));
        lemma_lines_cons(ls[0], Seq::<char>::empty());
        assert(ls[0] + nl + Seq::<char>::empty() =~= join(ls, nl) + nl);
        assert(lines(Seq::<char>::empty()) == Seq::<Seq<char>>::empty());
        assert(seq![strip_cr(ls[0])] + Seq::<Seq<char>>::empty() =~= ls.map_values(
            |l: Seq<char>| strip_cr(l),
        ));
    } else {
        let rest = ls.drop_first();
        assert(ls =~= seq![ls[0]] + rest);
        lemma_join_front(ls[0], rest, nl);
        assert(no_newline(ls[0]));
        lemma_lines_of_joined(rest);
        let t = join(rest, nl) + nl;
        assert(join(ls, nl) + nl =~= ls[0] + nl + t);
        lemma_lines_cons(ls[0], t);
        assert(seq![strip_cr(ls[0])] + rest.map_values(|l: Seq<char>| strip_cr(l))
            =~= ls.map_values(|l: Seq<char>| strip_cr(l)));
    }
}

/// For a text made of complete `\n`-terminated lines without `\r`, joining
/// its lines back with `\n` and a final `\n` gives the text itself.
pub proof fn lemma_join_lines_roundtrip(s: Seq<char>)
    requires
        s.len() > 0,
        s.last() == '\n',
        no_cr(s),
    ensures
        join(lines(s), seq!['\n']) + seq!['\n'] == s,
    decreases s.len(),
{
    let nl = seq!['\n'];
    lemma_find_contains(s, nl);
    assert(matches_at(s, nl, s.len() - 1)) by {
        assert(s.subrange(s.len() - 1, s.len() as int) =~= nl);
    }
    let k = find(s, nl)->0;
    let a = s.subrange(0, k);
    let t = s.subrange(k + 1, s.len() as int);
    assert forall|j: int| 0 <= j < a.len() implies a[j] != '\n' by {
        if s[j] == '\n' {
            assert(s.subrange(j, j + 1) =~= nl);
            assert(matches_at(s, nl, j));
        }
    }
    assert(s.subrange(k, k + 1) == nl);
    assert(s[k] == '\n') by {
        assert(s.subrange(k, k + 1)[0] == s[k]);
    }
    assert(s =~= a + nl + t);
    lemma_lines_cons(a, t);
    assert(strip_cr(a) == a) by {
        if a.len() > 0 {
            assert(a.last() == s[k - 1]);
        }
    }
    if t.len() == 0 {
        assert(lines(t) == Seq::<Seq<char>>::empty());
        assert(lines(s) =~= seq![a]);
    } else {
        assert(t.last() == s.last());
        lemma_join_lines_roundtrip(t);
        assert(lines(t).len() > 0);
        lemma_join_front(a, lines(t), nl);
    }
}

/// The lines of a concatenation whose first part ends a line.
pub proof fn lemma_lines_append(a: Seq<char>, b: Seq<char>)
    requires
        a.len() == 0 || a.last() == '\n',
    ensures
        lines(a + b) == lines(a) + lines(b),
    decreases a.len(),
{
    let nl = seq!['\n'];
    if a.len() == 0 {
        assert(a + b =~= b);
        assert(lines(a) == Seq::<Seq<char>>::empty());
        assert(lines(a) + lines(b) =~= lines(b));
    } else {
        lemma_find_contains(a, nl);
        assert(matches_at(a, nl, a.len() - 1)) by {
            assert(a.subrange(a.len() - 1, a.len() as int) =~= nl);
        }
        let k = find(a, nl)->0;
        let p = a.subrange(0, k);
        let t = a.subrange(k + 1, a.len() as int);
        assert forall|j: int| 0 <= j < p.len() implies p[j] != '\n' by {
            if a[j] == '\n' {
                assert(a.subrange(j, j + 1) =~= nl);
                assert(matches_at(a, nl, j));
            }
        }
        assert(a.subrange(k, k + 1) == nl);
        assert(a[k] == '\n') by {
            assert(a.subrange(k, k + 1)[0] == a[k]);
        }
        assert(a =~= p + nl + t);
        lemma_lines_cons(p, t);
        assert(a + b =~= p + nl + (t + b));
        lemma_lines_cons(p, t + b);
        if t.len() > 0 {
            assert(t.last() == a.last());
        }
        lemma_lines_append(t, b);
        assert(seq![strip_cr(p)] + (lines(t) + lines(b)) =~= (seq![strip_cr(p)] + lines(t))
            + lines(b));
    }
}

/// Trimming leading whitespace of a text extended by one character.
pub proof fn lemma_trim_start_push(s: Seq<char>, c: char)
    ensures
        trim_start(s.push(c)) == (if trim_start(s).len() == 0 {
            trim_start(seq![c])
        } else {
            trim_start(s).push(c)
        }),
    decreases s.len(),
{
    if s.len() == 0 {
        assert(s.push(c) =~= seq![c]);
    } else if is_whitespace(s[0]) {
        assert(s.push(c).drop_first() =~= s.drop_first().push(c));
        lemma_trim_start_push(s.drop_first(), c);
    } else {
    }
}

/// `trim_start` keeps a suffix that is empty or starts with a
/// non-whitespace character.
pub proof fn lemma_trim_start_shorter(s: Seq<char>)
    ensures
        trim_start(s).len() <= s.len(),
        trim_start(s).len() > 0 ==> !is_whitespace(trim_start(s)[0]),
        trim_start(s) == s.subrange(s.len() - trim_start(s).len(), s.len() as int),
    decreases s.len(),
{
    if s.len() > 0 && is_whitespace(s[0]) {
        lemma_trim_start_shorter(s.drop_first());
        assert(s.drop_first().subrange(
            s.drop_first().len() - trim_start(s).len(),
            s.drop_first().len() as int,
        ) =~= s.subrange(s.len() - trim_start(s).len(), s.len() as int));
    } else {
        assert(s.subrange(0, s.len() as int) =~= s);
    }
}

/// `trim_end` keeps a prefix that is empty or ends with a non-whitespace
/// character.
pub proof fn lemma_trim_end_prefix(s: Seq<char>)
    ensures
        trim_end(s).len() <= s.len(),
        trim_end(s) == s.subrange(0, trim_end(s).len() as int),
        trim_end(s).len() > 0 ==> !is_whitespace(trim_end(s).last()),
    decreases s.len(),
{
    if s.len() > 0 && is_whitespace(s.last()) {
        lemma_trim_end_prefix(s.drop_last());
        let n = trim_end(s).len() as int;
        assert(s.drop_last().subrange(0, n) =~= s.subrange(0, n));
    } else {
        assert(s.subrange(0, s.len() as int) =~= s);
    }
}

/// A text that is not empty and neither starts nor ends with whitespace.
pub open spec fn is_trimmed(x: Seq<char>) -> bool {
    x.len() > 0 && !is_whitespace(x[0]) && !is_whitespace(x.last())
}

/// `trim` keeps a middle part of the text, which is either empty or
/// trimmed; a trimmed text is its own `trim`.
pub proof fn lemma_trim_shape(s: Seq<char>)
    ensures
        trim(s).len() > 0 ==> is_trimmed(trim(s)),
        is_trimmed(s) ==> trim(s) == s,
        no_newline(s) ==> no_newline(trim(s)),
{
    let u = trim_start(s);
    lemma_trim_start_shorter(s);
    lemma_trim_end_prefix(u);
    let t = trim_end(u);
    if t.len() > 0 {
        assert(t[0] == u[0]);
    }
    if no_newline(s) {
        assert forall|i: int| 0 <= i < t.len() implies t[i] != '\n' by {
            assert(t[i] == u[i]);
            assert(u[i] == s[s.len() - u.len() + i]);
        }
    }
}

/// A text without line breaks (`\n` or `\r`).
pub open spec fn clean(s: Seq<char>) -> bool {
    no_newline(s) && no_cr(s)
}

/// Texts without line breaks stay so when joined end to end.
pub proof fn lemma_clean_concat(a: Seq<char>, b: Seq<char>)
    requires
        clean(a),
        clean(b),
    ensures
        clean(a + b),
{
    assert forall|i: int| 0 <= i < (a + b).len() implies (a + b)[i] != '\n' && (a + b)[i]
        != '\r' by {
        if i < a.len() {
            assert((a + b)[i] == a[i]);
        } else {
            assert((a + b)[i] == b[i - a.len()]);
        }
    }
}

/// Joining lines without line breaks with `\n` (no final `\n`) and
/// splitting the result into lines gives the lines back, when the last one
/// is not empty.
pub proof fn lemma_lines_of_clean_join(ls: Seq<Seq<char>>)
    requires
        ls.len() > 0,
        forall|i: int| 0 <= i < ls.len() ==> clean(#[trigger] ls[i]),
        ls.last().len() > 0,
    ensures
        lines(join(ls, seq!['\n'])) == ls,
    decreases ls.len(),
{
    let nl = seq!['\n'];
    let a = ls[0];
    assert(clean(a));
    if ls.len() == 1 {
        lemma_find_contains(a, nl);
        if contains(a, nl) {
            let k = choose|k: int| matches_at(a, nl, k);
            assert(a.subrange(k, k + 1)[0] == a[k]);
        }
        assert(lines(a) =~= seq![a]);
        assert(ls =~= seq![a]);
    } else {
        let rest = ls.drop_first();
        assert(seq![a] + rest =~= ls);
        assert forall|i: int| 0 <= i < rest.len() implies clean(#[trigger] rest[i]) by {
            assert(rest[i] == ls[i + 1]);
        }
        lemma_lines_of_clean_join(rest);
        lemma_join_front(a, rest, nl);
        lemma_lines_cons(a, join(rest, nl));
        if a.len() > 0 {
            assert(a.last() == a[a.len() - 1]);
        }
        assert(strip_cr(a) == a);
        assert(seq![a] + rest =~= ls);
    }
}

/// Trimming ignores a trailing `\r`.
pub proof fn lemma_trim_strip_cr(l: Seq<char>)
    ensures
        trim(strip_cr(l)) == trim(l),
{
    if l.len() > 0 && l.last() == '\r' {
        let x = l.drop_last();
        assert(l =~= x.push('\r'));
        lemma_trim_start_push(x, '\r');
        if trim_start(x).len() == 0 {
            assert(trim_start(seq!['\r']) == trim_start(seq!['\r'].drop_first()));
            assert(seq!['\r'].drop_first() =~= Seq::<char>::empty());
        } else {
            assert(trim_start(x).push('\r').drop_last() =~= trim_start(x));
        }
    }
}

/// An occurrence inside a middle part is an occurrence in the whole.
pub proof fn lemma_contains_middle<T>(a: Seq<T>, x: Seq<T>, b: Seq<T>, needle: Seq<T>)
    requires
        contains(x, needle),
    ensures
        contains(a + x + b, needle),
{
    let i = choose|i: int| matches_at(x, needle, i);
    let s = a + x + b;
    assert(s.subrange(a.len() + i, a.len() + i + needle.len()) =~= x.subrange(
        i,
        i + needle.len(),
    ));
    assert(matches_at(s, needle, a.len() + i));
}

/// Occurrence is transitive: an occurrence of `x` brings along whatever
/// occurs in `x`.
pub proof fn lemma_contains_transitive<T>(s: Seq<T>, x: Seq<T>, needle: Seq<T>)
    requires
        contains(s, x),
        contains(x, needle),
    ensures
        contains(s, needle),
{
    let i = choose|i: int| matches_at(s, x, i);
    let j = choose|j: int| matches_at(x, needle, j);
    assert(s.subrange(i + j, i + j + needle.len()) =~= x.subrange(j, j + needle.len()));
    assert(matches_at(s, needle, i + j));
}

// ---------------------------------------------------------------------------
// Executable helpers
// ---------------------------------------------------------------------------

/// `String::push`: appends one character to the end of the string.
#[verifier::external_body]
pub(crate) fn push_char(s: &mut String, c: char)
    ensures
        final(s)@ == old(s)@.push(c),
{
    s.push(c);
}

/// The characters of a string slice.
pub fn chars_of(s: &str) -> (v: Vec<char>)
    ensures
        v@ == s@,
{
    let mut v: Vec<char> = Vec::new();
    for c in it: s.chars()
        invariant
            v@ == it.seq().take(it.index() as int),
            it.seq() == s@,
    {
        v.push(c);
    }
    v
}

/// The string made of the characters `v[from..to]`.
pub fn string_of_range(v: &Vec<char>, from: usize, to: usize) -> (s: String)
    requires
        from <= to <= v.len(),
    ensures
        s@ == v@.subrange(from as int, to as int),
{
    let mut s = String::new();
    let mut i = from;
    while i < to
        invariant
            from <= i <= to <= v.len(),
            s@ == v@.subrange(from as int, i as int),
        decreases to - i,
    {
        push_char(&mut s, v[i]);
        i = i + 1;
        assert(s@ =~= v@.subrange(from as int, i as int));
    }
    s
}

/// The string made of all the characters of `v`.
pub fn string_of(v: &Vec<char>) -> (s: String)
    ensures
        s@ == v@,
{
    let s = string_of_range(v, 0, v.len());
    assert(v@.subrange(0, v@.len() as int) =~= v@);
    s
}

/// A copy of a string slice as an owned `String`.
pub fn owned(s: &str) -> (r: String)
    ensures
        r@ == s@,
{
    s.to_owned()
}

/// Appends the characters of `v` to `s`.
pub fn append_chars(s: &mut String, v: &Vec<char>)
    ensures
        final(s)@ == old(s)@ + v@,
{
    let ghost start = s@;
    let mut i: usize = 0;
    while i < v.len()
        invariant
            i <= v.len(),
            s@ == start + v@.subrange(0, i as int),
        decreases v.len() - i,
    {
        push_char(s, v[i]);
        i = i + 1;
        assert(s@ =~= start + v@.subrange(0, i as int));
    }
    assert(v@.subrange(0, v@.len() as int) =~= v@);
}

/// Whether `needle` occurs in `hay` at position `i`.
pub fn matches_at_exec(hay: &Vec<char>, needle: &Vec<char>, i: usize) -> (r: bool)
    ensures
        r == matches_at(hay@, needle@, i as int),
{
    if i > hay.len() || needle.len() > hay.len() - i {
        return false;
    }
    let mut k: usize = 0;
    while k < needle.len()
        invariant
            i + needle.len() <= hay.len(),
            k <= needle.len(),
            forall|j: int| 0 <= j < k ==> hay@[i + j] == needle@[j],
        decreases needle.len() - k,
    {
        if hay[i + k] != needle[k] {
            assert(hay@.subrange(i as int, i + needle.len())[k as int] != needle@[k as int]);
            return false;
        }
        k = k + 1;
    }
    assert(hay@.subrange(i as int, i + needle.len()) =~= needle@);
    true
}

/// The first position at or after `from` where `needle` occurs in `hay`.
pub fn find_from_exec(hay: &Vec<char>, needle: &Vec<char>, from: usize) -> (r: Option<usize>)
    ensures
        r == (match find_from(hay@, needle@, from as int) {
            Some(k) => Some(k as usize),
            None => None::<usize>,
        }),
{
    if from > hay.len() || needle.len() > hay.len() - from {
        return None;
    }
    if needle.len() == 0 {
        assert(hay@.subrange(from as int, from as int) =~= needle@);
        return Some(from);
    }
    let last = hay.len() - needle.len();
    let mut i = from;
    while i <= last
        invariant
            from <= i,
            last == hay.len() - needle.len(),
            0 < needle.len() <= hay.len(),
            i <= last + 1,
            find_from(hay@, needle@, from as int) == find_from(hay@, needle@, i as int),
        decreases last + 1 - i,
    {
        if matches_at_exec(hay, needle, i) {
            return Some(i);
        }
        i = i + 1;
    }
    None
}

/// The first position where `needle` occurs in `hay`.
pub fn find_exec(hay: &Vec<char>, needle: &Vec<char>) -> (r: Option<usize>)
    ensures
        r == (match find(hay@, needle@) {
            Some(k) => Some(k as usize),
            None => None::<usize>,
        }),
{
    find_from_exec(hay, needle, 0)
}

/// Whether `needle` occurs in `hay`.
pub fn contains_exec(hay: &Vec<char>, needle: &Vec<char>) -> (r: bool)
    ensures
        r == contains(hay@, needle@),
{
    proof {
        lemma_find_contains(hay@, needle@);
    }
    find_exec(hay, needle).is_some()
}

/// Whether the string `needle` occurs in the string `hay`.
pub fn str_contains(hay: &str, needle: &str) -> (r: bool)
    ensures
        r == contains(hay@, needle@),
{
    let h = chars_of(hay);
    let n = chars_of(needle);
    contains_exec(&h, &n)
}

/// Whether two character vectors are equal.
pub fn chars_eq(a: &Vec<char>, b: &Vec<char>) -> (r: bool)
    ensures
        r == (a@ == b@),
{
    if a.len() != b.len() {
        return false;
    }
    let mut i: usize = 0;
    while i < a.len()
        invariant
            a.len() == b.len(),
            i <= a.len(),
            forall|j: int| 0 <= j < i ==> a@[j] == b@[j],
        decreases a.len() - i,
    {
        if a[i] != b[i] {
            return false;
        }
        i = i + 1;
    }
    assert(a@ =~= b@);
    true
}

/// Whether two strings are equal.
pub fn str_eq(a: &str, b: &str) -> (r: bool)
    ensures
        r == (a@ == b@),
{
    let x = chars_of(a);
    let y = chars_of(b);
    chars_eq(&x, &y)
}

/// Whether a character is whitespace in the sense of `char::is_whitespace`.
pub fn is_whitespace_exec(c: char) -> (r: bool)
    ensures
        r == is_whitespace(c),
{
    let v = c as u32;
    (0x09 <= v && v <= 0x0D) || v == 0x20 || v == 0x85 || v == 0xA0 || v == 0x1680 || (0x2000
        <= v && v <= 0x200A) || v == 0x2028 || v == 0x2029 || v == 0x202F || v == 0x205F || v
        == 0x3000
}

/// The bounds `(a, b)` such that `v[a..b]` is `v` trimmed of whitespace.
pub fn trim_bounds(v: &Vec<char>, from: usize, to: usize) -> (r: (usize, usize))
    requires
        from <= to <= v.len(),
    ensures
        from <= r.0 <= r.1 <= to,
        v@.subrange(r.0 as int, r.1 as int) == trim(v@.subrange(from as int, to as int)),
{
    let ghost s = v@.subrange(from as int, to as int);
    let mut a = from;
    while a < to && is_whitespace_exec(v[a])
        invariant
            from <= a <= to <= v.len(),
            forall|j: int| from <= j < a ==> is_whitespace(v@[j]),
        decreases to - a,
    {
        a = a + 1;
    }
    proof {
        lemma_trim_start_skip(s, a - from);
        let t = s.subrange(a - from, s.len() as int);
        assert(t =~= v@.subrange(a as int, to as int));
        if t.len() > 0 {
            assert(t[0] == v@[a as int]);
        }
        assert(trim_start(t) == t);
    }
    let mut b = to;
    while b > a && is_whitespace_exec(v[b - 1])
        invariant
            from <= a <= b <= to <= v.len(),
            forall|j: int| b <= j < to ==> is_whitespace(v@[j]),
        decreases b,
    {
        b = b - 1;
    }
    proof {
        let t = v@.subrange(a as int, to as int);
        lemma_trim_end_skip(t, b - a);
        let u = t.subrange(0, b - a);
        assert(u =~= v@.subrange(a as int, b as int));
        if u.len() > 0 {
            assert(u.last() == v@[b - 1]);
        }
        assert(trim_end(u) == u);
    }
    (a, b)
}

/// `str::trim`, returning an owned string.
pub fn trim_string(s: &str) -> (r: String)
    ensures
        r@ == trim(s@),
{
    let v = chars_of(s);
    let (a, b) = trim_bounds(&v, 0, v.len());
    assert(v@.subrange(0, v@.len() as int) =~= v@);
    string_of_range(&v, a, b)
}

/// `str::to_ascii_lowercase` on a character vector.
pub fn ascii_lower_exec(v: &Vec<char>) -> (r: Vec<char>)
    ensures
        r@ == ascii_lower(v@),
{
    let mut r: Vec<char> = Vec::new();
    let mut i: usize = 0;
    while i < v.len()
        invariant
            i <= v.len(),
            r@ =~= ascii_lower(v@.subrange(0, i as int)),
        decreases v.len() - i,
    {
        let c = v[i];
        let lc = if 'A' <= c && c <= 'Z' {
            ((c as u8) + 32) as char
        } else {
            c
        };
        r.push(lc);
        i = i + 1;
    }
    assert(v@.subrange(0, v@.len() as int) =~= v@);
    r
}

/// `str::lines` on a character vector.
pub fn lines_exec(v: &Vec<char>) -> (r: Vec<Vec<char>>)
    ensures
        char_views(r@) == lines(v@),
{
    let mut out: Vec<Vec<char>> = Vec::new();
    let mut pos: usize = 0;
    assert(v@.subrange(0, v@.len() as int) =~= v@);
    while pos < v.len()
        invariant
            pos <= v.len(),
            char_views(out@) + lines(v@.subrange(pos as int, v@.len() as int)) == lines(v@),
        decreases v.len() - pos,
    {
        let ghost rest = v@.subrange(pos as int, v@.len() as int);
        let mut j = pos;
        while j < v.len() && v[j] != '\n'
            invariant
                pos <= j <= v.len(),
                forall|t: int| pos <= t < j ==> v@[t] != '\n',
            decreases v.len() - j,
        {
            j = j + 1;
        }
        proof {
            lemma_find_char(rest, '\n', j - pos);
        }
        let mut end = j;
        if j < v.len() && end > pos && v[end - 1] == '\r' {
            end = end - 1;
        }
        let mut line: Vec<char> = Vec::new();
        let mut k = pos;
        while k < end
            invariant
                pos <= k <= end <= v.len(),
                line@ =~= v@.subrange(pos as int, k as int),
            decreases end - k,
        {
            line.push(v[k]);
            k = k + 1;
        }
        let ghost old_out = out@;
        out.push(line);
        proof {
            assert(char_views(out@) =~= char_views(old_out).push(line@));
            if j < v.len() {
                assert(rest.subrange(0, j - pos) =~= v@.subrange(pos as int, j as int));
                assert(line@ == strip_cr(rest.subrange(0, j - pos)));
                assert(rest.subrange(j - pos + 1, rest.len() as int) =~= v@.subrange(
                    j + 1,
                    v@.len() as int,
                ));
                assert(lines(rest) == seq![line@] + lines(v@.subrange(j + 1, v@.len() as int)));
                assert(char_views(out@) + lines(v@.subrange(j + 1, v@.len() as int))
                    =~= char_views(old_out) + lines(rest));
            } else {
                assert(line@ =~= rest);
                assert(lines(rest) == seq![line@]);
                assert(v@.subrange(v@.len() as int, v@.len() as int) =~= Seq::<char>::empty());
                assert(char_views(out@) + lines(v@.subrange(v@.len() as int, v@.len() as int))
                    =~= char_views(old_out) + lines(rest));
            }
        }
        if j < v.len() {
            pos = j + 1;
        } else {
            pos = j;
        }
    }
    proof {
        assert(v@.subrange(pos as int, v@.len() as int) =~= Seq::<char>::empty());
        assert(char_views(out@) + lines(Seq::<char>::empty()) =~= char_views(out@));
    }
    out
}

/// `str::replacen(pat, rep, 1)` on character vectors.
pub fn replace_first_exec(s: &Vec<char>, pat: &Vec<char>, rep: &str) -> (r: String)
    ensures
        r@ == replace_first(s@, pat@, rep@),
{
    match find_exec(s, pat) {
        Some(i) => {
            proof {
                lemma_find_contains(s@, pat@);
            }
            let mut out = string_of_range(s, 0, i);
            out.append(rep);
            let tail = string_of_range(s, i + pat.len(), s.len());
            out.append(tail.as_str());
            out
        },
        None => {
            string_of(s)
        },
    }
}

} // verus!
