//! Identifying the installed Codex: its version from `codex --version`, a
//! digest of its launcher that ignores the codex-hud managed snippet, and
//! the `version+sha256` compatibility key built from both.
use vstd::prelude::*;
use vstd::utf8::{
    char_is_scalar, encode_scalar, encode_utf8, is_ascii_chars, leading_byte_width_1,
};

use crate::codec::{hex_encode, hex_lower, json_name_field, json_read_name};
use crate::crypto::{sha256, sha256_digest};
use crate::native_install::{
    lemma_snippet_parts, snippet_body, MANAGED_BLOCK_END, MANAGED_BLOCK_START, NPM_PATCH_MARKER,
    NPM_PATCH_SNIPPET,
};
use crate::native_patch::{marker_replace, MANAGED_TAG};
use crate::status::opt_view;
use crate::statusline_migration::item_views;
use crate::paths::{join_path, path_join, stem_len};
use crate::text::{
    ascii_lower_exec, char_views, chars_eq, chars_of, contains, eq_ignore_ascii_case, find,
    is_whitespace, is_whitespace_exec, lemma_contains_middle, lemma_contains_transitive,
    lemma_find_contains, lemma_trim_start_shorter,
    lemma_trim_start_skip, lines, matches_at, no_newline, owned, replace_first, str_eq,
    string_of_range, trim_start, trim_start_char, views,
};

verus! {

// ---------------------------------------------------------------------------
// Byte search and the managed snippet
// ---------------------------------------------------------------------------

/// The first position of `needle` in `haystack`; `None` for an empty
/// needle or a haystack shorter than the needle.
pub open spec fn subslice_position(haystack: Seq<u8>, needle: Seq<u8>) -> Option<int> {
    if needle.len() == 0 || haystack.len() < needle.len() {
        None
    } else {
        find(haystack, needle)
    }
}

proof fn lemma_find_from_bytes(hay: Seq<u8>, needle: Seq<u8>, i: int)
    requires
        0 <= i,
    ensures
        match crate::text::find_from(hay, needle, i) {
            Some(k) => i <= k && matches_at(hay, needle, k) && forall|j: int|
                i <= j < k ==> !matches_at(hay, needle, j),
            None => forall|j: int| i <= j ==> !matches_at(hay, needle, j),
        },
    decreases hay.len() + 1 - i,
{
    if i + needle.len() > hay.len() {
    } else if matches_at(hay, needle, i) {
    } else {
        lemma_find_from_bytes(hay, needle, i + 1);
    }
}

/// Whether `needle` occurs in `haystack` at `i`.
fn bytes_match_at(haystack: &[u8], needle: &[u8], i: usize) -> (r: bool)
    requires
        i + needle@.len() <= haystack@.len(),
    ensures
        r == matches_at(haystack@, needle@, i as int),
{
    let hl = haystack.len();
    let mut k: usize = 0;
    while k < needle.len()
        invariant
            hl == haystack@.len(),
            i + needle@.len() <= haystack@.len(),
            k <= needle@.len(),
            forall|j: int| 0 <= j < k ==> haystack@[i + j] == needle@[j],
        decreases needle.len() - k,
    {
        if haystack[i + k] != needle[k] {
            assert(haystack@.subrange(i as int, i + needle@.len())[k as int] != needle@[k as int]);
            return false;
        }
        k = k + 1;
    }
    assert(haystack@.subrange(i as int, i + needle@.len()) =~= needle@);
    true
}

/// The first position of `needle` in `haystack` (`None` for an empty
/// needle).
pub fn find_subslice(haystack: &[u8], needle: &[u8]) -> (r: Option<usize>)
    ensures
        r == (match subslice_position(haystack@, needle@) {
            Some(k) => Some(k as usize),
            None => None::<usize>,
        }),
{
    if needle.len() == 0 || haystack.len() < needle.len() {
        return None;
    }
    let last = haystack.len() - needle.len();
    let mut i: usize = 0;
    while i <= last
        invariant
            last == haystack@.len() - needle@.len(),
            0 < needle@.len() <= haystack@.len() <= usize::MAX,
            i <= last + 1,
            find(haystack@, needle@) == crate::text::find_from(haystack@, needle@, i as int),
        decreases last + 1 - i,
    {
        if bytes_match_at(haystack, needle, i) {
            return Some(i);
        }
        i = i + 1;
    }
    None
}

/// The bytes after `end`, without one leading line break (`\r\n` or `\n`).
pub open spec fn drop_one_line_break(tail: Seq<u8>) -> Seq<u8> {
    if tail.len() >= 2 && tail[0] == 13 && tail[1] == 10 {
        tail.subrange(2, tail.len() as int)
    } else if tail.len() >= 1 && tail[0] == 10 {
        tail.subrange(1, tail.len() as int)
    } else {
        tail
    }
}

/// The bytes of the first managed block start mark.
pub open spec fn block_start_bytes() -> Seq<u8> {
    encode_utf8(MANAGED_BLOCK_START@)
}

/// The bytes of the managed block end mark.
pub open spec fn block_end_bytes() -> Seq<u8> {
    encode_utf8(MANAGED_BLOCK_END@)
}

/// The bytes with the managed snippet cut out: from the first start mark
/// to the end of the first end mark after it, together with one line break
/// that follows; the bytes unchanged when either mark is missing.
pub open spec fn without_managed_block_bytes(bytes: Seq<u8>) -> Seq<u8> {
    match subslice_position(bytes, block_start_bytes()) {
        None => bytes,
        Some(start) => match subslice_position(
            bytes.subrange(start, bytes.len() as int),
            block_end_bytes(),
        ) {
            None => bytes,
            Some(end_rel) => bytes.subrange(0, start) + drop_one_line_break(
                bytes.subrange(start + end_rel + block_end_bytes().len(), bytes.len() as int),
            ),
        },
    }
}

/// The slice `v[from..to]` as a vector.
fn byte_range(v: &[u8], from: usize, to: usize) -> (r: Vec<u8>)
    requires
        from <= to <= v@.len(),
    ensures
        r@ == v@.subrange(from as int, to as int),
{
    let mut r: Vec<u8> = Vec::new();
    let mut i = from;
    while i < to
        invariant
            from <= i <= to <= v@.len(),
            r@ =~= v@.subrange(from as int, i as int),
        decreases to - i,
    {
        r.push(v[i]);
        i = i + 1;
    }
    r
}

/// Cuts the managed snippet out of a launcher's bytes, so that a patched
/// launcher and the stock one digest alike.
pub fn strip_managed_patch_block(bytes: &[u8]) -> (r: Vec<u8>)
    ensures
        r@ == without_managed_block_bytes(bytes@),
{
    let start_mark = MANAGED_BLOCK_START.as_bytes();
    let end_mark = MANAGED_BLOCK_END.as_bytes();
    let start = match find_subslice(bytes, start_mark) {
        Some(s) => s,
        None => return byte_range(bytes, 0, bytes.len()),
    };
    proof {
        lemma_find_from_bytes(bytes@, start_mark@, 0);
    }
    let rest = byte_range(bytes, start, bytes.len());
    let end_rel = match find_subslice(rest.as_slice(), end_mark) {
        Some(e) => e,
        None => {
            assert(bytes@.subrange(0, bytes@.len() as int) =~= bytes@);
            return byte_range(bytes, 0, bytes.len());
        },
    };
    proof {
        lemma_find_from_bytes(rest@, end_mark@, 0);
    }
    let end = start + end_rel + end_mark.len();
    let mut out = byte_range(bytes, 0, start);
    let mut from = end;
    if end < bytes.len() && end + 1 < bytes.len() && bytes[end] == 13 && bytes[end + 1] == 10 {
        from = end + 2;
    } else if end < bytes.len() && bytes[end] == 10 {
        from = end + 1;
    }
    let tail = byte_range(bytes, from, bytes.len());
    let ghost before = out@;
    let mut i: usize = 0;
    while i < tail.len()
        invariant
            i <= tail@.len(),
            out@ == before + tail@.subrange(0, i as int),
        decreases tail.len() - i,
    {
        out.push(tail[i]);
        i = i + 1;
        assert(out@ =~= before + tail@.subrange(0, i as int));
    }
    proof {
        assert(tail@.subrange(0, tail@.len() as int) =~= tail@);
        let t = bytes@.subrange(end as int, bytes@.len() as int);
        if t.len() >= 2 && t[0] == 13 && t[1] == 10 {
            assert(t.subrange(2, t.len() as int) =~= tail@);
        } else if t.len() >= 1 && t[0] == 10 {
            assert(t.subrange(1, t.len() as int) =~= tail@);
        } else {
            assert(t =~= tail@);
        }
    }
    out
}

// ---------------------------------------------------------------------------
// Digest and compatibility key
// ---------------------------------------------------------------------------

/// The lowercase hex SHA-256 of the launcher bytes with the managed snippet
/// cut out.
pub open spec fn normalized_sha256(bytes: Seq<u8>) -> Seq<char> {
    hex_lower(sha256(without_managed_block_bytes(bytes)))
}

/// The lowercase hex SHA-256 of a launcher's bytes, ignoring the managed
/// snippet.
pub fn normalized_sha256_hex(bytes: &[u8]) -> (r: String)
    ensures
        r@ == normalized_sha256(bytes@),
{
    let normalized = strip_managed_patch_block(bytes);
    let digest = sha256_digest(normalized.as_slice());
    hex_encode(digest.as_slice())
}

/// The compatibility key `version+sha256`.
pub fn compatibility_key(version: &str, sha256: &str) -> (r: String)
    ensures
        r@ == version@ + "+"@ + sha256@,
{
    let mut r = owned(version);
    r.append("+");
    r.append(sha256);
    r
}

// ---------------------------------------------------------------------------
// The version line
// ---------------------------------------------------------------------------

/// The length of the run of non-whitespace characters that starts `s`.
pub open spec fn word_len(s: Seq<char>) -> nat
    decreases s.len(),
{
    if s.len() == 0 || is_whitespace(s[0]) {
        0
    } else {
        1 + word_len(s.drop_first())
    }
}

pub proof fn lemma_word_len_bounds(s: Seq<char>)
    ensures
        word_len(s) <= s.len(),
        forall|j: int| 0 <= j < word_len(s) ==> !is_whitespace(#[trigger] s[j]),
        word_len(s) < s.len() ==> is_whitespace(s[word_len(s) as int]),
    decreases s.len(),
{
    if s.len() > 0 && !is_whitespace(s[0]) {
        lemma_word_len_bounds(s.drop_first());
        assert forall|j: int| 0 <= j < word_len(s) implies !is_whitespace(#[trigger] s[j]) by {
            if j > 0 {
                assert(s[j] == s.drop_first()[j - 1]);
            }
        }
        if word_len(s) < s.len() {
            assert(s[word_len(s) as int] == s.drop_first()[word_len(s) - 1]);
        }
    }
}

/// `str::split_whitespace`: the maximal runs of non-whitespace characters.
pub open spec fn words(s: Seq<char>) -> Seq<Seq<char>>
    decreases s.len(),
{
    let t = trim_start(s);
    if t.len() == 0 {
        seq![]
    } else {
        proof {
            lemma_trim_start_shorter(s);
            lemma_word_len_bounds(t);
        }
        let n = word_len(t);
        seq![t.subrange(0, n as int)] + words(t.subrange(n as int, t.len() as int))
    }
}

/// The version in a `codex --version` line: its second word without
/// leading `v` characters.
pub open spec fn version_of_line(line: Seq<char>) -> Option<Seq<char>> {
    if words(line).len() >= 2 {
        Some(trim_start_char(words(line)[1], 'v'))
    } else {
        None
    }
}

/// A word followed by whitespace, or by nothing, is as long as the run
/// that starts the text.
proof fn lemma_word_len_of_word(a: Seq<char>, x: Seq<char>)
    requires
        forall|j: int| 0 <= j < a.len() ==> !is_whitespace(#[trigger] a[j]),
        x.len() == 0 || is_whitespace(x[0]),
    ensures
        word_len(a + x) == a.len(),
    decreases a.len(),
{
    if a.len() > 0 {
        assert((a + x)[0] == a[0]);
        assert((a + x).drop_first() =~= a.drop_first() + x);
        lemma_word_len_of_word(a.drop_first(), x);
    } else {
        assert(a + x =~= x);
    }
}

/// The words of a text that starts with a word followed by whitespace or
/// by nothing: that word, then the words of the rest.
proof fn lemma_words_cons(a: Seq<char>, x: Seq<char>)
    requires
        a.len() > 0,
        forall|j: int| 0 <= j < a.len() ==> !is_whitespace(#[trigger] a[j]),
        x.len() == 0 || is_whitespace(x[0]),
    ensures
        words(a + x) == seq![a] + words(x),
{
    let t = a + x;
    assert(t[0] == a[0]);
    assert(trim_start(t) == t);
    lemma_word_len_of_word(a, x);
    assert(t.subrange(0, a.len() as int) =~= a);
    assert(t.subrange(a.len() as int, t.len() as int) =~= x);
}

/// Whatever the first word of a `codex --version` line (`codex-cli`,
/// `codex`, ...), and whatever follows the second after whitespace, the
/// version is the second word with its leading `v` characters dropped.
pub proof fn lemma_version_is_second_word(a: Seq<char>, b: Seq<char>, rest: Seq<char>)
    requires
        a.len() > 0,
        b.len() > 0,
        forall|j: int| 0 <= j < a.len() ==> !is_whitespace(#[trigger] a[j]),
        forall|j: int| 0 <= j < b.len() ==> !is_whitespace(#[trigger] b[j]),
        rest.len() == 0 || is_whitespace(rest[0]),
    ensures
        version_of_line(a + seq![' '] + b + rest) == Some(trim_start_char(b, 'v')),
{
    let tail = seq![' '] + b + rest;
    assert(is_whitespace(' '));
    lemma_words_cons(a, tail);
    assert(a + seq![' '] + b + rest =~= a + tail);
    lemma_trim_start_skip(tail, 1);
    assert(tail.subrange(1, tail.len() as int) =~= b + rest);
    assert((b + rest)[0] == b[0]);
    assert(trim_start(b + rest) == b + rest);
    assert(words(tail) == words(b + rest)) by {
        lemma_trim_start_shorter(tail);
    }
    lemma_words_cons(b, rest);
}

/// Skips whitespace from `i`.
fn skip_whitespace(v: &Vec<char>, i: usize) -> (r: usize)
    requires
        i <= v.len(),
    ensures
        i <= r <= v.len(),
        trim_start(v@.subrange(i as int, v@.len() as int)) == v@.subrange(r as int, v@.len() as int),
{
    let mut k = i;
    while k < v.len() && is_whitespace_exec(v[k])
        invariant
            i <= k <= v.len(),
            forall|j: int| i <= j < k ==> is_whitespace(v@[j]),
        decreases v.len() - k,
    {
        k = k + 1;
    }
    proof {
        let s = v@.subrange(i as int, v@.len() as int);
        lemma_trim_start_skip(s, k - i);
        let t = s.subrange(k - i, s.len() as int);
        assert(t =~= v@.subrange(k as int, v@.len() as int));
        if t.len() > 0 {
            assert(t[0] == v@[k as int]);
        }
    }
    k
}

/// Skips the word that starts at `i`.
fn skip_word(v: &Vec<char>, i: usize) -> (r: usize)
    requires
        i <= v.len(),
    ensures
        i <= r <= v.len(),
        r - i == word_len(v@.subrange(i as int, v@.len() as int)),
{
    let mut k = i;
    while k < v.len() && !is_whitespace_exec(v[k])
        invariant
            i <= k <= v.len(),
            forall|j: int| i <= j < k ==> !is_whitespace(v@[j]),
        decreases v.len() - k,
    {
        k = k + 1;
    }
    proof {
        let s = v@.subrange(i as int, v@.len() as int);
        lemma_word_len_bounds(s);
        let n = word_len(s) as int;
        if n < k - i {
            assert(s[n] == v@[i + n]);
        } else if n > k - i {
            assert(s[k - i] == v@[k as int]);
        }
    }
    k
}

/// Parses a `codex --version` line such as `codex-cli 0.104.0`: the second
/// whitespace-separated word, without leading `v`s; `None` when the line
/// has fewer than two words.
pub fn parse_codex_version_line(line: &str) -> (r: Option<String>)
    ensures
        match r {
            Some(v) => version_of_line(line@) == Some(v@),
            None => version_of_line(line@) is None,
        },
{
    let v = chars_of(line);
    proof {
        assert(v@.subrange(0, v@.len() as int) =~= v@);
    }
    let a = skip_whitespace(&v, 0);
    if a == v.len() {
        return None;
    }
    let b = skip_word(&v, a);
    let c = skip_whitespace(&v, b);
    let ghost t1 = v@.subrange(a as int, v@.len() as int);
    proof {
        lemma_trim_start_shorter(v@);
        assert(words(v@) == seq![t1.subrange(0, (b - a) as int)] + words(
            t1.subrange((b - a) as int, t1.len() as int),
        ));
        assert(t1.subrange((b - a) as int, t1.len() as int) =~= v@.subrange(
            b as int,
            v@.len() as int,
        ));
    }
    if c == v.len() {
        proof {
            assert(trim_start(v@.subrange(b as int, v@.len() as int)).len() == 0);
            assert(words(v@.subrange(b as int, v@.len() as int)) == Seq::<Seq<char>>::empty());
            assert(words(v@).len() == 1);
        }
        return None;
    }
    let d = skip_word(&v, c);
    let ghost t2 = v@.subrange(c as int, v@.len() as int);
    proof {
        lemma_trim_start_shorter(v@.subrange(b as int, v@.len() as int));
        let w2 = words(v@.subrange(b as int, v@.len() as int));
        assert(w2 == seq![t2.subrange(0, (d - c) as int)] + words(
            t2.subrange((d - c) as int, t2.len() as int),
        ));
        assert(words(v@)[1] == w2[0]);
        assert(t2.subrange(0, (d - c) as int) =~= v@.subrange(c as int, d as int));
    }
    let mut k = c;
    while k < d && v[k] == 'v'
        invariant
            c <= k <= d <= v.len(),
            trim_start_char(v@.subrange(c as int, d as int), 'v') == trim_start_char(
                v@.subrange(k as int, d as int),
                'v',
            ),
        decreases d - k,
    {
        proof {
            assert(v@.subrange(k as int, d as int).drop_first() =~= v@.subrange(k + 1, d as int));
        }
        k = k + 1;
    }
    proof {
        let rest = v@.subrange(k as int, d as int);
        if rest.len() > 0 {
            assert(rest[0] == v@[k as int]);
        }
    }
    Some(string_of_range(&v, k, d))
}

/// The version that `codex --version` printed: its first line, parsed as a
/// version line. Fails with "missing codex version output" when nothing
/// was printed and with "unable to parse codex version" when the line has
/// fewer than two words.
pub fn codex_version_from_output(stdout: &str) -> (r: Result<String, String>)
    ensures
        lines(stdout@).len() == 0 ==> (r matches Err(e) && e@ == "missing codex version output"@),
        lines(stdout@).len() > 0 ==> match r {
            Ok(v) => version_of_line(lines(stdout@)[0]) == Some(v@),
            Err(e) => version_of_line(lines(stdout@)[0]) is None && e@
                == "unable to parse codex version"@,
        },
{
    let v = chars_of(stdout);
    let all = crate::text::lines_exec(&v);
    if all.len() == 0 {
        return Err(owned("missing codex version output"));
    }
    let first = string_of_range(&all[0], 0, all[0].len());
    proof {
        assert(all[0]@.subrange(0, all[0]@.len() as int) =~= all[0]@);
        assert(char_views(all@)[0] == all[0]@);
    }
    match parse_codex_version_line(first.as_str()) {
        Some(version) => Ok(version),
        None => Err(owned("unable to parse codex version")),
    }
}

// ---------------------------------------------------------------------------
// The npm package and the vendor binary
// ---------------------------------------------------------------------------

/// The npm package name of Codex.
pub const CODEX_NPM_PACKAGE: &'static str = "@openai/codex";

/// Whether a `package.json` text names the Codex npm package.
pub fn is_codex_package_json(raw: &str) -> (r: bool)
    ensures
        r == (json_name_field(raw@) == Some(CODEX_NPM_PACKAGE@)),
{
    match json_read_name(raw) {
        Some(name) => str_eq(name.as_str(), CODEX_NPM_PACKAGE),
        None => false,
    }
}

/// The npm package root above the Codex binary: the first of the
/// `ancestors` (in the order they are searched) whose `package.json` text
/// names the Codex package; `None` when none does.
pub open spec fn first_codex_package_root(
    ancestors: Seq<Seq<char>>,
    package_json: Seq<Option<Seq<char>>>,
) -> Option<Seq<char>>
    decreases ancestors.len(),
{
    if ancestors.len() == 0 || package_json.len() == 0 {
        None
    } else if package_json[0] matches Some(t) && json_name_field(t) == Some(CODEX_NPM_PACKAGE@) {
        Some(ancestors[0])
    } else {
        first_codex_package_root(ancestors.drop_first(), package_json.drop_first())
    }
}

/// Whether the `package.json` text at `k` names the Codex package.
pub open spec fn names_codex_at(package_json: Seq<Option<Seq<char>>>, k: int) -> bool {
    package_json[k] matches Some(t) && json_name_field(t) == Some(CODEX_NPM_PACKAGE@)
}

/// The package root is the nearest ancestor whose `package.json` names the
/// Codex package: there is none exactly when no such ancestor is there,
/// and the one picked comes before every other such ancestor.
pub proof fn lemma_package_root_is_nearest(
    ancestors: Seq<Seq<char>>,
    package_json: Seq<Option<Seq<char>>>,
)
    requires
        ancestors.len() == package_json.len(),
    ensures
        first_codex_package_root(ancestors, package_json) is None <==> forall|k: int|
            0 <= k < ancestors.len() ==> !#[trigger] names_codex_at(package_json, k),
        first_codex_package_root(ancestors, package_json) matches Some(root) ==> exists|k: int|
            0 <= k < ancestors.len() && ancestors[k] == root && #[trigger] names_codex_at(
                package_json,
                k,
            ) && forall|j: int| 0 <= j < k ==> !#[trigger] names_codex_at(package_json, j),
    decreases ancestors.len(),
{
    if ancestors.len() > 0 {
        let a = ancestors.drop_first();
        let p = package_json.drop_first();
        lemma_package_root_is_nearest(a, p);
        assert forall|k: int| 0 <= k < a.len() implies names_codex_at(p, k) == names_codex_at(
            package_json,
            k + 1,
        ) by {}
        if names_codex_at(package_json, 0) {
            assert(first_codex_package_root(ancestors, package_json) == Some(ancestors[0]));
        } else {
            assert(first_codex_package_root(ancestors, package_json) == first_codex_package_root(
                a,
                p,
            ));
            if first_codex_package_root(a, p) is None {
                assert forall|k: int| 0 <= k < ancestors.len() implies !#[trigger] names_codex_at(
                    package_json,
                    k,
                ) by {
                    if k > 0 {
                        assert(!names_codex_at(p, k - 1));
                    }
                }
            } else {
                let root = first_codex_package_root(a, p)->0;
                let k = choose|k: int|
                    0 <= k < a.len() && a[k] == root && #[trigger] names_codex_at(p, k) && forall|
                        j: int,
                    | 0 <= j < k ==> !#[trigger] names_codex_at(p, j);
                assert(names_codex_at(package_json, k + 1));
                assert forall|j: int| 0 <= j < k + 1 implies !#[trigger] names_codex_at(
                    package_json,
                    j,
                ) by {
                    if j > 0 {
                        assert(!names_codex_at(p, j - 1));
                    }
                }
                assert(names_codex_at(p, k));
            }
        }
    }
}

/// Picks the npm package root: `package_json[i]` is the text of
/// `ancestors[i]/package.json`, `None` when it cannot be read.
pub fn select_codex_package_root(ancestors: &[String], package_json: &[Option<String>]) -> (r:
    Option<String>)
    requires
        ancestors@.len() == package_json@.len(),
    ensures
        opt_view(r) == first_codex_package_root(views(ancestors@), item_views(package_json@)),
{
    let mut i: usize = 0;
    proof {
        assert(views(ancestors@).subrange(0, ancestors@.len() as int) =~= views(ancestors@));
        assert(item_views(package_json@).subrange(0, package_json@.len() as int) =~= item_views(
            package_json@,
        ));
    }
    while i < ancestors.len()
        invariant
            ancestors@.len() == package_json@.len(),
            i <= ancestors@.len(),
            first_codex_package_root(views(ancestors@), item_views(package_json@))
                == first_codex_package_root(
                views(ancestors@).subrange(i as int, ancestors@.len() as int),
                item_views(package_json@).subrange(i as int, package_json@.len() as int),
            ),
        decreases ancestors.len() - i,
    {
        let ghost a = views(ancestors@).subrange(i as int, ancestors@.len() as int);
        let ghost p = item_views(package_json@).subrange(i as int, package_json@.len() as int);
        proof {
            assert(a[0] == ancestors@[i as int]@);
            assert(p[0] == opt_view(package_json@[i as int]));
            assert(a.drop_first() =~= views(ancestors@).subrange(i + 1, ancestors@.len() as int));
            assert(p.drop_first() =~= item_views(package_json@).subrange(
                i + 1,
                package_json@.len() as int,
            ));
        }
        let found = match &package_json[i] {
            Some(t) => is_codex_package_json(t.as_str()),
            None => false,
        };
        if found {
            return Some(ancestors[i].clone());
        }
        i = i + 1;
    }
    None
}

/// Where the npm package keeps the native Codex binary for a platform,
/// given as Rust's `target_os` and `target_arch`.
pub open spec fn vendor_binary_rel(target_os: Seq<char>, target_arch: Seq<char>) -> Option<Seq<char>> {
    if target_os == "macos"@ && target_arch == "aarch64"@ {
        Some("node_modules/@openai/codex-darwin-arm64/vendor/aarch64-apple-darwin/codex/codex"@)
    } else if target_os == "macos"@ && target_arch == "x86_64"@ {
        Some("node_modules/@openai/codex-darwin-x64/vendor/x86_64-apple-darwin/codex/codex"@)
    } else if target_os == "linux"@ && target_arch == "x86_64"@ {
        Some("node_modules/@openai/codex-linux-x64/vendor/x86_64-unknown-linux-musl/codex/codex"@)
    } else if target_os == "linux"@ && target_arch == "aarch64"@ {
        Some("node_modules/@openai/codex-linux-arm64/vendor/aarch64-unknown-linux-musl/codex/codex"@)
    } else if target_os == "windows"@ && target_arch == "x86_64"@ {
        Some("node_modules/@openai/codex-win32-x64/vendor/x86_64-pc-windows-msvc/codex/codex.exe"@)
    } else if target_os == "windows"@ && target_arch == "aarch64"@ {
        Some("node_modules/@openai/codex-win32-arm64/vendor/aarch64-pc-windows-msvc/codex/codex.exe"@)
    } else {
        None
    }
}

/// The npm name of an operating system given as Rust's `target_os`.
pub open spec fn npm_os_name(target_os: Seq<char>) -> Option<Seq<char>> {
    if target_os == "macos"@ {
        Some("darwin"@)
    } else if target_os == "linux"@ {
        Some("linux"@)
    } else if target_os == "windows"@ {
        Some("win32"@)
    } else {
        None
    }
}

/// The npm name of an architecture given as Rust's `target_arch`.
pub open spec fn npm_arch_name(target_arch: Seq<char>) -> Option<Seq<char>> {
    if target_arch == "aarch64"@ {
        Some("arm64"@)
    } else if target_arch == "x86_64"@ {
        Some("x64"@)
    } else {
        None
    }
}

/// The vendor and system part of the Rust target triple Codex is built for
/// on an operating system.
pub open spec fn triple_os_part(target_os: Seq<char>) -> Seq<char> {
    if target_os == "macos"@ {
        "apple-darwin"@
    } else if target_os == "linux"@ {
        "unknown-linux-musl"@
    } else {
        "pc-windows-msvc"@
    }
}

/// The vendor binary path names the requested platform: there is one
/// exactly for macOS, Linux and Windows on aarch64 and x86_64, and it is
/// `node_modules/@openai/codex-<npm os>-<npm arch>/vendor/<arch>-<triple
/// os part>/codex/codex`, with `.exe` on Windows. So the package and the
/// triple always name the requested operating system and architecture.
pub proof fn lemma_vendor_path_names_target(target_os: Seq<char>, target_arch: Seq<char>)
    ensures
        vendor_binary_rel(target_os, target_arch) is Some <==> (npm_os_name(target_os) is Some
            && npm_arch_name(target_arch) is Some),
        vendor_binary_rel(target_os, target_arch) matches Some(rel) ==> rel
            == "node_modules/@openai/codex-"@ + npm_os_name(target_os)->0 + "-"@ + npm_arch_name(
            target_arch,
        )->0 + "/vendor/"@ + target_arch + "-"@ + triple_os_part(target_os) + "/codex/codex"@ + (
        if target_os == "windows"@ {
            ".exe"@
        } else {
            ""@
        }),
{
    reveal_strlit("macos");
    reveal_strlit("linux");
    reveal_strlit("windows");
    reveal_strlit("aarch64");
    reveal_strlit("x86_64");
    reveal_strlit("darwin");
    reveal_strlit("win32");
    reveal_strlit("arm64");
    reveal_strlit("x64");
    reveal_strlit("apple-darwin");
    reveal_strlit("unknown-linux-musl");
    reveal_strlit("pc-windows-msvc");
    reveal_strlit("node_modules/@openai/codex-");
    reveal_strlit("-");
    reveal_strlit("/vendor/");
    reveal_strlit("/codex/codex");
    reveal_strlit(".exe");
    reveal_strlit("");
    reveal_strlit("node_modules/@openai/codex-darwin-arm64/vendor/aarch64-apple-darwin/codex/codex");
    reveal_strlit("node_modules/@openai/codex-darwin-x64/vendor/x86_64-apple-darwin/codex/codex");
    reveal_strlit("node_modules/@openai/codex-linux-x64/vendor/x86_64-unknown-linux-musl/codex/codex");
    reveal_strlit("node_modules/@openai/codex-linux-arm64/vendor/aarch64-unknown-linux-musl/codex/codex");
    reveal_strlit("node_modules/@openai/codex-win32-x64/vendor/x86_64-pc-windows-msvc/codex/codex.exe");
    reveal_strlit("node_modules/@openai/codex-win32-arm64/vendor/aarch64-pc-windows-msvc/codex/codex.exe");
    assert("macos"@[0] != "linux"@[0] && "macos"@[0] != "windows"@[0] && "linux"@[0]
        != "windows"@[0]);
    assert("aarch64"@.len() != "x86_64"@.len());
    if let Some(rel) = vendor_binary_rel(target_os, target_arch) {
        let expected = "node_modules/@openai/codex-"@ + npm_os_name(target_os)->0 + "-"@
            + npm_arch_name(target_arch)->0 + "/vendor/"@ + target_arch + "-"@ + triple_os_part(
            target_os,
        ) + "/codex/codex"@ + (if target_os == "windows"@ {
            ".exe"@
        } else {
            ""@
        });
        assert(rel =~= expected);
    }
}

/// The vendor binary of a supported platform lies under the package root:
/// the root, one `/` (none when the root already ends with one), and the
/// platform's relative path.
pub proof fn lemma_vendor_binary_under_root(
    codex_root: Seq<char>,
    target_os: Seq<char>,
    target_arch: Seq<char>,
)
    requires
        vendor_binary_rel(target_os, target_arch) is Some,
    ensures
        ({
            let rel = vendor_binary_rel(target_os, target_arch)->0;
            &&& codex_root.len() > 0 && codex_root.last() != '/' ==> path_join(codex_root, rel)
                == codex_root + "/"@ + rel
            &&& codex_root.len() > 0 && codex_root.last() == '/' ==> path_join(codex_root, rel)
                == codex_root + rel
            &&& codex_root.len() == 0 ==> path_join(codex_root, rel) == rel
        }),
{
    reveal_strlit("/");
    reveal_strlit("node_modules/@openai/codex-darwin-arm64/vendor/aarch64-apple-darwin/codex/codex");
    reveal_strlit("node_modules/@openai/codex-darwin-x64/vendor/x86_64-apple-darwin/codex/codex");
    reveal_strlit("node_modules/@openai/codex-linux-x64/vendor/x86_64-unknown-linux-musl/codex/codex");
    reveal_strlit("node_modules/@openai/codex-linux-arm64/vendor/aarch64-unknown-linux-musl/codex/codex");
    reveal_strlit("node_modules/@openai/codex-win32-x64/vendor/x86_64-pc-windows-msvc/codex/codex.exe");
    reveal_strlit("node_modules/@openai/codex-win32-arm64/vendor/aarch64-pc-windows-msvc/codex/codex.exe");
    let rel = vendor_binary_rel(target_os, target_arch)->0;
    assert(rel[0] == 'n');
    assert("/"@ =~= seq!['/']);
}

/// The native Codex binary under an npm package root for the platform;
/// an error for a platform without a vendor binary.
pub fn resolve_npm_vendor_binary_path_from_package_root(
    codex_root: &str,
    target_os: &str,
    target_arch: &str,
) -> (r: Result<String, String>)
    ensures
        match vendor_binary_rel(target_os@, target_arch@) {
            Some(rel) => r matches Ok(p) && p@ == path_join(codex_root@, rel),
            None => r matches Err(e) && e@
                == "unsupported platform for npm codex vendor binary path resolution"@,
        },
{
    let rel = if str_eq(target_os, "macos") && str_eq(target_arch, "aarch64") {
        "node_modules/@openai/codex-darwin-arm64/vendor/aarch64-apple-darwin/codex/codex"
    } else if str_eq(target_os, "macos") && str_eq(target_arch, "x86_64") {
        "node_modules/@openai/codex-darwin-x64/vendor/x86_64-apple-darwin/codex/codex"
    } else if str_eq(target_os, "linux") && str_eq(target_arch, "x86_64") {
        "node_modules/@openai/codex-linux-x64/vendor/x86_64-unknown-linux-musl/codex/codex"
    } else if str_eq(target_os, "linux") && str_eq(target_arch, "aarch64") {
        "node_modules/@openai/codex-linux-arm64/vendor/aarch64-unknown-linux-musl/codex/codex"
    } else if str_eq(target_os, "windows") && str_eq(target_arch, "x86_64") {
        "node_modules/@openai/codex-win32-x64/vendor/x86_64-pc-windows-msvc/codex/codex.exe"
    } else if str_eq(target_os, "windows") && str_eq(target_arch, "aarch64") {
        "node_modules/@openai/codex-win32-arm64/vendor/aarch64-pc-windows-msvc/codex/codex.exe"
    } else {
        return Err(owned("unsupported platform for npm codex vendor binary path resolution"));
    };
    Ok(join_path(codex_root, rel))
}

// ---------------------------------------------------------------------------
// The codex-hud shim
// ---------------------------------------------------------------------------

/// Whether a path segment names something: not empty and not `.`.
pub open spec fn is_named_segment(x: Seq<char>) -> bool {
    x.len() > 0 && x != "."@
}

/// Whether `c` separates the components of a path: `/`, and on Windows
/// also `\\`.
pub open spec fn is_separator(c: char, windows: bool) -> bool {
    c == '/' || (windows && c == '\\')
}

/// The position of the first separator at or after `i`, or the end of the
/// text when there is none.
pub open spec fn separator_at_or_after(s: Seq<char>, windows: bool, i: int) -> int
    decreases s.len() - i,
{
    if i < 0 || i >= s.len() {
        s.len() as int
    } else if is_separator(s[i], windows) {
        i
    } else {
        separator_at_or_after(s, windows, i + 1)
    }
}

/// What `separator_at_or_after` returns.
pub proof fn lemma_separator_bounds(s: Seq<char>, windows: bool, i: int)
    requires
        0 <= i <= s.len(),
    ensures
        i <= separator_at_or_after(s, windows, i) <= s.len(),
        forall|k: int|
            i <= k < separator_at_or_after(s, windows, i) ==> !is_separator(#[trigger] s[k], windows),
        separator_at_or_after(s, windows, i) < s.len() ==> is_separator(
            s[separator_at_or_after(s, windows, i)],
            windows,
        ),
    decreases s.len() - i,
{
    if i < s.len() && !is_separator(s[i], windows) {
        lemma_separator_bounds(s, windows, i + 1);
    }
}

/// The first separator, from its characterization.
proof fn lemma_separator_is(s: Seq<char>, windows: bool, i: int, k: int)
    requires
        0 <= i <= k <= s.len(),
        forall|t: int| i <= t < k ==> !is_separator(#[trigger] s[t], windows),
        k == s.len() || is_separator(s[k], windows),
    ensures
        separator_at_or_after(s, windows, i) == k,
    decreases k - i,
{
    if i < k {
        lemma_separator_is(s, windows, i + 1, k);
    }
}

/// The named segments of a path, in order: the components of the path
/// other than the root and `.`, split at `/` and, on Windows, also at `\\`.
pub open spec fn path_segments(s: Seq<char>, windows: bool) -> Seq<Seq<char>>
    decreases s.len(),
{
    let j = separator_at_or_after(s, windows, 0);
    let head = s.subrange(0, j);
    let first = if is_named_segment(head) {
        seq![head]
    } else {
        seq![]
    };
    if j < s.len() {
        proof {
            lemma_separator_bounds(s, windows, 0);
        }
        first + path_segments(s.subrange(j + 1, s.len() as int), windows)
    } else {
        first
    }
}

/// The path is `.codex-hud/bin/<codex>` at its end, where the file stem of
/// `<codex>` is `codex` in any ASCII case: codex-hud's own shim. `windows`
/// says whether `\\` separates components too.
pub open spec fn is_managed_shim_path(s: Seq<char>, windows: bool) -> bool {
    let g = path_segments(s, windows);
    let name = g.last();
    &&& g.len() >= 3
    &&& eq_ignore_ascii_case(name.subrange(0, stem_len(name)), "codex"@)
    &&& g[g.len() - 2] == "bin"@
    &&& g[g.len() - 3] == ".codex-hud"@
}

/// Appending `/` and a component without separators appends that
/// component to the named segments, when it names something.
proof fn lemma_path_segments_push(s: Seq<char>, seg: Seq<char>, windows: bool)
    requires
        forall|t: int| 0 <= t < seg.len() ==> !is_separator(#[trigger] seg[t], windows),
    ensures
        path_segments(s + seq!['/'] + seg, windows) == path_segments(s, windows) + (
        if is_named_segment(seg) {
            seq![seg]
        } else {
            seq![]
        }),
    decreases s.len(),
{
    let x = s + seq!['/'] + seg;
    let n = s.len() as int;
    lemma_separator_bounds(s, windows, 0);
    lemma_separator_bounds(seg, windows, 0);
    lemma_separator_is(seg, windows, 0, seg.len() as int);
    assert(seg.subrange(0, seg.len() as int) =~= seg);
    let js = separator_at_or_after(s, windows, 0);
    if js < n {
        assert forall|t: int| 0 <= t < js implies !is_separator(#[trigger] x[t], windows) by {
            assert(x[t] == s[t]);
            assert(!is_separator(s[t], windows));
        }
        assert(x[js] == s[js]);
        lemma_separator_is(x, windows, 0, js);
        assert(x.subrange(0, js) =~= s.subrange(0, js));
        let rest = s.subrange(js + 1, n);
        assert(x.subrange(js + 1, x.len() as int) =~= rest + seq!['/'] + seg);
        lemma_path_segments_push(rest, seg, windows);
        let first = if is_named_segment(s.subrange(0, js)) {
            seq![s.subrange(0, js)]
        } else {
            seq![]
        };
        let last = if is_named_segment(seg) {
            seq![seg]
        } else {
            seq![]
        };
        assert(path_segments(s, windows) == first + path_segments(rest, windows));
        assert(path_segments(x, windows) == first + path_segments(rest + seq!['/'] + seg, windows));
        assert(first + (path_segments(rest, windows) + last) =~= (first + path_segments(
            rest,
            windows,
        )) + last);
    } else {
        assert forall|t: int| 0 <= t < n implies !is_separator(#[trigger] x[t], windows) by {
            assert(x[t] == s[t]);
        }
        assert(x[n] == '/');
        lemma_separator_is(x, windows, 0, n);
        assert(x.subrange(0, n) =~= s);
        assert(s.subrange(0, n) =~= s);
        assert(x.subrange(n + 1, x.len() as int) =~= seg);
        let first = if is_named_segment(s) {
            seq![s]
        } else {
            seq![]
        };
        assert(path_segments(s, windows) == first);
        let last = if is_named_segment(seg) {
            seq![seg]
        } else {
            seq![]
        };
        assert(path_segments(seg, windows) == last);
        assert(path_segments(x, windows) == first + path_segments(seg, windows));
    }
}

/// Whatever directory it stands in, `.codex-hud/bin/codex` is codex-hud's
/// own shim, on any system, and so is `.codex-hud/bin/codex.exe`.
pub proof fn lemma_shim_under_any_dir(dir: Seq<char>, windows: bool)
    ensures
        is_managed_shim_path(dir + "/.codex-hud/bin/codex"@, windows),
        is_managed_shim_path(dir + "/.codex-hud/bin/codex.exe"@, windows),
{
    reveal_strlit("/.codex-hud/bin/codex");
    reveal_strlit("/.codex-hud/bin/codex.exe");
    reveal_strlit(".codex-hud");
    reveal_strlit("bin");
    reveal_strlit("codex");
    reveal_strlit("codex.exe");
    reveal_strlit(".");
    let a = dir + seq!['/'] + ".codex-hud"@;
    let b = a + seq!['/'] + "bin"@;
    lemma_path_segments_push(dir, ".codex-hud"@, windows);
    lemma_path_segments_push(a, "bin"@, windows);
    lemma_path_segments_push(b, "codex"@, windows);
    lemma_path_segments_push(b, "codex.exe"@, windows);
    assert(b + seq!['/'] + "codex"@ =~= dir + "/.codex-hud/bin/codex"@);
    assert(b + seq!['/'] + "codex.exe"@ =~= dir + "/.codex-hud/bin/codex.exe"@);
    assert(".codex-hud"@ != "."@);
    assert("bin"@ != "."@);
    assert("codex"@ != "."@);
    assert("codex.exe"@ != "."@);
    crate::paths::lemma_stem_len_no_dot("codex"@);
    crate::paths::lemma_stem_len_dot("codex.exe"@, 5);
    assert("codex"@.subrange(0, 5) =~= "codex"@);
    assert("codex.exe"@.subrange(0, 5) =~= "codex"@);
}

/// The named segments of a path.
pub fn path_segments_exec(path: &str, windows: bool) -> (r: Vec<Vec<char>>)
    ensures
        char_views(r@) == path_segments(path@, windows),
{
    let v = chars_of(path);
    let mut out: Vec<Vec<char>> = Vec::new();
    let mut pos: usize = 0;
    let dot = chars_of(".");
    proof {
        reveal_strlit(".");
        assert(v@.subrange(0, v@.len() as int) =~= v@);
    }
    let mut done = false;
    while !done
        invariant
            pos <= v.len(),
            v@ == path@,
            dot@ == "."@,
            !done ==> char_views(out@) + path_segments(
                v@.subrange(pos as int, v@.len() as int),
                windows,
            ) == path_segments(v@, windows),
            done ==> char_views(out@) == path_segments(v@, windows),
        decreases v.len() - pos, !done as int,
    {
        let ghost rest = v@.subrange(pos as int, v@.len() as int);
        let mut j = pos;
        while j < v.len() && !(v[j] == '/' || (windows && v[j] == '\\'))
            invariant
                pos <= j <= v.len(),
                forall|t: int| pos <= t < j ==> !is_separator(#[trigger] v@[t], windows),
            decreases v.len() - j,
        {
            j = j + 1;
        }
        proof {
            assert forall|t: int| 0 <= t < j - pos implies !is_separator(#[trigger] rest[t], windows) by {
                assert(rest[t] == v@[pos + t]);
            }
            if j < v.len() {
                assert(rest[j - pos] == v@[j as int]);
            }
            lemma_separator_is(rest, windows, 0, j - pos);
        }
        let seg = string_of_range(&v, pos, j);
        let segv = chars_of(seg.as_str());
        let keep = segv.len() > 0 && !chars_eq(&segv, &dot);
        let ghost old_out = out@;
        if keep {
            out.push(segv);
        }
        proof {
            let head = v@.subrange(pos as int, j as int);
            assert(rest.subrange(0, j - pos) =~= head);
            if keep {
                assert(char_views(out@) =~= char_views(old_out).push(head));
            } else {
                assert(char_views(out@) =~= char_views(old_out));
            }
            if j < v.len() {
                let tail = v@.subrange(j + 1, v@.len() as int);
                assert(rest.subrange(j - pos + 1, rest.len() as int) =~= tail);
                assert(char_views(out@) + path_segments(tail, windows) =~= char_views(old_out)
                    + path_segments(rest, windows));
            } else {
                assert(head =~= rest);
                assert(char_views(out@) =~= char_views(old_out) + path_segments(rest, windows));
            }
        }
        if j < v.len() {
            pos = j + 1;
        } else {
            done = true;
        }
    }
    out
}

/// Whether the path is codex-hud's own `codex` shim (`.codex-hud/bin/codex`
/// at its end, the stem of the file name being `codex` in any ASCII case),
/// which must not be taken for the stock Codex; `windows` says whether `\\`
/// separates components too, as it does in Windows paths.
pub fn is_codex_hud_managed_shim(candidate: &str, windows: bool) -> (r: bool)
    ensures
        r == is_managed_shim_path(candidate@, windows),
{
    let g = path_segments_exec(candidate, windows);
    let n = g.len();
    if n < 3 {
        return false;
    }
    proof {
        assert(char_views(g@)[n - 1] == g@[n - 1]@);
        assert(char_views(g@)[n - 2] == g@[n - 2]@);
        assert(char_views(g@)[n - 3] == g@[n - 3]@);
    }
    let name = &g[n - 1];
    let name_str = string_of_range(name, 0, name.len());
    let sl = crate::paths::stem_len_exec(name_str.as_str());
    proof {
        assert(name@.subrange(0, name@.len() as int) =~= name@);
        crate::paths::lemma_stem_len_bounds(name@);
    }
    let stem = ascii_lower_exec(&chars_of(string_of_range(name, 0, sl).as_str()));
    let codex = ascii_lower_exec(&chars_of("codex"));
    let bin = chars_of("bin");
    let root = chars_of(".codex-hud");
    proof {
        assert(name@.subrange(0, name@.len() as int) =~= name@);
    }
    chars_eq(&stem, &codex) && chars_eq(&g[n - 2], &bin) && chars_eq(&g[n - 3], &root)
}

// ---------------------------------------------------------------------------
// Choosing the Codex binary
// ---------------------------------------------------------------------------

/// The first candidate that exists and is not codex-hud's own shim.
pub open spec fn first_usable(
    candidates: Seq<Seq<char>>,
    exists: Seq<bool>,
    windows: bool,
) -> Option<Seq<char>>
    decreases candidates.len(),
{
    if candidates.len() == 0 || exists.len() == 0 {
        None
    } else if exists[0] && !is_managed_shim_path(candidates[0], windows) {
        Some(candidates[0])
    } else {
        first_usable(candidates.drop_first(), exists.drop_first(), windows)
    }
}

/// The Codex binary to use: the explicit path when it exists, else the
/// first `PATH` candidate that exists and is not codex-hud's own shim.
pub open spec fn chosen_codex(
    explicit: Option<Seq<char>>,
    explicit_exists: bool,
    candidates: Seq<Seq<char>>,
    exists: Seq<bool>,
    windows: bool,
) -> Option<Seq<char>> {
    match explicit {
        Some(p) if explicit_exists => Some(p),
        _ => first_usable(candidates, exists, windows),
    }
}

/// A binary picked from the `PATH` candidates is never codex-hud's own
/// shim, and it is one of the candidates that exist.
pub proof fn lemma_first_usable_not_shim(
    candidates: Seq<Seq<char>>,
    exists: Seq<bool>,
    windows: bool,
)
    ensures
        first_usable(candidates, exists, windows) matches Some(c) ==> !is_managed_shim_path(
            c,
            windows,
        ) && exists_candidate(candidates, exists, c),
    decreases candidates.len(),
{
    if candidates.len() > 0 && exists.len() > 0 && !(exists[0] && !is_managed_shim_path(
        candidates[0],
        windows,
    )) {
        lemma_first_usable_not_shim(candidates.drop_first(), exists.drop_first(), windows);
        if let Some(c) = first_usable(candidates, exists, windows) {
            let k = choose|k: int|
                0 <= k < candidates.drop_first().len() && k < exists.drop_first().len()
                    && exists.drop_first()[k] && candidates.drop_first()[k] == c;
            assert(candidates[k + 1] == c && exists[k + 1]);
        }
    }
}

/// Whether the candidate at `k` exists and is not codex-hud's own shim.
pub open spec fn usable_at(candidates: Seq<Seq<char>>, exists: Seq<bool>, windows: bool, k: int) -> bool {
    exists[k] && !is_managed_shim_path(candidates[k], windows)
}

/// The binary picked from the `PATH` candidates is the first usable one:
/// there is none exactly when no candidate is usable, and the one picked
/// is usable and comes before every other usable candidate.
pub proof fn lemma_first_usable_is_first(
    candidates: Seq<Seq<char>>,
    exists: Seq<bool>,
    windows: bool,
)
    requires
        candidates.len() == exists.len(),
    ensures
        first_usable(candidates, exists, windows) is None <==> forall|k: int|
            0 <= k < candidates.len() ==> !#[trigger] usable_at(candidates, exists, windows, k),
        first_usable(candidates, exists, windows) matches Some(c) ==> exists|k: int|
            0 <= k < candidates.len() && candidates[k] == c && #[trigger] usable_at(
                candidates,
                exists,
                windows,
                k,
            ) && forall|j: int| 0 <= j < k ==> !#[trigger] usable_at(candidates, exists, windows, j),
    decreases candidates.len(),
{
    if candidates.len() > 0 {
        let cs = candidates.drop_first();
        let es = exists.drop_first();
        lemma_first_usable_is_first(cs, es, windows);
        assert forall|k: int| 0 <= k < cs.len() implies usable_at(cs, es, windows, k) == usable_at(
            candidates,
            exists,
            windows,
            k + 1,
        ) by {}
        if usable_at(candidates, exists, windows, 0) {
            assert(first_usable(candidates, exists, windows) == Some(candidates[0]));
        } else {
            assert(first_usable(candidates, exists, windows) == first_usable(cs, es, windows));
            if first_usable(cs, es, windows) is None {
                assert forall|k: int| 0 <= k < candidates.len() implies !#[trigger] usable_at(
                    candidates,
                    exists,
                    windows,
                    k,
                ) by {
                    if k > 0 {
                        assert(!usable_at(cs, es, windows, k - 1));
                    }
                }
            } else {
                let c = first_usable(cs, es, windows)->0;
                let k = choose|k: int|
                    0 <= k < cs.len() && cs[k] == c && #[trigger] usable_at(cs, es, windows, k)
                        && forall|j: int| 0 <= j < k ==> !#[trigger] usable_at(cs, es, windows, j);
                assert(usable_at(candidates, exists, windows, k + 1));
                assert forall|j: int| 0 <= j < k + 1 implies !#[trigger] usable_at(
                    candidates,
                    exists,
                    windows,
                    j,
                ) by {
                    if j > 0 {
                        assert(!usable_at(cs, es, windows, j - 1));
                    }
                }
                assert(usable_at(cs, es, windows, k));
            }
        }
    }
}

/// `c` is a candidate that exists.
pub open spec fn exists_candidate(candidates: Seq<Seq<char>>, exists: Seq<bool>, c: Seq<char>) -> bool {
    exists|k: int| 0 <= k < candidates.len() && k < exists.len() && exists[k] && candidates[k] == c
}

/// Picks the Codex binary. `candidates` are the paths to try, in `PATH`
/// order, and `exists[i]` tells whether `candidates[i]` exists; an explicit
/// path that exists wins; `windows` says whether the paths are Windows
/// paths. Fails with "Codex binary not found".
pub fn select_codex_path(
    explicit: Option<&str>,
    explicit_exists: bool,
    candidates: &[String],
    exists: &[bool],
    windows: bool,
) -> (r: Result<String, String>)
    requires
        candidates@.len() == exists@.len(),
    ensures
        match chosen_codex(
            match explicit {
                Some(p) => Some(p@),
                None => None,
            },
            explicit_exists,
            views(candidates@),
            exists@,
            windows,
        ) {
            Some(c) => r matches Ok(p) && p@ == c,
            None => r matches Err(e) && e@ == "Codex binary not found"@,
        },
{
    if let Some(p) = explicit {
        if explicit_exists {
            return Ok(owned(p));
        }
    }
    let mut i: usize = 0;
    proof {
        assert(views(candidates@).subrange(0, candidates@.len() as int) =~= views(candidates@));
        assert(exists@.subrange(0, exists@.len() as int) =~= exists@);
    }
    while i < candidates.len()
        invariant
            candidates@.len() == exists@.len(),
            !(explicit is Some && explicit_exists),
            i <= candidates@.len(),
            first_usable(views(candidates@), exists@, windows) == first_usable(
                views(candidates@).subrange(i as int, candidates@.len() as int),
                exists@.subrange(i as int, exists@.len() as int),
                windows,
            ),
        decreases candidates.len() - i,
    {
        let ghost cs = views(candidates@).subrange(i as int, candidates@.len() as int);
        let ghost es = exists@.subrange(i as int, exists@.len() as int);
        proof {
            assert(cs[0] == candidates@[i as int]@);
            assert(es[0] == exists@[i as int]);
            assert(cs.drop_first() =~= views(candidates@).subrange(i + 1, candidates@.len() as int));
            assert(es.drop_first() =~= exists@.subrange(i + 1, exists@.len() as int));
        }
        if exists[i] && !is_codex_hud_managed_shim(candidates[i].as_str(), windows) {
            return Ok(candidates[i].clone());
        }
        i = i + 1;
    }
    proof {
        assert(views(candidates@).subrange(i as int, candidates@.len() as int).len() == 0);
    }
    Err(owned("Codex binary not found"))
}

// ---------------------------------------------------------------------------
// UTF-8 and ASCII marks
// ---------------------------------------------------------------------------

/// Encoding a concatenation encodes the parts one after the other.
pub proof fn lemma_encode_append(a: Seq<char>, b: Seq<char>)
    ensures
        encode_utf8(a + b) == encode_utf8(a) + encode_utf8(b),
    decreases a.len(),
{
    if a.len() == 0 {
        assert(a + b =~= b);
        assert(encode_utf8(a) + encode_utf8(b) =~= encode_utf8(b));
    } else {
        lemma_encode_append(a.drop_first(), b);
        assert((a + b).drop_first() =~= a.drop_first() + b);
        assert((a + b)[0] == a[0]);
        assert(encode_utf8(a + b) =~= encode_utf8(a) + encode_utf8(b));
    }
}

/// Every byte of the encoding of a character outside ASCII is at least
/// `0x80`, and there are at least two of them.
proof fn lemma_scalar_bytes_high(c: char)
    requires
        (c as u32) > 0x7f,
    ensures
        encode_scalar(c as u32).len() >= 2,
        forall|t: int| 0 <= t < encode_scalar(c as u32).len() ==> #[trigger] encode_scalar(c as u32)[t] >= 0x80,
{
    let v = c as u32;
    char_is_scalar(c);
    assert(vstd::utf8::leading_byte_width_2(v) >= 0x80) by (bit_vector);
    assert(vstd::utf8::leading_byte_width_3(v) >= 0x80) by (bit_vector);
    assert(vstd::utf8::leading_byte_width_4(v) >= 0x80) by (bit_vector);
    assert(vstd::utf8::last_continuation_byte(v) >= 0x80) by (bit_vector);
    assert(vstd::utf8::second_last_continuation_byte(v) >= 0x80) by (bit_vector);
    assert(vstd::utf8::third_last_continuation_byte(v) >= 0x80) by (bit_vector);
}

/// The encoding of an ASCII character is that one byte.
proof fn lemma_scalar_ascii(c: char)
    requires
        (c as u32) <= 0x7f,
    ensures
        encode_scalar(c as u32) == seq![(c as u32) as u8],
{
    let v = c as u32;
    assert(v as u8 == leading_byte_width_1(v)) by (bit_vector)
        requires
            v <= 0x7f,
    ;
}

/// An ASCII text at the start of an encoding is at the start of the text.
proof fn lemma_ascii_prefix(s: Seq<char>, n: Seq<char>)
    requires
        is_ascii_chars(n),
        matches_at(encode_utf8(s), encode_utf8(n), 0),
    ensures
        matches_at(s, n, 0),
    decreases n.len(),
{
    if n.len() == 0 {
        assert(s.subrange(0, 0) =~= n);
    } else {
        let es = encode_utf8(s);
        let en = encode_utf8(n);
        let nv = n[0] as u32;
        assert('\0' <= n[0] <= '\u{7f}');
        lemma_scalar_ascii(n[0]);
        let n1 = n.drop_first();
        assert(en =~= seq![nv as u8] + encode_utf8(n1));
        assert(es.len() > 0);
        assert(s.len() > 0);
        let c = s[0];
        let cv = c as u32;
        assert(es[0] == en[0]) by {
            assert(es.subrange(0, en.len() as int)[0] == es[0]);
        }
        if cv > 0x7f {
            lemma_scalar_bytes_high(c);
            assert(es[0] == encode_scalar(cv)[0]);
            assert(nv <= 0x7f ==> (nv as u8) < 0x80) by (bit_vector);
        } else {
            lemma_scalar_ascii(c);
            assert(cv <= 0x7f && nv <= 0x7f && (cv as u8) == (nv as u8) ==> cv == nv) by (bit_vector);
            assert(cv == nv);
            vstd::utf8::char_u32_cast(c, cv);
            vstd::utf8::char_u32_cast(n[0], nv);
            assert(c == n[0]);
            let s1 = s.drop_first();
            assert(es =~= seq![cv as u8] + encode_utf8(s1));
            assert forall|t: int| 0 <= t < n1.len() implies '\0' <= #[trigger] n1[t] <= '\u{7f}' by {
                assert(n1[t] == n[t + 1]);
            }
            assert(encode_utf8(s1).subrange(0, encode_utf8(n1).len() as int) =~= encode_utf8(n1)) by {
                assert forall|t: int| 0 <= t < encode_utf8(n1).len() implies #[trigger] encode_utf8(s1)[t] == encode_utf8(n1)[t] by {
                    assert(es.subrange(0, en.len() as int)[t + 1] == en[t + 1]);
                }
            }
            lemma_ascii_prefix(s1, n1);
            assert(s.subrange(0, n.len() as int) =~= n) by {
                assert forall|t: int| 0 <= t < n.len() implies #[trigger] s.subrange(0, n.len() as int)[t] == n[t] by {
                    if t > 0 {
                        assert(s1.subrange(0, n1.len() as int)[t - 1] == n1[t - 1]);
                    }
                }
            }
        }
    }
}

/// An ASCII text that occurs in an encoding occurs in the text.
pub proof fn lemma_ascii_occurrence(s: Seq<char>, n: Seq<char>, q: int)
    requires
        is_ascii_chars(n),
        n.len() > 0,
        matches_at(encode_utf8(s), encode_utf8(n), q),
    ensures
        contains(s, n),
    decreases s.len(),
{
    let es = encode_utf8(s);
    let en = encode_utf8(n);
    assert(s.len() > 0);
    let w = encode_scalar(s[0] as u32);
    let s1 = s.drop_first();
    assert(es == w + encode_utf8(s1));
    if q >= w.len() {
        assert(encode_utf8(s1).subrange(q - w.len(), q - w.len() + en.len()) =~= es.subrange(
            q,
            q + en.len(),
        ));
        lemma_ascii_occurrence(s1, n, q - w.len());
        let k = choose|k: int| matches_at(s1, n, k);
        assert(s.subrange(k + 1, k + 1 + n.len()) =~= s1.subrange(k, k + n.len()));
        assert(matches_at(s, n, k + 1));
    } else if q == 0 {
        lemma_ascii_prefix(s, n);
    } else {
        let c = s[0];
        if (c as u32) <= 0x7f {
            lemma_scalar_ascii(c);
        } else {
            lemma_scalar_bytes_high(c);
            assert(es[q] == w[q]);
            assert(es.subrange(q, q + en.len())[0] == es[q]);
            let nv = n[0] as u32;
            assert('\0' <= n[0] <= '\u{7f}');
            lemma_scalar_ascii(n[0]);
            assert(en =~= seq![nv as u8] + encode_utf8(n.drop_first()));
            assert(nv <= 0x7f ==> (nv as u8) < 0x80) by (bit_vector);
        }
    }
}

/// The encoding of an ASCII text is its characters as bytes.
proof fn lemma_ascii_bytes(n: Seq<char>)
    requires
        is_ascii_chars(n),
    ensures
        encode_utf8(n).len() == n.len(),
        forall|t: int| 0 <= t < n.len() ==> #[trigger] encode_utf8(n)[t] == (n[t] as u32) as u8,
    decreases n.len(),
{
    if n.len() > 0 {
        let n1 = n.drop_first();
        assert('\0' <= n[0] <= '\u{7f}');
        lemma_scalar_ascii(n[0]);
        assert forall|t: int| 0 <= t < n1.len() implies '\0' <= #[trigger] n1[t] <= '\u{7f}' by {
            assert(n1[t] == n[t + 1]);
        }
        lemma_ascii_bytes(n1);
        assert forall|t: int| 0 <= t < n.len() implies #[trigger] encode_utf8(n)[t] == (n[t] as u32) as u8 by {
            if t > 0 {
                assert(encode_utf8(n)[t] == encode_utf8(n1)[t - 1]);
                assert(n1[t - 1] == n[t]);
            }
        }
    }
}

/// The encoding of an ASCII text without line breaks has no `\n` byte.
proof fn lemma_ascii_no_newline_byte(n: Seq<char>)
    requires
        is_ascii_chars(n),
        no_newline(n),
    ensures
        encode_utf8(n).len() == n.len(),
        forall|t: int| 0 <= t < n.len() ==> #[trigger] encode_utf8(n)[t] != 10,
{
    lemma_ascii_bytes(n);
    assert forall|t: int| 0 <= t < n.len() implies #[trigger] encode_utf8(n)[t] != 10 by {
        let v = n[t] as u32;
        assert('\0' <= n[t] <= '\u{7f}');
        assert(n[t] != '\n');
        assert(v != 10);
        assert(v <= 0x7f && v != 10 ==> (v as u8) != 10) by (bit_vector);
    }
}

/// The first occurrence of a byte text, from its characterization.
proof fn lemma_find_is_bytes(h: Seq<u8>, n: Seq<u8>, q: int)
    requires
        matches_at(h, n, q),
        forall|j: int| 0 <= j < q ==> !matches_at(h, n, j),
    ensures
        find(h, n) == Some(q),
{
    lemma_find_from_bytes(h, n, 0);
}

/// A text without managed marks has no start mark in its encoding.
proof fn lemma_no_start_bytes(s: Seq<char>)
    requires
        !contains(s, MANAGED_TAG@),
    ensures
        subslice_position(encode_utf8(s), block_start_bytes()) is None,
{
    lemma_snippet_parts();
    let st = MANAGED_BLOCK_START@;
    lemma_ascii_bytes(st);
    let h = encode_utf8(s);
    let n = block_start_bytes();
    if n.len() > 0 && h.len() >= n.len() {
        lemma_find_from_bytes(h, n, 0);
        if let Some(q) = find(h, n) {
            lemma_ascii_occurrence(s, st, q);
            assert(matches_at(st, MANAGED_TAG@, 3));
            lemma_contains_transitive(s, st, MANAGED_TAG@);
        }
    }
}

/// Patching the npm launcher keeps its digest: with the managed snippet
/// cut out, the bytes of the patched launcher are those of the original,
/// so the launcher's compatibility key stays the same. This holds for a
/// launcher without managed marks whose `env` line ends with a line break.
pub proof fn lemma_patched_launcher_digest(original: Seq<char>)
    requires
        !contains(original, MANAGED_TAG@),
        find(original, NPM_PATCH_MARKER@) matches Some(i) && i + NPM_PATCH_MARKER@.len()
            < original.len() && original[i + NPM_PATCH_MARKER@.len()] == '\n',
    ensures
        marker_replace(original, NPM_PATCH_MARKER@, NPM_PATCH_SNIPPET@) matches Ok(p)
            && without_managed_block_bytes(encode_utf8(p)) == encode_utf8(original)
            && normalized_sha256(encode_utf8(p)) == normalized_sha256(encode_utf8(original)),
{
    lemma_snippet_parts();
    let m = NPM_PATCH_MARKER@;
    let st = MANAGED_BLOCK_START@;
    let en = MANAGED_BLOCK_END@;
    let b = snippet_body();
    let nl = seq!['\n'];
    lemma_find_contains(original, m);
    let i = find(original, m)->0;
    let k = i + m.len();
    let x = original.subrange(0, k);
    let c = original.subrange(k + 1, original.len() as int);
    assert(original.subrange(i, k) =~= m);
    assert(original =~= x + nl + c);
    let p = replace_first(original, m, NPM_PATCH_SNIPPET@);
    assert(p =~= x + nl + st + nl + b + nl + en + nl + c);
    // the bytes
    let nb = seq![10u8];
    lemma_scalar_ascii('\n');
    let nv = '\n' as u32;
    assert(nv == 10);
    assert(nv == 10 ==> (nv as u8) == 10) by (bit_vector);
    assert(nl.drop_first() =~= Seq::<char>::empty());
    assert(encode_utf8(nl) == encode_scalar(nv) + encode_utf8(nl.drop_first()));
    assert(encode_utf8(nl) =~= nb);
    let p1 = x + nl;
    let p2 = p1 + st;
    let p3 = p2 + nl;
    let p4 = p3 + b;
    let p5 = p4 + nl;
    let p6 = p5 + en;
    let p7 = p6 + nl;
    lemma_encode_append(x, nl);
    lemma_encode_append(p1, st);
    lemma_encode_append(p2, nl);
    lemma_encode_append(p3, b);
    lemma_encode_append(p4, nl);
    lemma_encode_append(p5, en);
    lemma_encode_append(p6, nl);
    lemma_encode_append(p7, c);
    lemma_encode_append(p1, c);
    let xb = encode_utf8(x);
    let sb = encode_utf8(st);
    let bb = encode_utf8(b);
    let eb = encode_utf8(en);
    let cb = encode_utf8(c);
    let bytes = encode_utf8(p);
    assert(p =~= p7 + c);
    assert(bytes =~= xb + nb + sb + nb + bb + nb + eb + nb + cb);
    assert(encode_utf8(original) =~= xb + nb + cb);
    lemma_ascii_no_newline_byte(st);
    lemma_ascii_no_newline_byte(en);
    assert(block_start_bytes() == sb);
    assert(block_end_bytes() == eb);
    let kb = xb.len() as int;
    // the first start mark
    let s0 = kb + 1;
    assert(bytes[kb] == 10);
    assert(bytes.subrange(s0, s0 + 29) =~= sb);
    assert forall|j: int| 0 <= j < s0 implies !matches_at(bytes, sb, j) by {
        if matches_at(bytes, sb, j) {
            if j + 29 <= kb {
                assert(xb.subrange(j, j + 29) =~= bytes.subrange(j, j + 29));
                lemma_ascii_occurrence(x, st, j);
                lemma_contains_middle(Seq::<char>::empty(), x, nl + c, st);
                assert(Seq::<char>::empty() + x + (nl + c) =~= original);
                lemma_contains_transitive(original, st, MANAGED_TAG@);
            } else {
                assert(bytes.subrange(j, j + 29)[kb - j] == bytes[kb]);
            }
        }
    }
    lemma_find_is_bytes(bytes, sb, s0);
    assert(subslice_position(bytes, block_start_bytes()) == Some(s0));
    // the first end mark after it
    let r = bytes.subrange(s0, bytes.len() as int);
    let t = st + nl + b;
    lemma_encode_append(st, nl);
    lemma_encode_append(st + nl, b);
    let tb = encode_utf8(t);
    assert(tb =~= sb + nb + bb);
    assert(r =~= tb + nb + eb + nb + cb);
    let e_rel = tb.len() as int + 1;
    assert(r[tb.len() as int] == 10);
    assert(r.subrange(e_rel, e_rel + 27) =~= eb);
    assert forall|j: int| 0 <= j < e_rel implies !matches_at(r, eb, j) by {
        if matches_at(r, eb, j) {
            if j + 27 <= tb.len() {
                assert(tb.subrange(j, j + 27) =~= r.subrange(j, j + 27));
                lemma_ascii_occurrence(t, en, j);
            } else {
                assert(r.subrange(j, j + 27)[tb.len() - j] == r[tb.len() as int]);
            }
        }
    }
    lemma_find_is_bytes(r, eb, e_rel);
    assert(subslice_position(r, block_end_bytes()) == Some(e_rel));
    // what is left
    let tail = bytes.subrange(s0 + e_rel + 27, bytes.len() as int);
    assert(tail =~= nb + cb);
    assert(drop_one_line_break(tail) =~= cb);
    assert(bytes.subrange(0, s0) =~= xb + nb);
    assert(without_managed_block_bytes(bytes) =~= xb + nb + cb);
    // the original has no managed snippet to cut
    lemma_no_start_bytes(original);
}

} // verus!
