//! Paths, handled as text: the managed directories under a home directory
//! and the joins and extension changes that the patching steps need.
//!
//! Joins follow `Path::join` on Unix: a relative part is appended after a
//! `/` (added unless the base is empty or already ends with one) and an
//! absolute part replaces the base. The file name of a path is its last
//! `/`-separated segment.
use vstd::prelude::*;

use crate::text::{chars_of, owned, string_of_range, trim_end_char};

verus! {

/// The managed root and bin directories of codex-hud.
#[derive(Debug, Clone, PartialEq, Eq)]
pub struct ManagedPaths {
    pub root: String,
    pub bin_dir: String,
}

/// The path separator of the platform.
pub open spec fn separator(windows: bool) -> char {
    if windows {
        '\\'
    } else {
        '/'
    }
}

/// The managed root: the home directory without trailing separators,
/// followed by the separator and `.codex-hud`.
pub open spec fn managed_root(home: Seq<char>, windows: bool) -> Seq<char> {
    trim_end_char(home, separator(windows)) + seq![separator(windows)] + ".codex-hud"@
}

/// The managed bin directory: `bin` under the managed root.
pub open spec fn managed_bin_dir(home: Seq<char>, windows: bool) -> Seq<char> {
    managed_root(home, windows) + seq![separator(windows)] + "bin"@
}

/// `s` without trailing `c` characters.
pub fn trim_end_char_exec(s: &str, c: char) -> (r: String)
    ensures
        r@ == trim_end_char(s@, c),
{
    let v = chars_of(s);
    let mut n = v.len();
    proof {
        assert(v@.subrange(0, v@.len() as int) =~= v@);
    }
    while n > 0 && v[n - 1] == c
        invariant
            n <= v.len(),
            trim_end_char(v@, c) == trim_end_char(v@.subrange(0, n as int), c),
        decreases n,
    {
        proof {
            let w = v@.subrange(0, n as int);
            assert(w.drop_last() =~= v@.subrange(0, n - 1));
        }
        n = n - 1;
    }
    proof {
        assert(v@.subrange(0, v@.len() as int) =~= v@);
    }
    string_of_range(&v, 0, n)
}

/// The managed root and bin directories under `home`; Windows paths use
/// `\` as the separator, the others `/`.
pub fn managed_paths(home: &str, windows: bool) -> (p: ManagedPaths)
    ensures
        p.root@ == managed_root(home@, windows),
        p.bin_dir@ == managed_bin_dir(home@, windows),
{
    let sep = if windows {
        '\\'
    } else {
        '/'
    };
    let mut root = trim_end_char_exec(home, sep);
    crate::text::push_char(&mut root, sep);
    root.append(".codex-hud");
    let mut bin_dir = root.clone();
    crate::text::push_char(&mut bin_dir, sep);
    bin_dir.append("bin");
    ManagedPaths { root, bin_dir }
}

/// `Path::join` on Unix.
pub open spec fn path_join(base: Seq<char>, part: Seq<char>) -> Seq<char> {
    if part.len() > 0 && part[0] == '/' {
        part
    } else if base.len() == 0 {
        part
    } else if base.last() == '/' {
        base + part
    } else {
        base + seq!['/'] + part
    }
}

/// Joins `part` onto `base` as `Path::join` does on Unix.
pub fn join_path(base: &str, part: &str) -> (r: String)
    ensures
        r@ == path_join(base@, part@),
{
    let b = chars_of(base);
    let p = chars_of(part);
    if p.len() > 0 && p[0] == '/' {
        return owned(part);
    }
    if b.len() == 0 {
        return owned(part);
    }
    let mut out = owned(base);
    if b[b.len() - 1] != '/' {
        crate::text::push_char(&mut out, '/');
    }
    out.append(part);
    out
}

/// The position just after the last `/` of a path (0 when there is none).
pub open spec fn file_name_start(s: Seq<char>) -> int
    decreases s.len(),
{
    if s.len() == 0 {
        0
    } else if s.last() == '/' {
        s.len() as int
    } else {
        file_name_start(s.drop_last())
    }
}

/// The length of the file stem of a file name: up to its last `.`, unless
/// that dot is the first character or there is none.
pub open spec fn stem_len(name: Seq<char>) -> int
    decreases name.len(),
{
    if name.len() <= 1 {
        name.len() as int
    } else if name.last() == '.' {
        name.len() - 1
    } else {
        let k = stem_len(name.drop_last());
        if k == name.len() - 1 {
            name.len() as int
        } else {
            k
        }
    }
}

/// `Path::with_extension`: the file name's extension replaced by `ext`
/// (added when it has none); a path whose file name is empty or `..` is
/// left as it is.
pub open spec fn path_with_extension(s: Seq<char>, ext: Seq<char>) -> Seq<char> {
    let start = file_name_start(s);
    let name = s.subrange(start, s.len() as int);
    if name.len() == 0 || name == ".."@ {
        s
    } else {
        s.subrange(0, start + stem_len(name)) + seq!['.'] + ext
    }
}

proof fn lemma_file_name_start_bounds(s: Seq<char>)
    ensures
        0 <= file_name_start(s) <= s.len(),
        forall|j: int| file_name_start(s) <= j < s.len() ==> s[j] != '/',
        file_name_start(s) > 0 ==> s[file_name_start(s) - 1] == '/',
    decreases s.len(),
{
    if s.len() > 0 && s.last() != '/' {
        lemma_file_name_start_bounds(s.drop_last());
        assert forall|j: int| file_name_start(s) <= j < s.len() implies s[j] != '/' by {
            if j < s.len() - 1 {
                assert(s.drop_last()[j] == s[j]);
            }
        }
    }
}

/// The stem ends at the last dot of the name when that dot is not the
/// first character.
pub proof fn lemma_stem_len_dot(name: Seq<char>, d: int)
    requires
        1 <= d < name.len(),
        name[d] == '.',
        forall|j: int| d < j < name.len() ==> name[j] != '.',
    ensures
        stem_len(name) == d,
    decreases name.len(),
{
    if d < name.len() - 1 {
        lemma_stem_len_dot(name.drop_last(), d);
    }
}

/// Without a dot after the first character, the stem is the whole name.
pub proof fn lemma_stem_len_no_dot(name: Seq<char>)
    requires
        forall|j: int| 1 <= j < name.len() ==> name[j] != '.',
    ensures
        stem_len(name) == name.len(),
    decreases name.len(),
{
    if name.len() > 1 {
        lemma_stem_len_no_dot(name.drop_last());
    }
}

pub proof fn lemma_stem_len_bounds(name: Seq<char>)
    ensures
        0 <= stem_len(name) <= name.len(),
        name.len() > 0 ==> stem_len(name) > 0,
    decreases name.len(),
{
    if name.len() > 1 && name.last() != '.' {
        lemma_stem_len_bounds(name.drop_last());
    }
}

/// The length of the file stem of a file name.
pub fn stem_len_exec(name: &str) -> (r: usize)
    ensures
        r == stem_len(name@),
{
    let v = chars_of(name);
    let n = v.len();
    if n <= 1 {
        return n;
    }
    let mut k = n;
    while k > 1 && v[k - 1] != '.'
        invariant
            n == v@.len(),
            1 <= k <= n,
            forall|j: int| k <= j < n ==> v@[j] != '.',
        decreases k,
    {
        k = k - 1;
    }
    proof {
        if k > 1 {
            lemma_stem_len_dot(v@, k - 1);
        } else {
            lemma_stem_len_no_dot(v@);
        }
    }
    if k > 1 {
        k - 1
    } else {
        n
    }
}

/// Changes the extension of the path's file name to `ext`.
pub fn with_extension(path: &str, ext: &str) -> (r: String)
    ensures
        r@ == path_with_extension(path@, ext@),
{
    let v = chars_of(path);
    proof {
        lemma_file_name_start_bounds(v@);
        assert(v@.subrange(0, v@.len() as int) =~= v@);
    }
    let mut start = v.len();
    while start > 0 && v[start - 1] != '/'
        invariant
            start <= v.len(),
            file_name_start(v@) == file_name_start(v@.subrange(0, start as int)),
        decreases start,
    {
        proof {
            assert(v@.subrange(0, start as int).drop_last() =~= v@.subrange(0, start - 1));
        }
        start = start - 1;
    }
    proof {
        assert(v@.subrange(0, v@.len() as int) =~= v@);
        let w = v@.subrange(0, start as int);
        if start > 0 {
            assert(w.last() == v@[start - 1]);
        }
    }
    let name_len = v.len() - start;
    let ghost name = v@.subrange(start as int, v@.len() as int);
    if name_len == 0 || (name_len == 2 && v[start] == '.' && v[start + 1] == '.') {
        proof {
            reveal_strlit("..");
            if name_len == 2 {
                assert(name =~= ".."@);
            }
        }
        return owned(path);
    }
    proof {
        reveal_strlit("..");
        if name.len() == 2 {
            assert(name[0] != '.' || name[1] != '.');
            assert(name != ".."@);
        }
        lemma_stem_len_bounds(name);
    }
    // the stem: up to the last dot of the name, unless it is its first character
    let mut k = name_len;
    while k > 1 && v[start + k - 1] != '.'
        invariant
            1 <= name_len,
            name_len == name.len(),
            start + name_len == v.len(),
            name == v@.subrange(start as int, v@.len() as int),
            1 <= k <= name_len,
            forall|j: int| k <= j < name_len ==> name[j] != '.',
        decreases k,
    {
        k = k - 1;
    }
    let stem = if k > 1 {
        k - 1
    } else {
        name_len
    };
    proof {
        if k > 1 {
            assert(name[k - 1] == v@[start + k - 1]);
            lemma_stem_len_dot(name, k - 1);
        } else {
            lemma_stem_len_no_dot(name);
        }
    }
    let k = stem;
    let stem_end = start + k;
    let mut out = string_of_range(&v, 0, stem_end);
    crate::text::push_char(&mut out, '.');
    out.append(ext);
    out
}

} // verus!
