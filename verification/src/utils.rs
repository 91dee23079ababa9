//! Name resolution and path selection helpers.
//!
//! `parse_weight` splits a display name into a family and a trailing weight
//! keyword drawn from a fixed vocabulary; the index fallback and the platform
//! finder both rely on this split.

use vstd::prelude::*;

verus! {

/// Code point of `c` with ASCII upper-case letters folded to lower case.
pub open spec fn lower_char_code(c: char) -> u32 {
    if 65 <= c as u32 <= 90 {
        (c as u32 + 32) as u32
    } else {
        c as u32
    }
}

/// `a` and `b` are equal once ASCII letters are compared case-insensitively.
pub open spec fn eq_ignore_ascii(a: Seq<char>, b: Seq<char>) -> bool {
    a.len() == b.len() && forall|i: int|
        0 <= i < a.len() ==> lower_char_code(a[i]) == lower_char_code(b[i])
}

/// Index of the last occurrence of `c` in `s`, or -1 when absent.
pub open spec fn last_index_of(s: Seq<char>, c: char) -> int
    decreases s.len(),
{
    if s.len() == 0 {
        -1
    } else if s[s.len() - 1] == c {
        s.len() - 1
    } else {
        last_index_of(s.drop_last(), c)
    }
}

pub proof fn lemma_last_index_of(s: Seq<char>, c: char)
    ensures
        last_index_of(s, c) >= 0 ==> {
            &&& last_index_of(s, c) < s.len()
            &&& s[last_index_of(s, c)] == c
            &&& forall|j: int| last_index_of(s, c) < j < s.len() ==> s[j] != c
        },
        last_index_of(s, c) == -1 ==> forall|j: int| 0 <= j < s.len() ==> s[j] != c,
    decreases s.len(),
{
    if s.len() > 0 && s[s.len() - 1] != c {
        lemma_last_index_of(s.drop_last(), c);
        assert(forall|j: int| 0 <= j < s.len() - 1 ==> s[j] == s.drop_last()[j]);
    }
}

/// The fixed, closed vocabulary of recognized weight/style keywords,
/// compared case-insensitively.
pub open spec fn is_weight_keyword(w: Seq<char>) -> bool {
    ||| eq_ignore_ascii(w, "extralight"@)
    ||| eq_ignore_ascii(w, "ultralight"@)
    ||| eq_ignore_ascii(w, "extrathin"@)
    ||| eq_ignore_ascii(w, "light"@)
    ||| eq_ignore_ascii(w, "thin"@)
    ||| eq_ignore_ascii(w, "demilight"@)
    ||| eq_ignore_ascii(w, "semilight"@)
    ||| eq_ignore_ascii(w, "book"@)
    ||| eq_ignore_ascii(w, "regular"@)
    ||| eq_ignore_ascii(w, "normal"@)
    ||| eq_ignore_ascii(w, "medium"@)
    ||| eq_ignore_ascii(w, "demibold"@)
    ||| eq_ignore_ascii(w, "semibold"@)
    ||| eq_ignore_ascii(w, "bold"@)
    ||| eq_ignore_ascii(w, "heavy"@)
    ||| eq_ignore_ascii(w, "black"@)
    ||| eq_ignore_ascii(w, "extrabold"@)
    ||| eq_ignore_ascii(w, "ultrabold"@)
}

/// The `(family, style)` pair `parse_weight` returns for `name`.
pub open spec fn spec_parse_weight(name: Seq<char>) -> (Seq<char>, Seq<char>) {
    let i = last_index_of(name, ' ');
    if i >= 0 && is_weight_keyword(name.subrange(i + 1, name.len() as int)) {
        (name.subrange(0, i), name.subrange(i + 1, name.len() as int))
    } else {
        (name, "Regular"@)
    }
}

/// Case-insensitive (ASCII) equality of two string slices.
pub fn str_eq_ignore_ascii_case(a: &str, b: &str) -> (r: bool)
    ensures
        r == eq_ignore_ascii(a@, b@),
{
    let a_len = a.unicode_len();
    let b_len = b.unicode_len();
    if a_len != b_len {
        return false;
    }
    for i in 0..a_len
        invariant
            a_len == a@.len(),
            b_len == b@.len(),
            a_len == b_len,
            forall|j: int| 0 <= j < i ==> lower_char_code(a@[j]) == lower_char_code(b@[j]),
    {
        let ca = a.get_char(i) as u32;
        let cb = b.get_char(i) as u32;
        let la: u32 = if 65 <= ca && ca <= 90 { ca + 32 } else { ca };
        let lb: u32 = if 65 <= cb && cb <= 90 { cb + 32 } else { cb };
        if la != lb {
            return false;
        }
    }
    true
}

/// The trailing word is one of the recognized weight keywords.
fn is_weight(w: &str) -> (r: bool)
    ensures
        r == is_weight_keyword(w@),
{
    ||| str_eq_ignore_ascii_case(w, "extralight")
    ||| str_eq_ignore_ascii_case(w, "ultralight")
    ||| str_eq_ignore_ascii_case(w, "extrathin")
    ||| str_eq_ignore_ascii_case(w, "light")
    ||| str_eq_ignore_ascii_case(w, "thin")
    ||| str_eq_ignore_ascii_case(w, "demilight")
    ||| str_eq_ignore_ascii_case(w, "semilight")
    ||| str_eq_ignore_ascii_case(w, "book")
    ||| str_eq_ignore_ascii_case(w, "regular")
    ||| str_eq_ignore_ascii_case(w, "normal")
    ||| str_eq_ignore_ascii_case(w, "medium")
    ||| str_eq_ignore_ascii_case(w, "demibold")
    ||| str_eq_ignore_ascii_case(w, "semibold")
    ||| str_eq_ignore_ascii_case(w, "bold")
    ||| str_eq_ignore_ascii_case(w, "heavy")
    ||| str_eq_ignore_ascii_case(w, "black")
    ||| str_eq_ignore_ascii_case(w, "extrabold")
    ||| str_eq_ignore_ascii_case(w, "ultrabold")
}

/// Index of the last occurrence of `c` in `name`, or `None` when absent.
fn find_last(name: &str, c: char) -> (r: Option<usize>)
    ensures
        match r {
            Some(i) => i == last_index_of(name@, c) && i < name@.len(),
            None => last_index_of(name@, c) == -1,
        },
{
    let len = name.unicode_len();
    let mut i = len;
    while i > 0
        invariant
            len == name@.len(),
            i <= len,
            last_index_of(name@.subrange(0, len as int), c) == last_index_of(
                name@.subrange(0, i as int),
                c,
            ),
        decreases i,
    {
        proof {
            assert(name@.subrange(0, i as int).drop_last() =~= name@.subrange(0, i - 1));
        }
        if name.get_char(i - 1) == c {
            proof {
                assert(name@ =~= name@.subrange(0, len as int));
            }
            return Some(i - 1);
        }
        i = i - 1;
    }
    proof {
        assert(name@ =~= name@.subrange(0, len as int));
        assert(name@.subrange(0, 0) =~= Seq::<char>::empty());
    }
    None
}

/// Split `name` at its last space into a candidate family and trailing word;
/// when the trailing word is a recognized weight keyword, return the pair,
/// otherwise return the whole name with the style "Regular".
pub fn parse_weight(name: &str) -> (r: (&str, &str))
    ensures
        r.0@ == spec_parse_weight(name@).0,
        r.1@ == spec_parse_weight(name@).1,
{
    let len = name.unicode_len();
    if let Some(i) = find_last(name, ' ') {
        proof {
            lemma_last_index_of(name@, ' ');
        }
        let family = name.substring_char(0, i);
        let weight = name.substring_char(i + 1, len);
        if is_weight(weight) {
            return (family, weight);
        }
    }
    (name, "Regular")
}

/// `a` is lexicographically at most `b` by code point, comparing from
/// position `i` on (the first `i` characters are assumed equal).
pub open spec fn lex_le_from(a: Seq<char>, b: Seq<char>, i: int) -> bool
    decreases a.len() - i,
{
    if i >= a.len() {
        true
    } else if i >= b.len() {
        false
    } else if (a[i] as u32) < (b[i] as u32) {
        true
    } else if (a[i] as u32) > (b[i] as u32) {
        false
    } else {
        lex_le_from(a, b, i + 1)
    }
}

/// Lexicographic order on strings by code point: the order `Ord` on `str`
/// induces.
pub open spec fn lex_le(a: Seq<char>, b: Seq<char>) -> bool {
    lex_le_from(a, b, 0)
}

pub proof fn lemma_lex_refl_from(a: Seq<char>, i: int)
    ensures
        lex_le_from(a, a, i),
    decreases a.len() - i,
{
    if i < a.len() {
        lemma_lex_refl_from(a, i + 1);
    }
}

pub proof fn lemma_lex_total_from(a: Seq<char>, b: Seq<char>, i: int)
    ensures
        lex_le_from(a, b, i) || lex_le_from(b, a, i),
    decreases a.len() - i,
{
    if i < a.len() && i < b.len() && (a[i] as u32) == (b[i] as u32) {
        lemma_lex_total_from(a, b, i + 1);
    }
}

pub proof fn lemma_lex_trans_from(a: Seq<char>, b: Seq<char>, c: Seq<char>, i: int)
    requires
        lex_le_from(a, b, i),
        lex_le_from(b, c, i),
    ensures
        lex_le_from(a, c, i),
    decreases a.len() - i,
{
    if i < a.len() {
        if i < b.len() && i < c.len() && (a[i] as u32) == (b[i] as u32) && (b[i] as u32) == (
        c[i] as u32) {
            lemma_lex_trans_from(a, b, c, i + 1);
        }
    }
}

proof fn lemma_lex_antisym_from(a: Seq<char>, b: Seq<char>, i: int)
    requires
        0 <= i <= a.len(),
        0 <= i <= b.len(),
        lex_le_from(a, b, i),
        lex_le_from(b, a, i),
    ensures
        a.skip(i) =~= b.skip(i),
    decreases a.len() - i,
{
    if i < a.len() {
        assert(i < b.len());
        assert((a[i] as u32) == (b[i] as u32));
        vstd::utf8::char_u32_cast(a[i], a[i] as u32);
        vstd::utf8::char_u32_cast(b[i], b[i] as u32);
        assert(a[i] == b[i]);
        lemma_lex_antisym_from(a, b, i + 1);
        assert forall|q: int| 0 <= q < a.skip(i).len() implies a.skip(i)[q] == b.skip(i)[q] by {
            if q > 0 {
                assert(a.skip(i + 1)[q - 1] == b.skip(i + 1)[q - 1]);
            }
        }
    } else {
        if i < b.len() {
            assert(!lex_le_from(b, a, i));
        }
    }
}

/// Antisymmetry of `lex_le`: strings that compare at most each other are
/// equal.
pub proof fn lemma_lex_antisym(a: Seq<char>, b: Seq<char>)
    requires
        lex_le(a, b),
        lex_le(b, a),
    ensures
        a == b,
{
    lemma_lex_antisym_from(a, b, 0);
    assert(a.skip(0) =~= a);
    assert(b.skip(0) =~= b);
    assert(a =~= b);
}

/// Totality of `lex_le`: any two strings compare one way or the other.
pub proof fn lemma_lex_total(a: Seq<char>, b: Seq<char>)
    ensures
        lex_le(a, b) || lex_le(b, a),
{
    lemma_lex_total_from(a, b, 0);
}

/// Transitivity of `lex_le`.
pub proof fn lemma_lex_trans(a: Seq<char>, b: Seq<char>, c: Seq<char>)
    requires
        lex_le(a, b),
        lex_le(b, c),
    ensures
        lex_le(a, c),
{
    lemma_lex_trans_from(a, b, c, 0);
}

/// Character-for-character string equality.
pub fn str_eq(a: &str, b: &str) -> (r: bool)
    ensures
        r == (a@ == b@),
{
    let a_len = a.unicode_len();
    let b_len = b.unicode_len();
    if a_len != b_len {
        proof {
            assert(a@ != b@) by {
                if a@ == b@ {
                    assert(a@.len() == b@.len());
                }
            }
        }
        return false;
    }
    let mut i: usize = 0;
    while i < a_len
        invariant
            i <= a_len,
            a_len == a@.len(),
            b_len == b@.len(),
            a_len == b_len,
            forall|q: int| 0 <= q < i ==> a@[q] == b@[q],
        decreases a_len - i,
    {
        if a.get_char(i) != b.get_char(i) {
            return false;
        }
        i = i + 1;
    }
    proof {
        assert(a@ =~= b@);
    }
    true
}

/// Compare two strings in lexicographic code-point order.
pub fn str_le(a: &str, b: &str) -> (r: bool)
    ensures
        r == lex_le(a@, b@),
{
    let a_len = a.unicode_len();
    let b_len = b.unicode_len();
    let mut i: usize = 0;
    loop
        invariant
            i <= a_len,
            i <= b_len,
            a_len == a@.len(),
            b_len == b@.len(),
            lex_le(a@, b@) == lex_le_from(a@, b@, i as int),
        decreases a_len - i,
    {
        if i >= a_len {
            return true;
        }
        if i >= b_len {
            return false;
        }
        let ca = a.get_char(i) as u32;
        let cb = b.get_char(i) as u32;
        if ca < cb {
            return true;
        }
        if ca > cb {
            return false;
        }
        i = i + 1;
    }
}

/// Default location of the exported font-usage list. A caller-supplied
/// location is not supported.
pub fn get_font_list_path(path: Option<&str>) -> (r: &str)
    requires
        path is None,
    ensures
        r@ == "./fonts.txt"@,
{
    "./fonts.txt"
}

/// The extension of `path`: what follows the last `.` of its final
/// component, absent when the component has no `.` past its first
/// character.
pub open spec fn spec_extension(path: Seq<char>) -> Option<Seq<char>> {
    let comp = path.subrange(last_index_of(path, '/') + 1, path.len() as int);
    let d = last_index_of(comp, '.');
    if d > 0 {
        Some(comp.subrange(d + 1, comp.len() as int))
    } else {
        None
    }
}

/// The extension of `path` is one of `exts`, compared case-insensitively.
pub open spec fn spec_ext_matches(path: Seq<char>, exts: Seq<Seq<char>>) -> bool {
    match spec_extension(path) {
        Some(e) => exists|k: int| 0 <= k < exts.len() && eq_ignore_ascii(e, #[trigger] exts[k]),
        None => false,
    }
}

/// Whether the extension of `path` is one of `extensions`, compared
/// case-insensitively. Whether the path names a regular file is for the
/// caller to check.
pub fn ext_endswith(path: &str, extensions: &Vec<&str>) -> (r: bool)
    ensures
        r == spec_ext_matches(path@, extensions.deep_view()),
{
    let len = path.unicode_len();
    let comp_start: usize = match find_last(path, '/') {
        Some(i) => i + 1,
        None => 0,
    };
    proof {
        lemma_last_index_of(path@, '/');
        if last_index_of(path@, '/') == -1 {
            assert(path@.subrange(0, len as int) =~= path@);
        }
    }
    let comp = path.substring_char(comp_start, len);
    let d = match find_last(comp, '.') {
        Some(i) => i,
        None => {
            return false;
        },
    };
    if d == 0 {
        return false;
    }
    proof {
        lemma_last_index_of(comp@, '.');
    }
    let clen = comp.unicode_len();
    let ext = comp.substring_char(d + 1, clen);
    let mut k: usize = 0;
    while k < extensions.len()
        invariant
            k <= extensions.len(),
            spec_extension(path@) == Some(ext@),
            forall|q: int|
                0 <= q < k ==> !eq_ignore_ascii(ext@, #[trigger] extensions.deep_view()[q]),
        decreases extensions.len() - k,
    {
        proof {
            assert(extensions.deep_view()[k as int] == extensions@[k as int]@);
        }
        if str_eq_ignore_ascii_case(ext, extensions[k]) {
            return true;
        }
        k = k + 1;
    }
    false
}

/// Whether `path` names a font file by extension (`ttf`, `otf` or `ttc`,
/// case-insensitive).
pub fn is_font(path: &str) -> (r: bool)
    ensures
        r == spec_ext_matches(path@, seq!["ttf"@, "otf"@, "ttc"@]),
{
    let mut exts: Vec<&str> = Vec::new();
    exts.push("ttf");
    exts.push("otf");
    exts.push("ttc");
    proof {
        assert(exts.deep_view() =~= seq!["ttf"@, "otf"@, "ttc"@]);
    }
    ext_endswith(path, &exts)
}

/// Whether `path` names a subtitle file by extension (`ssa` or `ass`,
/// case-insensitive).
pub fn is_ssa(path: &str) -> (r: bool)
    ensures
        r == spec_ext_matches(path@, seq!["ssa"@, "ass"@]),
{
    let mut exts: Vec<&str> = Vec::new();
    exts.push("ssa");
    exts.push("ass");
    proof {
        assert(exts.deep_view() =~= seq!["ssa"@, "ass"@]);
    }
    ext_endswith(path, &exts)
}

/// The cache file location: the default cache directory's subpath when no
/// path is given; a given path itself when it already names a file; else
/// the cache file name under the given directory. `cache_dir` is the
/// platform's per-user cache directory, and `path_is_file` says whether
/// the given path names an existing regular file.
pub fn get_cache_path(path: Option<&str>, path_is_file: bool, cache_dir: &str) -> (r: String)
    ensures
        match path {
            Some(p) => r@ == if path_is_file {
                p@
            } else {
                p@ + "/fntldr_cache.bin"@
            },
            None => r@ == cache_dir@ + "/fntldr/fntldr_cache.bin"@,
        },
{
    match path {
        None => cache_dir.to_owned().concat("/fntldr/fntldr_cache.bin"),
        Some(p) => if path_is_file {
            p.to_owned()
        } else {
            p.to_owned().concat("/fntldr_cache.bin")
        },
    }
}

/// The cache file location with a fallback: a given path is resolved as in
/// `get_cache_path`; with none given, a cache file in the current
/// directory wins over the per-user default.
/// `current_dir_cache_is_file` says whether `./fntldr_cache.bin` names an
/// existing regular file.
pub fn get_cache_path_fallback(
    path: Option<&str>,
    path_is_file: bool,
    current_dir_cache_is_file: bool,
    cache_dir: &str,
) -> (r: String)
    ensures
        match path {
            Some(p) => r@ == if path_is_file {
                p@
            } else {
                p@ + "/fntldr_cache.bin"@
            },
            None => r@ == if current_dir_cache_is_file {
                "./fntldr_cache.bin"@
            } else {
                cache_dir@ + "/fntldr/fntldr_cache.bin"@
            },
        },
{
    match path {
        Some(p) => get_cache_path(Some(p), path_is_file, cache_dir),
        None => {
            if current_dir_cache_is_file {
                let r = get_cache_path(Some("."), false, cache_dir);
                proof {
                    reveal_strlit(".");
                    reveal_strlit("/fntldr_cache.bin");
                    reveal_strlit("./fntldr_cache.bin");
                    assert(r@ =~= "./fntldr_cache.bin"@);
                }
                r
            } else {
                get_cache_path(None, false, cache_dir)
            }
        },
    }
}

} // verus!
