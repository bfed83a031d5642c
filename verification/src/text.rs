//! Verified helpers for the string arithmetic the resolver performs:
//! equality tests, concatenation of qualified names, joining path and
//! package segments, and splitting a path at its last separator.

use vstd::prelude::*;
use vstd::string::StrSliceExecFns;
use vstd::string::StringExecFns;

verus! {

/// Character-for-character equality of two string slices.
pub fn str_eq(a: &str, b: &str) -> (r: bool)
    ensures
        r == (a@ == b@),
{
    let alen = a.unicode_len();
    let blen = b.unicode_len();
    if alen != blen {
        return false;
    }
    let mut i: usize = 0;
    while i < alen
        invariant
            0 <= i <= alen,
            alen == a@.len(),
            blen == b@.len(),
            alen == blen,
            forall|j: int| 0 <= j < i ==> a@[j] == b@[j],
        decreases alen - i,
    {
        if a.get_char(i) != b.get_char(i) {
            return false;
        }
        i += 1;
    }
    proof {
        assert(a@ =~= b@);
    }
    true
}

/// Equality of two owned strings, by view.
pub fn string_eq(a: &String, b: &String) -> (r: bool)
    ensures
        r == (a@ == b@),
{
    str_eq(a.as_str(), b.as_str())
}

/// Copies a string slice into an owned string.
pub fn copy_str(s: &str) -> (r: String)
    ensures
        r@ == s@,
{
    String::from_str(s)
}

/// Copies an owned string.
pub fn copy_string(s: &String) -> (r: String)
    ensures
        r@ == s@,
{
    s.clone()
}

/// The view of a sequence of owned strings: each element replaced by its
/// character sequence.
pub open spec fn views_of(s: Seq<String>) -> Seq<Seq<char>> {
    s.map_values(|x: String| x@)
}

/// Copies a vector of strings.
pub fn clone_strings(v: &Vec<String>) -> (r: Vec<String>)
    ensures
        r@ == v@,
{
    let mut out: Vec<String> = Vec::new();
    let mut i: usize = 0;
    while i < v.len()
        invariant
            0 <= i <= v@.len(),
            out@.len() == i,
            forall|j: int| 0 <= j < i ==> out@[j] == v@[j],
        decreases v@.len() - i,
    {
        out.push(v[i].clone());
        i += 1;
    }
    proof {
        assert(out@ =~= v@);
    }
    out
}

/// The view of an optional owned string.
pub open spec fn opt_view(o: Option<String>) -> Option<Seq<char>> {
    match o {
        Option::Some(s) => Option::Some(s@),
        Option::None => Option::None,
    }
}

/// Copies an optional string.
pub fn clone_opt_string(o: &Option<String>) -> (r: Option<String>)
    ensures
        opt_view(r) == opt_view(*o),
{
    match o {
        Option::Some(s) => Option::Some(copy_string(s)),
        Option::None => Option::None,
    }
}

/// Whether one of the strings of `v` reads `s`.
pub fn contains_string(v: &Vec<String>, s: &str) -> (r: bool)
    ensures
        r == views_of(v@).contains(s@),
{
    let n = v.len();
    let mut i: usize = 0;
    while i < n
        invariant
            0 <= i <= n,
            n == v@.len(),
            forall|j: int| 0 <= j < i ==> views_of(v@)[j] != s@,
        decreases n - i,
    {
        if str_eq(v[i].as_str(), s) {
            proof {
                assert(views_of(v@)[i as int] == s@);
            }
            return true;
        }
        i += 1;
    }
    proof {
        assert forall|j: int| 0 <= j < views_of(v@).len() implies views_of(v@)[j] != s@ by {}
    }
    false
}

/// A qualified name: `pkg.name`, or the bare name in the root package.
pub open spec fn spec_qual(pkg: Seq<char>, name: Seq<char>) -> Seq<char> {
    if pkg.len() == 0 {
        name
    } else {
        pkg + seq!['.'] + name
    }
}

/// Builds the qualified name of `name` inside `pkg`; the empty package is
/// the root and contributes no prefix.
pub fn qualify(pkg: &str, name: &str) -> (r: String)
    ensures
        r@ == spec_qual(pkg@, name@),
{
    if pkg.unicode_len() == 0 {
        copy_str(name)
    } else {
        let mut out = copy_str(pkg);
        out.append(".");
        proof {
            reveal_strlit(".");
        }
        out.append(name);
        out
    }
}

/// The elements of `parts` joined with the separator `sep`.
pub open spec fn spec_join(parts: Seq<Seq<char>>, sep: Seq<char>) -> Seq<char>
    decreases parts.len(),
{
    if parts.len() == 0 {
        Seq::empty()
    } else if parts.len() == 1 {
        parts[0]
    } else {
        spec_join(parts.drop_last(), sep) + sep + parts.last()
    }
}

/// Joins owned strings with a separator.
pub fn join_strings(parts: &Vec<String>, sep: &str) -> (r: String)
    ensures
        r@ == spec_join(views_of(parts@), sep@),
{
    let mut out = String::new();
    let mut i: usize = 0;
    while i < parts.len()
        invariant
            0 <= i <= parts@.len(),
            out@ == spec_join(views_of(parts@).take(i as int), sep@),
        decreases parts@.len() - i,
    {
        if i > 0 {
            out.append(sep);
        }
        out.append(parts[i].as_str());
        proof {
            let dv = views_of(parts@);
            assert(dv.take(i + 1).drop_last() =~= dv.take(i as int));
            assert(dv.take(i + 1).last() == dv[i as int]);
        }
        i += 1;
    }
    proof {
        assert(views_of(parts@).take(parts@.len() as int) =~= views_of(parts@));
    }
    out
}

/// The position of the last occurrence of `c` in `s`, or `-1`.
pub open spec fn spec_last_index_of(s: Seq<char>, c: char) -> int
    decreases s.len(),
{
    if s.len() == 0 {
        -1
    } else if s.last() == c {
        s.len() - 1
    } else {
        spec_last_index_of(s.drop_last(), c)
    }
}

/// What `spec_last_index_of` returns: a position in range holding `c`, or
/// `-1` when `c` does not occur.
pub proof fn lemma_last_index_of_props(s: Seq<char>, c: char)
    ensures
        spec_last_index_of(s, c) >= 0 ==> {
            &&& spec_last_index_of(s, c) < s.len()
            &&& s[spec_last_index_of(s, c)] == c
        },
        spec_last_index_of(s, c) < 0 ==> (forall|j: int| 0 <= j < s.len() ==> s[j] != c),
    decreases s.len(),
{
    if s.len() == 0 {
    } else if s.last() == c {
    } else {
        lemma_last_index_of_props(s.drop_last(), c);
        assert(forall|j: int| 0 <= j < s.len() - 1 ==> s[j] == s.drop_last()[j]);
    }
}

/// Everything before the last occurrence of `c` in `s`; the empty string
/// when `c` does not occur.
pub open spec fn spec_prefix_before_last(s: Seq<char>, c: char) -> Seq<char> {
    if spec_last_index_of(s, c) >= 0 {
        s.take(spec_last_index_of(s, c))
    } else {
        Seq::empty()
    }
}

/// Cuts `s` before the last occurrence of `c`; the empty string when `c`
/// does not occur.
pub fn prefix_before_last(s: &str, c: char) -> (r: String)
    ensures
        r@ == spec_prefix_before_last(s@, c),
{
    let n = s.unicode_len();
    proof {
        assert(s@.take(n as int) =~= s@);
    }
    let mut i: usize = n;
    while i > 0
        invariant
            0 <= i <= n,
            n == s@.len(),
            spec_last_index_of(s@, c) == spec_last_index_of(s@.take(i as int), c),
        decreases i,
    {
        proof {
            assert(s@.take(i as int).drop_last() =~= s@.take(i - 1));
            assert(s@.take(i as int).last() == s@[i - 1]);
        }
        if s.get_char(i - 1) == c {
            proof {
                assert(spec_last_index_of(s@.take(i as int), c) == i - 1);
                assert(s@.take(i - 1) =~= s@.subrange(0, i - 1));
            }
            return s.substring_char(0, i - 1).to_owned();
        }
        i -= 1;
    }
    proof {
        assert(s@.take(0) =~= Seq::<char>::empty());
    }
    String::new()
}

/// Whether `p` is a prefix of `s`.
pub open spec fn spec_has_prefix(s: Seq<char>, p: Seq<char>) -> bool {
    p.len() <= s.len() && s.take(p.len() as int) == p
}

/// Tests whether `s` starts with `p`.
pub fn has_prefix(s: &str, p: &str) -> (r: bool)
    ensures
        r == spec_has_prefix(s@, p@),
{
    let plen = p.unicode_len();
    let slen = s.unicode_len();
    if plen > slen {
        return false;
    }
    let mut i: usize = 0;
    while i < plen
        invariant
            0 <= i <= plen,
            plen == p@.len(),
            slen == s@.len(),
            plen <= slen,
            forall|j: int| 0 <= j < i ==> s@[j] == p@[j],
        decreases plen - i,
    {
        if s.get_char(i) != p.get_char(i) {
            proof {
                assert(s@.take(plen as int)[i as int] != p@[i as int]);
            }
            return false;
        }
        i += 1;
    }
    proof {
        assert(s@.take(plen as int) =~= p@);
    }
    true
}

/// Whether an import string is written relative to the importing file:
/// it starts with `./` or `../`.
pub open spec fn spec_is_relative(p: Seq<char>) -> bool {
    (p.len() >= 2 && p[0] == '.' && p[1] == '/') || (p.len() >= 3 && p[0] == '.' && p[1] == '.'
        && p[2] == '/')
}

/// The canonical resolved form of an import: a leading `/` is dropped and
/// the rest is root-relative; `./` and `../` imports are prefixed with the
/// importing file's directory; anything else is taken verbatim as
/// root-relative. Pure string arithmetic; no filesystem is consulted.
pub open spec fn spec_resolve_import(importing: Seq<char>, imp: Seq<char>) -> Seq<char> {
    if imp.len() >= 1 && imp[0] == '/' {
        imp.subrange(1, imp.len() as int)
    } else if spec_is_relative(imp) {
        let parent = spec_prefix_before_last(importing, '/');
        if parent.len() == 0 {
            imp
        } else {
            parent + seq!['/'] + imp
        }
    } else {
        imp
    }
}

/// Resolves one import string against the path of the importing file,
/// following `spec_resolve_import`.
pub fn resolve_import(importing_file: &str, import_path: &str) -> (r: String)
    ensures
        r@ == spec_resolve_import(importing_file@, import_path@),
{
    let n = import_path.unicode_len();
    if n >= 1 && import_path.get_char(0) == '/' {
        import_path.substring_char(1, n).to_owned()
    } else if (n >= 2 && import_path.get_char(0) == '.' && import_path.get_char(1) == '/') || (n
        >= 3 && import_path.get_char(0) == '.' && import_path.get_char(1) == '.'
        && import_path.get_char(2) == '/') {
        let parent = prefix_before_last(importing_file, '/');
        if parent.unicode_len() == 0 {
            copy_str(import_path)
        } else {
            let mut out = parent;
            out.append("/");
            proof {
                reveal_strlit("/");
            }
            out.append(import_path);
            out
        }
    } else {
        copy_str(import_path)
    }
}

} // verus!
