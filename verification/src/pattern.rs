//! The pattern-matching engine: classifies a path against one configured
//! rule, which is interpreted as one of three modes, tried in this order:
//!
//! 1. directory segment (`/name/`): the literal text of the pattern occurs
//!    anywhere in the path;
//! 2. wildcard with exactly one `*`: the prefix and suffix around the star
//!    constrain the path and its base name, case-insensitively;
//! 3. exact: the pattern equals the base name, the extension, or a whole
//!    path segment, case-insensitively.
//!
//! Case-insensitivity throughout is ASCII case folding; the base name of a
//! path is the text after its last `/`.

use vstd::prelude::*;

use crate::text::{
    after_last, after_last_exec, chars_eq, chars_of, contains_chars, contains_sub, ends_with_chars,
    find_sub, first_sub_at, has_prefix, has_segment, has_suffix, lower, lower_chars, segment_in,
    starts_with_chars,
};

verus! {

/// The pattern names a directory segment: `/name/`.
pub open spec fn is_dir_pattern(pat: Seq<char>) -> bool {
    pat.len() >= 2 && pat[0] == '/' && pat[pat.len() - 1] == '/'
}

pub open spec fn contains_star(pat: Seq<char>) -> bool {
    exists|i: int| 0 <= i < pat.len() && pat[i] == '*'
}

/// `a` occurs in `s` and its first occurrence comes before the first
/// occurrence of `b`.
pub open spec fn first_before(s: Seq<char>, a: Seq<char>, b: Seq<char>) -> bool {
    exists|i: int, j: int| first_sub_at(s, a, i) && first_sub_at(s, b, j) && i < j
}

/// The base name has an extension: a `.` that is neither its first
/// character nor absent. The extension itself is the text after the last `.`.
pub open spec fn has_extension(fname: Seq<char>) -> bool {
    exists|i: int| 1 <= i < fname.len() && fname[i] == '.'
}

/// Wildcard mode for the pattern split `prefix * suffix`, both sides already
/// lower-cased. With an empty suffix the prefix must start the base name or
/// stand as a whole path segment; with a non-empty suffix both sides must
/// occur, in order, and either their concatenation is a whole segment or the
/// base name starts with the prefix and ends with the suffix.
pub open spec fn split_matches(path: Seq<char>, prefix: Seq<char>, suffix: Seq<char>) -> bool {
    let lp = lower(path);
    let fname = after_last(lp, '/');
    if suffix.len() == 0 {
        has_segment(lp, prefix) || has_prefix(fname, prefix)
    } else {
        &&& contains_sub(lp, prefix)
        &&& contains_sub(lp, suffix)
        &&& first_before(lp, prefix, suffix)
        &&& (has_segment(lp, prefix + suffix) || (has_prefix(fname, prefix) && has_suffix(
            fname,
            suffix,
        )))
    }
}

/// Wildcard mode: the pattern holds exactly one `*`, and the split around it
/// matches. A pattern with two or more stars matches nothing.
pub open spec fn wildcard_matches(path: Seq<char>, pat: Seq<char>) -> bool {
    exists|k: int|
        {
            &&& 0 <= k < pat.len()
            &&& pat[k] == '*'
            &&& (forall|j: int| 0 <= j < pat.len() && j != k ==> pat[j] != '*')
            &&& split_matches(
                path,
                lower(pat.subrange(0, k)),
                lower(pat.subrange(k + 1, pat.len() as int)),
            )
        }
}

/// Exact mode: the lower-cased pattern equals the base name, the extension,
/// or any whole path segment of the lower-cased path.
pub open spec fn exact_matches(path: Seq<char>, pat: Seq<char>) -> bool {
    let lp = lower(path);
    let lpat = lower(pat);
    let fname = after_last(lp, '/');
    ||| fname == lpat
    ||| (has_extension(fname) && after_last(fname, '.') == lpat)
    ||| has_segment(lp, lpat)
}

/// What it means for one pattern to match one path.
pub open spec fn pattern_matches(path: Seq<char>, pat: Seq<char>) -> bool {
    if is_dir_pattern(pat) {
        contains_sub(path, pat)
    } else if contains_star(pat) {
        wildcard_matches(path, pat)
    } else {
        exact_matches(path, pat)
    }
}

/// The lower-cased segment stands as a whole segment of the lower-cased path.
pub open spec fn segment_matches(path: Seq<char>, seg: Seq<char>) -> bool {
    has_segment(lower(path), lower(seg))
}

/// First index of `c` in `v`, if any.
fn find_char(v: &Vec<char>, c: char) -> (r: Option<usize>)
    ensures
        match r {
            Some(i) => i < v@.len() && v@[i as int] == c && (forall|j: int|
                0 <= j < i ==> v@[j] != c),
            None => forall|j: int| 0 <= j < v@.len() ==> v@[j] != c,
        },
{
    let n = v.len();
    let mut i: usize = 0;
    while i < n
        invariant
            i <= n,
            n == v@.len(),
            forall|j: int| 0 <= j < i ==> v@[j] != c,
        decreases n - i,
    {
        if v[i] == c {
            return Some(i);
        }
        i += 1;
    }
    None
}

/// Is there a `c` strictly after index `k`?
fn char_after(v: &Vec<char>, c: char, k: usize) -> (b: bool)
    requires
        k < v@.len(),
    ensures
        b == exists|j: int| k < j < v@.len() && v@[j] == c,
{
    let n = v.len();
    let mut i: usize = k + 1;
    while i < n
        invariant
            k < i <= n,
            n == v@.len(),
            forall|j: int| k < j < i ==> v@[j] != c,
        decreases n - i,
    {
        if v[i] == c {
            return true;
        }
        i += 1;
    }
    false
}

/// A copy of `v[from..to]`.
fn subvec(v: &Vec<char>, from: usize, to: usize) -> (r: Vec<char>)
    requires
        from <= to <= v@.len(),
    ensures
        r@ == v@.subrange(from as int, to as int),
{
    let mut r: Vec<char> = Vec::new();
    let mut i: usize = from;
    while i < to
        invariant
            from <= i <= to,
            to <= v@.len(),
            r@ == v@.subrange(from as int, i as int),
        decreases to - i,
    {
        r.push(v[i]);
        proof {
            assert(r@ =~= v@.subrange(from as int, i + 1));
        }
        i += 1;
    }
    r
}

fn concat_chars(a: &Vec<char>, b: &Vec<char>) -> (r: Vec<char>)
    ensures
        r@ == a@ + b@,
{
    let mut r: Vec<char> = Vec::new();
    let na = a.len();
    let mut i: usize = 0;
    while i < na
        invariant
            i <= na,
            na == a@.len(),
            r@ == a@.subrange(0, i as int),
        decreases na - i,
    {
        r.push(a[i]);
        proof {
            assert(r@ =~= a@.subrange(0, i + 1));
        }
        i += 1;
    }
    let nb = b.len();
    let mut j: usize = 0;
    while j < nb
        invariant
            j <= nb,
            nb == b@.len(),
            r@ == a@.subrange(0, a@.len() as int) + b@.subrange(0, j as int),
        decreases nb - j,
    {
        r.push(b[j]);
        proof {
            assert(r@ =~= a@.subrange(0, a@.len() as int) + b@.subrange(0, j + 1));
        }
        j += 1;
    }
    proof {
        assert(a@.subrange(0, a@.len() as int) =~= a@);
        assert(b@.subrange(0, nb as int) =~= b@);
        assert(r@ =~= a@ + b@);
    }
    r
}

/// The first occurrence of a piece of text is unique.
proof fn lemma_first_sub_unique(s: Seq<char>, sub: Seq<char>, i: int, j: int)
    requires
        first_sub_at(s, sub, i),
        first_sub_at(s, sub, j),
    ensures
        i == j,
{
}

/// Does the base name of `fname` carry an extension?
fn has_extension_exec(fname: &Vec<char>) -> (b: bool)
    ensures
        b == has_extension(fname@),
{
    let n = fname.len();
    let mut i: usize = 1;
    while i < n
        invariant
            1 <= i || n == 0,
            i <= n || (n == 0 && i == 1),
            n == fname@.len(),
            forall|j: int| 1 <= j < i ==> fname@[j] != '.',
        decreases n - i,
    {
        if fname[i] == '.' {
            return true;
        }
        i += 1;
    }
    false
}

/// Exact mode, executed.
fn exact_match_chars(path: &Vec<char>, pat: &Vec<char>) -> (b: bool)
    ensures
        b == exact_matches(path@, pat@),
{
    let lp = lower_chars(path);
    let lpat = lower_chars(pat);
    let fname = after_last_exec(&lp, '/');
    if chars_eq(&fname, &lpat) {
        return true;
    }
    if has_extension_exec(&fname) {
        let e = after_last_exec(&fname, '.');
        if chars_eq(&e, &lpat) {
            return true;
        }
    }
    segment_in(&lp, &lpat)
}

/// Wildcard mode for the unique star at `k`, executed.
fn split_match_chars(path: &Vec<char>, pat: &Vec<char>, k: usize) -> (b: bool)
    requires
        k < pat@.len(),
        pat@[k as int] == '*',
    ensures
        b == split_matches(
            path@,
            lower(pat@.subrange(0, k as int)),
            lower(pat@.subrange(k + 1, pat@.len() as int)),
        ),
{
    let n = pat.len();
    let lp = lower_chars(path);
    let pre_raw = subvec(pat, 0, k);
    let suf_raw = subvec(pat, k + 1, n);
    let prefix = lower_chars(&pre_raw);
    let suffix = lower_chars(&suf_raw);
    let fname = after_last_exec(&lp, '/');
    if suffix.len() == 0 {
        if segment_in(&lp, &prefix) {
            true
        } else {
            starts_with_chars(&fname, &prefix)
        }
    } else {
        let found_pre = find_sub(&lp, &prefix);
        let found_suf = find_sub(&lp, &suffix);
        match (found_pre, found_suf) {
            (Some(i), Some(j)) => {
                if i < j {
                    let combined = concat_chars(&prefix, &suffix);
                    if segment_in(&lp, &combined) {
                        true
                    } else {
                        starts_with_chars(&fname, &prefix) && ends_with_chars(&fname, &suffix)
                    }
                } else {
                    proof {
                        if first_before(lp@, prefix@, suffix@) {
                            let (i2, j2) = choose|i2: int, j2: int|
                                first_sub_at(lp@, prefix@, i2) && first_sub_at(lp@, suffix@, j2)
                                    && i2 < j2;
                            lemma_first_sub_unique(lp@, prefix@, i as int, i2);
                            lemma_first_sub_unique(lp@, suffix@, j as int, j2);
                        }
                    }
                    false
                }
            },
            _ => false,
        }
    }
}

/// One pattern against one path as a character vector.
pub fn match_chars(path: &Vec<char>, pat: &Vec<char>) -> (b: bool)
    ensures
        b == pattern_matches(path@, pat@),
{
    let plen = pat.len();
    if plen >= 2 && pat[0] == '/' && pat[plen - 1] == '/' {
        return contains_chars(path, pat);
    }
    match find_char(pat, '*') {
        None => exact_match_chars(path, pat),
        Some(k) => {
            if char_after(pat, '*', k) {
                proof {
                    let k2 = choose|j: int| k < j < pat@.len() && pat@[j] == '*';
                    assert forall|c: int|
                        !({
                            &&& 0 <= c < pat@.len()
                            &&& pat@[c] == '*'
                            &&& (forall|j: int|
                                0 <= j < pat@.len() && j != c ==> pat@[j] != '*')
                            &&& split_matches(
                                path@,
                                lower(pat@.subrange(0, c)),
                                lower(pat@.subrange(c + 1, pat@.len() as int)),
                            )
                        }) by {
                        if 0 <= c < pat@.len() && pat@[c] == '*' {
                            if c != k as int {
                                assert(pat@[k as int] == '*');
                            } else {
                                assert(pat@[k2] == '*');
                            }
                        }
                    }
                    assert(!wildcard_matches(path@, pat@));
                }
                false
            } else {
                let r = split_match_chars(path, pat, k);
                proof {
                    assert forall|c: int|
                        0 <= c < pat@.len() && pat@[c] == '*' implies c == k as int by {
                        if c < k as int {
                            assert(pat@[c] != '*');
                        }
                    }
                    if r {
                        assert(wildcard_matches(path@, pat@)) by {
                            assert({
                                &&& 0 <= (k as int) < pat@.len()
                                &&& pat@[k as int] == '*'
                                &&& (forall|j: int|
                                    0 <= j < pat@.len() && j != k as int ==> pat@[j] != '*')
                                &&& split_matches(
                                    path@,
                                    lower(pat@.subrange(0, k as int)),
                                    lower(pat@.subrange(k + 1, pat@.len() as int)),
                                )
                            });
                        }
                    }
                }
                r
            }
        },
    }
}

/// One pattern against one path.
pub fn match_path_with_pattern(path_str: &str, pattern: &str) -> (b: bool)
    ensures
        b == pattern_matches(path_str@, pattern@),
{
    let p = chars_of(path_str);
    let q = chars_of(pattern);
    match_chars(&p, &q)
}

/// Does the segment stand, case-insensitively, as a whole path segment?
pub fn is_exact_path_segment(path: &str, segment: &str) -> (b: bool)
    ensures
        b == segment_matches(path@, segment@),
{
    let p = chars_of(path);
    let s = chars_of(segment);
    let lp = lower_chars(&p);
    let ls = lower_chars(&s);
    segment_in(&lp, &ls)
}

} // verus!
