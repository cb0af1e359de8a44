//! Character-level foundations shared by the classifier and the matcher:
//! ASCII case folding, substring search, path segments and base names, all
//! specified over `Seq<char>` and executed over `Vec<char>`.

use vstd::prelude::*;

verus! {

/// ASCII lower-casing of one character; every other character is unchanged.
pub open spec fn lower_char(c: char) -> char {
    if 'A' <= c && c <= 'Z' {
        ((c as u8) + 32) as char
    } else {
        c
    }
}

/// ASCII lower-casing of a whole string.
pub open spec fn lower(s: Seq<char>) -> Seq<char> {
    Seq::new(s.len(), |i: int| lower_char(s[i]))
}

pub fn lower_char_exec(c: char) -> (r: char)
    ensures
        r == lower_char(c),
{
    if c >= 'A' && c <= 'Z' {
        let n: u32 = c as u32;
        let b: u8 = (n as u8) + 32;
        b as char
    } else {
        c
    }
}

/// The characters of a string slice, in order.
pub fn chars_of(s: &str) -> (v: Vec<char>)
    ensures
        v@ == s@,
{
    let n = s.unicode_len();
    let mut v: Vec<char> = Vec::new();
    let mut i: usize = 0;
    while i < n
        invariant
            i <= n,
            n == s@.len(),
            v@ == s@.subrange(0, i as int),
        decreases n - i,
    {
        v.push(s.get_char(i));
        proof {
            assert(v@ =~= s@.subrange(0, i + 1));
        }
        i += 1;
    }
    proof {
        assert(s@.subrange(0, n as int) =~= s@);
    }
    v
}

pub fn chars_eq(a: &Vec<char>, b: &Vec<char>) -> (r: bool)
    ensures
        r == (a@ == b@),
{
    if a.len() != b.len() {
        return false;
    }
    let n = a.len();
    let mut i: usize = 0;
    while i < n
        invariant
            i <= n,
            n == a@.len(),
            n == b@.len(),
            forall|k: int| 0 <= k < i ==> a@[k] == b@[k],
        decreases n - i,
    {
        if a[i] != b[i] {
            return false;
        }
        i += 1;
    }
    proof {
        assert(a@ =~= b@);
    }
    true
}

pub fn lower_chars(s: &Vec<char>) -> (r: Vec<char>)
    ensures
        r@ == lower(s@),
{
    let n = s.len();
    let mut r: Vec<char> = Vec::new();
    let mut i: usize = 0;
    while i < n
        invariant
            i <= n,
            n == s@.len(),
            r@ == lower(s@.subrange(0, i as int)),
        decreases n - i,
    {
        r.push(lower_char_exec(s[i]));
        proof {
            assert(r@ =~= lower(s@.subrange(0, i + 1)));
        }
        i += 1;
    }
    proof {
        assert(s@.subrange(0, n as int) =~= s@);
    }
    r
}

/// Path-separator normalization: every backslash becomes a forward slash.
/// All path logic in this crate reads `/` as the separator; a caller on a
/// platform with backslash separators applies this once per path.
pub open spec fn normalized(s: Seq<char>) -> Seq<char> {
    Seq::new(
        s.len(),
        |i: int|
            if s[i] == '\\' {
                '/'
            } else {
                s[i]
            },
    )
}

pub fn normalize_separators(path: &str) -> (r: String)
    ensures
        r@ == normalized(path@),
{
    let n = path.unicode_len();
    let mut r = String::new();
    let mut i: usize = 0;
    while i < n
        invariant
            i <= n,
            n == path@.len(),
            r@ == normalized(path@).subrange(0, i as int),
        decreases n - i,
    {
        if path.get_char(i) == '\\' {
            r.append("/");
        } else {
            let piece = path.substring_char(i, i + 1);
            r.append(piece);
        }
        proof {
            reveal_strlit("/");
            assert(r@ =~= normalized(path@).subrange(0, i + 1));
        }
        i += 1;
    }
    proof {
        assert(normalized(path@).subrange(0, n as int) =~= normalized(path@));
    }
    r
}

/// The ASCII whitespace stripped from line ends.
pub open spec fn is_space(c: char) -> bool {
    c == ' ' || c == '\t' || c == '\r' || c == '\n'
}

pub open spec fn trim_start(s: Seq<char>) -> Seq<char>
    decreases s.len(),
{
    if s.len() > 0 && is_space(s[0]) {
        trim_start(s.drop_first())
    } else {
        s
    }
}

pub open spec fn trim_end(s: Seq<char>) -> Seq<char>
    decreases s.len(),
{
    if s.len() > 0 && is_space(s[s.len() - 1]) {
        trim_end(s.drop_last())
    } else {
        s
    }
}

/// `s` without its leading and trailing ASCII whitespace.
pub open spec fn trim(s: Seq<char>) -> Seq<char> {
    trim_end(trim_start(s))
}

/// The index of the first `c` in `s`, or `-1` when `c` does not occur.
pub open spec fn index_of_first(s: Seq<char>, c: char) -> int
    decreases s.len(),
{
    if s.len() == 0 {
        -1
    } else if s[0] == c {
        0
    } else {
        let r = index_of_first(s.drop_first(), c);
        if r == -1 {
            -1
        } else {
            r + 1
        }
    }
}

pub proof fn lemma_index_of_first_at(s: Seq<char>, c: char, i: int)
    requires
        0 <= i < s.len(),
        s[i] == c,
        forall|k: int| 0 <= k < i ==> s[k] != c,
    ensures
        index_of_first(s, c) == i,
    decreases i,
{
    if i > 0 {
        lemma_index_of_first_at(s.drop_first(), c, i - 1);
    }
}

pub proof fn lemma_index_of_first_none(s: Seq<char>, c: char)
    requires
        forall|k: int| 0 <= k < s.len() ==> s[k] != c,
    ensures
        index_of_first(s, c) == -1,
    decreases s.len(),
{
    if s.len() > 0 {
        lemma_index_of_first_none(s.drop_first(), c);
    }
}

proof fn lemma_trim_start_skip(s: Seq<char>, a: int)
    requires
        0 <= a <= s.len(),
        forall|k: int| 0 <= k < a ==> is_space(#[trigger] s[k]),
        a == s.len() || !is_space(s[a]),
    ensures
        trim_start(s) == s.skip(a),
    decreases a,
{
    if a == 0 {
        assert(s.skip(0) =~= s);
    } else {
        lemma_trim_start_skip(s.drop_first(), a - 1);
        assert(s.drop_first().skip(a - 1) =~= s.skip(a));
    }
}

proof fn lemma_trim_end_take(s: Seq<char>, b: int)
    requires
        0 <= b <= s.len(),
        forall|k: int| b <= k < s.len() ==> is_space(#[trigger] s[k]),
        b == 0 || !is_space(s[b - 1]),
    ensures
        trim_end(s) == s.subrange(0, b),
    decreases s.len() - b,
{
    if b == s.len() {
        assert(s.subrange(0, b) =~= s);
    } else {
        lemma_trim_end_take(s.drop_last(), b);
        assert(s.drop_last().subrange(0, b) =~= s.subrange(0, b));
    }
}

/// `s` with leading and trailing ASCII whitespace removed.
pub fn trim_str(s: &str) -> (r: &str)
    ensures
        r@ == trim(s@),
{
    let n = s.unicode_len();
    let mut a: usize = 0;
    while a < n && is_space_exec(s.get_char(a))
        invariant
            a <= n,
            n == s@.len(),
            forall|k: int| 0 <= k < a ==> is_space(#[trigger] s@[k]),
        decreases n - a,
    {
        a += 1;
    }
    let mut b: usize = n;
    while b > a && is_space_exec(s.get_char(b - 1))
        invariant
            a <= b <= n,
            n == s@.len(),
            forall|k: int| 0 <= k < a ==> is_space(#[trigger] s@[k]),
            forall|k: int| b <= k < n ==> is_space(#[trigger] s@[k]),
        decreases b,
    {
        b -= 1;
    }
    proof {
        lemma_trim_start_skip(s@, a as int);
        lemma_trim_end_take(s@.skip(a as int), b - a);
        assert(s@.skip(a as int).subrange(0, b - a) =~= s@.subrange(a as int, b as int));
    }
    s.substring_char(a, b)
}

fn is_space_exec(c: char) -> (r: bool)
    ensures
        r == is_space(c),
{
    c == ' ' || c == '\t' || c == '\r' || c == '\n'
}

/// The lines of `s`: separated by `\n`, with a `\r` right before the
/// separator stripped, and no final empty line after a trailing separator.
pub open spec fn spec_lines(s: Seq<char>) -> Seq<Seq<char>>
    decreases s.len(),
{
    if s.len() == 0 {
        Seq::empty()
    } else {
        let i = index_of_first(s, '\n');
        if !(0 <= i < s.len()) {
            seq![s]
        } else {
            let head = s.subrange(0, i);
            let stripped = if head.len() > 0 && head[head.len() - 1] == '\r' {
                head.drop_last()
            } else {
                head
            };
            seq![stripped] + spec_lines(s.subrange(i + 1, s.len() as int))
        }
    }
}

/// The `\n`-separated lines of `s`.
pub fn lines_of(s: &str) -> (r: Vec<&str>)
    ensures
        r.deep_view() == spec_lines(s@),
    decreases s@.len(),
{
    let n = s.unicode_len();
    if n == 0 {
        let r: Vec<&str> = Vec::new();
        proof {
            assert(r.deep_view() =~~= spec_lines(s@));
        }
        return r;
    }
    let mut i: usize = 0;
    while i < n && s.get_char(i) != '\n'
        invariant
            i <= n,
            n == s@.len(),
            forall|k: int| 0 <= k < i ==> s@[k] != '\n',
        decreases n - i,
    {
        i += 1;
    }
    if i == n {
        proof {
            lemma_index_of_first_none(s@, '\n');
        }
        let mut r: Vec<&str> = Vec::new();
        r.push(s);
        proof {
            assert(r.deep_view() =~~= spec_lines(s@));
        }
        return r;
    }
    proof {
        lemma_index_of_first_at(s@, '\n', i as int);
    }
    let head = if i > 0 && s.get_char(i - 1) == '\r' {
        s.substring_char(0, i - 1)
    } else {
        s.substring_char(0, i)
    };
    proof {
        let h = s@.subrange(0, i as int);
        if i > 0 && s@[i - 1] == '\r' {
            assert(h.drop_last() =~= s@.subrange(0, i - 1));
        }
    }
    let tail = s.substring_char(i + 1, n);
    let mut rest = lines_of(tail);
    let ghost rest_dv = rest.deep_view();
    rest.insert(0, head);
    proof {
        assert(rest.deep_view() =~~= seq![head@] + rest_dv);
        assert(rest.deep_view() =~~= spec_lines(s@));
    }
    rest
}

/// `sub` occurs in `s` starting at index `i`.
pub open spec fn is_sub_at(s: Seq<char>, sub: Seq<char>, i: int) -> bool {
    &&& 0 <= i
    &&& i + sub.len() <= s.len()
    &&& s.subrange(i, i + sub.len() as int) == sub
}

/// `sub` occurs somewhere in `s`.
pub open spec fn contains_sub(s: Seq<char>, sub: Seq<char>) -> bool {
    exists|i: int| is_sub_at(s, sub, i)
}

/// `i` is the first occurrence of `sub` in `s`.
pub open spec fn first_sub_at(s: Seq<char>, sub: Seq<char>, i: int) -> bool {
    &&& is_sub_at(s, sub, i)
    &&& forall|j: int| 0 <= j < i ==> !is_sub_at(s, sub, j)
}

/// `p` is a prefix of `s`.
pub open spec fn has_prefix(s: Seq<char>, p: Seq<char>) -> bool {
    p.len() <= s.len() && s.subrange(0, p.len() as int) == p
}

/// `p` is a suffix of `s`.
pub open spec fn has_suffix(s: Seq<char>, p: Seq<char>) -> bool {
    p.len() <= s.len() && s.subrange(s.len() - p.len(), s.len() as int) == p
}

pub fn matches_at(s: &Vec<char>, sub: &Vec<char>, i: usize) -> (b: bool)
    requires
        i + sub@.len() <= s@.len(),
    ensures
        b == is_sub_at(s@, sub@, i as int),
{
    let m = sub.len();
    let n = s.len();
    let mut j: usize = 0;
    while j < m
        invariant
            j <= m,
            m == sub@.len(),
            n == s@.len(),
            i + m <= n,
            forall|k: int| 0 <= k < j ==> s@[i + k] == sub@[k],
        decreases m - j,
    {
        if s[i + j] != sub[j] {
            proof {
                assert(s@.subrange(i as int, i + m) != sub@) by {
                    assert(s@.subrange(i as int, i + m)[j as int] == s@[i + j]);
                }
            }
            return false;
        }
        j += 1;
    }
    proof {
        assert(s@.subrange(i as int, i + m) =~= sub@);
    }
    true
}

pub fn starts_with_chars(s: &Vec<char>, p: &Vec<char>) -> (b: bool)
    ensures
        b == has_prefix(s@, p@),
{
    if p.len() > s.len() {
        return false;
    }
    matches_at(s, p, 0)
}

pub fn ends_with_chars(s: &Vec<char>, p: &Vec<char>) -> (b: bool)
    ensures
        b == has_suffix(s@, p@),
{
    if p.len() > s.len() {
        return false;
    }
    matches_at(s, p, s.len() - p.len())
}

/// First occurrence of `sub` in `s`, if any.
pub fn find_sub(s: &Vec<char>, sub: &Vec<char>) -> (r: Option<usize>)
    ensures
        match r {
            Some(i) => first_sub_at(s@, sub@, i as int),
            None => !contains_sub(s@, sub@),
        },
{
    if sub.len() > s.len() {
        proof {
            assert(forall|i: int| !is_sub_at(s@, sub@, i));
        }
        return None;
    }
    let bound = s.len() - sub.len();
    let mut i: usize = 0;
    while i < bound
        invariant
            i <= bound,
            bound == s@.len() - sub@.len(),
            sub@.len() <= s@.len(),
            forall|j: int| 0 <= j < i ==> !is_sub_at(s@, sub@, j),
        decreases bound - i,
    {
        if matches_at(s, sub, i) {
            return Some(i);
        }
        i += 1;
    }
    if matches_at(s, sub, bound) {
        return Some(bound);
    }
    proof {
        assert(forall|j: int| is_sub_at(s@, sub@, j) ==> j <= bound);
    }
    None
}

pub fn contains_chars(s: &Vec<char>, sub: &Vec<char>) -> (b: bool)
    ensures
        b == contains_sub(s@, sub@),
{
    find_sub(s, sub).is_some()
}

/// `seg` stands as a whole path segment of `s` at index `i`: it contains no
/// separator and is delimited by separators or by the ends of `s`.
pub open spec fn is_segment_at(s: Seq<char>, seg: Seq<char>, i: int) -> bool {
    &&& is_sub_at(s, seg, i)
    &&& (i == 0 || s[i - 1] == '/')
    &&& (i + seg.len() == s.len() || s[i + seg.len() as int] == '/')
    &&& forall|k: int| 0 <= k < seg.len() ==> seg[k] != '/'
}

/// `seg` is one of the `/`-separated segments of `s`.
pub open spec fn has_segment(s: Seq<char>, seg: Seq<char>) -> bool {
    exists|i: int| is_segment_at(s, seg, i)
}

pub fn segment_in(s: &Vec<char>, seg: &Vec<char>) -> (b: bool)
    ensures
        b == has_segment(s@, seg@),
{
    let m = seg.len();
    let n = s.len();
    let mut k: usize = 0;
    while k < m
        invariant
            k <= m,
            m == seg@.len(),
            forall|j: int| 0 <= j < k ==> seg@[j] != '/',
        decreases m - k,
    {
        if seg[k] == '/' {
            return false;
        }
        k += 1;
    }
    if m > n {
        return false;
    }
    let bound = n - m;
    let mut i: usize = 0;
    while i < bound
        invariant
            i <= bound,
            bound == n - m,
            m == seg@.len(),
            n == s@.len(),
            m <= n,
            forall|k: int| 0 <= k < seg@.len() ==> seg@[k] != '/',
            forall|j: int| 0 <= j < i ==> !is_segment_at(s@, seg@, j),
        decreases bound - i,
    {
        if segment_at(s, seg, i) {
            return true;
        }
        i += 1;
    }
    if segment_at(s, seg, bound) {
        return true;
    }
    proof {
        assert(forall|j: int| is_segment_at(s@, seg@, j) ==> 0 <= j <= bound);
    }
    false
}

fn segment_at(s: &Vec<char>, seg: &Vec<char>, i: usize) -> (b: bool)
    requires
        i + seg@.len() <= s@.len(),
        forall|k: int| 0 <= k < seg@.len() ==> seg@[k] != '/',
    ensures
        b == is_segment_at(s@, seg@, i as int),
{
    let m = seg.len();
    let n = s.len();
    let start_ok = i == 0 || s[i - 1] == '/';
    let end_ok = i + m == n || s[i + m] == '/';
    start_ok && end_ok && matches_at(s, seg, i)
}

/// The suffix of `s` after the last occurrence of `c`; `s` itself when `c`
/// does not occur.
pub open spec fn after_last(s: Seq<char>, c: char) -> Seq<char>
    decreases s.len(),
{
    if s.len() == 0 {
        s
    } else if s[s.len() - 1] == c {
        Seq::<char>::empty()
    } else {
        after_last(s.drop_last(), c).push(s[s.len() - 1])
    }
}

/// `after_last` is the suffix that starts right after the last `c`, where
/// `j` is the index of that `c` (or `-1` when `c` does not occur).
pub proof fn lemma_after_last_suffix(s: Seq<char>, c: char, j: int)
    requires
        -1 <= j < s.len(),
        j >= 0 ==> s[j] == c,
        forall|k: int| j < k < s.len() ==> s[k] != c,
    ensures
        after_last(s, c) == s.subrange(j + 1, s.len() as int),
    decreases s.len(),
{
    if s.len() == 0 {
        assert(after_last(s, c) =~= s.subrange(j + 1, s.len() as int));
    } else if j == s.len() - 1 {
        assert(after_last(s, c) =~= s.subrange(j + 1, s.len() as int));
    } else {
        lemma_after_last_suffix(s.drop_last(), c, j);
        assert(s.drop_last().subrange(j + 1, s.len() - 1) =~= s.subrange(j + 1, s.len() - 1));
        assert(after_last(s, c) =~= s.subrange(j + 1, s.len() as int));
    }
}

pub fn after_last_exec(s: &Vec<char>, c: char) -> (r: Vec<char>)
    ensures
        r@ == after_last(s@, c),
{
    let n = s.len();
    // find the index right after the last occurrence of c
    let mut start: usize = 0;
    let mut i: usize = 0;
    while i < n
        invariant
            i <= n,
            n == s@.len(),
            start <= i,
            start >= 1 ==> s@[start - 1] == c,
            forall|k: int| start <= k < i ==> s@[k] != c,
        decreases n - i,
    {
        if s[i] == c {
            start = i + 1;
        }
        i += 1;
    }
    let mut r: Vec<char> = Vec::new();
    let mut j: usize = start;
    while j < n
        invariant
            start <= j <= n,
            n == s@.len(),
            r@ == s@.subrange(start as int, j as int),
        decreases n - j,
    {
        r.push(s[j]);
        proof {
            assert(r@ =~= s@.subrange(start as int, j + 1));
        }
        j += 1;
    }
    proof {
        lemma_after_last_suffix(s@, c, start - 1);
    }
    r
}

} // verus!
