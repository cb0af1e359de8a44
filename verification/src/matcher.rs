//! Matching the files found under the discovered `node_modules` directories
//! against the configured rule set: first-match-wins over the pattern list of
//! the `safe` rule group, with a running hit counter per pattern, and a
//! partition of the matched paths into files and directories by their current
//! filesystem kind.

use vstd::prelude::*;

use crate::pattern::{match_chars, pattern_matches};
use crate::text::{after_last, after_last_exec, chars_eq, chars_of};
use crate::walker::{EntryKind, FsEntry};

verus! {

/// One named group of rules: the patterns that mark paths for removal, and
/// ignore patterns kept alongside them.
pub struct RuleSet {
    pub patterns: Vec<String>,
    pub ignore: Vec<String>,
}

/// The configured rule groups, keyed by group name, with the name of the
/// default group. The group set stays a keyed mapping so that further groups
/// can be configured beside `safe`.
pub struct Config {
    pub default: String,
    pub rules: Vec<(String, RuleSet)>,
}

/// A pattern list as carried by the configuration source.
pub struct PaternHits {
    pub patterns: Vec<String>,
}

/// Why matching could not run.
#[derive(Clone, Copy, PartialEq, Eq, Debug)]
pub enum MatchError {
    /// The configuration holds no `safe` rule group.
    MissingSafeRules,
}

/// What one matching pass produced: the matched paths in input order, and
/// one hit counter per configured pattern, in configured order.
pub struct MatchReport {
    pub matched: Vec<String>,
    pub hits: Vec<(String, u64)>,
}

/// The pattern list of the first group with the given name, if any.
pub open spec fn group_patterns(rules: Seq<(String, RuleSet)>, name: Seq<char>) -> Option<
    Seq<Seq<char>>,
>
    decreases rules.len(),
{
    if rules.len() == 0 {
        None
    } else if rules[0].0@ == name {
        Some(rules[0].1.patterns.deep_view())
    } else {
        group_patterns(rules.drop_first(), name)
    }
}

proof fn lemma_group_patterns_at(rules: Seq<(String, RuleSet)>, name: Seq<char>, k: int)
    requires
        0 <= k < rules.len(),
        rules[k].0@ == name,
        forall|j: int| 0 <= j < k ==> rules[j].0@ != name,
    ensures
        group_patterns(rules, name) == Some(rules[k].1.patterns.deep_view()),
    decreases k,
{
    if k > 0 {
        lemma_group_patterns_at(rules.drop_first(), name, k - 1);
    }
}

proof fn lemma_group_patterns_none(rules: Seq<(String, RuleSet)>, name: Seq<char>)
    requires
        forall|j: int| 0 <= j < rules.len() ==> rules[j].0@ != name,
    ensures
        group_patterns(rules, name) is None,
    decreases rules.len(),
{
    if rules.len() > 0 {
        lemma_group_patterns_none(rules.drop_first(), name);
    }
}

/// A file matches a pattern when either its full path or its bare base name
/// does.
pub open spec fn entry_matches(path: Seq<char>, pat: Seq<char>) -> bool {
    pattern_matches(path, pat) || pattern_matches(after_last(path, '/'), pat)
}

/// Some configured pattern matches the file.
pub open spec fn matches_some(path: Seq<char>, pats: Seq<Seq<char>>) -> bool {
    exists|i: int| 0 <= i < pats.len() && entry_matches(path, #[trigger] pats[i])
}

/// `i` is the first configured pattern that matches the file.
pub open spec fn is_first_match(path: Seq<char>, pats: Seq<Seq<char>>, i: int) -> bool {
    &&& 0 <= i < pats.len()
    &&& entry_matches(path, pats[i])
    &&& forall|j: int| 0 <= j < i ==> !entry_matches(path, #[trigger] pats[j])
}

/// The files that match some pattern, in input order.
pub open spec fn matched_files(files: Seq<Seq<char>>, pats: Seq<Seq<char>>) -> Seq<Seq<char>>
    decreases files.len(),
{
    if files.len() == 0 {
        Seq::empty()
    } else {
        let rest = matched_files(files.drop_last(), pats);
        if matches_some(files.last(), pats) {
            rest.push(files.last())
        } else {
            rest
        }
    }
}

/// How many files have pattern `i` as their first match.
pub open spec fn hit_count(files: Seq<Seq<char>>, pats: Seq<Seq<char>>, i: int) -> nat
    decreases files.len(),
{
    if files.len() == 0 {
        0
    } else {
        hit_count(files.drop_last(), pats, i) + (if is_first_match(files.last(), pats, i) {
            1nat
        } else {
            0nat
        })
    }
}

impl Config {
    /// The first rule group named `name`, if any.
    pub fn get_rules(&self, name: &str) -> (r: Option<&RuleSet>)
        ensures
            match r {
                Some(rs) => group_patterns(self.rules@, name@) == Some(rs.patterns.deep_view()),
                None => group_patterns(self.rules@, name@) is None,
            },
    {
        let target = chars_of(name);
        let n = self.rules.len();
        let mut i: usize = 0;
        while i < n
            invariant
                i <= n,
                n == self.rules@.len(),
                target@ == name@,
                forall|j: int| 0 <= j < i ==> self.rules@[j].0@ != name@,
            decreases n - i,
        {
            let key = chars_of(self.rules[i].0.as_str());
            if chars_eq(&key, &target) {
                proof {
                    lemma_group_patterns_at(self.rules@, name@, i as int);
                }
                return Some(&self.rules[i].1);
            }
            i += 1;
        }
        proof {
            lemma_group_patterns_none(self.rules@, name@);
        }
        None
    }
}

/// The first pattern that matches this file, against the full path and the
/// bare base name.
fn first_match_exec(fchars: &Vec<char>, fname: &Vec<char>, pats: &Vec<String>) -> (r: Option<
    usize,
>)
    requires
        fname@ == after_last(fchars@, '/'),
    ensures
        match r {
            Some(j) => is_first_match(fchars@, pats.deep_view(), j as int),
            None => !matches_some(fchars@, pats.deep_view()),
        },
{
    let n = pats.len();
    let mut j: usize = 0;
    while j < n
        invariant
            j <= n,
            n == pats@.len(),
            fname@ == after_last(fchars@, '/'),
            forall|k: int| 0 <= k < j ==> !entry_matches(fchars@, #[trigger] pats.deep_view()[k]),
        decreases n - j,
    {
        let pchars = chars_of(pats[j].as_str());
        proof {
            assert(pchars@ == pats.deep_view()[j as int]);
        }
        if match_chars(fchars, &pchars) || match_chars(fname, &pchars) {
            return Some(j);
        }
        j += 1;
    }
    None
}

/// Classify every file against the `safe` rule group, first-match-wins.
/// Fails, matching nothing, when the configuration has no `safe` group.
pub fn matching_pattern(files: &Vec<String>, config: &Config) -> (r: Result<
    MatchReport,
    MatchError,
>)
    ensures
        match r {
            Ok(rep) => {
                &&& group_patterns(config.rules@, "safe"@) is Some
                &&& {
                    let pats = group_patterns(config.rules@, "safe"@)->0;
                    &&& rep.matched.deep_view() == matched_files(files.deep_view(), pats)
                    &&& rep.hits@.len() == pats.len()
                    &&& forall|k: int|
                        0 <= k < pats.len() ==> (#[trigger] rep.hits@[k]).0@ == pats[k]
                            && rep.hits@[k].1 == hit_count(files.deep_view(), pats, k)
                }
            },
            Err(e) => e is MissingSafeRules && group_patterns(config.rules@, "safe"@) is None,
        },
{
    let safe = match config.get_rules("safe") {
        Some(rs) => rs,
        None => {
            return Err(MatchError::MissingSafeRules);
        },
    };
    let pats = &safe.patterns;
    let ghost pv = pats.deep_view();
    let n = files.len();
    let m = pats.len();
    let mut counts: Vec<u64> = Vec::new();
    let mut k: usize = 0;
    while k < m
        invariant
            k <= m,
            counts@.len() == k,
            forall|t: int| 0 <= t < k ==> counts@[t] == 0,
        decreases m - k,
    {
        counts.push(0);
        k += 1;
    }
    let mut matched: Vec<String> = Vec::new();
    let mut i: usize = 0;
    while i < n
        invariant
            i <= n,
            n == files@.len(),
            m == pats@.len(),
            pv == pats.deep_view(),
            counts@.len() == m,
            matched.deep_view() == matched_files(files.deep_view().subrange(0, i as int), pv),
            forall|t: int|
                0 <= t < m ==> #[trigger] counts@[t] == hit_count(
                    files.deep_view().subrange(0, i as int),
                    pv,
                    t,
                ),
            forall|t: int| 0 <= t < m ==> counts@[t] <= i,
        decreases n - i,
    {
        let fchars = chars_of(files[i].as_str());
        let fname = after_last_exec(&fchars, '/');
        proof {
            assert(fchars@ == files.deep_view()[i as int]);
            assert(files.deep_view().subrange(0, i + 1).drop_last() =~= files.deep_view().subrange(
                0,
                i as int,
            ));
            assert(files.deep_view().subrange(0, i + 1).last() == files.deep_view()[i as int]);
        }
        match first_match_exec(&fchars, &fname, pats) {
            Some(j) => {
                matched.push(files[i].clone());
                let c = counts[j];
                counts[j] = c + 1;
                proof {
                    assert(matched.deep_view() =~~= matched_files(
                        files.deep_view().subrange(0, i + 1),
                        pv,
                    ));
                    assert forall|t: int| 0 <= t < m implies #[trigger] counts@[t] == hit_count(
                        files.deep_view().subrange(0, i + 1),
                        pv,
                        t,
                    ) by {
                        if t == j as int {
                            assert(is_first_match(files.deep_view()[i as int], pv, t));
                        } else {
                            assert(!is_first_match(files.deep_view()[i as int], pv, t));
                        }
                    }
                }
            },
            None => {
                proof {
                    assert(matched.deep_view() =~~= matched_files(
                        files.deep_view().subrange(0, i + 1),
                        pv,
                    ));
                    assert forall|t: int| 0 <= t < m implies #[trigger] counts@[t] == hit_count(
                        files.deep_view().subrange(0, i + 1),
                        pv,
                        t,
                    ) by {
                        assert(!is_first_match(files.deep_view()[i as int], pv, t));
                    }
                }
            },
        }
        i += 1;
    }
    proof {
        assert(files.deep_view().subrange(0, n as int) =~= files.deep_view());
    }
    let mut hits: Vec<(String, u64)> = Vec::new();
    let mut k2: usize = 0;
    while k2 < m
        invariant
            k2 <= m,
            m == pats@.len(),
            pv == pats.deep_view(),
            counts@.len() == m,
            forall|t: int| 0 <= t < m ==> #[trigger] counts@[t] == hit_count(files.deep_view(), pv, t),
            hits@.len() == k2,
            forall|t: int|
                0 <= t < k2 ==> (#[trigger] hits@[t]).0@ == pv[t] && hits@[t].1 == hit_count(
                    files.deep_view(),
                    pv,
                    t,
                ),
        decreases m - k2,
    {
        hits.push((pats[k2].clone(), counts[k2]));
        k2 += 1;
    }
    Ok(MatchReport { matched, hits })
}

/// The paths of the entries that are currently regular files, in order.
pub open spec fn file_paths(entries: Seq<FsEntry>) -> Seq<Seq<char>>
    decreases entries.len(),
{
    if entries.len() == 0 {
        Seq::empty()
    } else {
        let rest = file_paths(entries.drop_last());
        if entries.last().kind is File {
            rest.push(entries.last().path@)
        } else {
            rest
        }
    }
}

/// The paths of the entries that are currently directories, in order.
pub open spec fn dir_paths(entries: Seq<FsEntry>) -> Seq<Seq<char>>
    decreases entries.len(),
{
    if entries.len() == 0 {
        Seq::empty()
    } else {
        let rest = dir_paths(entries.drop_last());
        if entries.last().kind is Dir {
            rest.push(entries.last().path@)
        } else {
            rest
        }
    }
}

/// Every path in the file partition comes from an entry that is currently a
/// regular file; every path in the directory partition from one that is
/// currently a directory.
pub proof fn lemma_partitions_from_entries(entries: Seq<FsEntry>)
    ensures
        forall|p: Seq<char>|
            file_paths(entries).contains(p) ==> exists|i: int|
                0 <= i < entries.len() && (#[trigger] entries[i].path)@ == p
                    && entries[i].kind is File,
        forall|p: Seq<char>|
            dir_paths(entries).contains(p) ==> exists|i: int|
                0 <= i < entries.len() && (#[trigger] entries[i].path)@ == p
                    && entries[i].kind is Dir,
    decreases entries.len(),
{
    if entries.len() == 0 {
    } else {
        let prior = entries.drop_last();
        lemma_partitions_from_entries(prior);
        let last = entries.last();
        assert(entries[entries.len() - 1] == last);
        assert forall|p: Seq<char>| file_paths(entries).contains(p) implies exists|i: int|
            0 <= i < entries.len() && (#[trigger] entries[i].path)@ == p
                && entries[i].kind is File by {
            if file_paths(prior).contains(p) {
                let i = choose|i: int|
                    0 <= i < prior.len() && (#[trigger] prior[i].path)@ == p
                        && prior[i].kind is File;
                assert(entries[i] == prior[i]);
                assert(entries[i].path@ == p && entries[i].kind is File);
            } else {
                let j = choose|j: int|
                    0 <= j < file_paths(entries).len() && file_paths(entries)[j] == p;
                assert(j == file_paths(entries).len() - 1);
                assert(entries[entries.len() - 1].path@ == p && entries[entries.len()
                    - 1].kind is File);
            }
        }
        assert forall|p: Seq<char>| dir_paths(entries).contains(p) implies exists|i: int|
            0 <= i < entries.len() && (#[trigger] entries[i].path)@ == p
                && entries[i].kind is Dir by {
            if dir_paths(prior).contains(p) {
                let i = choose|i: int|
                    0 <= i < prior.len() && (#[trigger] prior[i].path)@ == p
                        && prior[i].kind is Dir;
                assert(entries[i] == prior[i]);
                assert(entries[i].path@ == p && entries[i].kind is Dir);
            } else {
                let j = choose|j: int|
                    0 <= j < dir_paths(entries).len() && dir_paths(entries)[j] == p;
                assert(j == dir_paths(entries).len() - 1);
                assert(entries[entries.len() - 1].path@ == p && entries[entries.len()
                    - 1].kind is Dir);
            }
        }
    }
}

/// When no path occurs twice among the entries, no path lands in both
/// partitions: each matched path is classified as a file or as a directory,
/// never both.
pub proof fn lemma_partitions_disjoint(entries: Seq<FsEntry>)
    requires
        forall|i: int, j: int|
            0 <= i < j < entries.len() ==> (#[trigger] entries[i].path)@ != (
            #[trigger] entries[j].path)@,
    ensures
        forall|p: Seq<char>| !(file_paths(entries).contains(p) && dir_paths(entries).contains(p)),
{
    lemma_partitions_from_entries(entries);
    assert forall|p: Seq<char>|
        !(file_paths(entries).contains(p) && dir_paths(entries).contains(p)) by {
        if file_paths(entries).contains(p) && dir_paths(entries).contains(p) {
            let i = choose|i: int|
                0 <= i < entries.len() && (#[trigger] entries[i].path)@ == p
                    && entries[i].kind is File;
            let j = choose|j: int|
                0 <= j < entries.len() && (#[trigger] entries[j].path)@ == p
                    && entries[j].kind is Dir;
            assert(i != j);
            assert((entries[i].path)@ != (entries[j].path)@);
        }
    }
}

/// Partition matched paths by their current filesystem kind: regular files
/// into the first list, directories into the second, anything else into
/// neither. No path lands in both lists.
pub fn split_by_type(entries: &Vec<FsEntry>) -> (r: (Vec<String>, Vec<String>))
    ensures
        r.0.deep_view() == file_paths(entries@),
        r.1.deep_view() == dir_paths(entries@),
{
    let mut files: Vec<String> = Vec::new();
    let mut dirs: Vec<String> = Vec::new();
    let n = entries.len();
    let mut i: usize = 0;
    while i < n
        invariant
            i <= n,
            n == entries@.len(),
            files.deep_view() == file_paths(entries@.subrange(0, i as int)),
            dirs.deep_view() == dir_paths(entries@.subrange(0, i as int)),
        decreases n - i,
    {
        proof {
            assert(entries@.subrange(0, i + 1).drop_last() =~= entries@.subrange(0, i as int));
            assert(entries@.subrange(0, i + 1).last() == entries@[i as int]);
        }
        match entries[i].kind {
            EntryKind::File => {
                files.push(entries[i].path.clone());
            },
            EntryKind::Dir => {
                dirs.push(entries[i].path.clone());
            },
            EntryKind::Other => {},
        }
        proof {
            assert(files.deep_view() =~~= file_paths(entries@.subrange(0, i + 1)));
            assert(dirs.deep_view() =~~= dir_paths(entries@.subrange(0, i + 1)));
        }
        i += 1;
    }
    proof {
        assert(entries@.subrange(0, n as int) =~= entries@);
    }
    (files, dirs)
}

} // verus!
