//! Path classification used by the walker: administratively ignored paths,
//! and paths that lie inside an already-discovered `node_modules` directory.

use vstd::prelude::*;

use crate::text::{chars_of, has_prefix, has_segment, segment_in, starts_with_chars};

verus! {

/// Paths under system pseudo-filesystems and firmware/OS mount points are
/// never useful search targets; they are pruned in every mode.
pub open spec fn pseudo_fs_path(path: Seq<char>) -> bool {
    ||| has_prefix(path, "/proc/"@)
    ||| has_prefix(path, "/sys/"@)
    ||| has_prefix(path, "/dev/"@)
    ||| has_prefix(path, "/run/"@)
    ||| has_prefix(path, "/efi/"@)
    ||| has_prefix(path, "/usr/"@)
}

/// Convenience exclusions: named path components pruned only outside
/// full-scan mode.
pub open spec fn has_excluded_component(path: Seq<char>) -> bool {
    ||| has_segment(path, "Projects"@)
    ||| has_segment(path, "opt"@)
    ||| has_segment(path, ".vscode"@)
}

/// Administrative ignoring: pseudo-filesystems always; the convenience
/// exclusions only when `full_scan` is off.
pub open spec fn spec_ignored(path: Seq<char>, full_scan: bool) -> bool {
    pseudo_fs_path(path) || (!full_scan && has_excluded_component(path))
}

pub fn is_ignored(path: &str, full_scan: bool) -> (b: bool)
    ensures
        b == spec_ignored(path@, full_scan),
{
    let p = chars_of(path);
    if starts_with_chars(&p, &chars_of("/proc/")) || starts_with_chars(&p, &chars_of("/sys/"))
        || starts_with_chars(&p, &chars_of("/dev/")) || starts_with_chars(&p, &chars_of("/run/"))
        || starts_with_chars(&p, &chars_of("/efi/")) || starts_with_chars(&p, &chars_of("/usr/")) {
        return true;
    }
    if full_scan {
        return false;
    }
    segment_in(&p, &chars_of("Projects")) || segment_in(&p, &chars_of("opt")) || segment_in(
        &p,
        &chars_of(".vscode"),
    )
}

/// `q` lies strictly inside the directory `p`: `p` is a proper prefix of `q`
/// up to a separator boundary.
pub open spec fn covered_by(p: Seq<char>, q: Seq<char>) -> bool {
    &&& p.len() < q.len()
    &&& q.subrange(0, p.len() as int) == p
    &&& (q[p.len() as int] == '/' || (p.len() > 0 && p[p.len() - 1] == '/'))
}

/// `q` lies inside some directory of the skip set.
pub open spec fn inside_any(skip: Seq<Seq<char>>, q: Seq<char>) -> bool {
    exists|i: int| 0 <= i < skip.len() && covered_by(skip[i], q)
}

pub fn covered_by_exec(p: &Vec<char>, q: &Vec<char>) -> (b: bool)
    ensures
        b == covered_by(p@, q@),
{
    let np = p.len();
    let nq = q.len();
    if np >= nq {
        return false;
    }
    if !crate::text::matches_at(q, p, 0) {
        return false;
    }
    q[np] == '/' || (np > 0 && p[np - 1] == '/')
}

/// Ancestor check against the shared skip set, excluding an exact self-match.
pub fn is_inside_known_node_modules(path: &str, skip_set: &Vec<String>) -> (b: bool)
    ensures
        b == inside_any(skip_set.deep_view(), path@),
{
    let q = chars_of(path);
    let n = skip_set.len();
    let mut i: usize = 0;
    while i < n
        invariant
            i <= n,
            n == skip_set@.len(),
            q@ == path@,
            forall|j: int| 0 <= j < i ==> !covered_by(skip_set.deep_view()[j], path@),
        decreases n - i,
    {
        let p = chars_of(skip_set[i].as_str());
        if covered_by_exec(&p, &q) {
            proof {
                assert(skip_set.deep_view()[i as int] == skip_set@[i as int]@);
            }
            return true;
        }
        proof {
            assert(skip_set.deep_view()[i as int] == skip_set@[i as int]@);
        }
        i += 1;
    }
    false
}

} // verus!
