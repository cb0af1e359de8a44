//! The tree-walker core: a state machine over visited filesystem entries.
//!
//! Traversal itself (directory reads, worker scheduling) happens outside the
//! library; every visited entry is handed to [`WalkState::process_entry`],
//! which applies the classification pipeline — administrative ignoring,
//! skip-set pruning, counting, and registration of `node_modules` hits.
//! Registered hits gather in a pending batch that is flushed to the skip set
//! and the result list together, so a registered hit can never be visible in
//! the results without also pruning its interior.

use vstd::prelude::*;

use crate::classifier::{covered_by, inside_any, is_ignored, is_inside_known_node_modules,
    spec_ignored};
use crate::text::{after_last, after_last_exec, chars_eq, chars_of};

verus! {

/// How many registered hits gather before they are flushed to the shared
/// structures.
pub const BATCH_SIZE: usize = 20;

/// The kind a filesystem entry had when it was visited.
#[derive(Clone, Copy, PartialEq, Eq, Debug)]
pub enum EntryKind {
    File,
    Dir,
    Other,
}

/// One visited filesystem entry: its path and its kind.
pub struct FsEntry {
    pub path: String,
    pub kind: EntryKind,
}

/// What the walker decided for one entry: prune the branch entirely, drop it
/// as interior of a known hit, or count it.
#[derive(Clone, Copy, PartialEq, Eq, Debug)]
pub enum EntryAction {
    Pruned,
    Skipped,
    Counted,
}

/// The mathematical state of one walk.
#[verifier::ext_equal]
pub ghost struct WalkModel {
    pub skip: Seq<Seq<char>>,
    pub locations: Seq<Seq<char>>,
    pub pending: Seq<Seq<char>>,
    pub files_scanned: u64,
    pub dirs_scanned: u64,
    pub node_modules_found: u64,
    pub ignored: u64,
}

/// Saturating increment: the counters never overflow.
pub open spec fn inc64(x: u64) -> u64 {
    if x == u64::MAX {
        x
    } else {
        (x + 1) as u64
    }
}

/// A directory whose base name is `node_modules`.
pub open spec fn is_hit(path: Seq<char>, is_dir: bool) -> bool {
    is_dir && after_last(path, '/') == "node_modules"@
}

pub open spec fn init_model() -> WalkModel {
    WalkModel {
        skip: Seq::empty(),
        locations: Seq::empty(),
        pending: Seq::empty(),
        files_scanned: 0,
        dirs_scanned: 0,
        node_modules_found: 0,
        ignored: 0,
    }
}

/// Flushing moves the pending batch into the skip set and the result list
/// together.
pub open spec fn spec_flush(m: WalkModel) -> WalkModel {
    WalkModel {
        skip: m.skip + m.pending,
        locations: m.locations + m.pending,
        pending: Seq::empty(),
        ..m
    }
}

/// The classification pipeline for one visited entry.
pub open spec fn spec_step(m: WalkModel, path: Seq<char>, is_dir: bool, full_scan: bool) -> WalkModel {
    if spec_ignored(path, full_scan) {
        WalkModel { ignored: inc64(m.ignored), ..m }
    } else if inside_any(m.skip, path) {
        m
    } else if is_dir {
        let m1 = WalkModel { dirs_scanned: inc64(m.dirs_scanned), ..m };
        if after_last(path, '/') == "node_modules"@ {
            let m2 = WalkModel {
                node_modules_found: inc64(m1.node_modules_found),
                pending: m1.pending.push(path),
                ..m1
            };
            if m2.pending.len() >= BATCH_SIZE {
                spec_flush(m2)
            } else {
                m2
            }
        } else {
            m1
        }
    } else {
        WalkModel { files_scanned: inc64(m.files_scanned), ..m }
    }
}

/// The decision reported for one visited entry.
pub open spec fn spec_action(m: WalkModel, path: Seq<char>, full_scan: bool) -> EntryAction {
    if spec_ignored(path, full_scan) {
        EntryAction::Pruned
    } else if inside_any(m.skip, path) {
        EntryAction::Skipped
    } else {
        EntryAction::Counted
    }
}

/// The state after processing a whole entry stream, before the final flush.
pub open spec fn run_walk(evts: Seq<FsEntry>, full_scan: bool) -> WalkModel
    decreases evts.len(),
{
    if evts.len() == 0 {
        init_model()
    } else {
        spec_step(
            run_walk(evts.drop_last(), full_scan),
            evts.last().path@,
            evts.last().kind is Dir,
            full_scan,
        )
    }
}

fn saturating_inc(x: u64) -> (r: u64)
    ensures
        r == inc64(x),
{
    if x == u64::MAX {
        x
    } else {
        x + 1
    }
}

/// One walk's mutable state: the shared skip set, the result list, the
/// pending registration batch and the four observability counters.
pub struct WalkState {
    skip: Vec<String>,
    locations: Vec<String>,
    pending: Vec<String>,
    files_scanned: u64,
    dirs_scanned: u64,
    node_modules_found: u64,
    ignored: u64,
}

impl View for WalkState {
    type V = WalkModel;

    closed spec fn view(&self) -> WalkModel {
        WalkModel {
            skip: self.skip.deep_view(),
            locations: self.locations.deep_view(),
            pending: self.pending.deep_view(),
            files_scanned: self.files_scanned,
            dirs_scanned: self.dirs_scanned,
            node_modules_found: self.node_modules_found,
            ignored: self.ignored,
        }
    }
}

impl WalkState {
    pub fn new() -> (s: WalkState)
        ensures
            s@ == init_model(),
    {
        let s = WalkState {
            skip: Vec::new(),
            locations: Vec::new(),
            pending: Vec::new(),
            files_scanned: 0,
            dirs_scanned: 0,
            node_modules_found: 0,
            ignored: 0,
        };
        proof {
            assert(s@ =~= init_model());
        }
        s
    }

    /// Move the pending batch into the skip set and the result list.
    fn flush(&mut self)
        ensures
            final(self)@ == spec_flush(old(self)@),
    {
        let ghost m0 = self@;
        let n = self.pending.len();
        let mut i: usize = 0;
        while i < n
            invariant
                i <= n,
                n == self.pending@.len(),
                self.pending.deep_view() == m0.pending,
                self.files_scanned == m0.files_scanned,
                self.dirs_scanned == m0.dirs_scanned,
                self.node_modules_found == m0.node_modules_found,
                self.ignored == m0.ignored,
                self.skip.deep_view() == m0.skip + self.pending.deep_view().subrange(0, i as int),
                self.locations.deep_view() == m0.locations + self.pending.deep_view().subrange(
                    0,
                    i as int,
                ),
            decreases n - i,
        {
            let ghost skip0 = self.skip.deep_view();
            let ghost loc0 = self.locations.deep_view();
            let p = self.pending[i].clone();
            proof {
                assert(p@ == self.pending.deep_view()[i as int]);
            }
            self.skip.push(p.clone());
            self.locations.push(p);
            proof {
                assert(self.skip.deep_view() =~~= skip0.push(self.pending.deep_view()[i as int]));
                assert(self.locations.deep_view() =~~= loc0.push(
                    self.pending.deep_view()[i as int],
                ));
                assert(self.skip.deep_view() =~~= m0.skip + self.pending.deep_view().subrange(
                    0,
                    i + 1,
                ));
                assert(self.locations.deep_view() =~~= m0.locations
                    + self.pending.deep_view().subrange(0, i + 1));
            }
            i += 1;
        }
        self.pending = Vec::new();
        proof {
            assert(m0.pending.subrange(0, n as int) =~= m0.pending);
            assert(self.pending.deep_view() =~~= Seq::<Seq<char>>::empty());
            assert(self@ =~= spec_flush(m0));
        }
    }

    /// Apply the pipeline of one visited entry: administrative ignoring,
    /// skip-set pruning, counting, and registration of `node_modules` hits.
    pub fn process_entry(&mut self, path: &str, is_dir: bool, full_scan: bool) -> (a: EntryAction)
        ensures
            final(self)@ == spec_step(old(self)@, path@, is_dir, full_scan),
            a == spec_action(old(self)@, path@, full_scan),
    {
        if is_ignored(path, full_scan) {
            self.ignored = saturating_inc(self.ignored);
            proof {
                assert(self@ =~= spec_step(old(self)@, path@, is_dir, full_scan));
            }
            return EntryAction::Pruned;
        }
        if is_inside_known_node_modules(path, &self.skip) {
            proof {
                assert(self@ =~= spec_step(old(self)@, path@, is_dir, full_scan));
            }
            return EntryAction::Skipped;
        }
        if is_dir {
            self.dirs_scanned = saturating_inc(self.dirs_scanned);
            let p = chars_of(path);
            let base = after_last_exec(&p, '/');
            if chars_eq(&base, &chars_of("node_modules")) {
                self.node_modules_found = saturating_inc(self.node_modules_found);
                self.pending.push(path.to_owned());
                proof {
                    assert(self.pending.deep_view() =~= old(self).pending.deep_view().push(path@));
                }
                if self.pending.len() >= BATCH_SIZE {
                    self.flush();
                }
            }
        } else {
            self.files_scanned = saturating_inc(self.files_scanned);
        }
        proof {
            assert(self@ =~= spec_step(old(self)@, path@, is_dir, full_scan));
        }
        EntryAction::Counted
    }

    /// Flush what is still pending; call once when the walk completes.
    pub fn finish(&mut self)
        ensures
            final(self)@ == spec_flush(old(self)@),
    {
        self.flush();
    }

    pub fn locations(&self) -> (r: &Vec<String>)
        ensures
            r.deep_view() == self@.locations,
    {
        &self.locations
    }

    pub fn files_scanned(&self) -> (r: u64)
        ensures
            r == self@.files_scanned,
    {
        self.files_scanned
    }

    pub fn dirs_scanned(&self) -> (r: u64)
        ensures
            r == self@.dirs_scanned,
    {
        self.dirs_scanned
    }

    pub fn node_modules_found(&self) -> (r: u64)
        ensures
            r == self@.node_modules_found,
    {
        self.node_modules_found
    }

    pub fn ignored_count(&self) -> (r: u64)
        ensures
            r == self@.ignored,
    {
        self.ignored
    }
}

/// Every registered location is also in the skip set: results are never
/// visible without their interior being prunable.
pub open spec fn walk_inv(m: WalkModel) -> bool {
    forall|i: int| 0 <= i < m.locations.len() ==> m.skip.contains(#[trigger] m.locations[i])
}

pub proof fn lemma_flush_preserves_inv(m: WalkModel)
    requires
        walk_inv(m),
    ensures
        walk_inv(spec_flush(m)),
{
    let f = spec_flush(m);
    assert forall|i: int| 0 <= i < f.locations.len() implies f.skip.contains(
        #[trigger] f.locations[i],
    ) by {
        if i < m.locations.len() {
            assert(f.locations[i] == m.locations[i]);
            let j = choose|j: int| 0 <= j < m.skip.len() && m.skip[j] == m.locations[i];
            assert(f.skip[j] == m.locations[i]);
        } else {
            let k = i - m.locations.len();
            assert(f.locations[i] == m.pending[k]);
            assert(f.skip[m.skip.len() + k] == m.pending[k]);
        }
    }
}

pub proof fn lemma_step_preserves_inv(m: WalkModel, path: Seq<char>, is_dir: bool, full_scan: bool)
    requires
        walk_inv(m),
    ensures
        walk_inv(spec_step(m, path, is_dir, full_scan)),
{
    if !spec_ignored(path, full_scan) && !inside_any(m.skip, path) && is_dir && after_last(
        path,
        '/',
    ) == "node_modules"@ {
        let m1 = WalkModel { dirs_scanned: inc64(m.dirs_scanned), ..m };
        let m2 = WalkModel {
            node_modules_found: inc64(m1.node_modules_found),
            pending: m1.pending.push(path),
            ..m1
        };
        if m2.pending.len() >= BATCH_SIZE {
            lemma_flush_preserves_inv(m2);
        }
    }
}

pub proof fn lemma_run_walk_inv(evts: Seq<FsEntry>, full_scan: bool)
    ensures
        walk_inv(run_walk(evts, full_scan)),
        walk_inv(spec_flush(run_walk(evts, full_scan))),
    decreases evts.len(),
{
    if evts.len() == 0 {
    } else {
        lemma_run_walk_inv(evts.drop_last(), full_scan);
        lemma_step_preserves_inv(
            run_walk(evts.drop_last(), full_scan),
            evts.last().path@,
            evts.last().kind is Dir,
            full_scan,
        );
    }
    lemma_flush_preserves_inv(run_walk(evts, full_scan));
}

/// Once a path `p` stands registered in the results, a walk step on any
/// descendant `q` of `p` counts nothing: the file and directory counters,
/// the found counter, the results and the pending batch are all unchanged.
pub proof fn lemma_registered_descendant_not_counted(
    m: WalkModel,
    p: Seq<char>,
    q: Seq<char>,
    is_dir: bool,
    full_scan: bool,
)
    requires
        walk_inv(m),
        m.locations.contains(p),
        covered_by(p, q),
    ensures
        spec_step(m, q, is_dir, full_scan).files_scanned == m.files_scanned,
        spec_step(m, q, is_dir, full_scan).dirs_scanned == m.dirs_scanned,
        spec_step(m, q, is_dir, full_scan).node_modules_found == m.node_modules_found,
        spec_step(m, q, is_dir, full_scan).locations == m.locations,
        spec_step(m, q, is_dir, full_scan).pending == m.pending,
{
    let j = choose|j: int| 0 <= j < m.locations.len() && m.locations[j] == p;
    assert(m.skip.contains(m.locations[j]));
    let k = choose|k: int| 0 <= k < m.skip.len() && m.skip[k] == p;
    assert(covered_by(m.skip[k], q));
    assert(inside_any(m.skip, q));
}

/// Registration persists: a step never removes a path from the results or
/// from the skip set. With this, once a path is registered, it stays
/// registered for the rest of the walk, and every later step on one of its
/// descendants falls under `lemma_registered_descendant_not_counted`.
pub proof fn lemma_step_monotone(m: WalkModel, path: Seq<char>, is_dir: bool, full_scan: bool)
    ensures
        forall|p: Seq<char>|
            m.locations.contains(p) ==> spec_step(m, path, is_dir, full_scan).locations.contains(
                p,
            ),
        forall|p: Seq<char>|
            m.skip.contains(p) ==> spec_step(m, path, is_dir, full_scan).skip.contains(p),
{
    let stepped = spec_step(m, path, is_dir, full_scan);
    assert forall|p: Seq<char>| m.locations.contains(p) implies stepped.locations.contains(p) by {
        let j = choose|j: int| 0 <= j < m.locations.len() && m.locations[j] == p;
        assert(stepped.locations[j] == p);
    }
    assert forall|p: Seq<char>| m.skip.contains(p) implies stepped.skip.contains(p) by {
        let j = choose|j: int| 0 <= j < m.skip.len() && m.skip[j] == p;
        assert(stepped.skip[j] == p);
    }
}

/// Registered locations persist across any continuation of the walk.
pub proof fn lemma_locations_persist(e1: Seq<FsEntry>, e2: Seq<FsEntry>, full_scan: bool, p: Seq<char>)
    requires
        run_walk(e1, full_scan).locations.contains(p),
    ensures
        run_walk(e1 + e2, full_scan).locations.contains(p),
    decreases e2.len(),
{
    if e2.len() == 0 {
        assert(e1 + e2 =~= e1);
    } else {
        lemma_locations_persist(e1, e2.drop_last(), full_scan, p);
        assert((e1 + e2).drop_last() =~= e1 + e2.drop_last());
        assert((e1 + e2).last() == e2.last());
        lemma_step_monotone(
            run_walk(e1 + e2.drop_last(), full_scan),
            e2.last().path@,
            e2.last().kind is Dir,
            full_scan,
        );
    }
}

/// No double counting over a whole walk: once `p` stands registered, then
/// however the walk goes on, a visit to a descendant `q` of `p` leaves the
/// counts and the results unchanged.
pub proof fn lemma_no_double_count_walk(
    e1: Seq<FsEntry>,
    e2: Seq<FsEntry>,
    full_scan: bool,
    p: Seq<char>,
    q: Seq<char>,
    is_dir: bool,
)
    requires
        run_walk(e1, full_scan).locations.contains(p),
        covered_by(p, q),
    ensures
        spec_step(run_walk(e1 + e2, full_scan), q, is_dir, full_scan).files_scanned == run_walk(
            e1 + e2,
            full_scan,
        ).files_scanned,
        spec_step(run_walk(e1 + e2, full_scan), q, is_dir, full_scan).dirs_scanned == run_walk(
            e1 + e2,
            full_scan,
        ).dirs_scanned,
        spec_step(run_walk(e1 + e2, full_scan), q, is_dir, full_scan).locations == run_walk(
            e1 + e2,
            full_scan,
        ).locations,
{
    lemma_locations_persist(e1, e2, full_scan, p);
    lemma_run_walk_inv(e1 + e2, full_scan);
    lemma_registered_descendant_not_counted(
        run_walk(e1 + e2, full_scan),
        p,
        q,
        is_dir,
        full_scan,
    );
}

/// A walk over a stream that holds no directory named `node_modules` ends
/// with an empty location list and a zero found counter.
pub proof fn lemma_no_hits_no_locations(evts: Seq<FsEntry>, full_scan: bool)
    requires
        forall|i: int|
            0 <= i < evts.len() ==> !is_hit(#[trigger] evts[i].path@, evts[i].kind is Dir),
    ensures
        run_walk(evts, full_scan).locations.len() == 0,
        run_walk(evts, full_scan).pending.len() == 0,
        run_walk(evts, full_scan).node_modules_found == 0,
        spec_flush(run_walk(evts, full_scan)).locations.len() == 0,
        spec_flush(run_walk(evts, full_scan)).node_modules_found == 0,
    decreases evts.len(),
{
    if evts.len() == 0 {
    } else {
        assert(forall|i: int|
            0 <= i < evts.drop_last().len() ==> !is_hit(
                #[trigger] evts.drop_last()[i].path@,
                evts.drop_last()[i].kind is Dir,
            ));
        lemma_no_hits_no_locations(evts.drop_last(), full_scan);
        assert(!is_hit(evts.last().path@, evts.last().kind is Dir));
    }
}

/// Every path the walk reports, flushed or still pending, is the path of
/// some visited directory entry whose base name is `node_modules`.
pub proof fn lemma_locations_are_hits(evts: Seq<FsEntry>, full_scan: bool)
    ensures
        forall|p: Seq<char>|
            spec_flush(run_walk(evts, full_scan)).locations.contains(p) ==> exists|i: int|
                0 <= i < evts.len() && (#[trigger] evts[i].path)@ == p && is_hit(
                    evts[i].path@,
                    evts[i].kind is Dir,
                ),
        forall|p: Seq<char>|
            run_walk(evts, full_scan).locations.contains(p) ==> exists|i: int|
                0 <= i < evts.len() && (#[trigger] evts[i].path)@ == p && is_hit(
                    evts[i].path@,
                    evts[i].kind is Dir,
                ),
        forall|p: Seq<char>|
            run_walk(evts, full_scan).pending.contains(p) ==> exists|i: int|
                0 <= i < evts.len() && (#[trigger] evts[i].path)@ == p && is_hit(
                    evts[i].path@,
                    evts[i].kind is Dir,
                ),
    decreases evts.len(),
{
    let stepped = run_walk(evts, full_scan);
    let combined = stepped.locations + stepped.pending;
    assert(spec_flush(stepped).locations == combined);
    assert forall|p: Seq<char>| combined.contains(p) implies exists|i: int|
        0 <= i < evts.len() && (#[trigger] evts[i].path)@ == p && is_hit(
            evts[i].path@,
            evts[i].kind is Dir,
        ) by {
        if evts.len() == 0 {
            assert(combined.len() == 0);
        } else {
            let prior = evts.drop_last();
            lemma_locations_are_hits(prior, full_scan);
            let m = run_walk(prior, full_scan);
            let old_combined = m.locations + m.pending;
            let last = evts.last();
            let hit = !spec_ignored(last.path@, full_scan) && !inside_any(m.skip, last.path@)
                && last.kind is Dir && after_last(last.path@, '/') == "node_modules"@;
            if hit {
                assert(combined =~= old_combined.push(last.path@));
            } else {
                assert(combined =~= old_combined);
            }
            let j = choose|j: int| 0 <= j < combined.len() && combined[j] == p;
            if j < old_combined.len() {
                assert(old_combined.contains(p)) by {
                    assert(old_combined[j] == p);
                }
                assert(m.locations.contains(p) || m.pending.contains(p)) by {
                    if j < m.locations.len() {
                        assert(m.locations[j] == p);
                    } else {
                        assert(m.pending[j - m.locations.len()] == p);
                    }
                }
                let i = choose|i: int|
                    0 <= i < prior.len() && (#[trigger] prior[i].path)@ == p && is_hit(
                        prior[i].path@,
                        prior[i].kind is Dir,
                    );
                assert(evts[i] == prior[i]);
                assert(evts[i].path@ == p && is_hit(evts[i].path@, evts[i].kind is Dir));
            } else {
                assert(p == last.path@);
                assert(evts[evts.len() - 1] == last);
                assert(evts[evts.len() - 1].path@ == p && is_hit(
                    evts[evts.len() - 1].path@,
                    evts[evts.len() - 1].kind is Dir,
                ));
            }
        }
    }
    assert forall|p: Seq<char>| stepped.locations.contains(p) implies exists|i: int|
        0 <= i < evts.len() && (#[trigger] evts[i].path)@ == p && is_hit(
            evts[i].path@,
            evts[i].kind is Dir,
        ) by {
        let j = choose|j: int| 0 <= j < stepped.locations.len() && stepped.locations[j] == p;
        assert(combined[j] == p);
        assert(combined.contains(p));
    }
    assert forall|p: Seq<char>| stepped.pending.contains(p) implies exists|i: int|
        0 <= i < evts.len() && (#[trigger] evts[i].path)@ == p && is_hit(
            evts[i].path@,
            evts[i].kind is Dir,
        ) by {
        let j = choose|j: int| 0 <= j < stepped.pending.len() && stepped.pending[j] == p;
        assert(combined[stepped.locations.len() + j] == p);
        assert(combined.contains(p));
    }
}

/// When no path is visited twice, no path is registered twice: the result
/// list names each discovered `node_modules` directory once.
pub proof fn lemma_locations_distinct(evts: Seq<FsEntry>, full_scan: bool)
    requires
        forall|i: int, j: int|
            0 <= i < j < evts.len() ==> (#[trigger] evts[i].path)@ != (#[trigger] evts[j].path)@,
    ensures
        forall|i: int, j: int|
            0 <= i < j < spec_flush(run_walk(evts, full_scan)).locations.len() ==> spec_flush(
                run_walk(evts, full_scan),
            ).locations[i] != spec_flush(run_walk(evts, full_scan)).locations[j],
    decreases evts.len(),
{
    let stepped = run_walk(evts, full_scan);
    let combined = stepped.locations + stepped.pending;
    assert(spec_flush(stepped).locations == combined);
    if evts.len() == 0 {
    } else {
        let prior = evts.drop_last();
        lemma_locations_distinct(prior, full_scan);
        lemma_locations_are_hits(prior, full_scan);
        let m = run_walk(prior, full_scan);
        let old_combined = m.locations + m.pending;
        assert(old_combined == spec_flush(m).locations);
        let last = evts.last();
        let hit = !spec_ignored(last.path@, full_scan) && !inside_any(m.skip, last.path@)
            && last.kind is Dir && after_last(last.path@, '/') == "node_modules"@;
        if hit {
            assert(combined =~= old_combined.push(last.path@));
            assert(!old_combined.contains(last.path@)) by {
                if old_combined.contains(last.path@) {
                    assert(m.locations.contains(last.path@) || m.pending.contains(last.path@))
                        by {
                        let j = choose|j: int|
                            0 <= j < old_combined.len() && old_combined[j] == last.path@;
                        if j < m.locations.len() {
                            assert(m.locations[j] == last.path@);
                        } else {
                            assert(m.pending[j - m.locations.len()] == last.path@);
                        }
                    }
                    let i = choose|i: int|
                        0 <= i < prior.len() && (#[trigger] prior[i].path)@ == last.path@
                            && is_hit(prior[i].path@, prior[i].kind is Dir);
                    assert(evts[i] == prior[i]);
                    assert(evts[evts.len() - 1] == last);
                    assert((evts[i].path)@ != (evts[evts.len() - 1].path)@);
                }
            }
            assert forall|i: int, j: int| 0 <= i < j < combined.len() implies combined[i]
                != combined[j] by {
                if j < old_combined.len() {
                    assert(combined[i] == old_combined[i] && combined[j] == old_combined[j]);
                } else {
                    assert(combined[j] == last.path@);
                    assert(old_combined[i] == combined[i]);
                    assert(old_combined.contains(old_combined[i]));
                }
            }
        } else {
            assert(combined =~= old_combined);
        }
    }
}

/// The walk is a pure function of the visited entry stream: walking the same
/// unchanged stream twice yields the same set of `node_modules` locations.
pub proof fn lemma_walk_repeatable(evts1: Seq<FsEntry>, evts2: Seq<FsEntry>, full_scan: bool)
    requires
        evts1 == evts2,
    ensures
        spec_flush(run_walk(evts1, full_scan)).locations.to_set() == spec_flush(
            run_walk(evts2, full_scan),
        ).locations.to_set(),
{
}

/// Walk a whole entry stream: process every entry in order, then flush.
pub fn walk_directories(entries: &Vec<FsEntry>, full_scan: bool) -> (s: WalkState)
    ensures
        s@ == spec_flush(run_walk(entries@, full_scan)),
{
    let mut s = WalkState::new();
    let n = entries.len();
    let mut i: usize = 0;
    while i < n
        invariant
            i <= n,
            n == entries@.len(),
            s@ == run_walk(entries@.subrange(0, i as int), full_scan),
        decreases n - i,
    {
        let is_dir = match entries[i].kind {
            EntryKind::Dir => true,
            _ => false,
        };
        s.process_entry(entries[i].path.as_str(), is_dir, full_scan);
        proof {
            assert(entries@.subrange(0, i + 1).drop_last() =~= entries@.subrange(0, i as int));
            assert(entries@.subrange(0, i + 1).last() == entries@[i as int]);
        }
        i += 1;
    }
    proof {
        assert(entries@.subrange(0, n as int) =~= entries@);
    }
    s.finish();
    s
}

} // verus!
