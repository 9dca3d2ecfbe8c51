//! Empty directories: mirrored or pruned after the files are in step.

use crate::engine::{in_order, keys_are_paths, law_in_order, lemma_in_order, place};
use crate::index::Index;
use crate::model::EmptyDirMode;
use crate::relpath::{normalized, RelPath};
use crate::report::{paths, ReportView, SyncReport};
use crate::table::{lemma_ascending_distinct, Table};
use crate::text::{begins, cat, chars_of, starts};
use vstd::prelude::*;

verus! {

/// What is to be done with an empty directory in `mirror` mode.
#[derive(Debug, Clone, Copy, PartialEq, Eq, Structural)]
pub enum DirOp {
    /// Present on both sides: ensure it stays tracked.
    Track,
    /// Newly created locally: create it on the remote.
    CreateRemote,
    /// Newly created on the remote: create it locally.
    CreateLocal,
    /// Deleted on the remote (was synced): delete it locally.
    RemoveLocal,
    /// Deleted locally (was synced): delete it on the remote.
    RemoveRemote,
    /// Gone from both sides: forget it.
    Forget,
}

/// What becomes of empty directories: nothing where the backend has none.
pub fn effective_dir_mode(supported: bool, mode: EmptyDirMode) -> (out: EmptyDirMode)
    ensures
        out == (if supported {
            mode
        } else {
            EmptyDirMode::Ignore
        }),
{
    if supported {
        mode
    } else {
        EmptyDirMode::Ignore
    }
}

/// The operation for a directory, from whether it is empty and present locally,
/// on the remote, and whether the index knows it.
pub open spec fn dir_op(local: bool, remote: bool, known: bool) -> DirOp {
    if local && remote {
        DirOp::Track
    } else if !local && !remote {
        DirOp::Forget
    } else if local {
        if known {
            DirOp::RemoveLocal
        } else {
            DirOp::CreateRemote
        }
    } else if known {
        DirOp::RemoveRemote
    } else {
        DirOp::CreateLocal
    }
}

/// The operation for a directory.
pub fn decide_dir(local: bool, remote: bool, known: bool) -> (out: DirOp)
    ensures
        out == dir_op(local, remote, known),
{
    match (local, remote, known) {
        // Present on both sides: ensure it stays known.
        (true, true, _) => DirOp::Track,
        // Newly created on one side: create on the other.
        (true, false, false) => DirOp::CreateRemote,
        (false, true, false) => DirOp::CreateLocal,
        // Deleted on one side (was synced): delete on the other.
        (true, false, true) => DirOp::RemoveLocal,
        (false, true, true) => DirOp::RemoveRemote,
        // Gone from both sides.
        (false, false, _) => DirOp::Forget,
    }
}

/// An empty directory and what is to be done with it.
#[derive(Debug)]
pub struct DirJob {
    /// The directory.
    pub dir: RelPath,
    /// What to do.
    pub op: DirOp,
}

/// What [`DirJob`] says.
pub struct DirJobView {
    /// The directory.
    pub dir: Seq<char>,
    /// What to do.
    pub op: DirOp,
}

impl View for DirJob {
    type V = DirJobView;

    open spec fn view(&self) -> DirJobView {
        DirJobView { dir: self.dir@, op: self.op }
    }
}

/// The empty directories of both sides, and those that the index knows.
#[verifier::ext_equal]
pub struct DirScene {
    /// The empty local directories.
    pub local: Set<Seq<char>>,
    /// The empty remote directories.
    pub remote: Set<Seq<char>>,
    /// The directories that the index knows.
    pub known: Set<Seq<char>>,
}

/// The directories to look at: those of either side, and those of the index (in
/// their normalized form).
pub open spec fn dir_subjects(s: DirScene) -> Set<Seq<char>> {
    Set::new(
        |p: Seq<char>|
            s.local.contains(p) || s.remote.contains(p) || exists|k: Seq<char>| #[trigger]
                s.known.contains(k) && normalized(k) == Some(p),
    )
}

/// The job for one directory.
pub open spec fn dir_job(s: DirScene, dir: Seq<char>) -> DirJobView {
    DirJobView {
        dir,
        op: dir_op(s.local.contains(dir), s.remote.contains(dir), s.known.contains(dir)),
    }
}

/// The jobs for a list of directories.
pub open spec fn dir_jobs_for(s: DirScene, keys: Seq<Seq<char>>) -> Seq<DirJobView> {
    keys.map_values(|d: Seq<char>| dir_job(s, d))
}

/// The jobs of `mirror` mode, in order.
pub open spec fn dir_jobs(s: DirScene) -> Seq<DirJobView> {
    dir_jobs_for(s, in_order(dir_subjects(s)))
}

/// The scene made of the given tables.
pub open spec fn dir_scene(local: Table<()>, remote: Table<()>, index: Index) -> DirScene {
    DirScene { local: local@.dom(), remote: remote@.dom(), known: index.dir_set() }
}

/// The views of a sequence of jobs.
pub open spec fn dir_job_views(v: Seq<DirJob>) -> Seq<DirJobView> {
    v.map_values(|j: DirJob| j@)
}

/// `mirror`: what is to be done with the empty directories, in order, so that
/// they are on both sides and their creation and deletion propagate. The index
/// says which were on both sides before.
pub fn mirror_jobs(local: &Table<()>, remote: &Table<()>, index: &Index) -> (out: Vec<DirJob>)
    requires
        local.wf(),
        remote.wf(),
        index.wf(),
        keys_are_paths(*local),
        keys_are_paths(*remote),
    ensures
        dir_job_views(out@) == dir_jobs(dir_scene(*local, *remote, *index)),
{
    let ghost scene = dir_scene(*local, *remote, *index);
    let keys = crate::engine::merged_keys(local, remote, &index.dirs);
    let ghost names = paths(keys@);
    proof {
        assert(names.to_set() =~= dir_subjects(scene));
        lemma_in_order(names, dir_subjects(scene));
    }
    let mut out: Vec<DirJob> = Vec::new();
    let mut i: usize = 0;
    assert(dir_job_views(out@) =~= dir_jobs_for(scene, names.take(0)));
    while i < keys.len()
        invariant
            i <= keys@.len(),
            local.wf(),
            remote.wf(),
            index.wf(),
            scene == dir_scene(*local, *remote, *index),
            names == paths(keys@),
            dir_job_views(out@) == dir_jobs_for(scene, names.take(i as int)),
        decreases keys.len() - i,
    {
        let dir = &keys[i];
        let ghost before = out@;
        let here = local.contains(dir.as_str());
        let there = remote.contains(dir.as_str());
        let known = index.dirs.contains(dir.as_str());
        let job = DirJob { dir: dir.clone(), op: decide_dir(here, there, known) };
        let ghost j = job@;
        out.push(job);
        assert(dir_job_views(out@) =~= dir_job_views(before).push(j));
        assert(j == dir_job(scene, dir@));
        assert(dir_jobs_for(scene, names.take(i + 1)) =~= dir_jobs_for(
            scene,
            names.take(i as int),
        ).push(j));
        i = i + 1;
    }
    assert(names.take(names.len() as int) =~= names);
    out
}

/// What the index knows of directories once a job is carried out.
pub open spec fn dirs_after(known: Set<Seq<char>>, job: DirJobView) -> Set<Seq<char>> {
    match job.op {
        DirOp::Track | DirOp::CreateRemote | DirOp::CreateLocal => known.insert(job.dir),
        DirOp::RemoveLocal | DirOp::RemoveRemote | DirOp::Forget => known.remove(job.dir),
    }
}

/// The report once a job is carried out.
pub open spec fn report_after(report: ReportView, job: DirJobView) -> ReportView {
    match job.op {
        DirOp::CreateRemote | DirOp::CreateLocal => report.wrote(job.dir, false),
        DirOp::RemoveLocal | DirOp::RemoveRemote => report.dropped(job.dir),
        DirOp::Track | DirOp::Forget => report,
    }
}

/// Records in the index and the report that a job was carried out.
pub fn conclude_dir(index: &mut Index, report: &mut SyncReport, job: &DirJob)
    requires
        old(index).wf(),
    ensures
        final(index).wf(),
        final(index).entries == old(index).entries,
        final(index).dir_set() == dirs_after(old(index).dir_set(), job@),
        final(report)@ == report_after(old(report)@, job@),
{
    match job.op {
        DirOp::Track => index.track_dir(&job.dir),
        DirOp::CreateRemote | DirOp::CreateLocal => {
            index.track_dir(&job.dir);
            report.record_write(&job.dir, false);
        },
        DirOp::RemoveLocal | DirOp::RemoveRemote => {
            index.forget_dir(&job.dir);
            report.record_removal(&job.dir);
        },
        DirOp::Forget => index.forget_dir(&job.dir),
    }
}

// ---------------------------------------------------------------------------
// Which directories are empty
// ---------------------------------------------------------------------------

/// Whether `path` lies somewhere under the directory `dir`.
pub open spec fn is_under(dir: Seq<char>, path: Seq<char>) -> bool {
    begins(path, dir.push('/'))
}

/// Whether no path of a list lies under a directory.
pub open spec fn has_nothing(dir: Seq<char>, all: Seq<Seq<char>>) -> bool {
    forall|i: int| 0 <= i < all.len() ==> !is_under(dir, #[trigger] all[i])
}

/// Whether no path of a list lies under a directory.
fn is_empty_dir(dir: &RelPath, all: &Vec<RelPath>) -> (out: bool)
    ensures
        out == has_nothing(dir@, paths(all@)),
{
    let text = cat(dir.as_str(), "/");
    let prefix = chars_of(text.as_str());
    proof {
        reveal_strlit("/");
        assert(prefix@ =~= dir@.push('/'));
    }
    let mut i: usize = 0;
    while i < all.len()
        invariant
            i <= all@.len(),
            prefix@ == dir@.push('/'),
            forall|j: int| 0 <= j < i ==> !is_under(dir@, #[trigger] paths(all@)[j]),
        decreases all.len() - i,
    {
        let path = chars_of(all[i].as_str());
        assert(paths(all@)[i as int] == path@);
        if starts(path.as_slice(), prefix.as_slice()) {
            return false;
        }
        i = i + 1;
    }
    true
}

/// The directories that are empty: of `dirs`, those under which no path of `all`
/// lies.
pub fn empty_dirs(dirs: &Vec<RelPath>, all: &Vec<RelPath>) -> (out: Table<()>)
    ensures
        out.wf(),
        keys_are_paths(out),
        forall|d: Seq<char>| #[trigger]
            out@.dom().contains(d) <==> paths(dirs@).contains(d) && has_nothing(d, paths(all@)),
{
    let ghost names = paths(dirs@);
    let mut out: Table<()> = Table::new();
    let mut i: usize = 0;
    while i < dirs.len()
        invariant
            i <= dirs@.len(),
            names == paths(dirs@),
            out.wf(),
            keys_are_paths(out),
            forall|d: Seq<char>| #[trigger]
                out@.dom().contains(d) <==> names.take(i as int).contains(d) && has_nothing(
                    d,
                    paths(all@),
                ),
        decreases dirs.len() - i,
    {
        let dir = &dirs[i];
        let ghost before = out@;
        if is_empty_dir(dir, all) {
            place(&mut out, dir, ());
        }
        assert(names.take(i + 1) =~= names.take(i as int).push(dir@));
        assert forall|d: Seq<char>| #[trigger]
            out@.dom().contains(d) <==> names.take(i + 1).contains(d) && has_nothing(
                d,
                paths(all@),
            ) by {
            if d == dir@ {
                assert(names.take(i + 1)[i as int] == d);
            } else {
                assert(before.dom().contains(d) == out@.dom().contains(d));
                if names.take(i + 1).contains(d) {
                    let j = names.take(i + 1).index_of(d);
                    assert(0 <= j < i + 1 && names.take(i + 1)[j] == d);
                    assert(names.take(i as int)[j] == d);
                }
                if names.take(i as int).contains(d) {
                    let j = names.take(i as int).index_of(d);
                    assert(0 <= j < i && names.take(i as int)[j] == d);
                    assert(names.take(i + 1)[j] == d);
                }
            }
        }
        i = i + 1;
    }
    assert(names.take(names.len() as int) =~= names);
    out
}

// ---------------------------------------------------------------------------
// Pruning
// ---------------------------------------------------------------------------

/// How many passes a prune makes at most. Each pass removes at least the deepest
/// empties, so a fixpoint is reached well within this many rounds.
pub const PRUNE_PASSES: u32 = 64;

/// Whether a prune makes another pass: a parent may have become empty once its
/// empty child was removed.
pub fn prune_again(passes: u32, removed_any: bool) -> (out: bool)
    ensures
        out == (removed_any && passes < PRUNE_PASSES),
{
    removed_any && passes < PRUNE_PASSES
}

// ---------------------------------------------------------------------------
// Laws
// ---------------------------------------------------------------------------

/// Whether a directory is there locally, on the remote and in the index once a
/// job is carried out.
pub open spec fn dir_after(local: bool, remote: bool, op: DirOp) -> (bool, bool, bool) {
    match op {
        DirOp::Track => (local, remote, true),
        DirOp::CreateRemote => (local, true, true),
        DirOp::CreateLocal => (true, remote, true),
        DirOp::RemoveLocal => (false, remote, false),
        DirOp::RemoveRemote => (local, false, false),
        DirOp::Forget => (local, remote, false),
    }
}

/// Mirroring a directory leaves it on both sides or on neither, and mirroring it
/// again changes nothing.
pub proof fn law_mirrored_dirs_stay(local: bool, remote: bool, known: bool)
    ensures
        ({
            let (l, r, k) = dir_after(local, remote, dir_op(local, remote, known));
            &&& l == r && l == k
            &&& dir_after(l, r, dir_op(l, r, k)) == (l, r, k)
            &&& dir_op(l, r, k) == DirOp::Track || dir_op(l, r, k) == DirOp::Forget
        }),
{
}

/// Exchanging the sides exchanges what is done to them.
pub proof fn law_mirroring_is_symmetric(local: bool, remote: bool, known: bool)
    ensures
        ({
            let a = dir_after(local, remote, dir_op(local, remote, known));
            let b = dir_after(remote, local, dir_op(remote, local, known));
            a.0 == b.1 && a.1 == b.0 && a.2 == b.2
        }),
{
}

/// What the index knows of directories once all jobs are carried out.
pub open spec fn dirs_after_all(known: Set<Seq<char>>, jobs: Seq<DirJobView>) -> Set<Seq<char>>
    decreases jobs.len(),
{
    if jobs.len() == 0 {
        known
    } else {
        dirs_after(dirs_after_all(known, jobs.drop_last()), jobs.last())
    }
}

/// The report once all jobs are carried out.
pub open spec fn report_after_all(report: ReportView, jobs: Seq<DirJobView>) -> ReportView
    decreases jobs.len(),
{
    if jobs.len() == 0 {
        report
    } else {
        report_after(report_after_all(report, jobs.drop_last()), jobs.last())
    }
}

/// Whether a directory is on both sides once it is mirrored.
pub open spec fn ends_up(s: DirScene, dir: Seq<char>) -> bool {
    (s.local.contains(dir) && s.remote.contains(dir)) || ((s.local.contains(dir)
        || s.remote.contains(dir)) && !s.known.contains(dir))
}

/// Of a list of directories, those that are newly created on one of the sides.
pub open spec fn created_of(s: DirScene, keys: Seq<Seq<char>>) -> Seq<Seq<char>> {
    keys.filter(|d: Seq<char>| s.local.contains(d) != s.remote.contains(d) && !s.known.contains(d))
}

/// Of a list of directories, those that were on both sides and are left on one.
pub open spec fn deleted_of(s: DirScene, keys: Seq<Seq<char>>) -> Seq<Seq<char>> {
    keys.filter(|d: Seq<char>| s.local.contains(d) != s.remote.contains(d) && s.known.contains(d))
}

/// What mirroring comes to: of the directories that it looks at, the index knows
/// exactly those that are on both sides afterwards, and of the others what it knew
/// before. The report gains, in order, the directories that were created on the other
/// side and those that were removed from the other side, and nothing else.
pub proof fn law_mirroring_adds_up(s: DirScene, report: ReportView)
    requires
        dir_subjects(s).finite(),
    ensures
        forall|p: Seq<char>| #[trigger]
            dirs_after_all(s.known, dir_jobs(s)).contains(p) <==> (if dir_subjects(s).contains(p) {
                ends_up(s, p)
            } else {
                s.known.contains(p)
            }),
        report_after_all(report, dir_jobs(s)) == (ReportView {
            added: report.added + created_of(s, in_order(dir_subjects(s))),
            removed: report.removed + deleted_of(s, in_order(dir_subjects(s))),
            ..report
        }),
{
    let keys = in_order(dir_subjects(s));
    law_in_order(dir_subjects(s));
    lemma_ascending_distinct(keys);
    lemma_mirroring(s, report, keys);
    assert forall|p: Seq<char>| keys.contains(p) <==> #[trigger] dir_subjects(s).contains(p) by {
        assert(keys.contains(p) <==> keys.to_set().contains(p));
    }
}

proof fn lemma_mirroring(s: DirScene, report: ReportView, keys: Seq<Seq<char>>)
    requires
        keys.no_duplicates(),
    ensures
        forall|p: Seq<char>| #[trigger]
            dirs_after_all(s.known, dir_jobs_for(s, keys)).contains(p) <==> (if keys.contains(p) {
                ends_up(s, p)
            } else {
                s.known.contains(p)
            }),
        report_after_all(report, dir_jobs_for(s, keys)) == (ReportView {
            added: report.added + created_of(s, keys),
            removed: report.removed + deleted_of(s, keys),
            ..report
        }),
    decreases keys.len(),
{
    reveal(Seq::filter);
    let jobs = dir_jobs_for(s, keys);
    if keys.len() == 0 {
        assert(report_after_all(report, jobs) =~= ReportView {
            added: report.added + created_of(s, keys),
            removed: report.removed + deleted_of(s, keys),
            ..report
        });
    } else {
        let front = keys.drop_last();
        let d = keys.last();
        assert(jobs.drop_last() =~= dir_jobs_for(s, front));
        assert(front.no_duplicates());
        lemma_mirroring(s, report, front);
        assert(!front.contains(d)) by {
            if front.contains(d) {
                let k = front.index_of(d);
                assert(0 <= k < front.len() && front[k] == d);
                assert(keys[k] == keys[keys.len() - 1]);
            }
        }
        assert forall|p: Seq<char>| #[trigger] keys.contains(p) <==> front.contains(p) || p == d by {
            if keys.contains(p) {
                let k = keys.index_of(p);
                assert(0 <= k < keys.len() && keys[k] == p);
                if k < front.len() {
                    assert(front[k] == p);
                }
            }
            if front.contains(p) {
                let k = front.index_of(p);
                assert(0 <= k < front.len() && front[k] == p);
                assert(keys[k] == p);
            }
            assert(keys[keys.len() - 1] == d);
        }
        let before = dirs_after_all(s.known, jobs.drop_last());
        assert(jobs.last() == dir_job(s, d));
        assert(dirs_after_all(s.known, jobs) == dirs_after(before, jobs.last()));
        assert forall|p: Seq<char>| #[trigger]
            dirs_after_all(s.known, jobs).contains(p) <==> (if keys.contains(p) {
                ends_up(s, p)
            } else {
                s.known.contains(p)
            }) by {
            assert(before.contains(p) <==> (if front.contains(p) {
                ends_up(s, p)
            } else {
                s.known.contains(p)
            }));
            assert(keys.contains(p) <==> front.contains(p) || p == d);
        }
        assert(report_after_all(report, jobs) =~= ReportView {
            added: report.added + created_of(s, keys),
            removed: report.removed + deleted_of(s, keys),
            ..report
        });
    }
}

/// The directories that a pass of a prune leaves: those in which there is
/// something.
pub open spec fn left_by_pass(dirs: Set<Seq<char>>, files: Set<Seq<char>>) -> Set<Seq<char>> {
    Set::new(
        |d: Seq<char>|
            dirs.contains(d) && exists|p: Seq<char>| #[trigger]
                is_under(d, p) && (dirs.contains(p) || files.contains(p)),
    )
}

/// The directories that are left after so many passes of a prune.
pub open spec fn left_after(dirs: Set<Seq<char>>, files: Set<Seq<char>>, passes: nat) -> Set<
    Seq<char>,
>
    decreases passes,
{
    if passes == 0 {
        dirs
    } else {
        left_by_pass(left_after(dirs, files, (passes - 1) as nat), files)
    }
}

/// Whether so many directories are nested in one another beneath `dir`.
pub open spec fn has_nested(dirs: Set<Seq<char>>, dir: Seq<char>, depth: nat) -> bool
    decreases depth,
{
    depth == 0 || exists|e: Seq<char>| #[trigger]
        dirs.contains(e) && is_under(dir, e) && has_nested(dirs, e, (depth - 1) as nat)
}

/// A pass that removes the empty directories of a tree leaves the others.
pub proof fn law_pass_removes_the_empty_ones(
    dirs: Set<Seq<char>>,
    files: Set<Seq<char>>,
    all: Seq<Seq<char>>,
    dir: Seq<char>,
)
    requires
        forall|p: Seq<char>| #[trigger] all.contains(p) <==> dirs.contains(p) || files.contains(p),
        dirs.contains(dir),
    ensures
        left_by_pass(dirs, files).contains(dir) <==> !has_nothing(dir, all),
{
    if left_by_pass(dirs, files).contains(dir) {
        let p = choose|p: Seq<char>| #[trigger]
            is_under(dir, p) && (dirs.contains(p) || files.contains(p));
        assert(all.contains(p));
        let i = all.index_of(p);
        assert(0 <= i < all.len() && all[i] == p);
        assert(is_under(dir, all[i]));
    }
    if !has_nothing(dir, all) {
        let i = choose|i: int| 0 <= i < all.len() && is_under(dir, #[trigger] all[i]);
        assert(all.contains(all[i]));
    }
}

/// A prune removes nested directories too, from the innermost out: one that holds
/// no file can only be left if more directories are nested beneath it than passes
/// were made.
pub proof fn law_prune_reaches_nested_parents(
    dirs: Set<Seq<char>>,
    files: Set<Seq<char>>,
    passes: nat,
    dir: Seq<char>,
)
    requires
        left_after(dirs, files, passes).contains(dir),
        forall|f: Seq<char>| #[trigger] files.contains(f) ==> !is_under(dir, f),
    ensures
        dirs.contains(dir),
        has_nested(dirs, dir, passes),
    decreases passes,
{
    if passes > 0 {
        let before = left_after(dirs, files, (passes - 1) as nat);
        let e = choose|p: Seq<char>| #[trigger]
            is_under(dir, p) && (before.contains(p) || files.contains(p));
        assert(before.contains(dir));
        assert(is_under(dir, e) && before.contains(e));
        assert forall|f: Seq<char>| #[trigger] files.contains(f) implies !is_under(e, f) by {
            if is_under(e, f) {
                lemma_under_transitive(dir, e, f);
            }
        }
        law_prune_reaches_nested_parents(dirs, files, (passes - 1) as nat, e);
        law_prune_reaches_nested_parents(dirs, files, (passes - 1) as nat, dir);
        assert(dirs.contains(e));
    }
}

proof fn lemma_under_transitive(a: Seq<char>, b: Seq<char>, c: Seq<char>)
    requires
        is_under(a, b),
        is_under(b, c),
    ensures
        is_under(a, c),
{
    let start = a.push('/');
    assert(c.take(start.len() as int) =~= start) by {
        assert forall|i: int| 0 <= i < start.len() implies c[i] == start[i] by {
            assert(b.take(start.len() as int)[i] == b[i]);
            assert(c.take(b.push('/').len() as int)[i] == c[i]);
            assert(b.push('/')[i] == b[i]);
        }
    }
}

/// A prune never removes a directory that holds a file.
pub proof fn law_prune_spares_directories_of_files(
    dirs: Set<Seq<char>>,
    files: Set<Seq<char>>,
    passes: nat,
    dir: Seq<char>,
    file: Seq<char>,
)
    requires
        dirs.contains(dir),
        files.contains(file),
        is_under(dir, file),
    ensures
        left_after(dirs, files, passes).contains(dir),
    decreases passes,
{
    if passes > 0 {
        law_prune_spares_directories_of_files(dirs, files, (passes - 1) as nat, dir, file);
    }
}

/// Mirroring an empty directory carries its creation or deletion over: one that is new on
/// a side comes to be on both, one that was on both and is left on one goes from that one
/// too, and one that is on both stays.
pub proof fn law_creation_and_deletion_propagate(local: bool, remote: bool, known: bool)
    ensures
        ({
            let then = dir_after(local, remote, dir_op(local, remote, known));
            let there = (local && remote) || ((local || remote) && !known);
            then.0 == there && then.1 == there && then.2 == there
        }),
        local && !remote && !known ==> dir_op(local, remote, known) == DirOp::CreateRemote,
        !local && remote && !known ==> dir_op(local, remote, known) == DirOp::CreateLocal,
        local && !remote && known ==> dir_op(local, remote, known) == DirOp::RemoveLocal,
        !local && remote && known ==> dir_op(local, remote, known) == DirOp::RemoveRemote,
        local && remote ==> dir_op(local, remote, known) == DirOp::Track,
        !local && !remote ==> dir_op(local, remote, known) == DirOp::Forget,
{
}

/// No empty directory is forgotten: one that either side has, or that the index knows,
/// has one job, which does what its presence on the two sides and in the index asks for.
pub proof fn law_no_directory_is_forgotten(s: DirScene, dir: Seq<char>)
    requires
        dir_subjects(s).finite(),
        s.local.contains(dir) || s.remote.contains(dir) || (s.known.contains(dir)
            && crate::relpath::is_rel(dir)),
    ensures
        exists|i: int| 0 <= i < dir_jobs(s).len() && (#[trigger] dir_jobs(s)[i]).dir == dir,
        forall|i: int|
            0 <= i < dir_jobs(s).len() && (#[trigger] dir_jobs(s)[i]).dir == dir ==> dir_jobs(
                s,
            )[i].op == dir_op(s.local.contains(dir), s.remote.contains(dir), s.known.contains(dir)),
        forall|i: int, j: int|
            0 <= i < j < dir_jobs(s).len() ==> (#[trigger] dir_jobs(s)[i]).dir != (
            #[trigger] dir_jobs(s)[j]).dir,
{
    let keys = in_order(dir_subjects(s));
    law_in_order(dir_subjects(s));
    lemma_ascending_distinct(keys);
    if s.known.contains(dir) && crate::relpath::is_rel(dir) {
        crate::relpath::law_normalized_is_stable(dir);
        assert(s.known.contains(dir) && normalized(dir) == Some(dir));
    }
    assert(dir_subjects(s).contains(dir));
    assert(keys.to_set().contains(dir));
    let k = keys.index_of(dir);
    assert(0 <= k < keys.len() && keys[k] == dir);
    assert(dir_jobs(s)[k].dir == dir);
    assert forall|i: int, j: int| 0 <= i < j < dir_jobs(s).len() implies (#[trigger] dir_jobs(
        s,
    )[i]).dir != (#[trigger] dir_jobs(s)[j]).dir by {
        assert(dir_jobs(s)[i].dir == keys[i] && dir_jobs(s)[j].dir == keys[j]);
    }
}

/// What lies under a directory starts with its path and a separator: a path that merely
/// starts with the same letters does not, nor does the directory itself.
pub proof fn law_under_goes_by_whole_names(dir: Seq<char>, path: Seq<char>)
    ensures
        is_under(dir, path) <==> path.len() > dir.len() && path.take(dir.len() as int) == dir
            && path[dir.len() as int] == '/',
{
    let start = dir.push('/');
    if is_under(dir, path) {
        assert(path.take(start.len() as int) == start);
        assert(path.take(dir.len() as int) =~= dir) by {
            assert forall|i: int| 0 <= i < dir.len() implies path[i] == dir[i] by {
                assert(path.take(start.len() as int)[i] == start[i]);
            }
        }
        assert(path.take(start.len() as int)[dir.len() as int] == '/');
    }
    if path.len() > dir.len() && path.take(dir.len() as int) == dir && path[dir.len() as int]
        == '/' {
        assert(path.take(start.len() as int) =~= start) by {
            assert forall|i: int| 0 <= i < start.len() implies path[i] == start[i] by {
                if i < dir.len() {
                    assert(path.take(dir.len() as int)[i] == dir[i]);
                }
            }
        }
    }
}

/// Empty directories are left alone where the backend has none, and else handled as asked
/// for.
pub proof fn law_backends_without_directories(supported: bool, mode: EmptyDirMode, out: EmptyDirMode)
    requires
        call_ensures(effective_dir_mode, (supported, mode), out),
    ensures
        supported ==> out == mode,
        !supported ==> out == EmptyDirMode::Ignore,
{
}

} // verus!
