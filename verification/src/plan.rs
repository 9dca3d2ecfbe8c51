//! The dry run: what a sync would do, decided exactly as the sync decides it,
//! and carried out nowhere.

use crate::decide::{action_for, decide, local_is_newer, newer_is_local, over_limit, oversize, Action, Rules,
    Winner};
use crate::dirs::{dir_job_views, dir_jobs, dir_scene, dir_subjects, mirror_jobs, DirJob, DirJobView, DirOp,
    DirScene};
use crate::engine::{action_at, in_order, job_at, jobs_for, jobs_of, key_paths, keys_are_paths,
    lemma_in_order, lemma_key_set, lookup, oversize_at, scene_of, subjects, tables_ok, union_keys,
    JobView, Scene};
use crate::index::Index;
use crate::matcher::Matcher;
use crate::model::{EmptyDirMode, FileMeta, RemoteMeta};
use crate::relpath::RelPath;
use crate::report::paths;
use crate::table::Table;
use vstd::prelude::*;

verus! {

/// One predicted change.
#[derive(Debug, Clone, Copy, PartialEq, Eq, Structural)]
pub enum PlanOp {
    /// Upload the local file; `update` if the baseline knows it.
    Push {
        /// Whether this updates a file that was synced before.
        update: bool,
    },
    /// Download the remote file; `update` if the baseline knows it.
    Pull {
        /// Whether this updates a file that was synced before.
        update: bool,
    },
    /// Delete the local file.
    DeleteLocal,
    /// Delete the remote file.
    DeleteRemote,
    /// Both sides changed; the newer one wins.
    Conflict {
        /// Which side is newer.
        winner: Winner,
    },
    /// Download over a diverged local file, which is kept as a copy.
    PullPreserveLocal,
    /// Upload over a diverged remote file, which is kept as a local copy.
    PushPreserveRemote,
    /// Left alone: the transfer is over the size limit.
    OversizeSkip {
        /// The size of the transfer.
        size: u64,
    },
    /// Create an empty directory locally.
    CreateLocalDir,
    /// Create an empty directory on the remote.
    CreateRemoteDir,
    /// Remove an empty local directory.
    DeleteLocalDir,
    /// Remove an empty remote directory.
    DeleteRemoteDir,
}

/// A path and what would happen to it.
#[derive(Debug)]
pub struct PlannedChange {
    /// The path.
    pub path: RelPath,
    /// What would happen to it.
    pub op: PlanOp,
}

/// What a sync would do.
#[derive(Debug)]
pub struct SyncPlan {
    /// The changes, in the order in which the sync would make them.
    pub changes: Vec<PlannedChange>,
}

impl View for SyncPlan {
    type V = Seq<(Seq<char>, PlanOp)>;

    open spec fn view(&self) -> Seq<(Seq<char>, PlanOp)> {
        change_views(self.changes@)
    }
}

/// The views of a sequence of changes.
pub open spec fn change_views(v: Seq<PlannedChange>) -> Seq<(Seq<char>, PlanOp)> {
    v.map_values(|c: PlannedChange| (c.path@, c.op))
}

// ---------------------------------------------------------------------------
// Files
// ---------------------------------------------------------------------------

/// The winner of a conflict between the two sides of a path.
pub open spec fn winner_at(scene: Scene, path: Seq<char>) -> Winner {
    if local_is_newer(lookup(scene.local, path).unwrap(), lookup(scene.remote, path).unwrap()) {
        Winner::Local
    } else {
        Winner::Remote
    }
}

/// What would happen to a path, if anything.
pub open spec fn op_at(scene: Scene, rules: Rules, path: Seq<char>) -> Option<PlanOp> {
    let update = scene.base.dom().contains(path);
    match oversize_at(scene, rules, path) {
        Some(size) => Some(PlanOp::OversizeSkip { size: size as u64 }),
        None => match action_at(scene, rules, path) {
            Action::Nothing | Action::DropIndex => None,
            Action::Push | Action::ResurrectPush => Some(PlanOp::Push { update }),
            Action::Pull | Action::ResurrectPull => Some(PlanOp::Pull { update }),
            Action::DeleteLocal => Some(PlanOp::DeleteLocal),
            Action::DeleteRemote => Some(PlanOp::DeleteRemote),
            Action::Conflict => Some(PlanOp::Conflict { winner: winner_at(scene, path) }),
            Action::PullPreserveLocal => Some(PlanOp::PullPreserveLocal),
            Action::PushPreserveRemote => Some(PlanOp::PushPreserveRemote),
        },
    }
}

/// What would happen to a list of paths.
pub open spec fn ops_for(scene: Scene, rules: Rules, keys: Seq<Seq<char>>) -> Seq<
    (Seq<char>, PlanOp),
>
    decreases keys.len(),
{
    if keys.len() == 0 {
        seq![]
    } else {
        let front = ops_for(scene, rules, keys.drop_last());
        match op_at(scene, rules, keys.last()) {
            Some(op) => front.push((keys.last(), op)),
            None => front,
        }
    }
}

/// What would happen to the files of a scene.
pub open spec fn ops_of(scene: Scene, rules: Rules) -> Seq<(Seq<char>, PlanOp)> {
    ops_for(scene, rules, in_order(subjects(scene)))
}

/// Predicts what a sync would do with the files.
pub fn plan_files(
    local: &Table<FileMeta>,
    remote: &Table<RemoteMeta>,
    index: &Index,
    includes: &Matcher,
    rules: Rules,
) -> (out: Vec<PlannedChange>)
    requires
        tables_ok(*local, *remote, *index),
        includes.wf(),
    ensures
        change_views(out@) == ops_of(scene_of(*local, *remote, *index, *includes), rules),
{
    let ghost scene = scene_of(*local, *remote, *index, *includes);
    let keys = union_keys(local, remote, index);
    let ghost names = paths(keys@);
    assert(names == in_order(subjects(scene)));
    let mut out: Vec<PlannedChange> = Vec::new();
    let mut i: usize = 0;
    assert(names.take(0) =~= Seq::empty());
    assert(change_views(out@) =~= Seq::empty());
    while i < keys.len()
        invariant
            i <= keys@.len(),
            tables_ok(*local, *remote, *index),
            includes.wf(),
            scene == scene_of(*local, *remote, *index, *includes),
            names == paths(keys@),
            change_views(out@) == ops_for(scene, rules, names.take(i as int)),
        decreases keys.len() - i,
    {
        let path = &keys[i];
        let ghost before = out@;
        let included = includes.is_match(path);
        let l = local.get(path.as_str());
        let r = remote.get(path.as_str());
        let b = index.get(path);
        let action = decide(rules, included, l, r, b);
        proof {
            assert(names.take(i + 1).drop_last() =~= names.take(i as int));
            assert(names.take(i + 1).last() == path@);
            assert(crate::decide::file_opt(l) == lookup(scene.local, path@));
            assert(crate::decide::remote_opt(r) == lookup(scene.remote, path@));
            assert(crate::decide::entry_opt(b) == lookup(scene.base, path@));
            crate::decide::law_actions_have_their_files(
                rules,
                included,
                lookup(scene.local, path@),
                lookup(scene.remote, path@),
                lookup(scene.base, path@),
            );
        }
        let update = b.is_some();
        let op = match oversize(action, l, r, rules.max_file_size) {
            Some(size) => Some(PlanOp::OversizeSkip { size }),
            None => match action {
                Action::Nothing | Action::DropIndex => None,
                Action::Push | Action::ResurrectPush => Some(PlanOp::Push { update }),
                Action::Pull | Action::ResurrectPull => Some(PlanOp::Pull { update }),
                Action::DeleteLocal => Some(PlanOp::DeleteLocal),
                Action::DeleteRemote => Some(PlanOp::DeleteRemote),
                Action::Conflict => {
                    // Predicted from the modification times alone.
                    let local_wins = match (l, r) {
                        (Some(lm), Some(rm)) => newer_is_local(lm, rm),
                        _ => true,
                    };
                    let winner = if local_wins {
                        Winner::Local
                    } else {
                        Winner::Remote
                    };
                    Some(PlanOp::Conflict { winner })
                },
                Action::PullPreserveLocal => Some(PlanOp::PullPreserveLocal),
                Action::PushPreserveRemote => Some(PlanOp::PushPreserveRemote),
            },
        };
        assert(op == op_at(scene, rules, path@));
        match op {
            Some(op) => {
                out.push(PlannedChange { path: path.clone(), op });
                assert(change_views(out@) =~= change_views(before).push((path@, op)));
            },
            None => {},
        }
        i = i + 1;
    }
    assert(names.take(names.len() as int) =~= names);
    out
}

// ---------------------------------------------------------------------------
// Directories
// ---------------------------------------------------------------------------

/// What a job of `mirror` mode would do to a directory, if anything.
pub open spec fn dir_change(op: DirOp) -> Option<PlanOp> {
    match op {
        DirOp::CreateRemote => Some(PlanOp::CreateRemoteDir),
        DirOp::CreateLocal => Some(PlanOp::CreateLocalDir),
        DirOp::RemoveLocal => Some(PlanOp::DeleteLocalDir),
        DirOp::RemoveRemote => Some(PlanOp::DeleteRemoteDir),
        DirOp::Track | DirOp::Forget => None,
    }
}

/// What the jobs of `mirror` mode would do.
pub open spec fn mirror_changes(jobs: Seq<DirJobView>) -> Seq<(Seq<char>, PlanOp)>
    decreases jobs.len(),
{
    if jobs.len() == 0 {
        seq![]
    } else {
        let front = mirror_changes(jobs.drop_last());
        match dir_change(jobs.last().op) {
            Some(op) => front.push((jobs.last().dir, op)),
            None => front,
        }
    }
}

/// The same operation on each of a list of directories.
pub open spec fn each(dirs: Seq<Seq<char>>, op: PlanOp) -> Seq<(Seq<char>, PlanOp)> {
    dirs.map_values(|d: Seq<char>| (d, op))
}

/// What would happen to the directories that are empty now.
pub open spec fn dir_changes(mode: EmptyDirMode, s: DirScene) -> Seq<(Seq<char>, PlanOp)> {
    match mode {
        EmptyDirMode::Ignore => seq![],
        EmptyDirMode::Mirror => mirror_changes(dir_jobs(s)),
        EmptyDirMode::Prune => each(in_order(s.local), PlanOp::DeleteLocalDir) + each(
            in_order(s.remote),
            PlanOp::DeleteRemoteDir,
        ),
    }
}

/// Adds the same operation on each directory to a list of changes.
fn push_each(out: &mut Vec<PlannedChange>, dirs: &Table<()>, op: PlanOp)
    requires
        dirs.wf(),
        keys_are_paths(*dirs),
    ensures
        change_views(final(out)@) == change_views(old(out)@) + each(in_order(dirs@.dom()), op),
{
    let keys = key_paths(dirs);
    let ghost names = paths(keys@);
    let ghost start = change_views(out@);
    proof {
        lemma_key_set(*dirs);
        lemma_in_order(names, dirs@.dom());
    }
    let mut i: usize = 0;
    assert(change_views(out@) =~= start + each(names.take(0), op));
    while i < keys.len()
        invariant
            i <= keys@.len(),
            names == paths(keys@),
            change_views(out@) == start + each(names.take(i as int), op),
        decreases keys.len() - i,
    {
        let ghost before = out@;
        out.push(PlannedChange { path: keys[i].clone(), op });
        assert(change_views(out@) =~= change_views(before).push((names[i as int], op)));
        assert(each(names.take(i + 1), op) =~= each(names.take(i as int), op).push(
            (names[i as int], op),
        ));
        i = i + 1;
    }
    assert(names.take(names.len() as int) =~= names);
}

/// Adds what the jobs of `mirror` mode would do to a list of changes.
fn push_mirror(out: &mut Vec<PlannedChange>, jobs: &Vec<DirJob>)
    ensures
        change_views(final(out)@) == change_views(old(out)@) + mirror_changes(
            dir_job_views(jobs@),
        ),
{
    let ghost start = change_views(out@);
    let ghost views = dir_job_views(jobs@);
    let mut i: usize = 0;
    assert(views.take(0) =~= Seq::empty());
    assert(change_views(out@) =~= start + mirror_changes(views.take(0)));
    while i < jobs.len()
        invariant
            i <= jobs@.len(),
            views == dir_job_views(jobs@),
            change_views(out@) == start + mirror_changes(views.take(i as int)),
        decreases jobs.len() - i,
    {
        let ghost before = out@;
        let job = &jobs[i];
        let op = match job.op {
            DirOp::CreateRemote => Some(PlanOp::CreateRemoteDir),
            DirOp::CreateLocal => Some(PlanOp::CreateLocalDir),
            DirOp::RemoveLocal => Some(PlanOp::DeleteLocalDir),
            DirOp::RemoveRemote => Some(PlanOp::DeleteRemoteDir),
            DirOp::Track | DirOp::Forget => None,
        };
        assert(views.take(i + 1).drop_last() =~= views.take(i as int));
        assert(views.take(i + 1).last() == job@);
        match op {
            Some(op) => {
                out.push(PlannedChange { path: job.dir.clone(), op });
                assert(change_views(out@) =~= change_views(before).push((job.dir@, op)));
                assert(change_views(out@) =~= start + mirror_changes(views.take(i + 1)));
            },
            None => {},
        }
        i = i + 1;
    }
    assert(views.take(views.len() as int) =~= views);
}

/// Predicts what a sync of one group would do: with the files, and then with the
/// directories that are empty now.
pub fn plan_group(
    local: &Table<FileMeta>,
    remote: &Table<RemoteMeta>,
    index: &Index,
    includes: &Matcher,
    rules: Rules,
    empty_dirs: EmptyDirMode,
    local_dirs: &Table<()>,
    remote_dirs: &Table<()>,
) -> (out: SyncPlan)
    requires
        tables_ok(*local, *remote, *index),
        includes.wf(),
        local_dirs.wf(),
        remote_dirs.wf(),
        keys_are_paths(*local_dirs),
        keys_are_paths(*remote_dirs),
    ensures
        out@ == ops_of(scene_of(*local, *remote, *index, *includes), rules) + dir_changes(
            empty_dirs,
            dir_scene(*local_dirs, *remote_dirs, *index),
        ),
{
    let mut changes = plan_files(local, remote, index, includes, rules);
    let ghost files = change_views(changes@);
    match empty_dirs {
        EmptyDirMode::Ignore => {
            assert(files + Seq::<(Seq<char>, PlanOp)>::empty() =~= files);
        },
        EmptyDirMode::Mirror => {
            let jobs = mirror_jobs(local_dirs, remote_dirs, index);
            push_mirror(&mut changes, &jobs);
        },
        EmptyDirMode::Prune => {
            push_each(&mut changes, local_dirs, PlanOp::DeleteLocalDir);
            push_each(&mut changes, remote_dirs, PlanOp::DeleteRemoteDir);
            assert(change_views(changes@) =~= files + (each(
                in_order(local_dirs@.dom()),
                PlanOp::DeleteLocalDir,
            ) + each(in_order(remote_dirs@.dom()), PlanOp::DeleteRemoteDir)));
        },
    }
    SyncPlan { changes }
}

// ---------------------------------------------------------------------------
// Laws
// ---------------------------------------------------------------------------

/// What a job would be announced as. Forgetting a baseline changes no file, so
/// it is not announced.
pub open spec fn op_of(job: JobView) -> Option<PlanOp> {
    match job.action {
        Action::Nothing | Action::DropIndex => None,
        Action::Push | Action::ResurrectPush => Some(PlanOp::Push { update: job.had_baseline }),
        Action::Pull | Action::ResurrectPull => Some(PlanOp::Pull { update: job.had_baseline }),
        Action::DeleteLocal => Some(PlanOp::DeleteLocal),
        Action::DeleteRemote => Some(PlanOp::DeleteRemote),
        Action::Conflict => Some(
            PlanOp::Conflict {
                winner: if local_is_newer(job.local.unwrap(), job.remote.unwrap()) {
                    Winner::Local
                } else {
                    Winner::Remote
                },
            },
        ),
        Action::PullPreserveLocal => Some(PlanOp::PullPreserveLocal),
        Action::PushPreserveRemote => Some(PlanOp::PushPreserveRemote),
    }
}

/// What a list of jobs would be announced as.
pub open spec fn announced(jobs: Seq<JobView>) -> Seq<(Seq<char>, PlanOp)>
    decreases jobs.len(),
{
    if jobs.len() == 0 {
        seq![]
    } else {
        let front = announced(jobs.drop_last());
        match op_of(jobs.last()) {
            Some(op) => front.push((jobs.last().path, op)),
            None => front,
        }
    }
}

/// The changes of a plan, without the files that are skipped for their size.
pub open spec fn without_skips(ops: Seq<(Seq<char>, PlanOp)>) -> Seq<(Seq<char>, PlanOp)>
    decreases ops.len(),
{
    if ops.len() == 0 {
        seq![]
    } else if ops.last().1 is OversizeSkip {
        without_skips(ops.drop_last())
    } else {
        without_skips(ops.drop_last()).push(ops.last())
    }
}

/// A dry run announces exactly the jobs of the sync of the same scene, in order.
pub proof fn law_plan_matches_sync(scene: Scene, rules: Rules)
    ensures
        without_skips(ops_of(scene, rules)) == announced(jobs_of(scene, rules)),
{
    lemma_plan_matches(scene, rules, in_order(subjects(scene)));
}

proof fn lemma_plan_matches(scene: Scene, rules: Rules, keys: Seq<Seq<char>>)
    ensures
        without_skips(ops_for(scene, rules, keys)) == announced(jobs_for(scene, rules, keys)),
    decreases keys.len(),
{
    if keys.len() > 0 {
        lemma_plan_matches(scene, rules, keys.drop_last());
        let p = keys.last();
        let front = ops_for(scene, rules, keys.drop_last());
        let jobs = jobs_for(scene, rules, keys.drop_last());
        match op_at(scene, rules, p) {
            Some(op) => {
                assert(front.push((p, op)).drop_last() =~= front);
            },
            None => {},
        }
        match job_at(scene, rules, p) {
            Some(job) => {
                assert(jobs.push(job).drop_last() =~= jobs);
            },
            None => {},
        }
    }
}

/// A file that a dry run shows as skipped for its size has no job.
pub proof fn law_oversize_is_never_transferred(scene: Scene, rules: Rules, path: Seq<char>)
    requires
        op_at(scene, rules, path) matches Some(op) && op is OversizeSkip,
    ensures
        job_at(scene, rules, path) is None,
        rules.max_file_size > 0,
{
}

proof fn lemma_ops_for(scene: Scene, rules: Rules, keys: Seq<Seq<char>>, path: Seq<char>, op: PlanOp)
    ensures
        ops_for(scene, rules, keys).contains((path, op)) <==> keys.contains(path) && op_at(
            scene,
            rules,
            path,
        ) == Some(op),
    decreases keys.len(),
{
    if keys.len() > 0 {
        let less = keys.drop_last();
        let front = ops_for(scene, rules, less);
        let all = ops_for(scene, rules, keys);
        lemma_ops_for(scene, rules, less, path, op);
        if all.contains((path, op)) {
            let k = all.index_of((path, op));
            assert(0 <= k < all.len() && all[k] == (path, op));
            if k < front.len() {
                assert(front[k] == (path, op));
                let m = less.index_of(path);
                assert(0 <= m < less.len() && less[m] == path);
                assert(keys[m] == path);
            } else {
                assert(keys[keys.len() - 1] == path);
            }
        }
        if keys.contains(path) && op_at(scene, rules, path) == Some(op) {
            let m = keys.index_of(path);
            assert(0 <= m < keys.len() && keys[m] == path);
            if m < less.len() {
                assert(less[m] == path);
                let k = front.index_of((path, op));
                assert(0 <= k < front.len() && front[k] == (path, op));
                assert(all[k] == (path, op));
            } else {
                assert(all[front.len() as int] == (path, op));
            }
        }
    }
}

/// A dry run tells of every file that would change, and of no other: what it says of a
/// path is what the decision for the path comes to, and a file that is left alone for its
/// size is shown with that size.
pub proof fn law_plan_tells_of_every_file(scene: Scene, rules: Rules, path: Seq<char>, op: PlanOp)
    requires
        subjects(scene).finite(),
        scene.local.dom().contains(path) || scene.remote.dom().contains(path),
    ensures
        ({
            let local = if scene.local.dom().contains(path) {
                Some(scene.local[path])
            } else {
                None
            };
            let remote = if scene.remote.dom().contains(path) {
                Some(scene.remote[path])
            } else {
                None
            };
            let base = if scene.base.dom().contains(path) {
                Some(scene.base[path])
            } else {
                None
            };
            let a = action_for(rules, (scene.included)(path), local, remote, base);
            let size = over_limit(a, local, remote, rules.max_file_size as int);
            let told = ops_of(scene, rules).contains((path, op));
            if size is Some {
                told <==> op == (PlanOp::OversizeSkip { size: size.unwrap() as u64 })
            } else {
                &&& a == Action::Nothing || a == Action::DropIndex ==> !told
                &&& a == Action::Push || a == Action::ResurrectPush ==> (told <==> op
                    == (PlanOp::Push { update: base is Some }))
                &&& a == Action::Pull || a == Action::ResurrectPull ==> (told <==> op
                    == (PlanOp::Pull { update: base is Some }))
                &&& a == Action::DeleteLocal ==> (told <==> op == PlanOp::DeleteLocal)
                &&& a == Action::DeleteRemote ==> (told <==> op == PlanOp::DeleteRemote)
                &&& a == Action::PullPreserveLocal ==> (told <==> op == PlanOp::PullPreserveLocal)
                &&& a == Action::PushPreserveRemote ==> (told <==> op == PlanOp::PushPreserveRemote)
                &&& a == Action::Conflict ==> (told <==> op == (PlanOp::Conflict {
                    winner: if remote.unwrap().mtime is Some && remote.unwrap().mtime.unwrap()
                        > local.unwrap().mtime {
                        Winner::Remote
                    } else {
                        Winner::Local
                    },
                }))
            }
        }),
{
    let keys = in_order(subjects(scene));
    crate::engine::law_in_order(subjects(scene));
    assert(subjects(scene).contains(path));
    assert(keys.to_set().contains(path));
    lemma_ops_for(scene, rules, keys, path, op);
}

proof fn lemma_mirror_changes(jobs: Seq<DirJobView>, dir: Seq<char>, op: PlanOp)
    ensures
        mirror_changes(jobs).contains((dir, op)) <==> exists|i: int|
            0 <= i < jobs.len() && (#[trigger] jobs[i]).dir == dir && dir_change(jobs[i].op)
                == Some(op),
    decreases jobs.len(),
{
    if jobs.len() > 0 {
        let less = jobs.drop_last();
        let front = mirror_changes(less);
        let all = mirror_changes(jobs);
        lemma_mirror_changes(less, dir, op);
        if all.contains((dir, op)) {
            let k = all.index_of((dir, op));
            assert(0 <= k < all.len() && all[k] == (dir, op));
            if k < front.len() {
                assert(front[k] == (dir, op));
                let i = choose|i: int|
                    0 <= i < less.len() && (#[trigger] less[i]).dir == dir && dir_change(less[i].op)
                        == Some(op);
                assert(jobs[i] == less[i]);
            } else {
                assert(jobs[jobs.len() - 1] == jobs.last());
            }
        }
        if exists|i: int|
            0 <= i < jobs.len() && (#[trigger] jobs[i]).dir == dir && dir_change(jobs[i].op)
                == Some(op) {
            let i = choose|i: int|
                0 <= i < jobs.len() && (#[trigger] jobs[i]).dir == dir && dir_change(jobs[i].op)
                    == Some(op);
            if i < less.len() {
                assert(less[i] == jobs[i]);
                let k = front.index_of((dir, op));
                assert(0 <= k < front.len() && front[k] == (dir, op));
                assert(all[k] == (dir, op));
            } else {
                assert(all[front.len() as int] == (dir, op));
            }
        }
    }
}

/// A dry run tells of every empty directory that would be created or removed. Mirroring
/// creates one that is new on a side on the other, and removes one that was on both from
/// the side where it is left; pruning removes every one from where it is; and nothing
/// happens to them where they are ignored.
pub proof fn law_plan_tells_of_every_directory(s: DirScene, dir: Seq<char>)
    requires
        dir_subjects(s).finite(),
        s.local.finite(),
        s.remote.finite(),
        s.local.contains(dir) || s.remote.contains(dir),
    ensures
        ({
            let changes = dir_changes(EmptyDirMode::Mirror, s);
            let here = s.local.contains(dir);
            let there = s.remote.contains(dir);
            let known = s.known.contains(dir);
            &&& changes.contains((dir, PlanOp::CreateRemoteDir)) <==> here && !there && !known
            &&& changes.contains((dir, PlanOp::CreateLocalDir)) <==> !here && there && !known
            &&& changes.contains((dir, PlanOp::DeleteLocalDir)) <==> here && !there && known
            &&& changes.contains((dir, PlanOp::DeleteRemoteDir)) <==> !here && there && known
        }),
        ({
            let changes = dir_changes(EmptyDirMode::Prune, s);
            &&& changes.contains((dir, PlanOp::DeleteLocalDir)) <==> s.local.contains(dir)
            &&& changes.contains((dir, PlanOp::DeleteRemoteDir)) <==> s.remote.contains(dir)
            &&& !changes.contains((dir, PlanOp::CreateLocalDir))
            &&& !changes.contains((dir, PlanOp::CreateRemoteDir))
        }),
        dir_changes(EmptyDirMode::Ignore, s).len() == 0,
{
    let jobs = dir_jobs(s);
    crate::dirs::law_no_directory_is_forgotten(s, dir);
    crate::dirs::law_creation_and_deletion_propagate(
        s.local.contains(dir),
        s.remote.contains(dir),
        s.known.contains(dir),
    );
    lemma_mirror_changes(jobs, dir, PlanOp::CreateRemoteDir);
    lemma_mirror_changes(jobs, dir, PlanOp::CreateLocalDir);
    lemma_mirror_changes(jobs, dir, PlanOp::DeleteLocalDir);
    lemma_mirror_changes(jobs, dir, PlanOp::DeleteRemoteDir);
    let i = choose|i: int| 0 <= i < jobs.len() && (#[trigger] jobs[i]).dir == dir;
    assert(jobs[i].dir == dir);
    lemma_each(s.local, dir, PlanOp::DeleteLocalDir);
    lemma_each(s.remote, dir, PlanOp::DeleteRemoteDir);
    let first = each(in_order(s.local), PlanOp::DeleteLocalDir);
    let second = each(in_order(s.remote), PlanOp::DeleteRemoteDir);
    let both = first + second;
    if s.local.contains(dir) {
        let k = first.index_of((dir, PlanOp::DeleteLocalDir));
        assert(0 <= k < first.len() && first[k] == (dir, PlanOp::DeleteLocalDir));
        assert(both[k] == first[k]);
    }
    if s.remote.contains(dir) {
        let k = second.index_of((dir, PlanOp::DeleteRemoteDir));
        assert(0 <= k < second.len() && second[k] == (dir, PlanOp::DeleteRemoteDir));
        assert(both[first.len() + k] == second[k]);
    }
    assert forall|k: int| 0 <= k < both.len() implies (#[trigger] both[k]).1
        == PlanOp::DeleteLocalDir && first.contains(both[k]) || both[k].1 == PlanOp::DeleteRemoteDir
        && second.contains(both[k]) by {
        if k < first.len() {
            assert(both[k] == first[k]);
        } else {
            assert(both[k] == second[k - first.len()]);
        }
    }
}

proof fn lemma_each(dirs: Set<Seq<char>>, dir: Seq<char>, op: PlanOp)
    requires
        dirs.finite(),
    ensures
        each(in_order(dirs), op).contains((dir, op)) <==> dirs.contains(dir),
{
    let keys = in_order(dirs);
    crate::engine::law_in_order(dirs);
    let all = each(keys, op);
    if all.contains((dir, op)) {
        let k = all.index_of((dir, op));
        assert(0 <= k < all.len() && all[k] == (dir, op));
        assert(keys[k] == dir);
        assert(keys.to_set().contains(dir));
    }
    if dirs.contains(dir) {
        assert(keys.to_set().contains(dir));
        let k = keys.index_of(dir);
        assert(0 <= k < keys.len() && keys[k] == dir);
        assert(all[k] == (dir, op));
    }
}

} // verus!
