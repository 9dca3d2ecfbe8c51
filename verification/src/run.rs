//! A whole sync of a group, step by step: both sides are looked at, the files are
//! brought in step, then the empty directories, and at last the backend is asked to
//! finalize. The first failure ends it.
//!
//! The run never touches a file itself. Its driver carries out the step that
//! [`Run::step`] asks for and hands the outcome to [`Run::take`].

use crate::decide::Rules;
use crate::dirs::{dir_job_views, dir_jobs, dirs_after, dirs_after_all, prune_again,
    report_after_all, DirJob, DirJobView, DirOp, DirScene, PRUNE_PASSES};
use crate::engine::{files_of, in_order, jobs_of, key_paths, keys_are_paths, lemma_in_order,
    lemma_key_set, remotes_of, JobView};
use crate::error::Error;
use crate::group::{scene_with, sync_group, GroupGlobs};
use crate::index::Index;
use crate::model::{EmptyDirMode, FileMeta, FileView, RemoteMeta, RemoteView};
use crate::relpath::RelPath;
use crate::report::{paths, ReportView, SyncReport};
use crate::session::{files_after, learned, next_command, no_facts, report_after, Command, Event, EventView, Session,
    SessionView};
use crate::table::Table;
use vstd::prelude::*;

verus! {

/// How far a sync has come.
#[derive(Debug, Clone, Copy, PartialEq, Eq, Structural)]
pub enum Stage {
    /// The local tree is to be scanned.
    Scan,
    /// The remote is to be listed.
    Snapshot,
    /// The files are brought in step.
    Files,
    /// The empty local directories are to be listed.
    ListLocal,
    /// The empty local directories are pruned.
    LocalDirs,
    /// The empty remote directories are to be listed.
    ListRemote,
    /// The empty directories are mirrored, or the remote ones pruned.
    RemoteDirs,
    /// The backend is to finalize.
    Finalize,
    /// All is done, or something failed.
    Over,
}

/// What the driver is to do next.
#[derive(Debug, Clone, Copy, PartialEq, Eq, Structural)]
pub enum Step {
    /// Scan the local tree, without what is excluded.
    ScanLocal,
    /// List the files of the remote.
    Snapshot,
    /// Carry out a command for the file of the job under way.
    File(Command),
    /// List the empty directories of the local tree.
    ListLocalDirs,
    /// List the empty directories of the remote.
    ListRemoteDirs,
    /// Create the directory under way in the local tree.
    CreateLocalDir,
    /// Create the directory under way on the remote.
    CreateRemoteDir,
    /// Remove the directory under way from the local tree.
    RemoveLocalDir,
    /// Remove the directory under way from the remote.
    RemoveRemoteDir,
    /// Nothing outside: what was done is recorded.
    Record,
    /// Ask the backend to finalize.
    Finalize,
    /// Nothing is left to do.
    Over,
}

/// What came of a step.
#[derive(Debug)]
pub enum Outcome {
    /// The files of the local tree.
    Scanned(Table<FileMeta>),
    /// The files of the remote.
    Snapshot(Table<RemoteMeta>),
    /// What came of a command for a file.
    File(Event),
    /// Directories that were listed.
    Listed(Table<()>),
    /// It was done.
    Done,
    /// It failed.
    Failed(Error),
}

/// What [`Outcome`] says.
pub enum OutcomeView {
    /// The files of the local tree.
    Scanned(Map<Seq<char>, FileView>),
    /// The files of the remote.
    Snapshot(Map<Seq<char>, RemoteView>),
    /// What came of a command for a file.
    File(EventView),
    /// Directories that were listed.
    Listed(Set<Seq<char>>),
    /// It was done.
    Done,
    /// It failed.
    Failed(Error),
}

impl View for Outcome {
    type V = OutcomeView;

    open spec fn view(&self) -> OutcomeView {
        match self {
            Outcome::Scanned(t) => OutcomeView::Scanned(files_of(*t)),
            Outcome::Snapshot(t) => OutcomeView::Snapshot(remotes_of(*t)),
            Outcome::File(e) => OutcomeView::File(e@),
            Outcome::Listed(t) => OutcomeView::Listed(t@.dom()),
            Outcome::Done => OutcomeView::Done,
            Outcome::Failed(e) => OutcomeView::Failed(*e),
        }
    }
}

impl Outcome {
    /// Whether the tables are in order and keyed by paths.
    pub open spec fn wf(&self) -> bool {
        match self {
            Outcome::Scanned(t) => t.wf() && keys_are_paths(*t),
            Outcome::Snapshot(t) => t.wf() && keys_are_paths(*t),
            Outcome::Listed(t) => t.wf() && keys_are_paths(*t),
            _ => true,
        }
    }
}

/// A sync of a group under way.
pub struct Run {
    globs: GroupGlobs,
    rules: Rules,
    mode: EmptyDirMode,
    stage: Stage,
    local: Table<FileMeta>,
    session: Session,
    local_dirs: Table<()>,
    jobs: Vec<DirJob>,
    at: usize,
    passes: u32,
    removed: bool,
    error: Option<Error>,
}

/// What [`Run`] says.
pub struct RunView {
    /// The globs of the group.
    pub globs: GroupGlobs,
    /// The rules of the sync.
    pub rules: Rules,
    /// What becomes of empty directories.
    pub mode: EmptyDirMode,
    /// How far the sync has come.
    pub stage: Stage,
    /// The local files, once scanned.
    pub local: Map<Seq<char>, FileView>,
    /// The jobs of the files, the baseline and the report.
    pub session: SessionView,
    /// The directories of the baseline.
    pub known: Set<Seq<char>>,
    /// The empty local directories, once listed.
    pub local_dirs: Set<Seq<char>>,
    /// The jobs of the directories.
    pub jobs: Seq<DirJobView>,
    /// How many of them are done.
    pub at: int,
    /// How many passes of a prune are over.
    pub passes: int,
    /// Whether the pass under way removed anything.
    pub removed: bool,
    /// What failed, if anything did.
    pub error: Option<Error>,
}

impl View for Run {
    type V = RunView;

    closed spec fn view(&self) -> RunView {
        RunView {
            globs: self.globs,
            rules: self.rules,
            mode: self.mode,
            stage: self.stage,
            local: files_of(self.local),
            session: self.session@,
            known: self.session.dir_set(),
            local_dirs: self.local_dirs@.dom(),
            jobs: dir_job_views(self.jobs@),
            at: self.at as int,
            passes: self.passes as int,
            removed: self.removed,
            error: self.error,
        }
    }
}

/// The step for a job of a directory.
pub open spec fn dir_step(op: DirOp) -> Step {
    match op {
        DirOp::Track | DirOp::Forget => Step::Record,
        DirOp::CreateRemote => Step::CreateRemoteDir,
        DirOp::CreateLocal => Step::CreateLocalDir,
        DirOp::RemoveLocal => Step::RemoveLocalDir,
        DirOp::RemoveRemote => Step::RemoveRemoteDir,
    }
}

/// What to do next.
pub open spec fn step_of(v: RunView) -> Step {
    match v.stage {
        Stage::Scan => Step::ScanLocal,
        Stage::Snapshot => Step::Snapshot,
        Stage::Files => if v.session.command() == Command::Finish {
            Step::Record
        } else {
            Step::File(v.session.command())
        },
        Stage::ListLocal => Step::ListLocalDirs,
        Stage::ListRemote => Step::ListRemoteDirs,
        Stage::LocalDirs | Stage::RemoteDirs => dir_step(v.jobs[v.at].op),
        Stage::Finalize => Step::Finalize,
        Stage::Over => Step::Over,
    }
}

/// Turns to the next stage if nothing is left to do in this one. A prune makes
/// another pass while it removes anything, up to a limit.
pub open spec fn advanced(v: RunView) -> RunView {
    match v.stage {
        Stage::Files => if !v.session.is_over() {
            v
        } else if v.mode == EmptyDirMode::Ignore {
            RunView { stage: Stage::Finalize, ..v }
        } else {
            RunView { stage: Stage::ListLocal, ..v }
        },
        Stage::LocalDirs => if v.at < v.jobs.len() {
            v
        } else {
            RunView { stage: Stage::ListRemote, ..v }
        },
        Stage::RemoteDirs => if v.at < v.jobs.len() {
            v
        } else if v.mode == EmptyDirMode::Prune && v.removed && v.passes + 1 < PRUNE_PASSES {
            RunView { stage: Stage::ListLocal, passes: v.passes + 1, removed: false, ..v }
        } else {
            RunView { stage: Stage::Finalize, ..v }
        },
        _ => v,
    }
}

/// The jobs that prune directories, in order.
pub open spec fn prune_jobs(dirs: Set<Seq<char>>, op: DirOp) -> Seq<DirJobView> {
    in_order(dirs).map_values(|d: Seq<char>| DirJobView { dir: d, op })
}

/// The sync once the job of a directory is done.
pub open spec fn dir_done(v: RunView) -> RunView {
    let job = v.jobs[v.at];
    if v.mode == EmptyDirMode::Prune {
        RunView {
            session: SessionView { report: v.session.report.dropped(job.dir), ..v.session },
            at: v.at + 1,
            removed: true,
            ..v
        }
    } else {
        RunView {
            session: SessionView {
                report: crate::dirs::report_after(v.session.report, job),
                ..v.session
            },
            known: dirs_after(v.known, job),
            at: v.at + 1,
            ..v
        }
    }
}

/// The session once the job of a file is done.
pub open spec fn file_done(s: SessionView) -> SessionView {
    SessionView {
        jobs: s.jobs,
        at: s.at + 1,
        facts: no_facts(),
        files: files_after(s.files, s.job(), s.facts),
        report: report_after(s.report, s.job(), s.facts),
    }
}

/// The sync once an outcome is taken in. An outcome that the step cannot have is
/// ignored.
pub open spec fn after(v: RunView, outcome: OutcomeView) -> RunView {
    match (v.stage, outcome) {
        (Stage::Over, _) => v,
        (_, OutcomeView::Failed(e)) => RunView { stage: Stage::Over, error: Some(e), ..v },
        (Stage::Scan, OutcomeView::Scanned(local)) => RunView { local, stage: Stage::Snapshot, ..v },
        (Stage::Snapshot, OutcomeView::Snapshot(remote)) => advanced(
            RunView {
                session: SessionView {
                    jobs: jobs_of(
                        scene_with(v.globs, v.local, remote, v.session.files),
                        v.rules,
                    ),
                    at: 0,
                    facts: no_facts(),
                    files: v.session.files,
                    report: ReportView::blank(),
                },
                stage: Stage::Files,
                ..v
            },
        ),
        (Stage::Files, OutcomeView::File(event)) => if v.session.command() == Command::Finish {
            v
        } else {
            RunView {
                session: SessionView { facts: learned(v.session.facts, event), ..v.session },
                ..v
            }
        },
        (Stage::Files, OutcomeView::Done) => if v.session.command() == Command::Finish {
            advanced(RunView { session: file_done(v.session), ..v })
        } else {
            v
        },
        (Stage::ListLocal, OutcomeView::Listed(dirs)) => if v.mode == EmptyDirMode::Prune {
            advanced(
                RunView {
                    jobs: prune_jobs(dirs, DirOp::RemoveLocal),
                    at: 0,
                    stage: Stage::LocalDirs,
                    ..v
                },
            )
        } else {
            RunView { local_dirs: dirs, stage: Stage::ListRemote, ..v }
        },
        (Stage::ListRemote, OutcomeView::Listed(dirs)) => advanced(
            RunView {
                jobs: if v.mode == EmptyDirMode::Prune {
                    prune_jobs(dirs, DirOp::RemoveRemote)
                } else {
                    dir_jobs(DirScene { local: v.local_dirs, remote: dirs, known: v.known })
                },
                at: 0,
                stage: Stage::RemoteDirs,
                ..v
            },
        ),
        (Stage::LocalDirs, OutcomeView::Done) => advanced(dir_done(v)),
        (Stage::RemoteDirs, OutcomeView::Done) => advanced(dir_done(v)),
        (Stage::Finalize, OutcomeView::Done) => RunView { stage: Stage::Over, ..v },
        _ => v,
    }
}

/// The jobs that prune directories, in order.
fn jobs_to_prune(dirs: &Table<()>, op: DirOp) -> (out: Vec<DirJob>)
    requires
        dirs.wf(),
        keys_are_paths(*dirs),
    ensures
        dir_job_views(out@) == prune_jobs(dirs@.dom(), op),
{
    let keys = key_paths(dirs);
    let ghost names = paths(keys@);
    proof {
        lemma_key_set(*dirs);
        lemma_in_order(names, dirs@.dom());
    }
    let mut out: Vec<DirJob> = Vec::new();
    let mut i: usize = 0;
    while i < keys.len()
        invariant
            i <= keys@.len(),
            names == paths(keys@),
            out@.len() == i,
            forall|j: int|
                0 <= j < i ==> (#[trigger] out@[j])@ == (DirJobView { dir: names[j], op }),
        decreases keys.len() - i,
    {
        out.push(DirJob { dir: keys[i].clone(), op });
        i = i + 1;
    }
    assert(dir_job_views(out@) =~= prune_jobs(dirs@.dom(), op));
    out
}

impl Run {
    /// Whether the run is in order.
    pub closed spec fn wf(&self) -> bool {
        &&& self.globs.wf()
        &&& self.session.wf()
        &&& self.local.wf() && keys_are_paths(self.local)
        &&& self.local_dirs.wf() && keys_are_paths(self.local_dirs)
        &&& self.passes < PRUNE_PASSES
        &&& self.stage == Stage::Files ==> !self.session@.is_over()
        &&& self.stage == Stage::LocalDirs || self.stage == Stage::RemoteDirs ==> self.at
            < self.jobs@.len()
    }

    /// A sync that has still to begin. Where the backend has no empty directories, the
    /// mode is to ignore them.
    pub fn new(globs: GroupGlobs, index: Index, rules: Rules, mode: EmptyDirMode) -> (out: Run)
        requires
            globs.wf(),
            index.wf(),
        ensures
            out.wf(),
            out@ == (RunView {
                globs,
                rules,
                mode,
                stage: Stage::Scan,
                local: Map::<Seq<char>, FileView>::empty(),
                session: SessionView {
                    jobs: Seq::<JobView>::empty(),
                    at: 0,
                    facts: no_facts(),
                    files: index.files(),
                    report: ReportView::blank(),
                },
                known: index.dir_set(),
                local_dirs: Set::<Seq<char>>::empty(),
                jobs: Seq::<DirJobView>::empty(),
                at: 0,
                passes: 0,
                removed: false,
                error: None,
            }),
    {
        let out = Run {
            globs,
            rules,
            mode,
            stage: Stage::Scan,
            local: Table::new(),
            session: Session::new(Vec::new(), index),
            local_dirs: Table::new(),
            jobs: Vec::new(),
            at: 0,
            passes: 0,
            removed: false,
            error: None,
        };
        assert(out@.local =~= Map::<Seq<char>, FileView>::empty());
        assert(out@.session.jobs =~= Seq::<JobView>::empty());
        assert(out@.local_dirs =~= Set::<Seq<char>>::empty());
        assert(out@.jobs =~= Seq::<DirJobView>::empty());
        out
    }

    /// What to do next.
    pub fn step(&self) -> (out: Step)
        requires
            self.wf(),
        ensures
            out == step_of(self@),
    {
        match self.stage {
            Stage::Scan => Step::ScanLocal,
            Stage::Snapshot => Step::Snapshot,
            Stage::Files => match self.session.command() {
                Some(Command::Finish) => Step::Record,
                Some(c) => Step::File(c),
                None => Step::Over,
            },
            Stage::ListLocal => Step::ListLocalDirs,
            Stage::ListRemote => Step::ListRemoteDirs,
            Stage::LocalDirs | Stage::RemoteDirs => {
                assert(self@.jobs[self.at as int] == self.jobs@[self.at as int]@);
                match self.jobs[self.at].op {
                    DirOp::Track | DirOp::Forget => Step::Record,
                    DirOp::CreateRemote => Step::CreateRemoteDir,
                    DirOp::CreateLocal => Step::CreateLocalDir,
                    DirOp::RemoveLocal => Step::RemoveLocalDir,
                    DirOp::RemoveRemote => Step::RemoveRemoteDir,
                }
            },
            Stage::Finalize => Step::Finalize,
            Stage::Over => Step::Over,
        }
    }

    /// The globs of the group.
    pub fn globs(&self) -> (out: &GroupGlobs)
        ensures
            *out == self@.globs,
    {
        &self.globs
    }

    /// The session of the files: the job under way, and what is to be written for it.
    pub fn session(&self) -> (out: &Session)
        requires
            self.wf(),
        ensures
            out.wf(),
            out@ == self@.session,
    {
        &self.session
    }

    /// The directory under way, if one is.
    pub fn dir(&self) -> (out: Option<&RelPath>)
        requires
            self.wf(),
        ensures
            match out {
                Some(d) => (self@.stage == Stage::LocalDirs || self@.stage == Stage::RemoteDirs)
                    && d@ == self@.jobs[self@.at].dir,
                None => self@.stage != Stage::LocalDirs && self@.stage != Stage::RemoteDirs,
            },
    {
        match self.stage {
            Stage::LocalDirs | Stage::RemoteDirs => {
                assert(self@.jobs[self.at as int] == self.jobs@[self.at as int]@);
                Some(&self.jobs[self.at].dir)
            },
            _ => None,
        }
    }

    /// Whether all but the place within the stage is in order.
    closed spec fn nearly_wf(&self) -> bool {
        &&& self.globs.wf()
        &&& self.session.wf()
        &&& self.local.wf() && keys_are_paths(self.local)
        &&& self.local_dirs.wf() && keys_are_paths(self.local_dirs)
        &&& self.passes < PRUNE_PASSES
    }

    /// Turns to the next stage if nothing is left to do in this one.
    fn advance(&mut self)
        requires
            old(self).nearly_wf(),
        ensures
            final(self).wf(),
            final(self)@ == advanced(old(self)@),
    {
        match self.stage {
            Stage::Files => {
                if self.session.command().is_none() {
                    self.stage = if self.mode == EmptyDirMode::Ignore {
                        Stage::Finalize
                    } else {
                        Stage::ListLocal
                    };
                }
            },
            Stage::LocalDirs => {
                if self.at >= self.jobs.len() {
                    self.stage = Stage::ListRemote;
                }
            },
            Stage::RemoteDirs => {
                if self.at >= self.jobs.len() {
                    if self.mode == EmptyDirMode::Prune && prune_again(
                        self.passes + 1,
                        self.removed,
                    ) {
                        self.passes = self.passes + 1;
                        self.removed = false;
                        self.stage = Stage::ListLocal;
                    } else {
                        self.stage = Stage::Finalize;
                    }
                }
            },
            _ => {},
        }
    }

    /// Starts on the files, once both sides are known.
    fn begin(&mut self, remote: &Table<RemoteMeta>)
        requires
            old(self).nearly_wf(),
            remote.wf(),
            keys_are_paths(*remote),
        ensures
            final(self).nearly_wf(),
            final(self)@ == (RunView {
                session: SessionView {
                    jobs: jobs_of(
                        scene_with(
                            old(self)@.globs,
                            old(self)@.local,
                            remotes_of(*remote),
                            old(self)@.session.files,
                        ),
                        old(self)@.rules,
                    ),
                    at: 0,
                    facts: no_facts(),
                    files: old(self)@.session.files,
                    report: ReportView::blank(),
                },
                stage: Stage::Files,
                ..old(self)@
            }),
    {
        let mut before = Session::new(Vec::new(), Index::new());
        std::mem::swap(&mut before, &mut self.session);
        let (index, _report) = before.into_parts();
        self.session = sync_group(&self.globs, &self.local, remote, index, self.rules);
        self.stage = Stage::Files;
    }

    /// Records that the job of a directory is done.
    fn conclude_dir(&mut self)
        requires
            old(self).nearly_wf(),
            old(self)@.at < old(self)@.jobs.len(),
        ensures
            final(self).nearly_wf(),
            final(self)@ == dir_done(old(self)@),
    {
        assert(self@.jobs[self.at as int] == self.jobs@[self.at as int]@);
        let total: usize = self.jobs.len();
        let job = &self.jobs[self.at];
        if self.mode == EmptyDirMode::Prune {
            self.session.prune(&job.dir);
            self.removed = true;
        } else {
            self.session.mirror(job);
        }
        self.at = self.at + 1;
    }

    /// Takes in what came of the last step.
    pub fn take(&mut self, outcome: Outcome)
        requires
            old(self).wf(),
            outcome.wf(),
        ensures
            final(self).wf(),
            final(self)@ == after(old(self)@, outcome@),
    {
        match (self.stage, outcome) {
            (Stage::Over, _) => {},
            (_, Outcome::Failed(e)) => {
                self.error = Some(e);
                self.stage = Stage::Over;
            },
            (Stage::Scan, Outcome::Scanned(local)) => {
                self.local = local;
                self.stage = Stage::Snapshot;
            },
            (Stage::Snapshot, Outcome::Snapshot(remote)) => {
                self.begin(&remote);
                self.advance();
            },
            (Stage::Files, Outcome::File(event)) => match self.session.command() {
                Some(Command::Finish) | None => {},
                Some(_) => {
                    self.session.accept(event);
                },
            },
            (Stage::Files, Outcome::Done) => match self.session.command() {
                Some(Command::Finish) => {
                    self.session.finish();
                    self.advance();
                },
                _ => {},
            },
            (Stage::ListLocal, Outcome::Listed(dirs)) => {
                if self.mode == EmptyDirMode::Prune {
                    self.jobs = jobs_to_prune(&dirs, DirOp::RemoveLocal);
                    self.at = 0;
                    self.stage = Stage::LocalDirs;
                    self.advance();
                } else {
                    self.local_dirs = dirs;
                    self.stage = Stage::ListRemote;
                }
            },
            (Stage::ListRemote, Outcome::Listed(dirs)) => {
                self.jobs = if self.mode == EmptyDirMode::Prune {
                    jobs_to_prune(&dirs, DirOp::RemoveRemote)
                } else {
                    self.session.dir_jobs(&self.local_dirs, &dirs)
                };
                self.at = 0;
                self.stage = Stage::RemoteDirs;
                self.advance();
            },
            (Stage::LocalDirs | Stage::RemoteDirs, Outcome::Done) => {
                self.conclude_dir();
                self.advance();
            },
            (Stage::Finalize, Outcome::Done) => {
                self.stage = Stage::Over;
            },
            _ => {},
        }
    }

    /// What the sync comes to: the index and the report, or what failed.
    pub fn into_result(self) -> (out: Result<(Index, SyncReport), Error>)
        requires
            self.wf(),
        ensures
            match out {
                Ok((index, report)) => self@.error is None && index.wf() && index.files()
                    == self@.session.files && index.dir_set() == self@.known && report@
                    == self@.session.report,
                Err(e) => self@.error == Some(e),
            },
    {
        match self.error {
            Some(e) => Err(e),
            None => Ok(self.session.into_parts()),
        }
    }
}

// ---------------------------------------------------------------------------
// Laws
// ---------------------------------------------------------------------------

/// The sync after the first `n` outcomes.
pub open spec fn state_after(v: RunView, outcomes: Seq<OutcomeView>, n: nat) -> RunView
    decreases n,
{
    if n == 0 {
        v
    } else {
        after(state_after(v, outcomes, (n - 1) as nat), outcomes[n - 1])
    }
}

/// The order of the stages; the directories take turns.
pub open spec fn rank(stage: Stage) -> int {
    match stage {
        Stage::Scan => 0,
        Stage::Snapshot => 1,
        Stage::Files => 2,
        Stage::ListLocal | Stage::LocalDirs | Stage::ListRemote | Stage::RemoteDirs => 3,
        Stage::Finalize => 4,
        Stage::Over => 5,
    }
}

/// The stages come in order: both sides are looked at, then come the files, then the
/// empty directories, then the backend finalizes, and none of them comes back.
pub proof fn law_stages_come_in_order(v: RunView, outcomes: Seq<OutcomeView>, i: nat, j: nat)
    requires
        i <= j,
    ensures
        rank(state_after(v, outcomes, i).stage) <= rank(state_after(v, outcomes, j).stage),
    decreases j,
{
    if i < j {
        law_stages_come_in_order(v, outcomes, i, (j - 1) as nat);
    }
}

/// What is over stays as it is.
proof fn lemma_over_stays(v: RunView, outcomes: Seq<OutcomeView>, i: nat, j: nat)
    requires
        i <= j,
        state_after(v, outcomes, i).stage == Stage::Over,
    ensures
        state_after(v, outcomes, j) == state_after(v, outcomes, i),
    decreases j,
{
    if i < j {
        lemma_over_stays(v, outcomes, i, (j - 1) as nat);
    }
}

/// The first failure ends the sync: nothing is asked for after it, and it is what the
/// sync comes to.
pub proof fn law_first_failure_ends_all(
    v: RunView,
    outcomes: Seq<OutcomeView>,
    k: nat,
    j: nat,
    e: Error,
)
    requires
        k < j,
        outcomes[k as int] == OutcomeView::Failed(e),
        state_after(v, outcomes, k).stage != Stage::Over,
    ensures
        step_of(state_after(v, outcomes, j)) == Step::Over,
        state_after(v, outcomes, j).error == Some(e),
{
    assert(state_after(v, outcomes, k + 1).stage == Stage::Over);
    lemma_over_stays(v, outcomes, k + 1, j);
}

/// Whether the backend was asked to finalize at index `k`, and did.
pub open spec fn finalized_at(v: RunView, outcomes: Seq<OutcomeView>, k: nat) -> bool {
    step_of(state_after(v, outcomes, k)) == Step::Finalize && outcomes[k as int] is Done
}

/// Once the backend has finalized nothing is asked for, so that it finalizes once and
/// last.
pub proof fn law_finalizing_comes_last(v: RunView, outcomes: Seq<OutcomeView>, k: nat, j: nat)
    requires
        k < j,
        finalized_at(v, outcomes, k),
    ensures
        step_of(state_after(v, outcomes, j)) == Step::Over,
        state_after(v, outcomes, j).error == state_after(v, outcomes, k).error,
{
    lemma_finalize_stage(state_after(v, outcomes, k));
    assert(state_after(v, outcomes, k + 1).stage == Stage::Over);
    lemma_over_stays(v, outcomes, k + 1, j);
}

proof fn lemma_finalize_stage(v: RunView)
    requires
        step_of(v) == Step::Finalize,
    ensures
        v.stage == Stage::Finalize,
{
}

/// A sync that ends without a failure has had the backend finalize, once.
pub proof fn law_success_means_finalized(v: RunView, outcomes: Seq<OutcomeView>, n: nat)
    requires
        v.stage != Stage::Over,
        state_after(v, outcomes, n).stage == Stage::Over,
        state_after(v, outcomes, n).error is None,
    ensures
        exists|k: nat| k < n && #[trigger] finalized_at(v, outcomes, k),
        forall|i: nat, k: nat|
            i < n && k < n && #[trigger] finalized_at(v, outcomes, i) && #[trigger] finalized_at(
                v,
                outcomes,
                k,
            ) ==> i == k,
    decreases n,
{
    lemma_was_finalized(v, outcomes, n);
    assert forall|i: nat, k: nat|
        i < n && k < n && #[trigger] finalized_at(v, outcomes, i) && #[trigger] finalized_at(
            v,
            outcomes,
            k,
        ) implies i == k by {
        if i < k {
            law_finalizing_comes_last(v, outcomes, i, k);
        }
        if k < i {
            law_finalizing_comes_last(v, outcomes, k, i);
        }
    }
}

proof fn lemma_was_finalized(v: RunView, outcomes: Seq<OutcomeView>, n: nat)
    requires
        v.stage != Stage::Over,
        state_after(v, outcomes, n).stage == Stage::Over,
        state_after(v, outcomes, n).error is None,
    ensures
        exists|k: nat| k < n && #[trigger] finalized_at(v, outcomes, k),
    decreases n,
{
    let m = (n - 1) as nat;
    let before = state_after(v, outcomes, m);
    if before.stage == Stage::Over {
        lemma_was_finalized(v, outcomes, m);
    } else {
        lemma_ends(before, outcomes[m as int]);
        assert(finalized_at(v, outcomes, m));
    }
}

/// A sync is over only after a failure, or once the backend has finalized.
proof fn lemma_ends(v: RunView, outcome: OutcomeView)
    requires
        v.stage != Stage::Over,
        after(v, outcome).stage == Stage::Over,
        after(v, outcome).error is None,
    ensures
        v.stage == Stage::Finalize,
        outcome is Done,
{
}

/// Mirroring records its jobs one by one: after `n` of them the index and the report
/// are what the first `n` jobs make of them, and after the last one the backend is
/// asked to finalize.
pub proof fn law_mirroring_carries_out_its_jobs(v: RunView, outcomes: Seq<OutcomeView>, n: nat)
    requires
        v.mode != EmptyDirMode::Prune,
        v.stage == Stage::RemoteDirs,
        v.at == 0,
        n <= v.jobs.len(),
        0 < v.jobs.len(),
        forall|i: int| 0 <= i < n ==> (#[trigger] outcomes[i]) is Done,
    ensures
        ({
            let then = state_after(v, outcomes, n);
            &&& then.known == dirs_after_all(v.known, v.jobs.take(n as int))
            &&& then.session.report == report_after_all(v.session.report, v.jobs.take(n as int))
            &&& then.jobs == v.jobs && then.at == n && then.mode == v.mode
            &&& then.stage == (if n < v.jobs.len() {
                Stage::RemoteDirs
            } else {
                Stage::Finalize
            })
        }),
    decreases n,
{
    if n == 0 {
        assert(v.jobs.take(0) =~= Seq::<DirJobView>::empty());
    } else {
        let m = (n - 1) as nat;
        law_mirroring_carries_out_its_jobs(v, outcomes, m);
        assert(outcomes[m as int] is Done);
        assert(v.jobs.take(n as int).drop_last() =~= v.jobs.take(m as int));
        assert(v.jobs.take(n as int).last() == v.jobs[m as int]);
    }
}

/// No stage is left before its work is done: the files are left once the last job is
/// done, and each job that is done is recorded and makes way for the next one.
pub proof fn law_every_file_job_is_carried_out(v: RunView, outcome: OutcomeView)
    requires
        v.stage == Stage::Files,
        0 <= v.session.at < v.session.jobs.len(),
    ensures
        ({
            let then = after(v, outcome);
            let ready = next_command(v.session.job(), v.session.facts) == Command::Finish;
            let finished = ready && outcome is Done;
            &&& then.session.jobs == v.session.jobs
            &&& then.session.at == v.session.at + (if finished {
                1int
            } else {
                0int
            })
            &&& then.session.files == (if finished {
                files_after(v.session.files, v.session.job(), v.session.facts)
            } else {
                v.session.files
            })
            &&& then.session.report == (if finished {
                report_after(v.session.report, v.session.job(), v.session.facts)
            } else {
                v.session.report
            })
            &&& finished ==> then.session.facts == no_facts()
            &&& then.stage != Stage::Files ==> outcome is Failed || then.session.at
                == v.session.jobs.len()
            &&& then.session.at < v.session.jobs.len() && !(outcome is Failed) ==> then.stage
                == Stage::Files
            &&& outcome matches OutcomeView::File(e) ==> (!ready ==> then.session.facts == learned(
                v.session.facts,
                e,
            ))
        }),
{
}

/// Once the files are done the empty directories have their turn, unless they are to be
/// ignored; and a stage with no work is passed over.
pub proof fn law_directories_follow_the_files(v: RunView, outcome: OutcomeView)
    requires
        v.stage == Stage::Files || v.stage == Stage::Snapshot,
        after(v, outcome).stage != v.stage,
        !(outcome is Failed),
        v.stage == Stage::Snapshot ==> after(v, outcome).session.jobs.len() == 0,
    ensures
        v.mode == EmptyDirMode::Ignore ==> after(v, outcome).stage == Stage::Finalize,
        v.mode != EmptyDirMode::Ignore ==> after(v, outcome).stage == Stage::ListLocal,
{
}

/// The jobs of a sync are those for the local files that were scanned, the remote files
/// that were listed and are not excluded, and the baseline as it was.
pub proof fn law_jobs_are_for_what_was_seen(
    v: RunView,
    local: Map<Seq<char>, FileView>,
    remote: Map<Seq<char>, RemoteView>,
)
    requires
        v.stage == Stage::Scan,
    ensures
        ({
            let scanned = after(v, OutcomeView::Scanned(local));
            let then = after(scanned, OutcomeView::Snapshot(remote));
            let scene = scene_with(v.globs, local, remote, v.session.files);
            &&& scanned.stage == Stage::Snapshot
            &&& then.session.jobs == jobs_of(scene, v.rules)
            &&& then.session.at == 0
            &&& then.session.files == v.session.files
            &&& then.session.report == ReportView::blank()
            &&& then.known == v.known
            &&& scene.local == local
            &&& scene.base == v.session.files
            &&& then.session.jobs.len() > 0 ==> then.stage == Stage::Files
        }),
{
}

/// Every directory that was listed for pruning has a job that removes it, on the side
/// where it was listed, and nothing else is removed.
pub proof fn law_prune_removes_what_was_listed(dirs: Set<Seq<char>>, op: DirOp, dir: Seq<char>)
    requires
        dirs.finite(),
    ensures
        dirs.contains(dir) <==> exists|i: int|
            0 <= i < prune_jobs(dirs, op).len() && (#[trigger] prune_jobs(dirs, op)[i]).dir == dir,
        forall|i: int|
            0 <= i < prune_jobs(dirs, op).len() ==> (#[trigger] prune_jobs(dirs, op)[i]).op == op,
{
    let keys = in_order(dirs);
    crate::engine::law_in_order(dirs);
    let jobs = prune_jobs(dirs, op);
    if dirs.contains(dir) {
        assert(keys.to_set().contains(dir));
        let k = keys.index_of(dir);
        assert(0 <= k < keys.len() && keys[k] == dir);
        assert(jobs[k].dir == dir);
    }
    if exists|i: int| 0 <= i < jobs.len() && (#[trigger] jobs[i]).dir == dir {
        let i = choose|i: int| 0 <= i < jobs.len() && (#[trigger] jobs[i]).dir == dir;
        assert(keys[i] == dir);
        assert(keys.to_set().contains(dir));
    }
}

/// A prune removes the empty directories of the local tree, then those of the remote, and
/// starts over as long as a pass removed something, sixty-four times at most.
pub proof fn law_prune_goes_on_while_it_removes(v: RunView, dirs: Set<Seq<char>>)
    requires
        v.mode == EmptyDirMode::Prune,
    ensures
        v.stage == Stage::ListLocal ==> after(v, OutcomeView::Listed(dirs)).jobs == prune_jobs(
            dirs,
            DirOp::RemoveLocal,
        ),
        v.stage == Stage::ListRemote ==> after(v, OutcomeView::Listed(dirs)).jobs == prune_jobs(
            dirs,
            DirOp::RemoveRemote,
        ),
        v.stage == Stage::LocalDirs && v.at + 1 == v.jobs.len() ==> after(
            v,
            OutcomeView::Done,
        ).stage == Stage::ListRemote,
        (v.stage == Stage::LocalDirs || v.stage == Stage::RemoteDirs) && 0 <= v.at
            < v.jobs.len() ==> after(v, OutcomeView::Done).session.report == (ReportView {
            removed: v.session.report.removed.push(v.jobs[v.at].dir),
            ..v.session.report
        }),
        (v.stage == Stage::LocalDirs || v.stage == Stage::RemoteDirs) && v.at + 1
            < v.jobs.len() ==> after(v, OutcomeView::Done).at == v.at + 1 && after(
            v,
            OutcomeView::Done,
        ).stage == v.stage,
        v.stage == Stage::RemoteDirs && v.at + 1 == v.jobs.len() ==> after(
            v,
            OutcomeView::Done,
        ).stage == (if v.passes + 1 < 64 {
            Stage::ListLocal
        } else {
            Stage::Finalize
        }),
{
}

/// What a job of a directory asks for is what its name says, and the bookkeeping jobs ask
/// for nothing outside.
pub proof fn law_directory_steps(v: RunView)
    requires
        v.stage == Stage::LocalDirs || v.stage == Stage::RemoteDirs,
    ensures
        step_of(v) == Step::CreateLocalDir <==> v.jobs[v.at].op == DirOp::CreateLocal,
        step_of(v) == Step::CreateRemoteDir <==> v.jobs[v.at].op == DirOp::CreateRemote,
        step_of(v) == Step::RemoveLocalDir <==> v.jobs[v.at].op == DirOp::RemoveLocal,
        step_of(v) == Step::RemoveRemoteDir <==> v.jobs[v.at].op == DirOp::RemoveRemote,
        step_of(v) == Step::Record <==> v.jobs[v.at].op == DirOp::Track || v.jobs[v.at].op
            == DirOp::Forget,
{
}

/// Mirroring looks at the directories that both listings and the index hold.
pub proof fn law_mirroring_looks_at_both_sides(
    v: RunView,
    local: Set<Seq<char>>,
    remote: Set<Seq<char>>,
)
    requires
        v.mode == EmptyDirMode::Mirror,
        v.stage == Stage::ListLocal,
    ensures
        ({
            let listed = after(v, OutcomeView::Listed(local));
            let then = after(listed, OutcomeView::Listed(remote));
            &&& listed.stage == Stage::ListRemote
            &&& then.jobs == dir_jobs((DirScene { local, remote, known: v.known }))
            &&& then.at == 0
            &&& then.stage == (if then.jobs.len() == 0 {
                Stage::Finalize
            } else {
                Stage::RemoteDirs
            })
        }),
{
}

} // verus!
