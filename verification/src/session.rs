//! The steps of a sync: for each job, which file to read, write, copy or remove
//! next, given what the steps before it brought; and what the index and the
//! report say once the job is done.
//!
//! The session never touches a file itself. Its driver carries out the command
//! that [`Session::command`] asks for and hands the outcome to
//! [`Session::accept`]; any failure ends the sync.

use crate::decide::{local_is_newer, newer_is_local, Action, Winner};
use crate::dirs::{conclude_dir, dir_job_views, dir_jobs, dirs_after, mirror_jobs, DirJob, DirScene};
use crate::engine::{job_views, keys_are_paths, Job, JobView};
use crate::hash::{blake3_hex, hash_bytes};
use crate::index::{EntryView, Index};
use crate::relpath::RelPath;
use crate::report::{ConflictView, ReportView, SyncReport};
use crate::table::Table;
use crate::text::{same, text_opt};
use vstd::prelude::*;

verus! {

/// One of the two sides.
#[derive(Debug, Clone, Copy, PartialEq, Eq, Structural)]
pub enum Side {
    /// The local tree.
    Local,
    /// The remote.
    Remote,
}

/// What the driver is to do next for the path of the current job.
#[derive(Debug, Clone, Copy, PartialEq, Eq, Structural)]
pub enum Command {
    /// Read the local file.
    ReadLocal,
    /// Read the local file if it can be read.
    TryReadLocal,
    /// Read the remote file.
    ReadRemote,
    /// Write the bytes of the remote file to the local file, with the remote
    /// modification time if it is known.
    WriteLocal,
    /// Write the bytes of the local file to the remote file, with the local
    /// modification time.
    WriteRemote,
    /// Write the bytes of one side to a conflict copy next to the local file.
    SaveCopy {
        /// The side whose version is kept.
        of: Side,
    },
    /// Remove the local file; it may be gone already.
    RemoveLocal,
    /// Remove the remote file; it may be gone already.
    RemoveRemote,
    /// Nothing is left to do: finish the job.
    Finish,
}

/// What came of a command.
#[derive(Debug)]
pub enum Event {
    /// The bytes of the local file.
    LocalData(Vec<u8>),
    /// The local file could not be read.
    LocalUnreadable,
    /// The bytes of the remote file.
    RemoteData(Vec<u8>),
    /// The local file was written or removed, or the remote file removed.
    Done,
    /// The remote file was written and has this change id now.
    Stored(String),
    /// The conflict copy was written to this local path.
    Copied(String),
}

/// What [`Event`] says.
pub enum EventView {
    /// The bytes of the local file.
    LocalData(Seq<u8>),
    /// The local file could not be read.
    LocalUnreadable,
    /// The bytes of the remote file.
    RemoteData(Seq<u8>),
    /// The local file was written or removed, or the remote file removed.
    Done,
    /// The remote file was written and has this change id now.
    Stored(Seq<char>),
    /// The conflict copy was written to this local path.
    Copied(Seq<char>),
}

impl View for Event {
    type V = EventView;

    open spec fn view(&self) -> EventView {
        match self {
            Event::LocalData(d) => EventView::LocalData(d@),
            Event::LocalUnreadable => EventView::LocalUnreadable,
            Event::RemoteData(d) => EventView::RemoteData(d@),
            Event::Done => EventView::Done,
            Event::Stored(id) => EventView::Stored(id@),
            Event::Copied(p) => EventView::Copied(p@),
        }
    }
}

/// The bytes of a file with their hash.
#[derive(Debug)]
struct Content {
    data: Vec<u8>,
    hash: String,
}

/// What the commands of the current job brought so far.
#[derive(Debug)]
pub struct Facts {
    local: Option<Content>,
    tried_local: bool,
    remote: Option<Content>,
    copy: Option<String>,
    stored: Option<String>,
    done: bool,
}

/// What [`Facts`] says.
#[verifier::ext_equal]
pub struct FactsView {
    /// The bytes of the local file, once read.
    pub local: Option<Seq<u8>>,
    /// Whether reading the local file was tried.
    pub tried_local: bool,
    /// The bytes of the remote file, once read.
    pub remote: Option<Seq<u8>>,
    /// Where the conflict copy is, once written.
    pub copy: Option<Seq<char>>,
    /// The change id of the remote file, once written.
    pub stored: Option<Seq<char>>,
    /// Whether the local file was written or removed, or the remote file removed.
    pub done: bool,
}

/// What is known before the first command.
pub open spec fn no_facts() -> FactsView {
    FactsView {
        local: None,
        tried_local: false,
        remote: None,
        copy: None,
        stored: None,
        done: false,
    }
}

/// What is known after an event.
pub open spec fn learned(f: FactsView, event: EventView) -> FactsView {
    match event {
        EventView::LocalData(d) => FactsView { local: Some(d), tried_local: true, ..f },
        EventView::LocalUnreadable => FactsView { local: None, tried_local: true, ..f },
        EventView::RemoteData(d) => FactsView { remote: Some(d), ..f },
        EventView::Done => FactsView { done: true, ..f },
        EventView::Stored(id) => FactsView { stored: Some(id), ..f },
        EventView::Copied(p) => FactsView { copy: Some(p), ..f },
    }
}

// ---------------------------------------------------------------------------
// Commands
// ---------------------------------------------------------------------------

/// Whether a job writes its file to the remote once the local file is read.
pub open spec fn next_upload(f: FactsView) -> Command {
    if f.local is None {
        Command::ReadLocal
    } else if f.stored is None {
        Command::WriteRemote
    } else {
        Command::Finish
    }
}

/// The last step of a job that writes or removes one file: `command` once.
pub open spec fn next_once(f: FactsView, command: Command) -> Command {
    if f.done {
        Command::Finish
    } else {
        command
    }
}

/// Whether the remote file turned out to be what the local file is.
pub open spec fn turned_out_equal(job: JobView, f: FactsView) -> bool {
    blake3_hex(f.remote.unwrap()) == job.local.unwrap().hash
}

/// What to do next for a job.
pub open spec fn next_command(job: JobView, f: FactsView) -> Command {
    match job.action {
        Action::Nothing | Action::DropIndex => Command::Finish,
        Action::Push | Action::ResurrectPush => next_upload(f),
        Action::Pull | Action::ResurrectPull => if f.remote is None {
            Command::ReadRemote
        } else {
            next_once(f, Command::WriteLocal)
        },
        Action::DeleteLocal => next_once(f, Command::RemoveLocal),
        Action::DeleteRemote => next_once(f, Command::RemoveRemote),
        Action::Conflict => if f.remote is None {
            Command::ReadRemote
        } else if turned_out_equal(job, f) {
            // Both sides reached the same content independently: not a real conflict.
            Command::Finish
        } else if local_is_newer(job.local.unwrap(), job.remote.unwrap()) {
            if f.copy is None {
                Command::SaveCopy { of: Side::Remote }
            } else {
                next_upload(f)
            }
        } else if f.local is None {
            Command::ReadLocal
        } else if f.copy is None {
            Command::SaveCopy { of: Side::Local }
        } else {
            next_once(f, Command::WriteLocal)
        },
        Action::PullPreserveLocal => if f.remote is None {
            Command::ReadRemote
        } else if !f.tried_local {
            Command::TryReadLocal
        } else if f.copy is None && f.local is Some && blake3_hex(f.local.unwrap()) != blake3_hex(
            f.remote.unwrap(),
        ) {
            Command::SaveCopy { of: Side::Local }
        } else {
            next_once(f, Command::WriteLocal)
        },
        Action::PushPreserveRemote => if f.local is None {
            Command::ReadLocal
        } else if job.remote is Some && f.remote is None {
            Command::ReadRemote
        } else if f.copy is None && f.remote is Some && !turned_out_equal(job, f) {
            Command::SaveCopy { of: Side::Remote }
        } else {
            next_upload(f)
        },
    }
}

/// What a command that writes a file is to write.
pub struct WriteView {
    /// The bytes.
    pub data: Seq<u8>,
    /// The modification time that the file is to get, if one is known.
    pub mtime: Option<int>,
}

/// What a command is to write: the bytes of the other side with their modification
/// time, or the bytes of the side that a conflict copy is made of.
pub open spec fn write_of(job: JobView, f: FactsView, command: Command) -> Option<WriteView> {
    match command {
        Command::WriteLocal => Some(
            WriteView {
                data: f.remote.unwrap(),
                mtime: match job.remote.unwrap().mtime {
                    Some(t) => Some(t as int),
                    None => None,
                },
            },
        ),
        Command::WriteRemote => Some(
            WriteView { data: f.local.unwrap(), mtime: Some(job.local.unwrap().mtime) },
        ),
        Command::SaveCopy { of: Side::Local } => Some(
            WriteView { data: f.local.unwrap(), mtime: None },
        ),
        Command::SaveCopy { of: Side::Remote } => Some(
            WriteView { data: f.remote.unwrap(), mtime: None },
        ),
        _ => None,
    }
}

/// What a command that writes a file is to write.
#[derive(Debug)]
pub struct Write<'a> {
    /// The bytes.
    pub data: &'a Vec<u8>,
    /// The modification time that the file is to get, in nanoseconds since the Unix
    /// epoch, if one is known.
    pub mtime: Option<i128>,
}

impl<'a> View for Write<'a> {
    type V = WriteView;

    open spec fn view(&self) -> WriteView {
        WriteView {
            data: self.data@,
            mtime: match self.mtime {
                Some(t) => Some(t as int),
                None => None,
            },
        }
    }
}

// ---------------------------------------------------------------------------
// Outcomes
// ---------------------------------------------------------------------------

/// The baseline of the job's path once the job is done; `None` if there is none.
pub open spec fn baseline_after(job: JobView, f: FactsView) -> Option<EntryView> {
    let pushed = EntryView { local_hash: job.local.unwrap().hash, remote_id: f.stored.unwrap() };
    let pulled = EntryView {
        local_hash: blake3_hex(f.remote.unwrap()),
        remote_id: job.remote.unwrap().id,
    };
    match job.action {
        Action::Push | Action::ResurrectPush | Action::PushPreserveRemote => Some(pushed),
        Action::Pull | Action::ResurrectPull | Action::PullPreserveLocal => Some(pulled),
        Action::Conflict => if turned_out_equal(job, f) {
            Some(
                EntryView {
                    local_hash: job.local.unwrap().hash,
                    remote_id: job.remote.unwrap().id,
                },
            )
        } else if local_is_newer(job.local.unwrap(), job.remote.unwrap()) {
            Some(pushed)
        } else {
            Some(pulled)
        },
        Action::DropIndex | Action::DeleteLocal | Action::DeleteRemote | Action::Nothing => None,
    }
}

/// The index once the job is done.
pub open spec fn files_after(
    files: Map<Seq<char>, EntryView>,
    job: JobView,
    f: FactsView,
) -> Map<Seq<char>, EntryView> {
    if job.action == Action::Nothing {
        files
    } else {
        match baseline_after(job, f) {
            Some(e) => files.insert(job.path, e),
            None => files.remove(job.path),
        }
    }
}

/// The report with a write, or with a conflict if a copy was saved.
pub open spec fn wrote_or_clashed(
    report: ReportView,
    job: JobView,
    f: FactsView,
    winner: Winner,
) -> ReportView {
    match f.copy {
        Some(copy) => report.clashed(
            ConflictView { path: job.path, winner, conflict_copy: copy },
        ),
        None => report.wrote(job.path, job.had_baseline),
    }
}

/// The report once the job is done.
pub open spec fn report_after(report: ReportView, job: JobView, f: FactsView) -> ReportView {
    match job.action {
        Action::Nothing | Action::DropIndex => report,
        Action::Push | Action::ResurrectPush | Action::Pull | Action::ResurrectPull => report.wrote(
            job.path,
            job.had_baseline,
        ),
        Action::DeleteLocal | Action::DeleteRemote => report.dropped(job.path),
        Action::Conflict => if turned_out_equal(job, f) {
            report
        } else {
            report.clashed(
                ConflictView {
                    path: job.path,
                    winner: if local_is_newer(job.local.unwrap(), job.remote.unwrap()) {
                        Winner::Local
                    } else {
                        Winner::Remote
                    },
                    conflict_copy: f.copy.unwrap(),
                },
            )
        },
        // If a divergent copy was preserved it's a conflict; otherwise it's a
        // plain transfer counted as added/modified.
        Action::PullPreserveLocal => wrote_or_clashed(report, job, f, Winner::Remote),
        Action::PushPreserveRemote => wrote_or_clashed(report, job, f, Winner::Local),
    }
}

// ---------------------------------------------------------------------------
// Facts
// ---------------------------------------------------------------------------

impl Content {
    spec fn wf(&self) -> bool {
        self.hash@ == blake3_hex(self.data@)
    }

    fn new(data: Vec<u8>) -> (out: Content)
        ensures
            out.wf(),
            out.data == data,
    {
        let hash = hash_bytes(data.as_slice());
        Content { data, hash }
    }
}

impl View for Facts {
    type V = FactsView;

    closed spec fn view(&self) -> FactsView {
        FactsView {
            local: match self.local {
                Some(c) => Some(c.data@),
                None => None,
            },
            tried_local: self.tried_local,
            remote: match self.remote {
                Some(c) => Some(c.data@),
                None => None,
            },
            copy: text_opt(self.copy),
            stored: text_opt(self.stored),
            done: self.done,
        }
    }
}

impl Facts {
    /// Whether the hashes are those of the bytes.
    pub closed spec fn wf(&self) -> bool {
        &&& self.local matches Some(c) ==> c.wf()
        &&& self.remote matches Some(c) ==> c.wf()
    }

    /// What is known before the first command.
    pub fn new() -> (out: Facts)
        ensures
            out.wf(),
            out@ == no_facts(),
    {
        Facts {
            local: None,
            tried_local: false,
            remote: None,
            copy: None,
            stored: None,
            done: false,
        }
    }

    /// Takes in what came of a command.
    pub fn learn(&mut self, event: Event)
        requires
            old(self).wf(),
        ensures
            final(self).wf(),
            final(self)@ == learned(old(self)@, event@),
    {
        match event {
            Event::LocalData(d) => {
                self.local = Some(Content::new(d));
                self.tried_local = true;
            },
            Event::LocalUnreadable => {
                self.local = None;
                self.tried_local = true;
            },
            Event::RemoteData(d) => {
                self.remote = Some(Content::new(d));
            },
            Event::Done => {
                self.done = true;
            },
            Event::Stored(id) => {
                self.stored = Some(id);
            },
            Event::Copied(p) => {
                self.copy = Some(p);
            },
        }
    }

    /// The bytes of the local file, once read.
    pub fn local_data(&self) -> (out: Option<&Vec<u8>>)
        ensures
            match out {
                Some(d) => self@.local == Some(d@),
                None => self@.local is None,
            },
    {
        match &self.local {
            Some(c) => Some(&c.data),
            None => None,
        }
    }

    /// The bytes of the remote file, once read.
    pub fn remote_data(&self) -> (out: Option<&Vec<u8>>)
        ensures
            match out {
                Some(d) => self@.remote == Some(d@),
                None => self@.remote is None,
            },
    {
        match &self.remote {
            Some(c) => Some(&c.data),
            None => None,
        }
    }

    fn upload(&self) -> (out: Command)
        ensures
            out == next_upload(self@),
    {
        if self.local.is_none() {
            Command::ReadLocal
        } else if self.stored.is_none() {
            Command::WriteRemote
        } else {
            Command::Finish
        }
    }

    fn once(&self, command: Command) -> (out: Command)
        ensures
            out == next_once(self@, command),
    {
        if self.done {
            Command::Finish
        } else {
            command
        }
    }
}

/// Whether the remote file turned out to be what the local file is.
fn same_content(job: &Job, remote: &Content) -> (out: bool)
    requires
        job@.local is Some,
        remote.wf(),
    ensures
        out == (blake3_hex(remote.data@) == job@.local.unwrap().hash),
{
    match &job.local {
        Some(m) => same(remote.hash.as_str(), m.hash.as_str()),
        None => false,
    }
}

/// Whether the local side of a conflict wins.
fn local_wins(job: &Job) -> (out: bool)
    requires
        job@.local is Some,
        job@.remote is Some,
    ensures
        out == local_is_newer(job@.local.unwrap(), job@.remote.unwrap()),
{
    match (&job.local, &job.remote) {
        (Some(l), Some(r)) => newer_is_local(l, r),
        _ => true,
    }
}

/// What to do next for a job.
pub fn next(job: &Job, facts: &Facts) -> (out: Command)
    requires
        job@.wf(),
        facts.wf(),
    ensures
        out == next_command(job@, facts@),
{
    match job.action {
        Action::Nothing | Action::DropIndex => Command::Finish,
        Action::Push | Action::ResurrectPush => facts.upload(),
        Action::Pull | Action::ResurrectPull => {
            if facts.remote.is_none() {
                Command::ReadRemote
            } else {
                facts.once(Command::WriteLocal)
            }
        },
        Action::DeleteLocal => facts.once(Command::RemoveLocal),
        Action::DeleteRemote => facts.once(Command::RemoveRemote),
        Action::Conflict => match &facts.remote {
            None => Command::ReadRemote,
            Some(remote) => {
                if same_content(job, remote) {
                    // Both sides reached the same content independently.
                    Command::Finish
                } else if local_wins(job) {
                    if facts.copy.is_none() {
                        Command::SaveCopy { of: Side::Remote }
                    } else {
                        facts.upload()
                    }
                } else if facts.local.is_none() {
                    Command::ReadLocal
                } else if facts.copy.is_none() {
                    Command::SaveCopy { of: Side::Local }
                } else {
                    facts.once(Command::WriteLocal)
                }
            },
        },
        Action::PullPreserveLocal => match &facts.remote {
            None => Command::ReadRemote,
            Some(remote) => {
                if !facts.tried_local {
                    Command::TryReadLocal
                } else {
                    let differs = match &facts.local {
                        Some(local) => !same(local.hash.as_str(), remote.hash.as_str()),
                        None => false,
                    };
                    if facts.copy.is_none() && differs {
                        Command::SaveCopy { of: Side::Local }
                    } else {
                        facts.once(Command::WriteLocal)
                    }
                }
            },
        },
        Action::PushPreserveRemote => {
            if facts.local.is_none() {
                Command::ReadLocal
            } else {
                match &facts.remote {
                    None => if job.remote.is_some() {
                        Command::ReadRemote
                    } else {
                        facts.upload()
                    },
                    // If the remote diverged, its version is preserved as a local
                    // conflict copy before the local content goes up.
                    Some(remote) => if facts.copy.is_none() && !same_content(job, remote) {
                        Command::SaveCopy { of: Side::Remote }
                    } else {
                        facts.upload()
                    },
                }
            }
        },
    }
}

/// The content hash that the baseline gets after an upload, and the change id.
fn pushed(job: &Job, facts: &Facts) -> (out: (String, String))
    requires
        job@.local is Some,
        facts@.stored is Some,
    ensures
        out.0@ == job@.local.unwrap().hash,
        out.1@ == facts@.stored.unwrap(),
{
    match (&job.local, &facts.stored) {
        (Some(m), Some(id)) => (m.hash.clone(), id.clone()),
        _ => (String::new(), String::new()),
    }
}

/// The content hash that the baseline gets after a download, and the change id.
fn pulled(job: &Job, facts: &Facts) -> (out: (String, String))
    requires
        facts.wf(),
        job@.remote is Some,
        facts@.remote is Some,
    ensures
        out.0@ == blake3_hex(facts@.remote.unwrap()),
        out.1@ == job@.remote.unwrap().id,
{
    match (&job.remote, &facts.remote) {
        (Some(m), Some(c)) => (c.hash.clone(), m.id.clone()),
        _ => (String::new(), String::new()),
    }
}

/// Records a write, or a conflict if a copy was saved.
fn note_write(report: &mut SyncReport, job: &Job, facts: &Facts, winner: Winner)
    ensures
        final(report)@ == wrote_or_clashed(old(report)@, job@, facts@, winner),
{
    match &facts.copy {
        Some(copy) => report.record_conflict(&job.path, winner, copy.clone()),
        None => report.record_write(&job.path, job.had_baseline),
    }
}

/// Records in the index and the report that a job is done.
pub fn conclude(job: &Job, facts: &Facts, index: &mut Index, report: &mut SyncReport)
    requires
        job@.wf(),
        facts.wf(),
        old(index).wf(),
        next_command(job@, facts@) == Command::Finish,
    ensures
        final(index).wf(),
        final(index).dirs == old(index).dirs,
        final(index).files() == files_after(old(index).files(), job@, facts@),
        final(report)@ == report_after(old(report)@, job@, facts@),
{
    match job.action {
        Action::Nothing => {},
        Action::DropIndex => {
            index.remove(&job.path);
        },
        Action::Push | Action::ResurrectPush => {
            let (hash, id) = pushed(job, facts);
            index.set(&job.path, hash, id);
            report.record_write(&job.path, job.had_baseline);
        },
        Action::Pull | Action::ResurrectPull => {
            let (hash, id) = pulled(job, facts);
            index.set(&job.path, hash, id);
            report.record_write(&job.path, job.had_baseline);
        },
        Action::DeleteLocal | Action::DeleteRemote => {
            index.remove(&job.path);
            report.record_removal(&job.path);
        },
        Action::Conflict => match (&facts.remote, &job.local, &job.remote) {
            (Some(remote), Some(l), Some(r)) => {
                if same_content(job, remote) {
                    index.set(&job.path, l.hash.clone(), r.id.clone());
                } else if local_wins(job) {
                    let (hash, id) = pushed(job, facts);
                    index.set(&job.path, hash, id);
                    note_write(report, job, facts, Winner::Local);
                } else {
                    let (hash, id) = pulled(job, facts);
                    index.set(&job.path, hash, id);
                    note_write(report, job, facts, Winner::Remote);
                }
            },
            _ => {},
        },
        Action::PullPreserveLocal => {
            let (hash, id) = pulled(job, facts);
            index.set(&job.path, hash, id);
            note_write(report, job, facts, Winner::Remote);
        },
        Action::PushPreserveRemote => {
            let (hash, id) = pushed(job, facts);
            index.set(&job.path, hash, id);
            note_write(report, job, facts, Winner::Local);
        },
    }
}

// ---------------------------------------------------------------------------
// Sessions
// ---------------------------------------------------------------------------

/// A sync under way.
#[derive(Debug)]
pub struct Session {
    jobs: Vec<Job>,
    at: usize,
    facts: Facts,
    index: Index,
    report: SyncReport,
}

/// What [`Session`] says.
pub struct SessionView {
    /// The jobs, in order.
    pub jobs: Seq<JobView>,
    /// How many of them are done.
    pub at: int,
    /// What is known for the job under way.
    pub facts: FactsView,
    /// The baseline of the files.
    pub files: Map<Seq<char>, EntryView>,
    /// What was done so far.
    pub report: ReportView,
}

impl View for Session {
    type V = SessionView;

    closed spec fn view(&self) -> SessionView {
        SessionView {
            jobs: job_views(self.jobs@),
            at: self.at as int,
            facts: self.facts@,
            files: self.index.files(),
            report: self.report@,
        }
    }
}

impl SessionView {
    /// Whether all jobs are done.
    pub open spec fn is_over(self) -> bool {
        self.at >= self.jobs.len()
    }

    /// The job under way.
    pub open spec fn job(self) -> JobView {
        self.jobs[self.at]
    }

    /// What to do next, unless all jobs are done.
    pub open spec fn command(self) -> Command {
        next_command(self.job(), self.facts)
    }
}

impl Session {
    /// Whether the session is in order.
    pub closed spec fn wf(&self) -> bool {
        &&& self.at <= self.jobs@.len()
        &&& self.facts.wf()
        &&& self.index.wf()
        &&& forall|i: int| 0 <= i < self.jobs@.len() ==> (#[trigger] self.jobs@[i])@.wf()
    }

    /// The directories of the baseline.
    pub closed spec fn dir_set(&self) -> Set<Seq<char>> {
        self.index.dir_set()
    }

    /// A session for the given jobs, starting from the given index.
    pub fn new(jobs: Vec<Job>, index: Index) -> (out: Session)
        requires
            index.wf(),
            forall|i: int| 0 <= i < jobs@.len() ==> (#[trigger] jobs@[i])@.wf(),
        ensures
            out.wf(),
            out@ == (SessionView {
                jobs: job_views(jobs@),
                at: 0,
                facts: no_facts(),
                files: index.files(),
                report: ReportView::blank(),
            }),
            out.dir_set() == index.dir_set(),
    {
        Session { jobs, at: 0, facts: Facts::new(), index, report: SyncReport::new() }
    }

    /// The job under way, or `None` once all jobs are done.
    pub fn job(&self) -> (out: Option<&Job>)
        requires
            self.wf(),
        ensures
            match out {
                Some(job) => !self@.is_over() && job@ == self@.job(),
                None => self@.is_over(),
            },
    {
        if self.at < self.jobs.len() {
            Some(&self.jobs[self.at])
        } else {
            None
        }
    }

    /// What to do next, or `None` once all jobs are done.
    pub fn command(&self) -> (out: Option<Command>)
        requires
            self.wf(),
        ensures
            match out {
                Some(c) => !self@.is_over() && c == self@.command(),
                None => self@.is_over(),
            },
    {
        if self.at < self.jobs.len() {
            Some(next(&self.jobs[self.at], &self.facts))
        } else {
            None
        }
    }

    /// What the command is to write, or `None` if it writes nothing.
    pub fn write(&self) -> (out: Option<Write<'_>>)
        requires
            self.wf(),
        ensures
            match out {
                Some(w) => !self@.is_over() && write_of(
                    self@.job(),
                    self@.facts,
                    self@.command(),
                ) == Some(w@),
                None => self@.is_over() || write_of(
                    self@.job(),
                    self@.facts,
                    self@.command(),
                ) is None,
            },
    {
        if self.at >= self.jobs.len() {
            return None;
        }
        let job = &self.jobs[self.at];
        let local = self.facts.local_data();
        let remote = self.facts.remote_data();
        match next(job, &self.facts) {
            Command::WriteLocal => match (remote, &job.remote) {
                (Some(data), Some(m)) => Some(Write { data, mtime: m.mtime }),
                _ => None,
            },
            Command::WriteRemote => match (local, &job.local) {
                (Some(data), Some(m)) => Some(Write { data, mtime: Some(m.mtime) }),
                _ => None,
            },
            Command::SaveCopy { of } => {
                let of_side = match of {
                    Side::Local => local,
                    Side::Remote => remote,
                };
                match of_side {
                    Some(data) => Some(Write { data, mtime: None }),
                    None => None,
                }
            },
            _ => None,
        }
    }

    /// Takes in what came of the last command.
    pub fn accept(&mut self, event: Event)
        requires
            old(self).wf(),
        ensures
            final(self).wf(),
            final(self)@ == (SessionView { facts: learned(old(self)@.facts, event@), ..old(self)@ }),
            final(self).dir_set() == old(self).dir_set(),
    {
        self.facts.learn(event);
    }

    /// Finishes the job under way and turns to the next one.
    pub fn finish(&mut self)
        requires
            old(self).wf(),
            !old(self)@.is_over(),
            old(self)@.command() == Command::Finish,
        ensures
            final(self).wf(),
            final(self)@ == (SessionView {
                jobs: old(self)@.jobs,
                at: old(self)@.at + 1,
                facts: no_facts(),
                files: files_after(old(self)@.files, old(self)@.job(), old(self)@.facts),
                report: report_after(old(self)@.report, old(self)@.job(), old(self)@.facts),
            }),
            final(self).dir_set() == old(self).dir_set(),
    {
        let total: usize = self.jobs.len();
        let job = &self.jobs[self.at];
        conclude(job, &self.facts, &mut self.index, &mut self.report);
        self.facts = Facts::new();
        self.at = self.at + 1;
    }

    /// Records that a job of an empty directory was carried out.
    pub fn mirror(&mut self, job: &DirJob)
        requires
            old(self).wf(),
        ensures
            final(self).wf(),
            final(self)@ == (SessionView {
                report: crate::dirs::report_after(old(self)@.report, job@),
                ..old(self)@
            }),
            final(self).dir_set() == dirs_after(old(self).dir_set(), job@),
    {
        conclude_dir(&mut self.index, &mut self.report, job);
    }

    /// Records that an empty directory was pruned.
    pub fn prune(&mut self, dir: &RelPath)
        requires
            old(self).wf(),
        ensures
            final(self).wf(),
            final(self)@ == (SessionView {
                report: old(self)@.report.dropped(dir@),
                ..old(self)@
            }),
            final(self).dir_set() == old(self).dir_set(),
    {
        self.report.record_removal(dir);
    }

    /// The jobs of the empty directories, given those of both sides.
    pub fn dir_jobs(&self, local: &Table<()>, remote: &Table<()>) -> (out: Vec<DirJob>)
        requires
            self.wf(),
            local.wf(),
            remote.wf(),
            keys_are_paths(*local),
            keys_are_paths(*remote),
        ensures
            dir_job_views(out@) == dir_jobs(
                DirScene { local: local@.dom(), remote: remote@.dom(), known: self.dir_set() },
            ),
    {
        mirror_jobs(local, remote, &self.index)
    }

    /// The index and the report as they are now.
    pub fn into_parts(self) -> (out: (Index, SyncReport))
        requires
            self.wf(),
        ensures
            out.0.wf(),
            out.0.files() == self@.files,
            out.0.dir_set() == self.dir_set(),
            out.1@ == self@.report,
    {
        (self.index, self.report)
    }
}

// ---------------------------------------------------------------------------
// Laws
// ---------------------------------------------------------------------------

/// A file that changed on both sides to the same content is no conflict: once the
/// remote file is read nothing else is done, nothing is reported, and the baseline
/// takes both sides up.
pub proof fn law_equal_edits_are_no_conflict(
    job: JobView,
    data: Seq<u8>,
    report: ReportView,
    files: Map<Seq<char>, EntryView>,
)
    requires
        job.wf(),
        job.action == Action::Conflict,
        blake3_hex(data) == job.local.unwrap().hash,
    ensures
        ({
            let f = learned(no_facts(), EventView::RemoteData(data));
            &&& next_command(job, no_facts()) == Command::ReadRemote
            &&& next_command(job, f) == Command::Finish
            &&& report_after(report, job, f) == report
            &&& files_after(files, job, f) == files.insert(
                job.path,
                EntryView {
                    local_hash: job.local.unwrap().hash,
                    remote_id: job.remote.unwrap().id,
                },
            )
        }),
{
}

} // verus!
