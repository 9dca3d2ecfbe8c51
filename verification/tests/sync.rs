//! Whole syncs and dry runs, against two trees in memory.

use conflux::backend::{content_meta, snapshot_path, LocalBackend};
use conflux::config::{default_exclude, default_profiles, Config, DaemonConfig, Remote, Sync};
use conflux::conflict::conflict_copy;
use conflux::daemon::settings_for;
use conflux::decide::{Rules, Winner};
use conflux::dirs::empty_dirs;
use conflux::engine::{place, scan_path};
use conflux::error::Error;
use conflux::group::{plan_sync, GroupGlobs};
use conflux::hash::hash_bytes;
use conflux::index::Index;
use conflux::model::{Deletions, EmptyDirMode, FileMeta, RemoteKind, Scope, Trigger};
use conflux::plan::{PlanOp, SyncPlan};
use conflux::report::{SyncReport, SyncSummary};
use conflux::run::{Outcome, Run, Step};
use conflux::session::{Command, Event, Session};
use conflux::span::Span;
use conflux::table::Table;
use conflux::RelPath;
use std::collections::{BTreeMap, BTreeSet};

/// A tree of files with their times, and its directories.
#[derive(Clone, Debug, Default, PartialEq)]
struct Tree {
    files: BTreeMap<String, (Vec<u8>, i128)>,
    dirs: BTreeSet<String>,
}

impl Tree {
    fn make_dirs(&mut self, dir: &str) {
        let mut at = String::new();
        for part in dir.split('/').filter(|p| !p.is_empty()) {
            if !at.is_empty() {
                at.push('/');
            }
            at.push_str(part);
            self.dirs.insert(at.clone());
        }
    }

    fn put(&mut self, path: &str, data: &[u8], mtime: i128) {
        if let Some((dir, _)) = path.rsplit_once('/') {
            self.make_dirs(dir);
        }
        self.files.insert(path.to_string(), (data.to_vec(), mtime));
    }

    fn write(&mut self, path: &str, contents: &str) {
        self.put(path, contents.as_bytes(), 5_000);
    }

    fn read(&self, path: &str) -> String {
        String::from_utf8(self.files[path].0.clone()).unwrap()
    }

    fn has(&self, path: &str) -> bool {
        self.files.contains_key(path)
    }

    fn set_mtime(&mut self, path: &str, mtime: i128) {
        self.files.get_mut(path).unwrap().1 = mtime;
    }

    /// The directories in which there is nothing.
    fn empties(&self) -> Table<()> {
        let dirs: Vec<RelPath> = self.dirs.iter().map(|d| rel(d)).collect();
        let all: Vec<RelPath> = self
            .dirs
            .iter()
            .chain(self.files.keys())
            .map(|p| rel(p))
            .collect();
        empty_dirs(&dirs, &all)
    }

    fn find_conflict_copy(&self) -> Option<String> {
        self.files
            .keys()
            .find(|k| k.contains(".conflux-conflict-"))
            .cloned()
    }
}

fn rel(s: &str) -> RelPath {
    RelPath::from_relative(s).unwrap()
}

/// Two trees, and how they are synced.
struct World {
    local: Tree,
    remote: Tree,
    config: Config,
    deletions: Deletions,
    /// The steps of the last sync.
    steps: Vec<Step>,
}

const ROOT: &str = "/local";

/// A one-group configuration: `/local` mirrored to `/remote/data`.
fn world(scope: Scope, includes: &[&str]) -> World {
    let mut config = Config {
        daemon: DaemonConfig {
            log_level: "info".to_string(),
            debounce: Span::from_secs(5),
            interval: Span::from_secs(3600),
            pull_interval: None,
            empty_dirs: EmptyDirMode::Ignore,
            deletions: Deletions::Deny,
            max_file_size: 100_000_000,
            exclude: default_exclude(),
            profile: None,
        },
        remotes: vec![Remote {
            id: "m".to_string(),
            label: None,
            backend: RemoteKind::Local,
            url: "/remote".to_string(),
            username: None,
            password: None,
            password_command: None,
            identity_file: None,
            identity_file_command: None,
            branch: None,
            commit_msg_command: None,
            pull_interval: None,
            empty_dirs: None,
            max_file_size: None,
        }],
        syncs: vec![Sync {
            id: None,
            label: None,
            remote: "m".to_string(),
            remote_fs: None,
            local: ROOT.to_string(),
            remote_path: "data".to_string(),
            includes: includes.iter().map(|s| s.to_string()).collect(),
            scope,
            trigger: Trigger::Manual,
            interval: None,
            debounce: None,
            pull_interval: None,
            empty_dirs: None,
            deletions: None,
            max_file_size: None,
            profiles: default_profiles(),
            exclude: vec![],
        }],
    };
    config.prepare().unwrap();
    World {
        local: Tree::default(),
        remote: Tree::default(),
        config,
        deletions: Deletions::Allow,
        steps: Vec::new(),
    }
}

impl World {
    fn rules(&self) -> Rules {
        let sync = &self.config.syncs[0];
        let mut rules = settings_for(&self.config, sync, false).rules;
        rules.deletions = self.deletions;
        rules
    }

    fn globs(&self) -> GroupGlobs {
        GroupGlobs::new(&self.config.syncs[0], &self.config.daemon.exclude).unwrap()
    }

    fn local_table(&self, globs: &GroupGlobs) -> Table<FileMeta> {
        let mut table = Table::new();
        for (path, (data, mtime)) in &self.local.files {
            let full = format!("{ROOT}/{path}");
            if let Some(path) = scan_path(ROOT, &full, &globs.exclude) {
                let meta = FileMeta {
                    hash: hash_bytes(data),
                    mtime: *mtime,
                    size: data.len() as u64,
                };
                place(&mut table, &path, meta);
            }
        }
        table
    }

    fn backend(&self) -> LocalBackend {
        LocalBackend::new(&self.config.remotes[0], &self.config.syncs[0])
    }

    fn remote_table(&self) -> Table<conflux::model::RemoteMeta> {
        let base = self.backend().base;
        let mut table = Table::new();
        for (path, (data, mtime)) in &self.remote.files {
            let full = self.backend().full(&rel(path));
            if let Some(path) = snapshot_path(&base, &full) {
                place(&mut table, &path, content_meta(data, Some(*mtime)));
            }
        }
        table
    }

    fn run(&mut self, index: &mut Index) -> SyncReport {
        self.run_mode(index, EmptyDirMode::Ignore)
    }

    fn run_mode(&mut self, index: &mut Index, empty_dirs: EmptyDirMode) -> SyncReport {
        let rules = self.rules();
        self.run_with(index, empty_dirs, rules)
    }

    fn run_with(&mut self, index: &mut Index, mode: EmptyDirMode, rules: Rules) -> SyncReport {
        self.try_run(index, mode, rules, None).unwrap()
    }

    /// Runs a sync whose step number `fail_at` fails; the index is kept if it does.
    fn try_run(
        &mut self,
        index: &mut Index,
        mode: EmptyDirMode,
        rules: Rules,
        fail_at: Option<usize>,
    ) -> Result<SyncReport, Error> {
        let before = std::mem::replace(index, Index::new());
        let mut run = Run::new(self.globs(), before, rules, mode);
        self.steps.clear();
        while run.step() != Step::Over {
            let step = run.step();
            let failed = fail_at == Some(self.steps.len());
            self.steps.push(step);
            let outcome = if failed {
                Outcome::Failed(Error::Backend("down".to_string()))
            } else {
                self.perform(&run, step)
            };
            run.take(outcome);
        }
        let (after, report) = run.into_result()?;
        *index = after;
        Ok(report)
    }

    fn perform(&mut self, run: &Run, step: Step) -> Outcome {
        let dir = run.dir().map(|d| d.as_str().to_string());
        match step {
            Step::ScanLocal => Outcome::Scanned(self.local_table(run.globs())),
            Step::Snapshot => Outcome::Snapshot(self.remote_table()),
            Step::File(command) => Outcome::File(self.perform_command(run.session(), command)),
            Step::ListLocalDirs => Outcome::Listed(self.local.empties()),
            Step::ListRemoteDirs => Outcome::Listed(self.remote.empties()),
            Step::CreateLocalDir => {
                self.local.make_dirs(&dir.unwrap());
                Outcome::Done
            }
            Step::CreateRemoteDir => {
                self.remote.make_dirs(&dir.unwrap());
                Outcome::Done
            }
            Step::RemoveLocalDir => {
                self.local.dirs.remove(&dir.unwrap());
                Outcome::Done
            }
            Step::RemoveRemoteDir => {
                self.remote.dirs.remove(&dir.unwrap());
                Outcome::Done
            }
            Step::Record | Step::Finalize => Outcome::Done,
            Step::Over => unreachable!(),
        }
    }

    fn perform_command(&mut self, session: &Session, command: Command) -> Event {
        let job = session.job().unwrap();
        let path = job.path.as_str().to_string();
        match command {
            Command::ReadLocal => Event::LocalData(self.local.files[&path].0.clone()),
            Command::TryReadLocal => match self.local.files.get(&path) {
                Some((data, _)) => Event::LocalData(data.clone()),
                None => Event::LocalUnreadable,
            },
            Command::ReadRemote => Event::RemoteData(self.remote.files[&path].0.clone()),
            Command::WriteLocal => {
                let write = session.write().unwrap();
                self.local.put(&path, write.data, write.mtime.unwrap_or(9_000));
                Event::Done
            }
            Command::WriteRemote => {
                let write = session.write().unwrap();
                self.remote.put(&path, write.data, write.mtime.unwrap_or(9_000));
                Event::Stored(content_meta(write.data, write.mtime).id)
            }
            Command::SaveCopy { .. } => {
                let copy = conflict_copy(&job.path, "2026-01-02_03-04-05");
                let write = session.write().unwrap();
                self.local.put(copy.as_str(), write.data, write.mtime.unwrap_or(9_000));
                Event::Copied(copy.to_local(ROOT))
            }
            Command::RemoveLocal => {
                self.local.files.remove(&path);
                Event::Done
            }
            Command::RemoveRemote => {
                self.remote.files.remove(&path);
                Event::Done
            }
            Command::Finish => unreachable!(),
        }
    }

    fn plan(&self, index: &Index) -> SyncPlan {
        self.plan_mode(index, EmptyDirMode::Ignore)
    }

    fn plan_mode(&self, index: &Index, mode: EmptyDirMode) -> SyncPlan {
        let globs = self.globs();
        plan_sync(
            &globs,
            &self.local_table(&globs),
            &self.remote_table(),
            index,
            self.rules(),
            mode,
            &self.local.empties(),
            &self.remote.empties(),
        )
    }
}

fn mirror_world() -> World {
    world(Scope::Mirror, &[])
}

#[test]
fn pushes_new_local_file_then_is_idempotent() {
    let mut d = mirror_world();
    let mut index = Index::new();

    d.local.write("a.txt", "hello");
    let report = d.run(&mut index);
    assert_eq!(report.added.len(), 1);
    assert_eq!(d.remote.read("a.txt"), "hello");

    // Second run: nothing to do.
    let report = d.run(&mut index);
    assert!(
        report.is_empty(),
        "second run should be a no-op: {report:?}"
    );
}

#[test]
fn pulls_new_remote_file() {
    let mut d = mirror_world();
    let mut index = Index::new();

    d.remote.write("b.txt", "remote-side");
    let report = d.run(&mut index);
    assert_eq!(report.added.len(), 1);
    assert_eq!(d.local.read("b.txt"), "remote-side");
}

#[test]
fn propagates_deletes_both_ways() {
    let mut d = mirror_world();
    let mut index = Index::new();

    // Establish a baseline with two files.
    d.local.write("keep.txt", "1");
    d.remote.write("fromremote.txt", "2");
    d.run(&mut index);
    assert!(d.local.has("fromremote.txt"));
    assert!(d.remote.has("keep.txt"));

    // Delete one on each side; deletes should propagate.
    d.local.files.remove("keep.txt");
    d.remote.files.remove("fromremote.txt");
    let report = d.run(&mut index);
    assert_eq!(report.removed.len(), 2); // one deleted on each side
    assert!(!d.remote.has("keep.txt"));
    assert!(!d.local.has("fromremote.txt"));
}

#[test]
fn conflict_newer_local_wins_and_preserves_remote_copy() {
    let mut d = mirror_world();
    let mut index = Index::new();

    // Baseline.
    d.local.write("c.txt", "base");
    d.run(&mut index);

    // Diverge both sides with different content; make local strictly newer.
    d.local.write("c.txt", "LOCAL");
    d.remote.write("c.txt", "REMOTE");
    d.remote.set_mtime("c.txt", 1_000);
    d.local.set_mtime("c.txt", 2_000);

    let report = d.run(&mut index);
    assert_eq!(report.conflicts.len(), 1);
    assert_eq!(report.conflicts[0].winner, Winner::Local);

    // Remote now holds the local (winning) content.
    assert_eq!(d.remote.read("c.txt"), "LOCAL");
    // The losing remote content is preserved as a local conflict copy.
    let copy = d
        .local
        .find_conflict_copy()
        .expect("conflict copy should exist");
    assert_eq!(d.local.read(&copy), "REMOTE");
}

#[test]
fn local_backend_preserves_mtime_both_ways() {
    let mut d = mirror_world();
    let mut index = Index::new();

    // Push: the mirror copy must keep the source's modification time.
    d.local.write("f.txt", "hi");
    d.local.set_mtime("f.txt", 1_000_000);
    d.run(&mut index);
    assert_eq!(d.remote.files["f.txt"].1, 1_000_000, "push kept mtime");

    // Pull: the local copy must keep the remote file's modification time.
    d.remote.write("g.txt", "yo");
    d.remote.set_mtime("g.txt", 2_000_000);
    d.run(&mut index);
    assert_eq!(d.local.files["g.txt"].1, 2_000_000, "pull kept mtime");
}

#[test]
fn mirror_syncs_empty_dirs_both_ways_and_ignore_does_not() {
    let mut d = mirror_world();
    let mut index = Index::new();

    // An empty dir on each side.
    d.local.make_dirs("emptylocal");
    d.remote.make_dirs("emptyremote");

    // Default (ignore): empty dirs are neither created nor removed.
    let report = d.run(&mut index);
    assert!(report.added.is_empty());
    assert!(!d.remote.dirs.contains("emptylocal"));
    assert!(!d.local.dirs.contains("emptyremote"));

    // mirror: each empty dir is mirrored to the other side.
    let mut index = Index::new();
    let report = d.run_mode(&mut index, EmptyDirMode::Mirror);
    assert_eq!(report.added.len(), 2);
    assert!(d.remote.dirs.contains("emptylocal"));
    assert!(d.local.dirs.contains("emptyremote"));
}

#[test]
fn mirror_propagates_empty_dir_deletion() {
    let mut d = mirror_world();
    let mut index = Index::new();

    d.local.make_dirs("shared");
    d.run_mode(&mut index, EmptyDirMode::Mirror);
    assert!(d.remote.dirs.contains("shared"));

    // Remove it locally; mirror mode should delete it on the remote too.
    d.local.dirs.remove("shared");
    let report = d.run_mode(&mut index, EmptyDirMode::Mirror);
    assert_eq!(report.removed.len(), 1);
    assert!(!d.remote.dirs.contains("shared"));
}

#[test]
fn prune_removes_empty_dirs_including_nested_parents() {
    let mut d = mirror_world();
    let mut index = Index::new();

    // A file whose deletion leaves an empty nested dir tree behind.
    d.local.write("a/b/c.txt", "x");
    d.run(&mut index);
    assert!(d.remote.has("a/b/c.txt"));

    d.local.files.remove("a/b/c.txt");
    let report = d.run_mode(&mut index, EmptyDirMode::Prune);
    // The file delete plus the now-empty a/ and a/b/ all count as removed.
    assert!(report.removed.len() >= 3);
    assert!(!d.local.dirs.contains("a"), "local empty parents pruned");
    assert!(!d.remote.dirs.contains("a"), "remote empty parents pruned");
}

#[test]
fn include_restricts_what_is_pushed() {
    let mut d = world(Scope::Include, &["keep"]);
    let mut index = Index::new();

    d.local.write("keep/a.txt", "yes");
    d.local.write("other/b.txt", "no");
    let report = d.run(&mut index);

    assert_eq!(report.added.len(), 1);
    assert!(d.remote.has("keep/a.txt"));
    assert!(
        !d.remote.has("other/b.txt"),
        "non-included paths must not be pushed"
    );
}

#[test]
fn scope_include_ignores_paths_outside_include_in_both_directions() {
    // The safe default: an empty `include` syncs nothing at all, so a remote
    // tree cannot delete or overwrite the local one.
    let mut d = world(Scope::Include, &[]);
    let mut index = Index::new();

    d.local.write("mine.txt", "local");
    d.remote.write("theirs.txt", "remote");
    let report = d.run(&mut index);

    assert!(report.is_empty(), "nothing is included, so nothing syncs");
    assert!(d.local.has("mine.txt"), "local file untouched");
    assert!(!d.local.has("theirs.txt"), "remote file not pulled");
    assert!(!d.remote.has("mine.txt"), "local file not pushed");
}

#[test]
fn scope_include_with_glob_syncs_only_matched_paths_both_ways() {
    let mut d = world(Scope::Include, &["keep"]);
    let mut index = Index::new();

    // A baseline where `keep/` is synced both ways and `other/` is ignored.
    d.local.write("keep/a.txt", "yes");
    d.remote.write("keep/b.txt", "also");
    d.local.write("other/x.txt", "ignore-me");
    d.remote.write("other/y.txt", "ignore-me-too");
    d.run(&mut index);

    assert_eq!(d.remote.read("keep/a.txt"), "yes");
    assert_eq!(d.local.read("keep/b.txt"), "also");
    assert!(!d.remote.has("other/x.txt"));
    assert!(!d.local.has("other/y.txt"));

    // A delete inside `include` propagates; one outside is ignored.
    d.local.files.remove("keep/a.txt");
    d.remote.files.remove("other/y.txt");
    d.run(&mut index);
    assert!(!d.remote.has("keep/a.txt"), "included delete propagates");
}

#[test]
fn scope_remote_pulls_non_included_files_read_only() {
    let mut d = world(Scope::Remote, &[]);
    let mut index = Index::new();

    // A non-included remote file is pulled down...
    d.remote.write("dotfile", "from-remote");
    // ...while a non-included local-only file stays put (never pushed).
    d.local.write("local-only.txt", "mine");
    let report = d.run(&mut index);

    assert_eq!(d.local.read("dotfile"), "from-remote");
    assert_eq!(report.added.len(), 1, "only the remote file is pulled");
    assert!(
        !d.remote.has("local-only.txt"),
        "local-only file must not be pushed under scope = remote"
    );

    // Editing the pulled file locally does not push it back: the remote wins,
    // and the diverging local edit is preserved as a conflict copy.
    d.local.write("dotfile", "local-edit");
    d.remote.write("dotfile", "remote-edit");
    let report = d.run(&mut index);
    assert_eq!(
        d.local.read("dotfile"),
        "remote-edit",
        "remote overrides local"
    );
    assert_eq!(report.conflicts.len(), 1);
    let copy = d
        .local
        .find_conflict_copy()
        .expect("conflict copy should exist");
    assert_eq!(d.local.read(&copy), "local-edit");
}

#[test]
fn scope_local_pushes_non_included_files_and_local_overrides_remote() {
    let mut d = world(Scope::Local, &[]);
    let mut index = Index::new();

    // A non-included local file is pushed up...
    d.local.write("note.txt", "from-local");
    // ...while a non-included remote-only file stays put (never pulled).
    d.remote.write("remote-only.txt", "theirs");
    let report = d.run(&mut index);

    assert_eq!(d.remote.read("note.txt"), "from-local");
    assert_eq!(report.added.len(), 1, "only the local file is pushed");
    assert!(
        !d.local.has("remote-only.txt"),
        "remote-only file must not be pulled under scope = local"
    );

    // Diverging edits: local wins, and the losing remote version is preserved
    // as a local conflict copy.
    d.local.write("note.txt", "local-edit");
    d.remote.write("note.txt", "remote-edit");
    let report = d.run(&mut index);
    assert_eq!(
        d.remote.read("note.txt"),
        "local-edit",
        "local overrides remote"
    );
    assert_eq!(report.conflicts.len(), 1);
    let copy = d
        .local
        .find_conflict_copy()
        .expect("conflict copy should exist");
    assert_eq!(d.local.read(&copy), "remote-edit");
}

#[test]
fn scope_mirror_syncs_everything_ignoring_include() {
    // `include` is set but ignored under `scope = "mirror"`: everything syncs.
    let mut d = world(Scope::Mirror, &["keep"]);
    let mut index = Index::new();

    d.local.write("keep/a.txt", "yes");
    d.local.write("other/b.txt", "also");
    let report = d.run(&mut index);

    assert_eq!(
        report.added.len(),
        2,
        "mirror ignores include and syncs all"
    );
    assert!(d.remote.has("keep/a.txt"));
    assert!(d.remote.has("other/b.txt"));
}

#[test]
fn max_file_size_skips_oversize_files_in_both_directions() {
    // A 10-byte cap: small files sync, larger ones are skipped either way.
    let mut d = mirror_world();
    d.config.syncs[0].max_file_size = Some(10);
    let mut index = Index::new();

    d.local.write("small.txt", "hi"); // 2 bytes: pushed
    d.local
        .write("big.txt", "this is definitely over ten bytes"); // skipped
    d.remote.write("incoming-small.txt", "ok"); // pulled
    d.remote
        .write("incoming-big.txt", "also way over the ten byte cap"); // skipped
    let report = d.run(&mut index);

    assert_eq!(report.added.len(), 2, "only the two small files sync");
    assert!(d.remote.has("small.txt"), "small local file pushed");
    assert!(d.local.has("incoming-small.txt"), "small remote file pulled");
    assert!(
        !d.remote.has("big.txt"),
        "oversize local file must not be pushed"
    );
    assert!(
        !d.local.has("incoming-big.txt"),
        "oversize remote file must not be pulled"
    );
}

#[test]
fn max_file_size_zero_means_unlimited() {
    let mut d = mirror_world();
    d.config.syncs[0].max_file_size = Some(0);
    let mut index = Index::new();

    d.local.write("big.txt", "content well beyond any tiny cap");
    let report = d.run(&mut index);

    assert_eq!(report.added.len(), 1);
    assert!(d.remote.has("big.txt"), "0 = unlimited, so it syncs");
}

// ---------------------------------------------------------------------------
// Dry runs
// ---------------------------------------------------------------------------

/// The planned changes by path.
fn ops(plan: &SyncPlan) -> BTreeMap<String, PlanOp> {
    plan.changes
        .iter()
        .map(|c| (c.path.as_str().to_string(), c.op))
        .collect()
}

#[test]
fn plan_predicts_pushes_and_pulls_without_touching_anything() {
    let mut d = mirror_world();

    // Local-only and remote-only files, nothing synced yet (empty index).
    d.local.write("push.txt", "local");
    d.remote.write("pull.txt", "remote");

    let index = Index::new();
    let ops = ops(&d.plan(&index));

    assert_eq!(ops.len(), 2, "two files, one each direction");
    assert_eq!(ops["push.txt"], PlanOp::Push { update: false });
    assert_eq!(ops["pull.txt"], PlanOp::Pull { update: false });

    // The dry run must not have created either file on the other side, nor
    // written an index.
    assert!(!d.remote.has("push.txt"), "push must not happen");
    assert!(!d.local.has("pull.txt"), "pull must not happen");
    assert_eq!(index.entries.len(), 0, "index untouched");
}

#[test]
fn plan_matches_the_sync_that_follows_it() {
    let mut d = mirror_world();
    let mut index = Index::new();

    // Establish a baseline: three files synced both ways.
    d.local.write("keep.txt", "v1");
    d.local.write("push.txt", "gone soon");
    d.remote.write("only_remote.txt", "r");
    d.run(&mut index);
    assert!(d.local.has("only_remote.txt"), "baseline pulled");
    assert!(d.remote.has("keep.txt"), "baseline pushed");

    // Now diverge: edit a file locally, delete another locally, add one on the
    // remote.
    d.local.write("keep.txt", "v2 edited");
    d.local.files.remove("push.txt");
    d.remote.write("fresh.txt", "new remote");

    let predicted = ops(&d.plan(&index));
    assert_eq!(predicted["keep.txt"], PlanOp::Push { update: true });
    assert_eq!(predicted["push.txt"], PlanOp::DeleteRemote);
    assert_eq!(predicted["fresh.txt"], PlanOp::Pull { update: false });

    // The remote still has the file the plan said it would delete, and the
    // local tree still lacks the file the plan said it would pull.
    assert!(d.remote.has("push.txt"), "plan is read-only");
    assert!(!d.local.has("fresh.txt"), "plan is read-only");

    // Applying the sync produces exactly the changes the plan predicted.
    let report = d.run(&mut index);
    assert_eq!(report.modified, vec![rel("keep.txt")]);
    assert_eq!(report.removed, vec![rel("push.txt")]);
    assert_eq!(report.added, vec![rel("fresh.txt")]);
}

#[test]
fn plan_predicts_the_conflict_winner_by_mtime() {
    let mut d = mirror_world();
    let mut index = Index::new();

    // Baseline: one shared file.
    d.local.write("doc.txt", "base");
    d.run(&mut index);

    // Both sides edit it differently; make the local copy the newer one.
    d.local.write("doc.txt", "local edit");
    d.remote.write("doc.txt", "remote edit");
    d.remote.set_mtime("doc.txt", 1_000);
    d.local.set_mtime("doc.txt", 2_000);

    let predicted = ops(&d.plan(&index));
    assert_eq!(
        predicted["doc.txt"],
        PlanOp::Conflict {
            winner: Winner::Local
        }
    );

    // Remote's losing content is still intact: the plan changed nothing.
    assert_eq!(d.remote.read("doc.txt"), "remote edit");
}

// ---------------------------------------------------------------------------
// More of both
// ---------------------------------------------------------------------------

#[test]
fn two_machines_exchange_files_through_a_remote() {
    let mut a = mirror_world();
    let mut b = mirror_world();
    let mut index_a = Index::new();
    let mut index_b = Index::new();

    // A creates a file.
    a.local.write("app.conf", "v1");
    assert_eq!(a.run(&mut index_a).added.len(), 1);

    // B pulls it.
    b.remote = a.remote.clone();
    assert_eq!(b.run(&mut index_b).added.len(), 1);
    assert_eq!(b.local.read("app.conf"), "v1");

    // A updates it, and B pulls the update.
    a.local.write("app.conf", "v2");
    assert_eq!(a.run(&mut index_a).modified.len(), 1);
    b.remote = a.remote.clone();
    assert_eq!(b.run(&mut index_b).modified.len(), 1);
    assert_eq!(b.local.read("app.conf"), "v2");

    // A deletes it, and B removes its local copy.
    a.local.files.remove("app.conf");
    assert_eq!(a.run(&mut index_a).removed.len(), 1);
    b.remote = a.remote.clone();
    assert_eq!(b.run(&mut index_b).removed.len(), 1);
    assert!(!b.local.has("app.conf"));
}

#[test]
fn deletions_are_not_propagated_unless_allowed() {
    let mut d = mirror_world();
    d.deletions = Deletions::Deny;
    let mut index = Index::new();
    d.local.write("a", "1");
    d.run(&mut index);
    d.local.files.remove("a");
    let report = d.run(&mut index);
    assert!(report.is_empty());
    assert!(d.remote.has("a"));
}

#[test]
fn the_newer_remote_wins_and_the_local_version_is_kept() {
    let mut d = mirror_world();
    let mut index = Index::new();
    d.local.write("c.txt", "base");
    d.run(&mut index);
    d.local.write("c.txt", "LOCAL");
    d.remote.write("c.txt", "REMOTE");
    d.remote.set_mtime("c.txt", 3_000);
    d.local.set_mtime("c.txt", 2_000);
    let report = d.run(&mut index);
    assert_eq!(report.conflicts.len(), 1);
    assert_eq!(report.conflicts[0].winner, Winner::Remote);
    assert_eq!(
        report.conflicts[0].conflict_copy,
        "/local/c.conflux-conflict-2026-01-02_03-04-05.txt"
    );
    assert_eq!(d.local.read("c.txt"), "REMOTE");
    assert_eq!(
        d.local.read("c.conflux-conflict-2026-01-02_03-04-05.txt"),
        "LOCAL"
    );
    // The copy is never synced, and nothing is left to do.
    let report = d.run(&mut index);
    assert!(report.is_empty());
    assert_eq!(d.remote.files.len(), 1);
    assert_eq!(SyncSummary::from(&report).render(), "+0 -0 *0 ~0");
}

#[test]
fn equal_edits_are_no_conflict() {
    let mut d = mirror_world();
    let mut index = Index::new();
    d.local.write("c.txt", "base");
    d.run(&mut index);
    d.local.write("c.txt", "same");
    d.remote.write("c.txt", "same");
    let before = d.local.clone();
    let report = d.run(&mut index);
    assert!(report.is_empty());
    assert_eq!(d.local, before);
    // The baseline took the edit up.
    let entry = index.get(&rel("c.txt")).unwrap();
    assert_eq!(entry.local_hash, hash_bytes(b"same"));
}

#[test]
fn a_second_sync_is_quiet() {
    let mut d = mirror_world();
    let mut index = Index::new();
    d.local.write("a", "1");
    d.local.write("b/c", "2");
    d.remote.write("d", "3");
    d.run(&mut index);
    assert!(d.run(&mut index).is_empty());
    assert!(d.plan(&index).changes.is_empty());
    // Both sides hold the same files.
    let contents = |t: &Tree| -> BTreeMap<String, Vec<u8>> {
        t.files
            .iter()
            .map(|(k, v)| (k.clone(), v.0.clone()))
            .collect()
    };
    assert_eq!(contents(&d.local), contents(&d.remote));
}

#[test]
fn a_poll_leaves_local_changes_alone() {
    let mut d = mirror_world();
    let mut index = Index::new();
    d.local.write("mine", "1");
    d.local.write("theirs", "1");
    d.run(&mut index);
    d.local.write("mine", "2");
    d.remote.write("theirs", "2");
    let mut rules = d.rules();
    rules.remote_refresh = true;
    let report = d.run_with(&mut index, EmptyDirMode::Ignore, rules);
    assert_eq!(report.modified, vec![rel("theirs")]);
    assert_eq!(d.remote.read("mine"), "1");
    assert_eq!(d.local.read("theirs"), "2");
}

#[test]
fn excluded_files_stay_where_they_are() {
    let mut d = mirror_world();
    let mut index = Index::new();
    d.local.write(".git/config", "local");
    d.remote.write("x/.git/config", "remote");
    d.local.write("f.conflux-conflict-1", "copy");
    let report = d.run(&mut index);
    assert!(report.is_empty(), "{report:?}");
    assert!(!d.remote.has(".git/config"));
    assert!(!d.local.has("x/.git/config"));
}

#[test]
fn oversize_files_are_announced_and_skipped() {
    let mut d = mirror_world();
    d.config.syncs[0].max_file_size = Some(3);
    let index = Index::new();
    d.local.write("big", "four");
    d.local.write("ok", "abc");
    let plan = ops(&d.plan(&index));
    assert_eq!(plan["big"], PlanOp::OversizeSkip { size: 4 });
    assert_eq!(plan["ok"], PlanOp::Push { update: false });
}

#[test]
fn empty_directories_are_planned_too() {
    let mut d = mirror_world();
    let index = Index::new();
    d.local.make_dirs("one");
    d.remote.make_dirs("two");
    let mirrored = ops(&d.plan_mode(&index, EmptyDirMode::Mirror));
    assert_eq!(mirrored["one"], PlanOp::CreateRemoteDir);
    assert_eq!(mirrored["two"], PlanOp::CreateLocalDir);
    let pruned = ops(&d.plan_mode(&index, EmptyDirMode::Prune));
    assert_eq!(pruned["one"], PlanOp::DeleteLocalDir);
    assert_eq!(pruned["two"], PlanOp::DeleteRemoteDir);
    assert!(d.plan(&index).changes.is_empty());
}

#[test]
fn mirrored_directories_stay() {
    let mut d = mirror_world();
    let mut index = Index::new();
    d.local.make_dirs("one");
    d.remote.make_dirs("two");
    d.run_mode(&mut index, EmptyDirMode::Mirror);
    assert_eq!(d.local.dirs, d.remote.dirs);
    let before = (d.local.clone(), d.remote.clone());
    assert!(d.run_mode(&mut index, EmptyDirMode::Mirror).is_empty());
    assert_eq!((d.local.clone(), d.remote.clone()), before);
}

#[test]
fn bad_globs_are_refused() {
    let mut d = mirror_world();
    d.config.syncs[0].exclude = vec!["a[".to_string()];
    assert!(GroupGlobs::new(&d.config.syncs[0], &[]).is_err());
    d.config.syncs[0].exclude = vec![];
    d.config.syncs[0].includes = vec!["{".to_string()];
    assert!(GroupGlobs::new(&d.config.syncs[0], &[]).is_err());
}

#[test]
fn the_index_has_a_file_of_its_own_for_each_group() {
    let d = mirror_world();
    let path = Index::path_for("/state", &d.config.syncs[0]);
    assert_eq!(path, "/state/index/m__data.json");
}

#[test]
fn a_sync_finalizes_once_and_last() {
    for mode in [
        EmptyDirMode::Ignore,
        EmptyDirMode::Mirror,
        EmptyDirMode::Prune,
    ] {
        let mut w = world(Scope::Mirror, &["**"]);
        w.local.write("a.txt", "a");
        w.remote.write("b.txt", "b");
        w.local.make_dirs("empty/nested");
        let mut index = Index::new();
        w.run_mode(&mut index, mode);
        let finals = w.steps.iter().filter(|s| **s == Step::Finalize).count();
        assert_eq!(finals, 1);
        assert_eq!(w.steps.last(), Some(&Step::Finalize));
        assert_eq!(w.steps[..2], [Step::ScanLocal, Step::Snapshot]);
        let files = w.steps.iter().rposition(|s| matches!(s, Step::File(_)));
        let dirs = w.steps.iter().position(|s| *s == Step::ListLocalDirs);
        match mode {
            EmptyDirMode::Ignore => assert_eq!(dirs, None),
            _ => assert!(files.unwrap() < dirs.unwrap()),
        }
    }
}

#[test]
fn the_first_failure_ends_a_sync() {
    let mut all = world(Scope::Mirror, &["**"]);
    all.local.write("a.txt", "a");
    all.local.make_dirs("empty");
    let mut index = Index::new();
    all.run_mode(&mut index, EmptyDirMode::Mirror);
    let total = all.steps.len();
    for at in 0..total {
        let mut w = world(Scope::Mirror, &["**"]);
        w.local.write("a.txt", "a");
        w.local.make_dirs("empty");
        let mut index = Index::new();
        let rules = w.rules();
        let failed = w.try_run(&mut index, EmptyDirMode::Mirror, rules, Some(at));
        assert!(matches!(failed, Err(Error::Backend(e)) if e == "down"));
        assert_eq!(w.steps.len(), at + 1);
        assert_eq!(w.steps[..], all.steps[..at + 1]);
    }
}

#[test]
fn excluded_files_are_left_alone() {
    let mut w = world(Scope::Mirror, &["**"]);
    w.config.syncs[0].exclude = vec!["*.log".to_string()];
    w.local.write("a.log", "local");
    w.remote.write("b.log", "remote");
    let mut index = Index::new();
    index.set(&rel("a.log"), "old".to_string(), "old".to_string());
    let report = w.run(&mut index);
    assert!(report.is_empty());
    assert!(!w.remote.has("a.log") && !w.local.has("b.log"));
    assert_eq!(w.local.read("a.log"), "local");
    assert!(!w.steps.iter().any(|s| matches!(s, Step::File(_))));
    assert!(index.get(&rel("a.log")).is_none());
}
