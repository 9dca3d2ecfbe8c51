//! The daemon's decisions: which groups it runs, what triggers them, which job
//! runs next, whether a failed one is retried, and what it answers.

use crate::backend::{base_path, under};
use crate::config::{group_label, has_remote, holds_text, label_of, lemma_remote_index, remote_index, Config, DaemonConfig,
    Remote, Sync};
use crate::decide::{str_opt, Rules};
use crate::error::Error;
use crate::ipc::{GroupOutcome, GroupPlan, GroupStatus, Request, Response, SyncTarget};
use crate::model::{Deletions, EmptyDirMode, RemoteKind, Trigger};
use crate::paths::Paths;
use crate::plan::SyncPlan;
use crate::report::{count, SyncReport, SyncSummary};
use crate::span::Span;
use crate::table::Table;
use crate::text::{cat, cat3, cat5, decimal, same, text_opt, texts};
use vstd::prelude::*;

verus! {

// ---------------------------------------------------------------------------
// Settings of a group
// ---------------------------------------------------------------------------

/// The remote of a group, if it is configured.
pub open spec fn remote_of(config: Config, sync: Sync) -> Option<Remote> {
    let i = remote_index(config.remotes@, sync.remote@);
    if has_remote(config.remotes@, sync.remote@) {
        Some(config.remotes@[i])
    } else {
        None
    }
}

/// The remote of a group, if it is configured.
fn remote_for<'a>(config: &'a Config, sync: &Sync) -> (out: Option<&'a Remote>)
    ensures
        match out {
            Some(r) => remote_of(*config, *sync) == Some(*r),
            None => remote_of(*config, *sync) is None,
        },
{
    proof {
        lemma_remote_index(config.remotes@, sync.remote@);
    }
    let out = config.remote(sync.remote_id());
    assert(out matches Some(r) ==> r.id@ == config.remotes@[remote_index(
        config.remotes@,
        sync.remote@,
    )].id@);
    out
}

/// The first value of three levels that is set.
pub open spec fn first_set<T>(a: Option<T>, b: Option<T>, c: Option<T>) -> Option<T> {
    if a is Some {
        a
    } else if b is Some {
        b
    } else {
        c
    }
}

/// Resolve the watch debounce for a group: per-sync, then the daemon default.
pub fn resolve_debounce(config: &Config, sync: &Sync) -> (out: Span)
    ensures
        out == (match sync.debounce {
            Some(d) => d,
            None => config.daemon.debounce,
        }),
{
    match sync.debounce {
        Some(d) => d,
        None => config.daemon.debounce,
    }
}

/// The periodic pull interval of a group.
pub open spec fn pull_interval_of(config: Config, sync: Sync) -> Option<Span> {
    first_set(
        sync.pull_interval,
        match remote_of(config, sync) {
            Some(r) => r.pull_interval,
            None => None,
        },
        config.daemon.pull_interval,
    )
}

/// Resolve the periodic pull interval for a group: per-sync, then per-remote,
/// then the daemon default. `None` (or a resolved zero) disables background
/// pulling. The most specific level set wins, so a sync/remote can set `0` to
/// opt out even when a broader level enables it.
pub fn resolve_pull_interval(config: &Config, sync: &Sync) -> (out: Option<Span>)
    ensures
        out == pull_interval_of(*config, *sync),
{
    if sync.pull_interval.is_some() {
        return sync.pull_interval;
    }
    match remote_for(config, sync) {
        Some(r) => if r.pull_interval.is_some() {
            r.pull_interval
        } else {
            config.daemon.pull_interval
        },
        None => config.daemon.pull_interval,
    }
}

/// The empty-directory handling of a group.
pub open spec fn empty_dirs_of(config: Config, sync: Sync) -> EmptyDirMode {
    first_set(
        sync.empty_dirs,
        match remote_of(config, sync) {
            Some(r) => r.empty_dirs,
            None => None,
        },
        Some(config.daemon.empty_dirs),
    ).unwrap()
}

/// Resolve empty-directory handling for a group: per-sync, then per-remote, then
/// the daemon default.
pub fn resolve_empty_dirs(config: &Config, sync: &Sync) -> (out: EmptyDirMode)
    ensures
        out == empty_dirs_of(*config, *sync),
{
    if let Some(mode) = sync.empty_dirs {
        return mode;
    }
    match remote_for(config, sync) {
        Some(r) => match r.empty_dirs {
            Some(mode) => mode,
            None => config.daemon.empty_dirs,
        },
        None => config.daemon.empty_dirs,
    }
}

/// Resolve the deletion policy for a group: per-sync, then the daemon default.
pub fn resolve_deletions(config: &Config, sync: &Sync) -> (out: Deletions)
    ensures
        out == (match sync.deletions {
            Some(d) => d,
            None => config.daemon.deletions,
        }),
{
    match sync.deletions {
        Some(d) => d,
        None => config.daemon.deletions,
    }
}

/// The size limit of a group.
pub open spec fn max_file_size_of(config: Config, sync: Sync) -> u64 {
    first_set(
        sync.max_file_size,
        match remote_of(config, sync) {
            Some(r) => r.max_file_size,
            None => None,
        },
        Some(config.daemon.max_file_size),
    ).unwrap()
}

/// Resolve the max synced file size (bytes; `0` = unlimited) for a group:
/// per-sync, then per-remote, then the daemon default.
pub fn resolve_max_file_size(config: &Config, sync: &Sync) -> (out: u64)
    ensures
        out == max_file_size_of(*config, *sync),
{
    if let Some(n) = sync.max_file_size {
        return n;
    }
    match remote_for(config, sync) {
        Some(r) => match r.max_file_size {
            Some(n) => n,
            None => config.daemon.max_file_size,
        },
        None => config.daemon.max_file_size,
    }
}

/// How a group is run.
#[derive(Debug, Clone, Copy, PartialEq, Eq, Structural)]
pub struct RunSettings {
    /// The rules for files.
    pub rules: Rules,
    /// What happens to empty directories.
    pub empty_dirs: EmptyDirMode,
}

/// How a group is run, given the configuration. `remote_refresh` marks a periodic
/// `pull_interval` run: it only applies remote-side changes to a bidirectional
/// group, so it never clobbers a pending local edit or delete that the group's own
/// trigger will reconcile.
pub fn settings_for(config: &Config, sync: &Sync, remote_refresh: bool) -> (out: RunSettings)
    ensures
        out.rules.remote_refresh == remote_refresh,
        out.rules.scope == sync.scope,
        out.rules.deletions == (match sync.deletions {
            Some(d) => d,
            None => config.daemon.deletions,
        }),
        out.rules.max_file_size == max_file_size_of(*config, *sync),
        out.empty_dirs == empty_dirs_of(*config, *sync),
{
    RunSettings {
        rules: Rules {
            remote_refresh,
            scope: sync.scope,
            deletions: resolve_deletions(config, sync),
            max_file_size: resolve_max_file_size(config, sync),
        },
        empty_dirs: resolve_empty_dirs(config, sync),
    }
}

// ---------------------------------------------------------------------------
// State
// ---------------------------------------------------------------------------

/// Runtime status recorded per group (merged with static config for IPC).
#[derive(Debug)]
pub struct RuntimeStatus {
    /// Epoch seconds of the last run.
    pub last_run: u64,
    /// Summary of the last run, if it succeeded.
    pub last_summary: Option<SyncSummary>,
    /// Error of the last run, if it failed.
    pub last_error: Option<String>,
}

/// The state of the daemon.
#[derive(Debug)]
pub struct DaemonState {
    /// The configuration in force.
    pub config: Config,
    /// The profile that the daemon was started for, if one was given.
    pub profile: Option<String>,
    /// Where things are.
    pub paths: Paths,
    /// The status of each group that was run, by its label.
    pub status: Table<RuntimeStatus>,
}

/// Whether `out` is a configuration with an explicit profile, if there is one, in
/// place of the configured one.
pub open spec fn is_for_profile(config: Config, profile: Option<Seq<char>>, out: Config) -> bool {
    &&& out.remotes == config.remotes
    &&& out.syncs == config.syncs
    &&& out.daemon == (DaemonConfig { profile: out.daemon.profile, ..config.daemon })
    &&& text_opt(out.daemon.profile) == (match profile {
        Some(p) => Some(p),
        None => text_opt(config.daemon.profile),
    })
}

/// The configuration of a daemon that was started for a profile: an explicit one
/// overrides the configured one, so one shared configuration can drive different
/// profiles on different hosts.
pub fn with_profile(config: Config, profile: Option<&str>) -> (out: Config)
    ensures
        is_for_profile(config, str_opt(profile), out),
{
    let mut config = config;
    if let Some(p) = profile {
        config.daemon.profile = Some(p.to_string());
    }
    config
}

impl DaemonState {
    /// The state of a daemon that has run nothing yet, started for a profile if one is
    /// given.
    pub fn new(config: Config, paths: Paths, profile: Option<String>) -> (out: DaemonState)
        ensures
            is_for_profile(config, text_opt(profile), out.config),
            out.profile == profile,
            out.paths == paths,
            out.status.wf(),
            out.status@ == Map::<Seq<char>, RuntimeStatus>::empty(),
    {
        let config = with_profile(config, as_slice(&profile));
        DaemonState { config, profile, paths, status: Table::new() }
    }
}

// ---------------------------------------------------------------------------
// Which groups run
// ---------------------------------------------------------------------------

/// Whether a group belongs to the active profile; without one, every group does.
pub open spec fn runs(sync: Sync, profile: Option<Seq<char>>) -> bool {
    match profile {
        None => true,
        Some(p) => texts(sync.profiles@).contains(p),
    }
}

/// Whether a group belongs to the active profile; without one, every group does.
pub fn is_active(sync: &Sync, active_profile: Option<&str>) -> (out: bool)
    ensures
        out == runs(*sync, str_opt(active_profile)),
{
    match active_profile {
        None => true,
        Some(profile) => holds_text(sync.profiles.as_slice(), profile),
    }
}

/// Whether a target picks a group: `All` picks every one, `Group` the one whose
/// `id` or label matches.
pub open spec fn picks(target: SyncTarget, sync: Sync) -> bool {
    match target {
        SyncTarget::All => true,
        SyncTarget::Group(name) => text_opt(sync.id) == Some(name@) || label_of(sync) == name@,
    }
}

/// Whether a target picks a group.
fn is_picked(target: &SyncTarget, sync: &Sync) -> (out: bool)
    ensures
        out == picks(*target, *sync),
{
    match target {
        SyncTarget::All => true,
        SyncTarget::Group(name) => {
            let by_id = match &sync.id {
                Some(id) => same(id.as_str(), name.as_str()),
                None => false,
            };
            let label = group_label(sync);
            by_id || same(label.as_str(), name.as_str())
        },
    }
}

/// The labels of the groups of a profile that a target picks, in order.
pub open spec fn labels_of(
    syncs: Seq<Sync>,
    profile: Option<Seq<char>>,
    target: SyncTarget,
) -> Seq<Seq<char>>
    decreases syncs.len(),
{
    if syncs.len() == 0 {
        seq![]
    } else {
        let front = labels_of(syncs.drop_last(), profile, target);
        if runs(syncs.last(), profile) && picks(target, syncs.last()) {
            front.push(label_of(syncs.last()))
        } else {
            front
        }
    }
}

/// The profile of a text, as a slice.
fn as_slice(s: &Option<String>) -> (out: Option<&str>)
    ensures
        str_opt(out) == text_opt(*s),
{
    match s {
        Some(t) => Some(t.as_str()),
        None => None,
    }
}

/// Resolve a sync request to labels, always scoped to this daemon's active
/// profile: `All` covers every group the daemon runs, `Group` picks the one
/// whose `id` or `remote:remote_path` label matches.
pub fn labels_for_target(st: &DaemonState, target: &SyncTarget) -> (out: Vec<String>)
    ensures
        texts(out@) == labels_of(st.config.syncs@, text_opt(st.config.daemon.profile), *target),
{
    let config = &st.config;
    let profile = as_slice(&config.daemon.profile);
    let ghost syncs = config.syncs@;
    let mut out: Vec<String> = Vec::new();
    let mut i: usize = 0;
    assert(syncs.take(0) =~= Seq::<Sync>::empty());
    assert(texts(out@) =~= Seq::<Seq<char>>::empty());
    while i < config.syncs.len()
        invariant
            i <= config.syncs@.len(),
            syncs == config.syncs@,
            str_opt(profile) == text_opt(config.daemon.profile),
            texts(out@) == labels_of(syncs.take(i as int), str_opt(profile), *target),
        decreases config.syncs.len() - i,
    {
        let s = &config.syncs[i];
        let ghost before = out@;
        assert(syncs.take(i + 1).drop_last() =~= syncs.take(i as int));
        assert(syncs.take(i + 1).last() == *s);
        if is_active(s, profile) && is_picked(target, s) {
            let label = group_label(s);
            let ghost l = label@;
            out.push(label);
            assert(texts(out@) =~= texts(before).push(l));
        }
        i = i + 1;
    }
    assert(syncs.take(syncs.len() as int) =~= syncs);
    out
}

/// The labels of the groups that the daemon runs.
pub fn active_labels(st: &DaemonState) -> (out: Vec<String>)
    ensures
        texts(out@) == labels_of(
            st.config.syncs@,
            text_opt(st.config.daemon.profile),
            SyncTarget::All,
        ),
{
    labels_for_target(st, &SyncTarget::All)
}

/// The index of the first group with the given label, or the number of groups.
pub open spec fn group_index(syncs: Seq<Sync>, label: Seq<char>) -> int
    decreases syncs.len(),
{
    if syncs.len() == 0 {
        0
    } else {
        let front = group_index(syncs.drop_last(), label);
        if front < syncs.len() - 1 {
            front
        } else if label_of(syncs.last()) == label {
            syncs.len() - 1
        } else {
            syncs.len() as int
        }
    }
}

proof fn lemma_group_index(syncs: Seq<Sync>, label: Seq<char>)
    ensures
        0 <= group_index(syncs, label) <= syncs.len(),
        group_index(syncs, label) < syncs.len() ==> label_of(syncs[group_index(syncs, label)])
            == label,
        forall|i: int|
            0 <= i < group_index(syncs, label) ==> label_of(#[trigger] syncs[i]) != label,
    decreases syncs.len(),
{
    if syncs.len() > 0 {
        let front = syncs.drop_last();
        lemma_group_index(front, label);
        let n = group_index(syncs, label);
        assert forall|i: int| 0 <= i < n implies label_of(#[trigger] syncs[i]) != label by {
            if i < front.len() {
                assert(front[i] == syncs[i]);
            }
        }
    }
}

/// The group with the given label, its remote, and the directory of its index,
/// if the first two are configured.
pub fn resolve<'a>(st: &'a DaemonState, label: &str) -> (out: Option<
    (&'a Sync, &'a Remote, &'a str),
>)
    ensures
        ({
            let syncs = st.config.syncs@;
            let i = group_index(syncs, label@);
            match out {
                Some((s, r, dir)) => i < syncs.len() && *s == syncs[i] && label_of(*s) == label@
                    && remote_of(st.config, *s) == Some(*r) && dir@ == st.paths.state@,
                None => i == syncs.len() || remote_of(st.config, syncs[i]) is None,
            }
        }),
{
    let config = &st.config;
    let ghost syncs = config.syncs@;
    let mut i: usize = 0;
    while i < config.syncs.len()
        invariant
            i <= config.syncs@.len(),
            *config == st.config,
            syncs == config.syncs@,
            forall|j: int| 0 <= j < i ==> label_of(#[trigger] syncs[j]) != label@,
        decreases config.syncs.len() - i,
    {
        let s = &config.syncs[i];
        let l = group_label(s);
        if same(l.as_str(), label) {
            proof {
                lemma_group_index(syncs, label@);
                let k = group_index(syncs, label@);
                if k > i {
                    assert(label_of(syncs[i as int]) != label@);
                }
                if k < i {
                    assert(label_of(syncs[k]) != label@);
                }
            }
            return match remote_for(config, s) {
                Some(r) => Some((s, r, st.paths.state.as_str())),
                None => None,
            };
        }
        i = i + 1;
    }
    proof {
        lemma_group_index(syncs, label@);
        let k = group_index(syncs, label@);
        if k < syncs.len() {
            assert(label_of(syncs[k]) != label@);
        }
    }
    None
}

/// Why the daemon has nothing to do.
#[derive(Debug)]
pub enum Idle {
    /// No groups are configured.
    NoGroups,
    /// No group belongs to this profile.
    NoneActive(String),
}

/// Why the daemon has nothing to do, if so.
pub fn idle_reason(st: &DaemonState) -> (out: Option<Idle>)
    ensures
        ({
            let config = st.config;
            let labels = labels_of(
                config.syncs@,
                text_opt(config.daemon.profile),
                SyncTarget::All,
            );
            match out {
                None => labels.len() > 0,
                Some(Idle::NoGroups) => config.syncs@.len() == 0,
                Some(Idle::NoneActive(p)) => labels.len() == 0 && config.syncs@.len() > 0 && p@
                    == (match config.daemon.profile {
                    Some(q) => q@,
                    None => "default"@,
                }),
            }
        }),
{
    let config = &st.config;
    let labels = active_labels(st);
    assert(texts(labels@).len() == labels@.len());
    if labels.len() > 0 {
        None
    } else if config.syncs.len() == 0 {
        Some(Idle::NoGroups)
    } else {
        match &config.daemon.profile {
            Some(p) => Some(Idle::NoneActive(p.clone())),
            None => Some(Idle::NoneActive("default".to_string())),
        }
    }
}

// ---------------------------------------------------------------------------
// Triggers
// ---------------------------------------------------------------------------

/// What triggers the sync of a group.
#[derive(Debug)]
pub struct TriggerPlan {
    /// Sync on this interval.
    pub timer: Option<Span>,
    /// Watch the local root with this debounce.
    pub watch_local: Option<Span>,
    /// Watch this directory of the remote with this debounce.
    pub watch_remote: Option<(String, Span)>,
    /// Poll the remote on this interval.
    pub pull: Option<Span>,
    /// Whether a pull interval is set but ignored, because the remote is watched.
    pub pull_ignored: bool,
    /// Whether empty directories are to be handled, but the remote is a git
    /// repository, which cannot store them.
    pub empty_dirs_ignored: bool,
}

/// Whether a length of time is none at all.
pub open spec fn is_none_at_all(d: Span) -> bool {
    d.secs == 0 && d.nanos == 0
}

/// The debounce of a group.
pub open spec fn debounce_of(config: Config, sync: Sync) -> Span {
    match sync.debounce {
        Some(d) => d,
        None => config.daemon.debounce,
    }
}

/// Whether the remote side of a group is watched: it is asked for, and the remote
/// is a local directory.
pub open spec fn remote_watched(config: Config, sync: Sync) -> bool {
    sync.trigger == Trigger::WatchBoth && remote_of(config, sync) is Some && remote_of(
        config,
        sync,
    ).unwrap().backend == RemoteKind::Local
}

/// Whether a pull interval is set, and not to zero.
pub open spec fn pulls_periodically(config: Config, sync: Sync) -> bool {
    pull_interval_of(config, sync) matches Some(d) && !is_none_at_all(d)
}

/// Whether `plan` is what triggers the sync of a group.
pub open spec fn is_plan(config: Config, sync: Sync, plan: TriggerPlan) -> bool {
    &&& plan.timer == (if sync.trigger == Trigger::Timer {
        Some(
            match sync.interval {
                Some(d) => d,
                None => config.daemon.interval,
            },
        )
    } else {
        None
    })
    &&& plan.watch_local == (if sync.trigger.watches() {
        Some(debounce_of(config, sync))
    } else {
        None
    })
    &&& match plan.watch_remote {
        Some((dir, debounce)) => remote_watched(config, sync) && debounce == debounce_of(
            config,
            sync,
        ) && dir@ == under(remote_of(config, sync).unwrap().url@, sync.remote_path@),
        None => !remote_watched(config, sync),
    }
    &&& plan.pull == (if pulls_periodically(config, sync) && !remote_watched(config, sync) {
        pull_interval_of(config, sync)
    } else {
        None
    })
    &&& plan.pull_ignored == (pulls_periodically(config, sync) && remote_watched(config, sync))
    &&& plan.empty_dirs_ignored == (empty_dirs_of(config, sync) != EmptyDirMode::Ignore && (
    remote_of(config, sync) matches Some(r) && r.backend == RemoteKind::Git))
}

/// What triggers the sync of a group. A poll of the remote is independent of the
/// trigger; it is disabled when unset or zero, and skipped when the remote is
/// already watched live.
pub fn plan_triggers(config: &Config, sync: &Sync) -> (out: TriggerPlan)
    ensures
        is_plan(*config, *sync, out),
{
    let debounce = resolve_debounce(config, sync);
    let remote = remote_for(config, sync);
    let timer = match sync.trigger {
        Trigger::Timer => Some(sync.effective_interval(config.daemon.interval)),
        _ => None,
    };
    let watch_local = match sync.trigger {
        Trigger::Watch | Trigger::WatchBoth => Some(debounce),
        _ => None,
    };
    let watch_remote = match (sync.trigger, remote) {
        (Trigger::WatchBoth, Some(r)) => if r.backend == RemoteKind::Local {
            Some((base_path(r, sync), debounce))
        } else {
            None
        },
        _ => None,
    };
    let interval = resolve_pull_interval(config, sync);
    let periodic = match &interval {
        Some(d) => !d.is_zero(),
        None => false,
    };
    let watched = watch_remote.is_some();
    let git = match remote {
        Some(r) => r.backend == RemoteKind::Git,
        None => false,
    };
    TriggerPlan {
        timer,
        watch_local,
        watch_remote,
        pull: if periodic && !watched {
            interval
        } else {
            None
        },
        pull_ignored: periodic && watched,
        empty_dirs_ignored: resolve_empty_dirs(config, sync) != EmptyDirMode::Ignore && git,
    }
}

/// The triggers of one of the groups that the daemon runs.
#[derive(Debug)]
pub struct GroupTriggers {
    /// The label of the group.
    pub label: String,
    /// The local root of the group.
    pub root: String,
    /// What triggers its sync.
    pub plan: TriggerPlan,
}

/// The groups of a profile, in order.
pub open spec fn active_groups(syncs: Seq<Sync>, profile: Option<Seq<char>>) -> Seq<Sync>
    decreases syncs.len(),
{
    if syncs.len() == 0 {
        seq![]
    } else if runs(syncs.last(), profile) {
        active_groups(syncs.drop_last(), profile).push(syncs.last())
    } else {
        active_groups(syncs.drop_last(), profile)
    }
}

/// Whether `t` are the triggers of a group.
pub open spec fn are_triggers(config: Config, sync: Sync, t: GroupTriggers) -> bool {
    t.label@ == label_of(sync) && t.root@ == sync.local@ && is_plan(config, sync, t.plan)
}

/// The triggers of every group that the daemon runs, in order.
pub fn triggers_for(st: &DaemonState) -> (out: Vec<GroupTriggers>)
    ensures
        ({
            let groups = active_groups(st.config.syncs@, text_opt(st.config.daemon.profile));
            out@.len() == groups.len() && forall|i: int|
                0 <= i < groups.len() ==> are_triggers(st.config, groups[i], #[trigger] out@[i])
        }),
{
    let config = &st.config;
    let profile = as_slice(&config.daemon.profile);
    let ghost syncs = config.syncs@;
    let mut out: Vec<GroupTriggers> = Vec::new();
    let mut i: usize = 0;
    assert(syncs.take(0) =~= Seq::<Sync>::empty());
    while i < config.syncs.len()
        invariant
            i <= config.syncs@.len(),
            *config == st.config,
            syncs == config.syncs@,
            str_opt(profile) == text_opt(config.daemon.profile),
            out@.len() == active_groups(syncs.take(i as int), str_opt(profile)).len(),
            forall|j: int|
                0 <= j < out@.len() ==> are_triggers(
                    *config,
                    active_groups(syncs.take(i as int), str_opt(profile))[j],
                    #[trigger] out@[j],
                ),
        decreases config.syncs.len() - i,
    {
        let s = &config.syncs[i];
        assert(syncs.take(i + 1).drop_last() =~= syncs.take(i as int));
        assert(syncs.take(i + 1).last() == *s);
        if is_active(s, profile) {
            let t = GroupTriggers {
                label: group_label(s),
                root: s.local.clone(),
                plan: plan_triggers(config, s),
            };
            assert(are_triggers(*config, *s, t));
            out.push(t);
        }
        i = i + 1;
    }
    assert(syncs.take(syncs.len() as int) =~= syncs);
    out
}

/// The groups with triggers are those that the daemon runs: their labels are the
/// labels of the groups of the profile.
pub proof fn law_every_active_group_has_triggers(
    syncs: Seq<Sync>,
    profile: Option<Seq<char>>,
    i: int,
)
    requires
        0 <= i < active_groups(syncs, profile).len(),
    ensures
        active_groups(syncs, profile).len() == labels_of(syncs, profile, SyncTarget::All).len(),
        label_of(active_groups(syncs, profile)[i]) == labels_of(
            syncs,
            profile,
            SyncTarget::All,
        )[i],
        runs(active_groups(syncs, profile)[i], profile),
        syncs.contains(active_groups(syncs, profile)[i]),
    decreases syncs.len(),
{
    lemma_as_many(syncs, profile);
    lemma_as_many(syncs.drop_last(), profile);
    let front = active_groups(syncs.drop_last(), profile);
    if i < front.len() {
        law_every_active_group_has_triggers(syncs.drop_last(), profile, i);
        let g = front[i];
        let k = syncs.drop_last().index_of(g);
        assert(0 <= k < syncs.drop_last().len() && syncs.drop_last()[k] == g);
        assert(syncs[k] == g);
    } else {
        assert(syncs[syncs.len() - 1] == active_groups(syncs, profile)[i]);
    }
}

proof fn lemma_as_many(syncs: Seq<Sync>, profile: Option<Seq<char>>)
    ensures
        active_groups(syncs, profile).len() == labels_of(syncs, profile, SyncTarget::All).len(),
    decreases syncs.len(),
{
    if syncs.len() > 0 {
        lemma_as_many(syncs.drop_last(), profile);
    }
}

// ---------------------------------------------------------------------------
// The job queue
// ---------------------------------------------------------------------------

/// A queued sync.
#[derive(Debug)]
pub struct QueuedJob {
    /// The label of the group.
    pub label: String,
    /// Whether only remote changes are to be applied.
    pub pull_only: bool,
}

/// The syncs that are waiting, in the order in which they were asked for. A group
/// waits at most once: a full sync supersedes a queued pull-only job for the same
/// group, so background pulls never mask a real two-way run.
#[derive(Debug)]
pub struct JobQueue {
    jobs: Vec<QueuedJob>,
}

/// The label and kind of each job.
pub open spec fn queue_view(v: Seq<QueuedJob>) -> Seq<(Seq<char>, bool)> {
    v.map_values(|j: QueuedJob| (j.label@, j.pull_only))
}

/// The index of the job of a group, or the number of jobs.
pub open spec fn place_in(q: Seq<(Seq<char>, bool)>, label: Seq<char>) -> int
    decreases q.len(),
{
    if q.len() == 0 {
        0
    } else {
        let front = place_in(q.drop_last(), label);
        if front < q.len() - 1 {
            front
        } else if q.last().0 == label {
            q.len() - 1
        } else {
            q.len() as int
        }
    }
}

/// The queue with a job asked for.
pub open spec fn enqueued(q: Seq<(Seq<char>, bool)>, label: Seq<char>, pull_only: bool) -> Seq<
    (Seq<char>, bool),
> {
    let i = place_in(q, label);
    if i < q.len() {
        q.update(i, (label, q[i].1 && pull_only))
    } else {
        q.push((label, pull_only))
    }
}

/// Whether no group waits twice.
pub open spec fn waits_once(q: Seq<(Seq<char>, bool)>) -> bool {
    forall|i: int, j: int| 0 <= i < j < q.len() ==> (#[trigger] q[i]).0 != (#[trigger] q[j]).0
}

proof fn lemma_place_in(q: Seq<(Seq<char>, bool)>, label: Seq<char>)
    ensures
        0 <= place_in(q, label) <= q.len(),
        place_in(q, label) < q.len() ==> q[place_in(q, label)].0 == label,
        forall|i: int| 0 <= i < place_in(q, label) ==> (#[trigger] q[i]).0 != label,
    decreases q.len(),
{
    if q.len() > 0 {
        let front = q.drop_last();
        lemma_place_in(front, label);
        let n = place_in(q, label);
        assert forall|i: int| 0 <= i < n implies (#[trigger] q[i]).0 != label by {
            if i < front.len() {
                assert(front[i] == q[i]);
            }
        }
    }
}

impl View for JobQueue {
    type V = Seq<(Seq<char>, bool)>;

    closed spec fn view(&self) -> Seq<(Seq<char>, bool)> {
        queue_view(self.jobs@)
    }
}

impl JobQueue {
    /// An empty queue.
    pub fn new() -> (out: JobQueue)
        ensures
            out@ == Seq::<(Seq<char>, bool)>::empty(),
    {
        let out = JobQueue { jobs: Vec::new() };
        assert(out@ =~= Seq::<(Seq<char>, bool)>::empty());
        out
    }

    /// Queue a full sync (applies both local and remote changes, per the group's
    /// scope). Says whether the group was not waiting yet.
    pub fn submit(&mut self, label: &str) -> (out: bool)
        ensures
            final(self)@ == enqueued(old(self)@, label@, false),
            out == (place_in(old(self)@, label@) == old(self)@.len()),
    {
        self.enqueue(label, false)
    }

    /// Queue a pull-only run (used by the periodic `pull_interval` trigger). Says
    /// whether the group was not waiting yet.
    pub fn submit_pull(&mut self, label: &str) -> (out: bool)
        ensures
            final(self)@ == enqueued(old(self)@, label@, true),
            out == (place_in(old(self)@, label@) == old(self)@.len()),
    {
        self.enqueue(label, true)
    }

    fn enqueue(&mut self, label: &str, pull_only: bool) -> (out: bool)
        ensures
            final(self)@ == enqueued(old(self)@, label@, pull_only),
            out == (place_in(old(self)@, label@) == old(self)@.len()),
    {
        let ghost q = self@;
        let mut i: usize = 0;
        while i < self.jobs.len() && !same(self.jobs[i].label.as_str(), label)
            invariant
                i <= self.jobs@.len(),
                q == self@,
                self@ == old(self)@,
                forall|j: int| 0 <= j < i ==> (#[trigger] q[j]).0 != label@,
            decreases self.jobs.len() - i,
        {
            assert(q[i as int].0 == self.jobs@[i as int].label@);
            i = i + 1;
        }
        proof {
            lemma_place_in(q, label@);
            let k = place_in(q, label@);
            if i < q.len() {
                assert(q[i as int].0 == label@);
                if k > i {
                    assert(q[i as int].0 != label@);
                }
            }
            if k < i {
                assert(q[k].0 != label@);
            }
        }
        if i < self.jobs.len() {
            // Already queued: upgrade a pull-only job to a full sync if needed.
            if !pull_only {
                self.jobs[i].pull_only = false;
            }
            assert(self@ =~= enqueued(q, label@, pull_only));
            false
        } else {
            self.jobs.push(QueuedJob { label: label.to_string(), pull_only });
            assert(self@ =~= enqueued(q, label@, pull_only));
            true
        }
    }

    /// Takes the next job out of the queue.
    pub fn take(&mut self) -> (out: Option<QueuedJob>)
        ensures
            match out {
                Some(job) => old(self)@.len() > 0 && (job.label@, job.pull_only) == old(self)@[0]
                    && final(self)@ == old(self)@.skip(1),
                None => old(self)@.len() == 0 && final(self)@ == old(self)@,
            },
    {
        if self.jobs.len() == 0 {
            return None;
        }
        let ghost q = self.jobs@;
        let job = self.jobs.remove(0);
        assert(self.jobs@ =~= q.skip(1));
        assert(self@ =~= old(self)@.skip(1));
        Some(job)
    }
}

/// Whether a group waits for a full sync.
pub open spec fn waits_fully(q: Seq<(Seq<char>, bool)>, label: Seq<char>) -> bool {
    place_in(q, label) < q.len() && !q[place_in(q, label)].1
}

/// A full sync that was asked for is not lost: the group waits for one, and goes on
/// waiting for one whatever is asked for afterwards.
pub proof fn law_full_sync_supersedes_pull(
    q: Seq<(Seq<char>, bool)>,
    label: Seq<char>,
    other: Seq<char>,
    pull_only: bool,
)
    ensures
        waits_fully(enqueued(q, label, false), label),
        waits_fully(q, label) ==> waits_fully(enqueued(q, other, pull_only), label),
{
    let once = enqueued(q, label, false);
    lemma_place_in(q, label);
    lemma_place_in(once, label);
    let i = place_in(q, label);
    assert(once[i].0 == label);
    let k = place_in(once, label);
    if k < i {
        assert(once[k].0 == q[k].0);
    }
    if k > i {
        assert(once[i].0 != label);
    }
    if waits_fully(q, label) {
        let then = enqueued(q, other, pull_only);
        lemma_place_in(q, other);
        lemma_place_in(then, label);
        let m = place_in(then, label);
        assert(then[i].0 == label);
        if m > i {
            assert(then[i].0 != label);
        }
        if m < i {
            assert(then[m].0 == q[m].0);
        }
    }
}

/// The queue after full syncs were asked for, one after the other.
pub open spec fn all_enqueued(q: Seq<(Seq<char>, bool)>, labels: Seq<Seq<char>>) -> Seq<
    (Seq<char>, bool),
>
    decreases labels.len(),
{
    if labels.len() == 0 {
        q
    } else {
        enqueued(all_enqueued(q, labels.drop_last()), labels.last(), false)
    }
}

/// Queues a sync of every group that the daemon runs, whatever its trigger is: what
/// the daemon does when it starts, and when it takes up a new configuration. Says how many groups were not waiting yet.
pub fn start_up(st: &DaemonState, queue: &mut JobQueue) -> (out: usize)
    ensures
        final(queue)@ == all_enqueued(
            old(queue)@,
            labels_of(st.config.syncs@, text_opt(st.config.daemon.profile), SyncTarget::All),
        ),
        out == final(queue)@.len() - old(queue)@.len(),
{
    let labels = active_labels(st);
    let ghost names = texts(labels@);
    let ghost q = queue@;
    let mut added: usize = 0;
    let mut i: usize = 0;
    assert(names.take(0) =~= Seq::<Seq<char>>::empty());
    while i < labels.len()
        invariant
            i <= labels@.len(),
            added <= i,
            names == texts(labels@),
            queue@ == all_enqueued(q, names.take(i as int)),
            added == queue@.len() - q.len(),
        decreases labels.len() - i,
    {
        assert(names[i as int] == labels@[i as int]@);
        assert(names.take(i + 1).drop_last() =~= names.take(i as int));
        assert(names.take(i + 1).last() == names[i as int]);
        proof {
            lemma_place_in(queue@, names[i as int]);
        }
        if queue.submit(labels[i].as_str()) {
            added = added + 1;
        }
        i = i + 1;
    }
    assert(names.take(names.len() as int) =~= names);
    added
}

/// When the daemon starts, and when it takes up a new configuration, every group that
/// it runs comes to wait for a full sync.
pub proof fn law_every_group_syncs_at_start(
    q: Seq<(Seq<char>, bool)>,
    labels: Seq<Seq<char>>,
    label: Seq<char>,
)
    requires
        labels.contains(label),
    ensures
        waits_fully(all_enqueued(q, labels), label),
    decreases labels.len(),
{
    let less = labels.drop_last();
    let k = labels.index_of(label);
    assert(0 <= k < labels.len() && labels[k] == label);
    if labels.last() == label {
        law_full_sync_supersedes_pull(all_enqueued(q, less), label, label, false);
    } else {
        assert(less[k] == label);
        law_every_group_syncs_at_start(q, less, label);
        law_full_sync_supersedes_pull(all_enqueued(q, less), label, labels.last(), false);
    }
}

/// No group waits twice, and the groups that wait keep their order.
pub proof fn law_queue_coalesces(q: Seq<(Seq<char>, bool)>, label: Seq<char>, pull_only: bool)
    requires
        waits_once(q),
    ensures
        waits_once(enqueued(q, label, pull_only)),
        forall|i: int|
            0 <= i < q.len() ==> (#[trigger] enqueued(q, label, pull_only)[i]).0 == q[i].0,
        enqueued(q, label, pull_only).len() <= q.len() + 1,
{
    lemma_place_in(q, label);
}

// ---------------------------------------------------------------------------
// Retries
// ---------------------------------------------------------------------------

/// How long to wait after the given attempt before the next one, in seconds; no
/// attempt follows the third.
pub open spec fn backoff(attempt: int) -> Option<u64> {
    if attempt == 0 {
        Some(2)
    } else if attempt == 1 {
        Some(5)
    } else {
        None
    }
}

/// What follows an attempt to run a sync.
#[derive(Debug, Clone, Copy, PartialEq, Eq, Structural)]
pub enum AfterAttempt {
    /// It succeeded, or the group is gone: turn to the next job.
    Stop,
    /// It failed: try again after this time.
    RetryIn(Span),
    /// It failed for the last time.
    GiveUp,
}

/// What follows the attempt number `attempt` (counted from 0) to run a sync.
pub fn after_attempt(attempt: usize, failed: bool) -> (out: AfterAttempt)
    ensures
        out == (if !failed {
            AfterAttempt::Stop
        } else {
            match backoff(attempt as int) {
                Some(secs) => AfterAttempt::RetryIn(Span { secs, nanos: 0 }),
                None => AfterAttempt::GiveUp,
            }
        }),
{
    if !failed {
        AfterAttempt::Stop
    } else if attempt == 0 {
        AfterAttempt::RetryIn(Span::from_secs(2))
    } else if attempt == 1 {
        AfterAttempt::RetryIn(Span::from_secs(5))
    } else {
        AfterAttempt::GiveUp
    }
}

// ---------------------------------------------------------------------------
// Status
// ---------------------------------------------------------------------------

/// How a run ended.
#[derive(Debug)]
pub enum RunEnd {
    /// It succeeded.
    Finished(SyncReport),
    /// It failed.
    Failed(Error),
    /// The task that ran it broke off.
    Lost(String),
}

/// What is told of the error of a run that ended so.
pub open spec fn end_error(end: RunEnd) -> Option<Seq<char>> {
    match end {
        RunEnd::Finished(_) => None,
        RunEnd::Failed(e) => Some(e.text()),
        RunEnd::Lost(e) => Some("sync task failed: "@ + e@),
    }
}

/// The outcome of a run of a group.
pub fn outcome_of(label: &str, end: &RunEnd) -> (out: GroupOutcome)
    ensures
        out.label@ == label@,
        text_opt(out.error) == end_error(*end),
        out.summary == (match *end {
            RunEnd::Finished(report) => Some(
                SyncSummary {
                    added: report.added.len(),
                    removed: report.removed.len(),
                    modified: report.modified.len(),
                    conflicted: report.conflicts.len(),
                },
            ),
            _ => None,
        }),
{
    let label = label.to_string();
    match end {
        RunEnd::Finished(report) => GroupOutcome {
            label,
            summary: Some(SyncSummary::from(report)),
            error: None,
        },
        RunEnd::Failed(e) => GroupOutcome { label, summary: None, error: Some(e.message()) },
        RunEnd::Lost(e) => GroupOutcome {
            label,
            summary: None,
            error: Some(cat("sync task failed: ", e.as_str())),
        },
    }
}

/// How a dry run ended.
#[derive(Debug)]
pub enum PlanEnd {
    /// The plan was made.
    Finished(SyncPlan),
    /// It could not be made.
    Failed(Error),
    /// The task that was to make it was lost.
    Lost(String),
}

/// What a dry run of a group comes to.
pub fn plan_outcome_of(label: &str, end: PlanEnd) -> (out: GroupPlan)
    ensures
        out.label@ == label@,
        out.plan == (match end {
            PlanEnd::Finished(plan) => Some(plan),
            _ => None,
        }),
        text_opt(out.error) == (match end {
            PlanEnd::Finished(_) => None,
            PlanEnd::Failed(e) => Some(e.text()),
            PlanEnd::Lost(e) => Some("plan task failed: "@ + e@),
        }),
{
    let label = label.to_string();
    match end {
        PlanEnd::Finished(plan) => GroupPlan { label, plan: Some(plan), error: None },
        PlanEnd::Failed(e) => GroupPlan { label, plan: None, error: Some(e.message()) },
        PlanEnd::Lost(e) => GroupPlan {
            label,
            plan: None,
            error: Some(cat("plan task failed: ", e.as_str())),
        },
    }
}

/// Records the outcome of a run that ended `now`.
pub fn record(st: &mut DaemonState, outcome: &GroupOutcome, now: u64)
    requires
        old(st).status.wf(),
    ensures
        final(st).config == old(st).config,
        final(st).profile == old(st).profile,
        final(st).paths == old(st).paths,
        final(st).status.wf(),
        final(st).status@.dom() == old(st).status@.dom().insert(outcome.label@),
        forall|l: Seq<char>|
            l != outcome.label@ && old(st).status@.dom().contains(l)
                ==> #[trigger] final(st).status@[l] == old(st).status@[l],
        ({
            let r = final(st).status@[outcome.label@];
            r.last_run == now && r.last_summary == outcome.summary && text_opt(r.last_error)
                == text_opt(outcome.error)
        }),
{
    let error = match &outcome.error {
        Some(e) => Some(e.clone()),
        None => None,
    };
    let r = RuntimeStatus { last_run: now, last_summary: outcome.summary, last_error: error };
    st.status.insert(outcome.label.clone(), r);
    assert(st.status@.dom() =~= old(st).status@.dom().insert(outcome.label@));
}

/// Whether `g` says of a group what its configuration and its recorded status say.
pub open spec fn reports(
    g: GroupStatus,
    sync: Sync,
    status: Map<Seq<char>, RuntimeStatus>,
) -> bool {
    &&& g.label@ == label_of(sync)
    &&& g.remote@ == sync.remote@
    &&& g.root@ == sync.local@
    &&& g.trigger@ == sync.trigger.label()
    &&& if status.dom().contains(label_of(sync)) {
        let r = status[label_of(sync)];
        g.last_run == Some(r.last_run) && g.last_summary == r.last_summary && text_opt(
            g.last_error,
        ) == text_opt(r.last_error)
    } else {
        g.last_run is None && g.last_summary is None && g.last_error is None
    }
}

/// The status of one group.
fn status_of(sync: &Sync, status: &Table<RuntimeStatus>) -> (out: GroupStatus)
    requires
        status.wf(),
    ensures
        reports(out, *sync, status@),
{
    let label = group_label(sync);
    let remote = sync.remote_id().to_string();
    let root = sync.local.clone();
    let trigger = sync.trigger.as_label().to_string();
    match status.get(label.as_str()) {
        Some(r) => GroupStatus {
            label,
            remote,
            root,
            trigger,
            last_run: Some(r.last_run),
            last_summary: r.last_summary,
            last_error: match &r.last_error {
                Some(e) => Some(e.clone()),
                None => None,
            },
        },
        None => GroupStatus {
            label,
            remote,
            root,
            trigger,
            last_run: None,
            last_summary: None,
            last_error: None,
        },
    }
}

/// The status of every group that the daemon runs, in order.
pub fn status_list(st: &DaemonState) -> (out: Vec<GroupStatus>)
    requires
        st.status.wf(),
    ensures
        ({
            let groups = active_groups(st.config.syncs@, text_opt(st.config.daemon.profile));
            &&& out@.len() == groups.len()
            &&& forall|i: int|
                0 <= i < groups.len() ==> reports(#[trigger] out@[i], groups[i], st.status@)
        }),
{
    let config = &st.config;
    let status = &st.status;
    let profile = as_slice(&config.daemon.profile);
    let ghost syncs = config.syncs@;
    let mut out: Vec<GroupStatus> = Vec::new();
    let mut i: usize = 0;
    assert(syncs.take(0) =~= Seq::<Sync>::empty());
    while i < config.syncs.len()
        invariant
            i <= config.syncs@.len(),
            status.wf(),
            syncs == config.syncs@,
            str_opt(profile) == text_opt(config.daemon.profile),
            ({
                let groups = active_groups(syncs.take(i as int), str_opt(profile));
                &&& out@.len() == groups.len()
                &&& forall|j: int|
                    0 <= j < groups.len() ==> reports(#[trigger] out@[j], groups[j], status@)
            }),
        decreases config.syncs.len() - i,
    {
        let s = &config.syncs[i];
        assert(syncs.take(i + 1).drop_last() =~= syncs.take(i as int));
        assert(syncs.take(i + 1).last() == *s);
        if is_active(s, profile) {
            out.push(status_of(s, status));
        }
        i = i + 1;
    }
    assert(syncs.take(syncs.len() as int) =~= syncs);
    out
}

// ---------------------------------------------------------------------------
// Messages
// ---------------------------------------------------------------------------

/// Takes up a configuration that was read anew, for the profile that the daemon was
/// started for, and queues a sync of every group that the daemon runs with it. One that
/// could not be read or is not valid leaves everything as it was. The answer says
/// which, with a message, and how many groups were not waiting yet.
pub fn reload(st: &mut DaemonState, queue: &mut JobQueue, loaded: Result<Config, Error>) -> (out: (
    bool,
    String,
    usize,
))
    ensures
        final(st).profile == old(st).profile,
        final(st).paths == old(st).paths,
        final(st).status == old(st).status,
        out.2 == final(queue)@.len() - old(queue)@.len(),
        match loaded {
            Ok(config) => out.0 && is_for_profile(
                config,
                text_opt(old(st).profile),
                final(st).config,
            ) && final(queue)@ == all_enqueued(
                old(queue)@,
                labels_of(
                    final(st).config.syncs@,
                    text_opt(final(st).config.daemon.profile),
                    SyncTarget::All,
                ),
            ) && out.1@ == "reloaded "@ + decimal(config.syncs@.len()) + " sync group(s)"@,
            Err(e) => !out.0 && final(st).config == old(st).config && final(queue)@ == old(queue)@
                && out.1@ == "reload failed, keeping current config: "@ + e.text(),
        },
{
    match loaded {
        Ok(config) => {
            let groups = count(config.syncs.len());
            let config = with_profile(config, as_slice(&st.profile));
            st.config = config;
            let waiting = start_up(st, queue);
            (true, cat3("reloaded ", groups.as_str(), " sync group(s)"), waiting)
        },
        Err(e) => (
            false,
            cat("reload failed, keeping current config: ", e.message().as_str()),
            0,
        ),
    }
}

/// What a request asks of the daemon.
#[derive(Debug)]
pub enum Task {
    /// Answer this.
    Answer(Response),
    /// Run these groups, one after the other, and answer what came of it.
    Run(Vec<String>),
    /// Plan these groups and answer the plans.
    Plan(Vec<String>),
    /// Read the configuration anew and answer what came of it.
    Reload,
}

/// What a request asks of the daemon. A target that picks no group is answered by
/// an error.
pub fn task_for(st: &DaemonState, request: &Request) -> (out: Task)
    requires
        st.status.wf(),
    ensures
        ({
            let profile = text_opt(st.config.daemon.profile);
            match *request {
                Request::Status => match out {
                    Task::Answer(Response::Status(list)) => {
                        let groups = active_groups(st.config.syncs@, profile);
                        &&& list@.len() == groups.len()
                        &&& forall|i: int|
                            0 <= i < groups.len() ==> reports(
                                #[trigger] list@[i],
                                groups[i],
                                st.status@,
                            )
                    },
                    _ => false,
                },
                Request::Sync(target) => {
                    let labels = labels_of(st.config.syncs@, profile, target);
                    if labels.len() == 0 {
                        out matches Task::Answer(Response::Error(e)) && e@
                            == "no matching sync groups"@
                    } else {
                        out matches Task::Run(list) && texts(list@) == labels
                    }
                },
                Request::Plan(target) => {
                    let labels = labels_of(st.config.syncs@, profile, target);
                    if labels.len() == 0 {
                        out matches Task::Answer(Response::Error(e)) && e@
                            == "no matching sync groups"@
                    } else {
                        out matches Task::Plan(list) && texts(list@) == labels
                    }
                },
                Request::Reload => out is Reload,
            }
        }),
{
    match request {
        Request::Status => Task::Answer(Response::Status(status_list(st))),
        Request::Sync(target) => {
            let labels = labels_for_target(st, target);
            assert(texts(labels@).len() == labels@.len());
            if labels.len() == 0 {
                Task::Answer(Response::Error("no matching sync groups".to_string()))
            } else {
                Task::Run(labels)
            }
        },
        Request::Plan(target) => {
            let labels = labels_for_target(st, target);
            assert(texts(labels@).len() == labels@.len());
            if labels.len() == 0 {
                Task::Answer(Response::Error("no matching sync groups".to_string()))
            } else {
                Task::Plan(labels)
            }
        },
        Request::Reload => Task::Reload,
    }
}

/// What a line that is no request is answered.
pub fn bad_request(error: &str) -> (out: Response)
    ensures
        out matches Response::Error(e) && e@ == "bad request: "@ + error@,
{
    Response::Error(cat("bad request: ", error))
}

/// Why a directory is not watched.
pub open spec fn unwatched(role: Seq<char>, path: Seq<char>, there: bool, cause: Seq<char>) -> Seq<
    char,
> {
    let start = "not watching "@ + role + " directory `"@ + path + "`: "@;
    if there {
        start + cause
    } else {
        start
            + "it does not exist. Create it (or fix the config) and reload; this group will not sync from that side until then"@
    }
}

/// Why a directory is not watched. `role` says which side it belongs to, `there`
/// whether it exists.
pub fn unwatched_message(role: &str, path: &str, there: bool, cause: &str) -> (out: String)
    ensures
        out@ == unwatched(role@, path@, there, cause@),
{
    let start = cat5("not watching ", role, " directory `", path, "`: ");
    if there {
        cat(start.as_str(), cause)
    } else {
        cat(
            start.as_str(),
            "it does not exist. Create it (or fix the config) and reload; this group will not sync from that side until then",
        )
    }
}

/// The verb for a run: a poll of the remote only brings changes in.
pub fn run_verb(remote_refresh: bool) -> (out: &'static str)
    ensures
        out@ == (if remote_refresh {
            "pulled"@
        } else {
            "synced"@
        }),
{
    if remote_refresh {
        "pulled"
    } else {
        "synced"
    }
}

/// The logging directive for a log level: chatty dependencies are kept quiet
/// except at `trace`, whatever the case of its letters.
pub fn daemon_log_directive(level: &str) -> (out: String)
    ensures
        out@ == (if crate::text::lower(level@) == "trace"@ {
            level@
        } else {
            level@ + ",globset=info"@
        }),
{
    let v = crate::text::chars_of(level);
    let low = crate::text::string_of(crate::text::lowered(v.as_slice()).as_slice());
    if same(low.as_str(), "trace") {
        level.to_string()
    } else {
        cat(level, ",globset=info")
    }
}

// ---------------------------------------------------------------------------
// Laws
// ---------------------------------------------------------------------------

/// In a valid configuration the label of a group that the daemon runs picks that
/// group alone, unless another group has the label for its id.
pub proof fn law_label_picks_one_group(config: Config, i: int, j: int, name: String)
    requires
        crate::config::problem(config) is None,
        0 <= i < config.syncs@.len(),
        0 <= j < config.syncs@.len(),
        i != j,
        name@ == label_of(config.syncs@[i]),
        text_opt(config.syncs@[j].id) != Some(name@),
    ensures
        picks(SyncTarget::Group(name), config.syncs@[i]),
        !picks(SyncTarget::Group(name), config.syncs@[j]),
{
    if i < j {
        crate::config::law_valid_groups_are_distinct(config, i, j);
    } else {
        crate::config::law_valid_groups_are_distinct(config, j, i);
    }
}

/// Everything that a target picks, `All` picks too, and the daemon runs it.
pub proof fn law_targets_stay_in_profile(
    syncs: Seq<Sync>,
    profile: Option<Seq<char>>,
    target: SyncTarget,
    label: Seq<char>,
)
    requires
        labels_of(syncs, profile, target).contains(label),
    ensures
        labels_of(syncs, profile, SyncTarget::All).contains(label),
        exists|i: int|
            0 <= i < syncs.len() && runs(#[trigger] syncs[i], profile) && label_of(syncs[i])
                == label,
    decreases syncs.len(),
{
    let all = labels_of(syncs, profile, target);
    let front = labels_of(syncs.drop_last(), profile, target);
    let every = labels_of(syncs, profile, SyncTarget::All);
    let every_front = labels_of(syncs.drop_last(), profile, SyncTarget::All);
    let k = all.index_of(label);
    assert(0 <= k < all.len() && all[k] == label);
    if k < front.len() {
        assert(front[k] == label);
        law_targets_stay_in_profile(syncs.drop_last(), profile, target, label);
        let m = every_front.index_of(label);
        assert(0 <= m < every_front.len() && every_front[m] == label);
        assert(every[m] == label);
        let i = choose|i: int|
            0 <= i < syncs.drop_last().len() && runs(#[trigger] syncs.drop_last()[i], profile)
                && label_of(syncs.drop_last()[i]) == label;
        assert(syncs[i] == syncs.drop_last()[i]);
    } else {
        assert(every[every_front.len() as int] == label);
        assert(runs(syncs[syncs.len() - 1], profile));
    }
}

/// A group is served by the first remote that has the id it names, and by none where
/// no remote has it.
pub proof fn law_first_remote_serves(config: Config, sync: Sync, i: int)
    requires
        0 <= i <= config.remotes@.len(),
        forall|j: int| 0 <= j < i ==> (#[trigger] config.remotes@[j]).id@ != sync.remote@,
        i < config.remotes@.len() ==> config.remotes@[i].id@ == sync.remote@,
    ensures
        i < config.remotes@.len() ==> remote_of(config, sync) == Some(config.remotes@[i]),
        i == config.remotes@.len() ==> remote_of(config, sync) is None,
{
    lemma_remote_index(config.remotes@, sync.remote@);
    let n = remote_index(config.remotes@, sync.remote@);
    if n < i {
        assert(config.remotes@[n].id@ != sync.remote@);
    }
    if i < n {
        assert(config.remotes@[i].id@ != sync.remote@);
    }
}

/// A setting comes from the most specific level that has it: the group, its remote, the
/// daemon. A broader level never shows through, not even where the narrower one says
/// zero.
pub proof fn law_nearest_level_decides(config: Config, sync: Sync, i: int)
    requires
        0 <= i < config.remotes@.len(),
        config.remotes@[i].id@ == sync.remote@,
        forall|j: int| 0 <= j < i ==> (#[trigger] config.remotes@[j]).id@ != sync.remote@,
    ensures
        ({
            let remote = config.remotes@[i];
            &&& sync.pull_interval is Some ==> pull_interval_of(config, sync) == sync.pull_interval
            &&& sync.pull_interval is None && remote.pull_interval is Some ==> pull_interval_of(
                config,
                sync,
            ) == remote.pull_interval
            &&& sync.pull_interval is None && remote.pull_interval is None ==> pull_interval_of(
                config,
                sync,
            ) == config.daemon.pull_interval
            &&& sync.empty_dirs matches Some(m) ==> empty_dirs_of(config, sync) == m
            &&& sync.empty_dirs is None ==> (remote.empty_dirs matches Some(m) ==> empty_dirs_of(
                config,
                sync,
            ) == m)
            &&& sync.empty_dirs is None && remote.empty_dirs is None ==> empty_dirs_of(config, sync)
                == config.daemon.empty_dirs
            &&& sync.max_file_size matches Some(n) ==> max_file_size_of(config, sync) == n
            &&& sync.max_file_size is None ==> (remote.max_file_size matches Some(n)
                ==> max_file_size_of(config, sync) == n)
            &&& sync.max_file_size is None && remote.max_file_size is None ==> max_file_size_of(
                config,
                sync,
            ) == config.daemon.max_file_size
        }),
{
    law_first_remote_serves(config, sync, i);
}

/// Whatever triggers a group, its remote is polled wherever an interval for that is set:
/// two groups that differ in their trigger alone are polled alike, unless one of them
/// watches both sides.
pub proof fn law_polling_is_independent_of_the_trigger(
    config: Config,
    a: Sync,
    b: Sync,
    plan_a: TriggerPlan,
    plan_b: TriggerPlan,
)
    requires
        b == (Sync { trigger: b.trigger, ..a }),
        a.trigger != Trigger::WatchBoth,
        b.trigger != Trigger::WatchBoth,
        is_plan(config, a, plan_a),
        is_plan(config, b, plan_b),
    ensures
        plan_a.pull == plan_b.pull,
        !plan_a.pull_ignored,
        plan_a.watch_remote is None,
        plan_a.empty_dirs_ignored == plan_b.empty_dirs_ignored,
{
    assert(remote_of(config, a) == remote_of(config, b));
}

/// A group whose poll interval is set, and not to zero, is polled on that interval,
/// unless its remote side is watched; one whose interval is zero or not set is not.
pub proof fn law_set_interval_is_polled(config: Config, sync: Sync, i: int, plan: TriggerPlan)
    requires
        is_plan(config, sync, plan),
        0 <= i < config.remotes@.len(),
        config.remotes@[i].id@ == sync.remote@,
        forall|j: int| 0 <= j < i ==> (#[trigger] config.remotes@[j]).id@ != sync.remote@,
    ensures
        ({
            let interval = match (sync.pull_interval, config.remotes@[i].pull_interval) {
                (Some(d), _) => Some(d),
                (None, Some(d)) => Some(d),
                (None, None) => config.daemon.pull_interval,
            };
            match interval {
                Some(d) => if d.secs == 0 && d.nanos == 0 {
                    plan.pull is None && !plan.pull_ignored
                } else {
                    &&& plan.pull == Some(d) || plan.watch_remote is Some
                    &&& plan.pull is Some <==> plan.watch_remote is None
                    &&& plan.pull_ignored <==> plan.watch_remote is Some
                },
                None => plan.pull is None && !plan.pull_ignored,
            }
        }),
{
    law_first_remote_serves(config, sync, i);
}

/// A group that is to be watched is watched, one that is to run on a timer has one, and
/// one that is to be run by hand has neither. The remote side is watched exactly where
/// both sides are to be watched and the remote is a local directory.
pub proof fn law_trigger_is_planned(config: Config, sync: Sync, i: int, plan: TriggerPlan)
    requires
        is_plan(config, sync, plan),
        0 <= i < config.remotes@.len(),
        config.remotes@[i].id@ == sync.remote@,
        forall|j: int| 0 <= j < i ==> (#[trigger] config.remotes@[j]).id@ != sync.remote@,
    ensures
        plan.watch_local is Some <==> (sync.trigger == Trigger::Watch || sync.trigger
            == Trigger::WatchBoth),
        plan.timer is Some <==> sync.trigger == Trigger::Timer,
        plan.watch_remote is Some <==> (sync.trigger == Trigger::WatchBoth
            && config.remotes@[i].backend == RemoteKind::Local),
        plan.watch_local matches Some(d) ==> (match sync.debounce {
            Some(own) => d == own,
            None => d == config.daemon.debounce,
        }),
        plan.timer matches Some(d) ==> (match sync.interval {
            Some(own) => d == own,
            None => d == config.daemon.interval,
        }),
        plan.watch_remote matches Some(w) ==> plan.watch_local == Some(w.1) && w.0@ == under(
            config.remotes@[i].url@,
            sync.remote_path@,
        ),
        plan.empty_dirs_ignored ==> config.remotes@[i].backend == RemoteKind::Git,
        config.remotes@[i].backend == RemoteKind::Git && !plan.empty_dirs_ignored ==> empty_dirs_of(
            config,
            sync,
        ) == EmptyDirMode::Ignore,
{
    law_first_remote_serves(config, sync, i);
}

/// Whether a group belongs to a profile.
pub open spec fn belongs(sync: Sync, profile: Option<Seq<char>>) -> bool {
    profile matches Some(p) ==> exists|k: int|
        0 <= k < sync.profiles@.len() && (#[trigger] sync.profiles@[k])@ == p
}

proof fn lemma_belongs(sync: Sync, profile: Option<Seq<char>>)
    ensures
        runs(sync, profile) <==> belongs(sync, profile),
{
    if let Some(p) = profile {
        let names = texts(sync.profiles@);
        if names.contains(p) {
            let k = names.index_of(p);
            assert(0 <= k < names.len() && names[k] == p);
            assert(sync.profiles@[k]@ == p);
        }
        if belongs(sync, profile) {
            let k = choose|k: int|
                0 <= k < sync.profiles@.len() && (#[trigger] sync.profiles@[k])@ == p;
            assert(names[k] == p);
        }
    }
}

/// Every group of the profile that a target names is synced: no group that belongs to
/// the profile is left out, and none is where there is no profile.
pub proof fn law_no_group_is_left_out(
    syncs: Seq<Sync>,
    profile: Option<Seq<char>>,
    target: SyncTarget,
    i: int,
)
    requires
        0 <= i < syncs.len(),
        belongs(syncs[i], profile),
        target matches SyncTarget::Group(name) ==> label_of(syncs[i]) == name@ || (
        syncs[i].id matches Some(id) && id@ == name@),
    ensures
        labels_of(syncs, profile, target).contains(label_of(syncs[i])),
        active_groups(syncs, profile).contains(syncs[i]),
    decreases syncs.len(),
{
    let all = labels_of(syncs, profile, target);
    let front = labels_of(syncs.drop_last(), profile, target);
    let groups = active_groups(syncs, profile);
    let fewer = active_groups(syncs.drop_last(), profile);
    lemma_belongs(syncs[i], profile);
    if i < syncs.len() - 1 {
        law_no_group_is_left_out(syncs.drop_last(), profile, target, i);
        let k = front.index_of(label_of(syncs[i]));
        assert(0 <= k < front.len() && front[k] == label_of(syncs[i]));
        assert(all[k] == front[k]);
        let m = fewer.index_of(syncs[i]);
        assert(0 <= m < fewer.len() && fewer[m] == syncs[i]);
        assert(groups[m] == fewer[m]);
    } else {
        assert(all[front.len() as int] == label_of(syncs[i]));
        assert(groups[fewer.len() as int] == syncs[i]);
    }
}

/// Nothing else is synced: a label that a target picks is that of a group that belongs
/// to the profile and that the target names.
pub proof fn law_nothing_else_is_synced(
    syncs: Seq<Sync>,
    profile: Option<Seq<char>>,
    target: SyncTarget,
    label: Seq<char>,
)
    requires
        labels_of(syncs, profile, target).contains(label),
    ensures
        exists|i: int|
            0 <= i < syncs.len() && belongs(#[trigger] syncs[i], profile) && label_of(syncs[i])
                == label && (target matches SyncTarget::Group(name) ==> label == name@ || (
            syncs[i].id matches Some(id) && id@ == name@)),
    decreases syncs.len(),
{
    let all = labels_of(syncs, profile, target);
    let less = syncs.drop_last();
    let front = labels_of(less, profile, target);
    let k = all.index_of(label);
    assert(0 <= k < all.len() && all[k] == label);
    if k < front.len() {
        assert(front[k] == label);
        law_nothing_else_is_synced(less, profile, target, label);
        let i = choose|i: int|
            0 <= i < less.len() && belongs(#[trigger] less[i], profile) && label_of(less[i])
                == label && (target matches SyncTarget::Group(name) ==> label == name@ || (
            less[i].id matches Some(id) && id@ == name@));
        assert(syncs[i] == less[i]);
    } else {
        lemma_belongs(syncs.last(), profile);
        assert(syncs[syncs.len() - 1] == syncs.last());
    }
}

/// Groups are taken in the order of the configuration, each on its own: what is synced
/// of two lists, one after the other, is what is synced of the first and then of the
/// second.
pub proof fn law_groups_are_taken_in_order(
    first: Seq<Sync>,
    second: Seq<Sync>,
    profile: Option<Seq<char>>,
    target: SyncTarget,
)
    ensures
        labels_of(first + second, profile, target) == labels_of(first, profile, target)
            + labels_of(second, profile, target),
        active_groups(first + second, profile) == active_groups(first, profile) + active_groups(
            second,
            profile,
        ),
        labels_of(first, profile, target).len() <= first.len(),
    decreases first.len() + second.len(),
{
    let both = first + second;
    if second.len() == 0 {
        assert(both =~= first);
        if first.len() > 0 {
            law_groups_are_taken_in_order(first.drop_last(), second, profile, target);
        }
    } else {
        law_groups_are_taken_in_order(first, second.drop_last(), profile, target);
        assert(both.drop_last() =~= first + second.drop_last());
        assert(both.last() == second.last());
    }
    assert(labels_of(both, profile, target) =~= labels_of(first, profile, target) + labels_of(
        second,
        profile,
        target,
    ));
    assert(active_groups(both, profile) =~= active_groups(first, profile) + active_groups(
        second,
        profile,
    ));
}

/// A label leads to the first group that has it.
pub proof fn law_label_leads_to_its_group(syncs: Seq<Sync>, i: int, label: Seq<char>)
    requires
        0 <= i <= syncs.len(),
        i < syncs.len() ==> label_of(syncs[i]) == label,
        forall|j: int| 0 <= j < i ==> label_of(#[trigger] syncs[j]) != label,
    ensures
        group_index(syncs, label) == i,
{
    lemma_group_index(syncs, label);
    let n = group_index(syncs, label);
    if n < i {
        assert(label_of(syncs[n]) != label);
    }
    if i < n {
        assert(label_of(syncs[i]) != label);
    }
}

/// A sync that fails is tried again twice, after waits that grow, and then given up.
pub proof fn law_failures_are_retried_twice(attempt: int)
    requires
        attempt >= 0,
    ensures
        backoff(attempt) is Some <==> attempt < 2,
        backoff(0) matches Some(a) && a > 0 && (backoff(1) matches Some(b) && a < b),
{
}

/// Asking for a sync of a group makes it wait, once. A group that does not wait yet goes
/// to the end of the queue, as what it was asked for; one that waits keeps its place, and
/// its job stays a poll only if it was one and is asked for as one. No other job changes.
pub proof fn law_asking_makes_a_group_wait(
    q: Seq<(Seq<char>, bool)>,
    label: Seq<char>,
    pull_only: bool,
    i: int,
)
    requires
        0 <= i <= q.len(),
        i < q.len() ==> q[i].0 == label,
        forall|j: int| 0 <= j < i ==> (#[trigger] q[j]).0 != label,
    ensures
        ({
            let then = enqueued(q, label, pull_only);
            &&& i == q.len() ==> then == q.push((label, pull_only))
            &&& i < q.len() ==> then.len() == q.len() && then[i] == (label, q[i].1 && pull_only)
            &&& forall|j: int| 0 <= j < q.len() && j != i ==> #[trigger] then[j] == q[j]
            &&& (place_in(q, label) == q.len()) == (i == q.len())
        }),
{
    lemma_place_in(q, label);
    let n = place_in(q, label);
    if n < i {
        assert(q[n].0 != label);
    }
    if i < n {
        assert(q[i].0 != label);
    }
}

/// Queueing the groups of a configuration queues nothing else.
pub proof fn law_only_groups_are_queued(
    q: Seq<(Seq<char>, bool)>,
    labels: Seq<Seq<char>>,
    i: int,
)
    requires
        0 <= i < all_enqueued(q, labels).len(),
    ensures
        labels.contains(all_enqueued(q, labels)[i].0) || exists|j: int|
            0 <= j < q.len() && (#[trigger] q[j]).0 == all_enqueued(q, labels)[i].0,
    decreases labels.len(),
{
    if labels.len() > 0 {
        let less = labels.drop_last();
        let before = all_enqueued(q, less);
        let then = all_enqueued(q, labels);
        lemma_place_in(before, labels.last());
        if then[i].0 == labels.last() {
            assert(labels[labels.len() - 1] == labels.last());
        } else {
            assert(i < before.len() && before[i] == then[i]);
            law_only_groups_are_queued(q, less, i);
            if less.contains(then[i].0) {
                let k = less.index_of(then[i].0);
                assert(0 <= k < less.len() && less[k] == then[i].0);
                assert(labels[k] == then[i].0);
            }
        }
    } else {
        assert(q[i].0 == all_enqueued(q, labels)[i].0);
    }
}

/// The status of a group says what it is, and how its last run ended, if it has run.
pub proof fn law_status_tells_of_the_last_run(
    g: GroupStatus,
    sync: Sync,
    status: Map<Seq<char>, RuntimeStatus>,
)
    requires
        reports(g, sync, status),
    ensures
        g.label@ == label_of(sync) && g.remote@ == sync.remote@ && g.root@ == sync.local@,
        g.last_run is Some <==> status.dom().contains(label_of(sync)),
        status.dom().contains(label_of(sync)) ==> {
            let r = status[label_of(sync)];
            &&& g.last_run == Some(r.last_run)
            &&& g.last_summary == r.last_summary
            &&& g.last_error is Some <==> r.last_error is Some
            &&& r.last_error is Some ==> g.last_error.unwrap()@ == r.last_error.unwrap()@
        },
        !status.dom().contains(label_of(sync)) ==> g.last_summary is None && g.last_error is None,
{
}

/// A profile that the daemon was started for takes the place of the configured one, which
/// holds otherwise; nothing else of the configuration changes.
pub proof fn law_explicit_profile_wins(config: Config, profile: Option<Seq<char>>, out: Config)
    requires
        is_for_profile(config, profile, out),
    ensures
        out.remotes == config.remotes,
        out.syncs == config.syncs,
        profile matches Some(p) ==> (out.daemon.profile matches Some(q) && q@ == p),
        profile is None && config.daemon.profile is None ==> out.daemon.profile is None,
        profile is None ==> (config.daemon.profile matches Some(p) ==> (
        out.daemon.profile matches Some(q) && q@ == p@)),
        out.daemon.interval == config.daemon.interval,
        out.daemon.debounce == config.daemon.debounce,
        out.daemon.pull_interval == config.daemon.pull_interval,
        out.daemon.deletions == config.daemon.deletions,
        out.daemon.empty_dirs == config.daemon.empty_dirs,
        out.daemon.max_file_size == config.daemon.max_file_size,
        out.daemon.exclude == config.daemon.exclude,
{
}

/// A run has an error exactly where it did not finish.
pub proof fn law_unfinished_runs_have_an_error(end: RunEnd)
    ensures
        end_error(end) is None <==> end is Finished,
        end matches RunEnd::Failed(e) ==> end_error(end) == Some(e.text()),
{
}

/// What is planned for a group polls its remote wherever an interval for that is set and
/// not zero, whatever its trigger is, unless the remote side is watched.
pub proof fn law_planned_groups_are_polled(config: &Config, sync: &Sync, plan: TriggerPlan)
    requires
        call_ensures(plan_triggers, (config, sync), plan),
        sync.pull_interval is Some,
    ensures
        ({
            let d = sync.pull_interval.unwrap();
            if d.secs == 0 && d.nanos == 0 {
                plan.pull is None
            } else {
                plan.pull == Some(d) || (plan.watch_remote is Some && sync.trigger
                    == Trigger::WatchBoth)
            }
        }),
        sync.trigger == Trigger::Watch ==> plan.watch_local is Some,
        sync.trigger == Trigger::Timer ==> plan.timer is Some,
{
}

/// A poll and a full sync of a group go by the same settings, but that one of them is a
/// poll: the scope of the group, its policy for deletions or else that of the daemon, and
/// its limits.
pub proof fn law_polls_go_by_the_same_settings(
    config: &Config,
    sync: &Sync,
    polled: RunSettings,
    synced: RunSettings,
)
    requires
        call_ensures(settings_for, (config, sync, true), polled),
        call_ensures(settings_for, (config, sync, false), synced),
    ensures
        polled.rules.remote_refresh,
        synced == (RunSettings {
            rules: Rules { remote_refresh: false, ..polled.rules },
            ..polled
        }),
        synced.rules.scope == sync.scope,
        sync.deletions matches Some(d) ==> synced.rules.deletions == d,
        sync.deletions is None ==> synced.rules.deletions == config.daemon.deletions,
        sync.max_file_size matches Some(n) ==> synced.rules.max_file_size == n,
        sync.empty_dirs matches Some(m) ==> synced.empty_dirs == m,
{
}

/// A run that succeeded is followed by nothing; one that failed is tried again at most
/// twice, and later each time.
pub proof fn law_attempts_come_to_an_end(attempt: usize, failed: bool, out: AfterAttempt)
    requires
        call_ensures(after_attempt, (attempt, failed), out),
    ensures
        !failed <==> out == AfterAttempt::Stop,
        failed && attempt >= 2 <==> out == AfterAttempt::GiveUp,
        failed && attempt == 0 ==> (out matches AfterAttempt::RetryIn(d) && d.secs == 2),
        failed && attempt == 1 ==> (out matches AfterAttempt::RetryIn(d) && d.secs == 5),
{
}

/// The outcome of a run has a summary if it finished, which counts what its report lists,
/// and else an error; it always says which group it is about.
pub proof fn law_outcomes_say_how_a_run_ended(label: &str, end: &RunEnd, out: GroupOutcome)
    requires
        call_ensures(outcome_of, (label, end), out),
    ensures
        out.label@ == label@,
        out.summary is Some <==> *end is Finished,
        out.error is Some <==> !(*end is Finished),
        *end matches RunEnd::Finished(r) ==> (out.summary matches Some(s) && s.added
            == r.added@.len() && s.removed == r.removed@.len() && s.modified == r.modified@.len()
            && s.conflicted == r.conflicts@.len()),
{
}

/// A dry run is made of the groups that a sync of the same target would run, and a target
/// that picks none is refused by both.
pub proof fn law_dry_runs_are_of_the_same_groups(
    st: &DaemonState,
    target: SyncTarget,
    run: Task,
    plan: Task,
)
    requires
        call_ensures(task_for, (st, &Request::Sync(target)), run),
        call_ensures(task_for, (st, &Request::Plan(target)), plan),
    ensures
        run is Run <==> plan is Plan,
        run is Answer <==> plan is Answer,
        run matches Task::Run(a) ==> (plan matches Task::Plan(b) && texts(a@) == texts(b@) && a@.len()
            > 0),
        run is Answer ==> (run matches Task::Answer(r) && r is Error),
{
}

/// A request for the status is answered by one, and one for a reload makes the daemon read
/// its configuration.
pub proof fn law_requests_are_served(st: &DaemonState, status: Task, reload: Task)
    requires
        call_ensures(task_for, (st, &Request::Status), status),
        call_ensures(task_for, (st, &Request::Reload), reload),
    ensures
        status matches Task::Answer(r) && (r matches Response::Status(list) && list@.len()
            == active_groups(st.config.syncs@, text_opt(st.config.daemon.profile)).len()),
        reload is Reload,
{
}

/// A daemon without groups has nothing to do, and neither has one whose profile has none;
/// any other is busy.
pub proof fn law_daemon_is_idle_without_groups(st: &DaemonState, out: Option<Idle>, i: int)
    requires
        call_ensures(idle_reason, (st,), out),
        0 <= i < st.config.syncs@.len(),
    ensures
        belongs(st.config.syncs@[i], text_opt(st.config.daemon.profile)) ==> out is None,
        !(out matches Some(Idle::NoGroups)),
{
    let profile = text_opt(st.config.daemon.profile);
    if belongs(st.config.syncs@[i], profile) {
        law_no_group_is_left_out(st.config.syncs@, profile, SyncTarget::All, i);
    }
}

/// Every group that the daemon runs gets its triggers, under its label and for its local
/// root, in the order of the configuration.
pub proof fn law_triggers_are_those_of_the_groups(
    st: &DaemonState,
    out: Vec<GroupTriggers>,
    i: int,
)
    requires
        call_ensures(triggers_for, (st,), out),
        0 <= i < out@.len(),
    ensures
        ({
            let groups = active_groups(st.config.syncs@, text_opt(st.config.daemon.profile));
            &&& out@.len() == groups.len()
            &&& out@[i].label@ == label_of(groups[i])
            &&& out@[i].root@ == groups[i].local@
            &&& is_plan(st.config, groups[i], out@[i].plan)
        }),
{
}

} // verus!
