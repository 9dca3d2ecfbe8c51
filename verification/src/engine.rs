//! The sync engine: a three-way reconciliation between the current local tree,
//! the current remote snapshot, and the baseline index from the last sync.
//!
//! For each path the engine classifies how the local and remote sides changed
//! since the baseline and decides an action. This module turns the three views
//! into the list of jobs of a sync, and into the plan of a dry run; the steps of
//! each job are in [`crate::session`].

use crate::decide::{action_for, decide, over_limit, oversize,
    pulls, pushes, Action, Rules};
use crate::index::{EntryView, Index};
use crate::matcher::Matcher;
use crate::model::{FileMeta, FileView, RemoteMeta, RemoteView, Scope};
use crate::relpath::{is_rel, law_normalized_is_stable, normalized, path_opt, relative_to, RelPath};
use crate::report::paths;
use crate::table::{ascending, lemma_ascending_unique, lemma_entry, lemma_listable, Table};
use crate::text::less;
use vstd::prelude::*;

verus! {

// ---------------------------------------------------------------------------
// The three views
// ---------------------------------------------------------------------------

/// What a map holds under a key.
pub open spec fn lookup<V>(m: Map<Seq<char>, V>, path: Seq<char>) -> Option<V> {
    if m.dom().contains(path) {
        Some(m[path])
    } else {
        None
    }
}

/// The files of a local tree.
pub open spec fn files_of(t: Table<FileMeta>) -> Map<Seq<char>, FileView> {
    t@.map_values(|m: FileMeta| m@)
}

/// The files of a remote snapshot.
pub open spec fn remotes_of(t: Table<RemoteMeta>) -> Map<Seq<char>, RemoteView> {
    t@.map_values(|m: RemoteMeta| m@)
}

/// Whether every key is a normalized relative path.
pub open spec fn keys_are_paths<V>(t: Table<V>) -> bool {
    forall|p: Seq<char>| #[trigger] t@.dom().contains(p) ==> is_rel(p)
}

/// What a sync looks at: both sides, the baseline, and which paths are included.
pub struct Scene {
    /// The local files.
    pub local: Map<Seq<char>, FileView>,
    /// The remote files.
    pub remote: Map<Seq<char>, RemoteView>,
    /// The baseline.
    pub base: Map<Seq<char>, EntryView>,
    /// Whether a path is included.
    pub included: spec_fn(Seq<char>) -> bool,
}

/// The scene made of the given tables.
pub open spec fn scene_of(
    local: Table<FileMeta>,
    remote: Table<RemoteMeta>,
    index: Index,
    includes: Matcher,
) -> Scene {
    Scene {
        local: files_of(local),
        remote: remotes_of(remote),
        base: index.files(),
        included: |p: Seq<char>| includes.matches(p),
    }
}

/// Whether the tables are in order and keyed by paths.
pub open spec fn tables_ok(local: Table<FileMeta>, remote: Table<RemoteMeta>, index: Index) -> bool {
    local.wf() && remote.wf() && index.wf() && keys_are_paths(local) && keys_are_paths(remote)
}

/// Puts a file under its path.
pub fn place<V>(table: &mut Table<V>, path: &RelPath, value: V)
    requires
        old(table).wf(),
        keys_are_paths(*old(table)),
    ensures
        final(table).wf(),
        keys_are_paths(*final(table)),
        final(table)@ == old(table)@.insert(path@, value),
{
    let text = path.as_str();
    table.insert(text.to_string(), value);
}

/// The path under which a file of a walked tree enters the view of the local side,
/// if it does: it lies under `root` and is not excluded.
pub open spec fn scanned_as(root: Seq<char>, path: Seq<char>, exclude: Matcher) -> Option<
    Seq<char>,
> {
    match relative_to(root, path) {
        Some(rel) => if exclude.matches(rel) {
            None
        } else {
            Some(rel)
        },
        None => None,
    }
}

/// Whether every file of a table entered it under the path that a scan of `root`
/// gives some file.
pub open spec fn is_scanned(table: Table<FileMeta>, root: Seq<char>, exclude: Matcher) -> bool {
    forall|p: Seq<char>| #[trigger]
        table@.dom().contains(p) ==> exists|file: Seq<char>| #[trigger]
            scanned_as(root, file, exclude) == Some(p)
}

/// The path under which a file of a walked tree enters the view of the local side,
/// if it does: it lies under `root` and is not excluded.
pub fn scan_path(root: &str, path: &str, exclude: &Matcher) -> (out: Option<RelPath>)
    requires
        exclude.wf(),
    ensures
        path_opt(out) == scanned_as(root@, path@, *exclude),
{
    match RelPath::from_base(root, path) {
        Some(rel) => if exclude.is_match(&rel) {
            None
        } else {
            Some(rel)
        },
        None => None,
    }
}

/// The part of a snapshot that is not excluded.
pub open spec fn not_excluded(
    remote: Map<Seq<char>, RemoteView>,
    exclude: Matcher,
) -> Map<Seq<char>, RemoteView> {
    Map::new(
        |p: Seq<char>| remote.dom().contains(p) && !exclude.matches(p),
        |p: Seq<char>| remote[p],
    )
}

/// The part of a snapshot that is not excluded.
pub fn without_excluded(remote: &Table<RemoteMeta>, exclude: &Matcher) -> (out: Table<RemoteMeta>)
    requires
        remote.wf(),
        keys_are_paths(*remote),
        exclude.wf(),
    ensures
        out.wf(),
        keys_are_paths(out),
        remotes_of(out) == not_excluded(remotes_of(*remote), *exclude),
{
    let mut out: Table<RemoteMeta> = Table::new();
    let total: usize = remote.len();
    let mut i: usize = 0;
    while i < total
        invariant
            i <= total,
            total == remote.keys().len(),
            remote.wf(),
            keys_are_paths(*remote),
            exclude.wf(),
            out.wf(),
            keys_are_paths(out),
            forall|p: Seq<char>| #[trigger]
                out@.dom().contains(p) <==> !exclude.matches(p) && exists|j: int|
                    0 <= j < i && #[trigger] remote.keys()[j] == p,
            forall|p: Seq<char>| #[trigger] out@.dom().contains(p) ==> out@[p] == remote@[p],
        decreases total - i,
    {
        let key = remote.key(i);
        let ghost before = out@;
        proof {
            lemma_entry(*remote, i as int);
            law_normalized_is_stable(key@);
        }
        match RelPath::from_relative(key.as_str()) {
            Some(path) => {
                assert(path@ == key@);
                if !exclude.is_match(&path) {
                    place(&mut out, &path, remote.value(i).clone());
                    assert(out@ == before.insert(key@, remote@[key@]));
                }
            },
            None => {},
        }
        assert forall|p: Seq<char>| #[trigger] out@.dom().contains(p) <==> !exclude.matches(p)
            && exists|j: int| 0 <= j < i + 1 && #[trigger] remote.keys()[j] == p by {
            if p == key@ {
                assert(remote.keys()[i as int] == p);
            } else {
                assert(out@.dom().contains(p) == before.dom().contains(p));
                if exists|j: int| 0 <= j < i + 1 && #[trigger] remote.keys()[j] == p {
                    let j = choose|j: int| 0 <= j < i + 1 && #[trigger] remote.keys()[j] == p;
                    assert(j < i);
                }
            }
        }
        i = i + 1;
    }
    assert forall|p: Seq<char>| #[trigger] remote@.dom().contains(p) implies (exists|j: int|
        0 <= j < total && #[trigger] remote.keys()[j] == p) by {
        let j = remote.keys().index_of(p);
        assert(remote.keys().contains(p));
        assert(0 <= j < total && remote.keys()[j] == p);
    }
    assert forall|p: Seq<char>|
        out@.dom().contains(p) <==> #[trigger] not_excluded(
            remotes_of(*remote),
            *exclude,
        ).dom().contains(p) by {
        if out@.dom().contains(p) {
            let j = choose|j: int| 0 <= j < total && #[trigger] remote.keys()[j] == p;
            lemma_entry(*remote, j);
        }
        if remote@.dom().contains(p) {
            assert(exists|j: int| 0 <= j < total && #[trigger] remote.keys()[j] == p);
        }
    }
    assert(remotes_of(out) =~= not_excluded(remotes_of(*remote), *exclude));
    out
}

// ---------------------------------------------------------------------------
// The paths of a sync
// ---------------------------------------------------------------------------

/// The paths that a sync looks at: those of either side, and those of the
/// baseline (in their normalized form).
pub open spec fn subjects(scene: Scene) -> Set<Seq<char>> {
    Set::new(
        |p: Seq<char>|
            scene.local.dom().contains(p) || scene.remote.dom().contains(p) || exists|k: Seq<char>|
                #[trigger] scene.base.dom().contains(k) && normalized(k) == Some(p),
    )
}

/// The elements of a set, in ascending order.
pub open spec fn in_order(s: Set<Seq<char>>) -> Seq<Seq<char>> {
    choose|keys: Seq<Seq<char>>| ascending(keys) && keys.to_set() == s
}

/// The elements of a finite set in ascending order are those elements, ascending.
pub proof fn law_in_order(s: Set<Seq<char>>)
    requires
        s.finite(),
    ensures
        ascending(in_order(s)),
        in_order(s).to_set() == s,
{
    let keys = lemma_listable(s);
    lemma_in_order(keys, s);
}

/// An ascending list of the elements of a set is the list of them in order.
pub proof fn lemma_in_order(keys: Seq<Seq<char>>, s: Set<Seq<char>>)
    requires
        ascending(keys),
        keys.to_set() == s,
    ensures
        in_order(s) == keys,
{
    lemma_ascending_unique(in_order(s), keys);
}

/// Adds every key of a table to a list of keys.
fn add_keys<V>(keys: &mut Table<()>, table: &Table<V>)
    requires
        old(keys).wf(),
        keys_are_paths(*old(keys)),
        table.wf(),
        keys_are_paths(*table),
    ensures
        final(keys).wf(),
        keys_are_paths(*final(keys)),
        final(keys)@.dom() == old(keys)@.dom().union(table@.dom()),
{
    let total: usize = table.len();
    let mut i: usize = 0;
    while i < total
        invariant
            i <= total,
            total == table.keys().len(),
            table.wf(),
            keys_are_paths(*table),
            keys.wf(),
            keys_are_paths(*keys),
            forall|p: Seq<char>| #[trigger]
                keys@.dom().contains(p) <==> old(keys)@.dom().contains(p) || exists|j: int|
                    0 <= j < i && #[trigger] table.keys()[j] == p,
        decreases total - i,
    {
        let ghost before = keys@;
        proof {
            lemma_entry(*table, i as int);
        }
        let key = table.key(i);
        keys.insert(key.clone(), ());
        assert forall|p: Seq<char>| #[trigger] keys@.dom().contains(p) <==> old(
            keys,
        )@.dom().contains(p) || exists|j: int|
            0 <= j < i + 1 && #[trigger] table.keys()[j] == p by {
            if p == key@ {
                assert(table.keys()[i as int] == p);
            } else {
                assert(keys@.dom().contains(p) == before.dom().contains(p));
                if exists|j: int| 0 <= j < i + 1 && #[trigger] table.keys()[j] == p {
                    let j = choose|j: int| 0 <= j < i + 1 && #[trigger] table.keys()[j] == p;
                    assert(j < i);
                }
            }
        }
        i = i + 1;
    }
    assert forall|p: Seq<char>| #[trigger]
        keys@.dom().contains(p) <==> old(keys)@.dom().union(table@.dom()).contains(p) by {
        if table@.dom().contains(p) {
            let j = table.keys().index_of(p);
            assert(table.keys().contains(p));
            assert(0 <= j < total && table.keys()[j] == p);
        }
        if exists|j: int| 0 <= j < total && #[trigger] table.keys()[j] == p {
            let j = choose|j: int| 0 <= j < total && #[trigger] table.keys()[j] == p;
            lemma_entry(*table, j);
        }
    }
    assert(keys@.dom() =~= old(keys)@.dom().union(table@.dom()));
}

/// Adds the normalized form of every key of a table to a list of keys.
fn add_normalized<V>(keys: &mut Table<()>, table: &Table<V>)
    requires
        old(keys).wf(),
        keys_are_paths(*old(keys)),
        table.wf(),
    ensures
        final(keys).wf(),
        keys_are_paths(*final(keys)),
        forall|p: Seq<char>| #[trigger]
            final(keys)@.dom().contains(p) <==> old(keys)@.dom().contains(p) || exists|k: Seq<char>|
                #[trigger] table@.dom().contains(k) && normalized(k) == Some(p),
{
    let total: usize = table.len();
    let mut i: usize = 0;
    while i < total
        invariant
            i <= total,
            total == table.keys().len(),
            table.wf(),
            keys.wf(),
            keys_are_paths(*keys),
            forall|p: Seq<char>| #[trigger]
                keys@.dom().contains(p) <==> old(keys)@.dom().contains(p) || exists|j: int|
                    0 <= j < i && normalized(#[trigger] table.keys()[j]) == Some(p),
        decreases total - i,
    {
        let ghost before = keys@;
        let key = table.key(i);
        match RelPath::from_relative(key.as_str()) {
            Some(path) => {
                place(keys, &path, ());
            },
            None => {},
        }
        assert forall|p: Seq<char>| #[trigger] keys@.dom().contains(p) <==> old(
            keys,
        )@.dom().contains(p) || exists|j: int|
            0 <= j < i + 1 && normalized(#[trigger] table.keys()[j]) == Some(p) by {
            if normalized(key@) == Some(p) {
                assert(normalized(table.keys()[i as int]) == Some(p));
            } else {
                assert(keys@.dom().contains(p) == before.dom().contains(p));
                if exists|j: int|
                    0 <= j < i + 1 && normalized(#[trigger] table.keys()[j]) == Some(p) {
                    let j = choose|j: int|
                        0 <= j < i + 1 && normalized(#[trigger] table.keys()[j]) == Some(p);
                    assert(j < i);
                }
            }
        }
        i = i + 1;
    }
    assert forall|p: Seq<char>| #[trigger] keys@.dom().contains(p) <==> old(
        keys,
    )@.dom().contains(p) || exists|k: Seq<char>| #[trigger]
        table@.dom().contains(k) && normalized(k) == Some(p) by {
        if exists|k: Seq<char>| #[trigger] table@.dom().contains(k) && normalized(k) == Some(p) {
            let k = choose|k: Seq<char>| #[trigger]
                table@.dom().contains(k) && normalized(k) == Some(p);
            let j = table.keys().index_of(k);
            assert(table.keys().contains(k));
            assert(0 <= j < total && table.keys()[j] == k);
        }
        if exists|j: int| 0 <= j < total && normalized(#[trigger] table.keys()[j]) == Some(p) {
            let j = choose|j: int|
                0 <= j < total && normalized(#[trigger] table.keys()[j]) == Some(p);
            lemma_entry(*table, j);
            assert(table@.dom().contains(table.keys()[j]));
        }
    }
}

/// The keys of a table of paths, in order.
pub fn key_paths(keys: &Table<()>) -> (out: Vec<RelPath>)
    requires
        keys.wf(),
        keys_are_paths(*keys),
    ensures
        paths(out@) == keys.keys(),
{
    let mut out: Vec<RelPath> = Vec::new();
    let total: usize = keys.len();
    let mut i: usize = 0;
    while i < total
        invariant
            i <= total,
            total == keys.keys().len(),
            keys.wf(),
            keys_are_paths(*keys),
            paths(out@) == keys.keys().take(i as int),
        decreases total - i,
    {
        let ghost before = out@;
        let key = keys.key(i);
        proof {
            lemma_entry(*keys, i as int);
            law_normalized_is_stable(key@);
        }
        match RelPath::from_relative(key.as_str()) {
            Some(path) => {
                let ghost p = path;
                out.push(path);
                assert(paths(out@) =~= paths(before).push(p@));
            },
            None => {},
        }
        assert(keys.keys().take(i + 1) =~= keys.keys().take(i as int).push(key@));
        i = i + 1;
    }
    assert(keys.keys().take(total as int) =~= keys.keys());
    out
}

/// The keys of a table are its domain.
pub proof fn lemma_key_set<V>(t: Table<V>)
    requires
        t.wf(),
    ensures
        t.keys().to_set() == t@.dom(),
{
    assert forall|p: Seq<char>| t.keys().to_set().contains(p) <==> #[trigger] t@.dom().contains(
        p,
    ) by {}
    assert(t.keys().to_set() =~= t@.dom());
}

/// The keys of two tables and the normalized keys of a third, in order.
pub fn merged_keys<A, B, C>(first: &Table<A>, second: &Table<B>, third: &Table<C>) -> (out: Vec<
    RelPath,
>)
    requires
        first.wf(),
        second.wf(),
        third.wf(),
        keys_are_paths(*first),
        keys_are_paths(*second),
    ensures
        ascending(paths(out@)),
        forall|p: Seq<char>| #[trigger]
            paths(out@).to_set().contains(p) <==> first@.dom().contains(p) || second@.dom().contains(
                p,
            ) || exists|k: Seq<char>| #[trigger]
                third@.dom().contains(k) && normalized(k) == Some(p),
{
    let mut keys: Table<()> = Table::new();
    add_keys(&mut keys, first);
    add_keys(&mut keys, second);
    add_normalized(&mut keys, third);
    proof {
        lemma_key_set(keys);
    }
    key_paths(&keys)
}

/// The paths that a sync looks at, in order.
pub fn union_keys(local: &Table<FileMeta>, remote: &Table<RemoteMeta>, index: &Index) -> (out: Vec<
    RelPath,
>)
    requires
        tables_ok(*local, *remote, *index),
    ensures
        ascending(paths(out@)),
        forall|p: Seq<char>| #[trigger]
            paths(out@).contains(p) <==> local@.dom().contains(p) || remote@.dom().contains(p)
                || exists|k: Seq<char>| #[trigger]
                index.files().dom().contains(k) && normalized(k) == Some(p),
        forall|includes: Matcher|
            paths(out@) == in_order(
                #[trigger] subjects(scene_of(*local, *remote, *index, includes)),
            ),
{
    let out = merged_keys(local, remote, &index.entries);
    proof {
        assert(index.files().dom() =~= index.entries@.dom());
        assert forall|p: Seq<char>| #[trigger]
            paths(out@).contains(p) <==> local@.dom().contains(p) || remote@.dom().contains(p)
                || exists|k: Seq<char>| #[trigger]
                index.files().dom().contains(k) && normalized(k) == Some(p) by {
            assert(paths(out@).contains(p) <==> paths(out@).to_set().contains(p));
            if paths(out@).contains(p) && !local@.dom().contains(p) && !remote@.dom().contains(p) {
                let k = choose|k: Seq<char>| #[trigger]
                    index.entries@.dom().contains(k) && normalized(k) == Some(p);
                assert(index.files().dom().contains(k));
            }
            if exists|k: Seq<char>| #[trigger]
                index.files().dom().contains(k) && normalized(k) == Some(p) {
                let k = choose|k: Seq<char>| #[trigger]
                    index.files().dom().contains(k) && normalized(k) == Some(p);
                assert(index.entries@.dom().contains(k));
            }
        }
        assert forall|includes: Matcher|
            paths(out@) == in_order(
                #[trigger] subjects(scene_of(*local, *remote, *index, includes)),
            ) by {
            let all = subjects(scene_of(*local, *remote, *index, includes));
            assert(index.files().dom() =~= index.entries@.dom());
            assert(paths(out@).to_set() =~= all);
            lemma_in_order(paths(out@), all);
        }
    }
    out
}

// ---------------------------------------------------------------------------
// Jobs
// ---------------------------------------------------------------------------

/// What is to be done with one path.
#[derive(Debug)]
pub struct Job {
    /// The path.
    pub path: RelPath,
    /// What to do.
    pub action: Action,
    /// The local file, as it was seen.
    pub local: Option<FileMeta>,
    /// The remote file, as it was seen.
    pub remote: Option<RemoteMeta>,
    /// Whether the baseline knows the path.
    pub had_baseline: bool,
}

/// What [`Job`] says.
pub struct JobView {
    /// The path.
    pub path: Seq<char>,
    /// What to do.
    pub action: Action,
    /// The local file, as it was seen.
    pub local: Option<FileView>,
    /// The remote file, as it was seen.
    pub remote: Option<RemoteView>,
    /// Whether the baseline knows the path.
    pub had_baseline: bool,
}

impl View for Job {
    type V = JobView;

    open spec fn view(&self) -> JobView {
        JobView {
            path: self.path@,
            action: self.action,
            local: match self.local {
                Some(m) => Some(m@),
                None => None,
            },
            remote: match self.remote {
                Some(m) => Some(m@),
                None => None,
            },
            had_baseline: self.had_baseline,
        }
    }
}

impl JobView {
    /// Whether the files that the action needs are there.
    pub open spec fn wf(self) -> bool {
        &&& pushes(self.action) || self.action == Action::Conflict ==> self.local is Some
        &&& pulls(self.action) || self.action == Action::Conflict ==> self.remote is Some
    }
}

/// The action for a path of the scene.
pub open spec fn action_at(scene: Scene, rules: Rules, path: Seq<char>) -> Action {
    action_for(
        rules,
        (scene.included)(path),
        lookup(scene.local, path),
        lookup(scene.remote, path),
        lookup(scene.base, path),
    )
}

/// The size of the transfer for a path of the scene, if it is over the limit.
pub open spec fn oversize_at(scene: Scene, rules: Rules, path: Seq<char>) -> Option<int> {
    over_limit(
        action_at(scene, rules, path),
        lookup(scene.local, path),
        lookup(scene.remote, path),
        rules.max_file_size as int,
    )
}

/// The job for a path of the scene, if anything is to be done.
pub open spec fn job_at(scene: Scene, rules: Rules, path: Seq<char>) -> Option<JobView> {
    if action_at(scene, rules, path) == Action::Nothing || oversize_at(scene, rules, path) is Some {
        None
    } else {
        Some(
            JobView {
                path,
                action: action_at(scene, rules, path),
                local: lookup(scene.local, path),
                remote: lookup(scene.remote, path),
                had_baseline: scene.base.dom().contains(path),
            },
        )
    }
}

/// The jobs for a list of paths.
pub open spec fn jobs_for(scene: Scene, rules: Rules, keys: Seq<Seq<char>>) -> Seq<JobView>
    decreases keys.len(),
{
    if keys.len() == 0 {
        seq![]
    } else {
        let front = jobs_for(scene, rules, keys.drop_last());
        match job_at(scene, rules, keys.last()) {
            Some(job) => front.push(job),
            None => front,
        }
    }
}

/// The jobs of a sync: for every path with something to do, in order.
pub open spec fn jobs_of(scene: Scene, rules: Rules) -> Seq<JobView> {
    jobs_for(scene, rules, in_order(subjects(scene)))
}

/// The views of a sequence of jobs.
pub open spec fn job_views(v: Seq<Job>) -> Seq<JobView> {
    v.map_values(|j: Job| j@)
}

fn clone_file(m: Option<&FileMeta>) -> (out: Option<FileMeta>)
    ensures
        match out {
            Some(x) => m is Some && x@ == m.unwrap()@,
            None => m is None,
        },
{
    match m {
        Some(x) => Some(x.clone()),
        None => None,
    }
}

fn clone_remote(m: Option<&RemoteMeta>) -> (out: Option<RemoteMeta>)
    ensures
        match out {
            Some(x) => m is Some && x@ == m.unwrap()@,
            None => m is None,
        },
{
    match m {
        Some(x) => Some(x.clone()),
        None => None,
    }
}

/// The jobs of a sync: for every path with something to do, in order. Files
/// whose transfer would exceed the size limit are left out, so they stay
/// unsynced until they shrink or the limit is raised.
pub fn jobs(
    local: &Table<FileMeta>,
    remote: &Table<RemoteMeta>,
    index: &Index,
    includes: &Matcher,
    rules: Rules,
) -> (out: Vec<Job>)
    requires
        tables_ok(*local, *remote, *index),
        includes.wf(),
    ensures
        job_views(out@) == jobs_of(scene_of(*local, *remote, *index, *includes), rules),
        forall|i: int| 0 <= i < out@.len() ==> (#[trigger] out@[i])@.wf(),
{
    let ghost scene = scene_of(*local, *remote, *index, *includes);
    let keys = union_keys(local, remote, index);
    let ghost names = paths(keys@);
    assert(names == in_order(subjects(scene)));
    let mut out: Vec<Job> = Vec::new();
    let mut i: usize = 0;
    assert(names.take(0) =~= Seq::empty());
    assert(job_views(out@) =~= Seq::empty());
    while i < keys.len()
        invariant
            i <= keys@.len(),
            tables_ok(*local, *remote, *index),
            includes.wf(),
            scene == scene_of(*local, *remote, *index, *includes),
            names == paths(keys@),
            job_views(out@) == jobs_for(scene, rules, names.take(i as int)),
            forall|j: int| 0 <= j < out@.len() ==> (#[trigger] out@[j])@.wf(),
        decreases keys.len() - i,
    {
        let path = &keys[i];
        let ghost before = out@;
        let included = includes.is_match(path);
        let l = local.get(path.as_str());
        let r = remote.get(path.as_str());
        let b = index.get(path);
        let action = decide(rules, included, l, r, b);
        proof {
            assert(names.take(i + 1).drop_last() =~= names.take(i as int));
            assert(names.take(i + 1).last() == path@);
            assert(crate::decide::file_opt(l) == lookup(scene.local, path@));
            assert(crate::decide::remote_opt(r) == lookup(scene.remote, path@));
            assert(crate::decide::entry_opt(b) == lookup(scene.base, path@));
            crate::decide::law_actions_have_their_files(
                rules,
                included,
                lookup(scene.local, path@),
                lookup(scene.remote, path@),
                lookup(scene.base, path@),
            );
        }
        if action != Action::Nothing && oversize(action, l, r, rules.max_file_size).is_none() {
            let job = Job {
                path: path.clone(),
                action,
                local: clone_file(l),
                remote: clone_remote(r),
                had_baseline: b.is_some(),
            };
            let ghost j = job;
            out.push(job);
            assert(job_at(scene, rules, path@) == Some(j@));
            assert(job_views(out@) =~= job_views(before).push(j@));
        }
        i = i + 1;
    }
    assert(names.take(names.len() as int) =~= names);
    out
}

// ---------------------------------------------------------------------------
// Laws
// ---------------------------------------------------------------------------

/// Every path that a sync looks at and that has something to do has one job, and
/// there are no other jobs. The jobs are in the order of their paths.
pub proof fn law_every_path_has_its_job(scene: Scene, rules: Rules)
    requires
        subjects(scene).finite(),
    ensures
        forall|p: Seq<char>|
            subjects(scene).contains(p) && job_at(scene, rules, p) is Some ==> jobs_of(
                scene,
                rules,
            ).contains(#[trigger] job_at(scene, rules, p).unwrap()),
        forall|i: int|
            0 <= i < jobs_of(scene, rules).len() ==> {
                let job = #[trigger] jobs_of(scene, rules)[i];
                subjects(scene).contains(job.path) && job_at(scene, rules, job.path) == Some(job)
            },
        ascending(jobs_of(scene, rules).map_values(|j: JobView| j.path)),
{
    law_in_order(subjects(scene));
    let keys = in_order(subjects(scene));
    lemma_jobs_for(scene, rules, keys);
    assert forall|p: Seq<char>|
        subjects(scene).contains(p) && job_at(scene, rules, p) is Some implies jobs_of(
        scene,
        rules,
    ).contains(#[trigger] job_at(scene, rules, p).unwrap()) by {
        assert(keys.to_set().contains(p));
    }
    assert forall|i: int| 0 <= i < jobs_of(scene, rules).len() implies {
        let job = #[trigger] jobs_of(scene, rules)[i];
        subjects(scene).contains(job.path) && job_at(scene, rules, job.path) == Some(job)
    } by {
        assert(keys.to_set().contains(jobs_of(scene, rules)[i].path));
    }
}

proof fn lemma_jobs_for(scene: Scene, rules: Rules, keys: Seq<Seq<char>>)
    requires
        ascending(keys),
    ensures
        forall|p: Seq<char>|
            keys.contains(p) && job_at(scene, rules, p) is Some ==> jobs_for(
                scene,
                rules,
                keys,
            ).contains(#[trigger] job_at(scene, rules, p).unwrap()),
        forall|i: int|
            0 <= i < jobs_for(scene, rules, keys).len() ==> {
                let job = #[trigger] jobs_for(scene, rules, keys)[i];
                keys.contains(job.path) && job_at(scene, rules, job.path) == Some(job)
            },
        ascending(jobs_for(scene, rules, keys).map_values(|j: JobView| j.path)),
    decreases keys.len(),
{
    if keys.len() > 0 {
        let less_keys = keys.drop_last();
        let front = jobs_for(scene, rules, less_keys);
        let all = jobs_for(scene, rules, keys);
        assert(ascending(less_keys)) by {
            assert forall|i: int, j: int| 0 <= i < j < less_keys.len() implies less(
                #[trigger] less_keys[i],
                #[trigger] less_keys[j],
            ) by {
                assert(less(keys[i], keys[j]));
            }
        }
        lemma_jobs_for(scene, rules, less_keys);
        assert forall|p: Seq<char>|
            keys.contains(p) && job_at(scene, rules, p) is Some implies all.contains(
            #[trigger] job_at(scene, rules, p).unwrap(),
        ) by {
            let k = keys.index_of(p);
            assert(0 <= k < keys.len() && keys[k] == p);
            if k < less_keys.len() {
                assert(less_keys[k] == p);
                let job = job_at(scene, rules, p).unwrap();
                assert(front.contains(job));
                let m = front.index_of(job);
                assert(0 <= m < front.len() && front[m] == job);
                assert(all[m] == job);
            } else {
                assert(all[all.len() - 1] == job_at(scene, rules, p).unwrap());
            }
        }
        assert forall|i: int| 0 <= i < all.len() implies {
            let job = #[trigger] all[i];
            keys.contains(job.path) && job_at(scene, rules, job.path) == Some(job)
        } by {
            if i < front.len() {
                assert(all[i] == front[i]);
                let k = less_keys.index_of(front[i].path);
                assert(0 <= k < less_keys.len() && less_keys[k] == front[i].path);
                assert(keys[k] == front[i].path);
            } else {
                assert(keys[keys.len() - 1] == all[i].path);
            }
        }
        let names = all.map_values(|j: JobView| j.path);
        assert forall|i: int, j: int| 0 <= i < j < names.len() implies less(
            #[trigger] names[i],
            #[trigger] names[j],
        ) by {
            let front_names = front.map_values(|j: JobView| j.path);
            assert(names[i] == front[i].path);
            if j < front.len() {
                assert(less(front_names[i], front_names[j]));
            } else {
                let k = less_keys.index_of(front[i].path);
                assert(0 <= k < less_keys.len() && less_keys[k] == front[i].path);
                assert(less(keys[k], keys[keys.len() - 1]));
            }
        }
    }
}

/// A scan is complete: every file under the root enters the view of the local side under
/// its path, whatever its names are, unless it is excluded.
pub proof fn law_scan_is_complete(root: Seq<char>, path: Seq<char>, exclude: Matcher)
    requires
        is_rel(path),
        root.len() > 0,
        root.last() != '/',
        !exclude.matches(path),
    ensures
        scanned_as(root, root + seq!['/'] + path, exclude) == Some(path),
{
    crate::relpath::law_joining_appends(root, path);
}

/// A scan leaves out a file under the root only if it is excluded, and never gives a
/// file another path than its own.
pub proof fn law_scan_leaves_out_only_the_excluded(
    root: Seq<char>,
    file: Seq<char>,
    exclude: Matcher,
    path: Seq<char>,
)
    requires
        relative_to(root, file) == Some(path),
    ensures
        scanned_as(root, file, exclude) is None <==> exclude.matches(path),
        scanned_as(root, file, exclude) matches Some(p) ==> p == path,
{
}

/// What is left of a snapshot is all that is not excluded, as it was.
pub proof fn law_exclusion_takes_nothing_else(
    remote: Map<Seq<char>, RemoteView>,
    exclude: Matcher,
    path: Seq<char>,
)
    ensures
        ({
            let left = not_excluded(remote, exclude);
            &&& left.dom().contains(path) <==> remote.dom().contains(path) && !exclude.matches(path)
            &&& left.dom().contains(path) ==> left[path] == remote[path]
        }),
{
}

/// No file is forgotten: a path that either side or the baseline holds has a job that
/// carries out what is decided for it, with both files as they were seen, unless there is
/// nothing to do or the transfer is over the size limit. It has no other job.
pub proof fn law_no_file_is_forgotten(scene: Scene, rules: Rules, path: Seq<char>)
    requires
        subjects(scene).finite(),
        scene.local.dom().contains(path) || scene.remote.dom().contains(path) || (
        scene.base.dom().contains(path) && is_rel(path)),
    ensures
        ({
            let local = if scene.local.dom().contains(path) {
                Some(scene.local[path])
            } else {
                None
            };
            let remote = if scene.remote.dom().contains(path) {
                Some(scene.remote[path])
            } else {
                None
            };
            let base = if scene.base.dom().contains(path) {
                Some(scene.base[path])
            } else {
                None
            };
            let action = action_for(rules, (scene.included)(path), local, remote, base);
            let stopped = over_limit(action, local, remote, rules.max_file_size as int) is Some;
            let jobs = jobs_of(scene, rules);
            &&& action != Action::Nothing && !stopped ==> exists|i: int|
                0 <= i < jobs.len() && (#[trigger] jobs[i]).path == path
            &&& forall|i: int|
                0 <= i < jobs.len() && (#[trigger] jobs[i]).path == path ==> jobs[i].action
                    == action && action != Action::Nothing && !stopped && jobs[i].local == local
                    && jobs[i].remote == remote && jobs[i].had_baseline == base is Some
            &&& forall|i: int, j: int|
                0 <= i < j < jobs.len() ==> (#[trigger] jobs[i]).path != (#[trigger] jobs[j]).path
        }),
{
    let jobs = jobs_of(scene, rules);
    law_every_path_has_its_job(scene, rules);
    if scene.base.dom().contains(path) && is_rel(path) {
        law_normalized_is_stable(path);
        assert(scene.base.dom().contains(path) && normalized(path) == Some(path));
    }
    assert(subjects(scene).contains(path));
    if job_at(scene, rules, path) is Some {
        let job = job_at(scene, rules, path).unwrap();
        assert(jobs.contains(job));
        let i = jobs.index_of(job);
        assert(0 <= i < jobs.len() && jobs[i] == job);
        assert(jobs[i].path == path);
    }
    assert forall|i: int| 0 <= i < jobs.len() && (#[trigger] jobs[i]).path == path implies job_at(
        scene,
        rules,
        path,
    ) == Some(jobs[i]) by {}
    let names = jobs.map_values(|j: JobView| j.path);
    assert forall|i: int, j: int| 0 <= i < j < jobs.len() implies (#[trigger] jobs[i]).path != (
    #[trigger] jobs[j]).path by {
        assert(names[i] == jobs[i].path && names[j] == jobs[j].path);
        crate::table::lemma_ascending_distinct(names);
    }
}

/// What a scan makes of a file under its root is the file's path, unless that is
/// excluded; and it makes nothing else of it.
pub proof fn law_scanned_files_keep_their_path(
    root: &str,
    file: &str,
    exclude: &Matcher,
    path: Seq<char>,
    out: Option<RelPath>,
)
    requires
        call_ensures(scan_path, (root, file, exclude), out),
        is_rel(path),
        root@.len() > 0,
        root@.last() != '/',
        file@ == root@ + seq!['/'] + path,
    ensures
        exclude.matches(path) ==> out is None,
        !exclude.matches(path) ==> path_opt(out) == Some(path),
{
    crate::relpath::law_joining_appends(root@, path);
}

proof fn lemma_subjects_finite(
    local: Table<FileMeta>,
    remote: Table<RemoteMeta>,
    index: Index,
    includes: Matcher,
)
    requires
        tables_ok(local, remote, index),
    ensures
        subjects(scene_of(local, remote, index, includes)).finite(),
{
    let scene = scene_of(local, remote, index, includes);
    lemma_key_set(local);
    lemma_key_set(remote);
    lemma_key_set(index.entries);
    let known = index.entries.keys();
    let names = known.map_values(
        |k: Seq<char>|
            match normalized(k) {
                Some(p) => p,
                None => k,
            },
    );
    let all = local.keys() + remote.keys() + names;
    assert forall|p: Seq<char>| #[trigger] subjects(scene).contains(p) implies all.to_set().contains(
        p,
    ) by {
        if scene.local.dom().contains(p) {
            assert(local.keys().to_set().contains(p));
            let i = local.keys().index_of(p);
            assert(0 <= i < local.keys().len() && local.keys()[i] == p);
            assert(all[i] == p);
        } else if scene.remote.dom().contains(p) {
            assert(remote.keys().to_set().contains(p));
            let i = remote.keys().index_of(p);
            assert(0 <= i < remote.keys().len() && remote.keys()[i] == p);
            assert(all[local.keys().len() + i] == p);
        } else {
            let k = choose|k: Seq<char>| #[trigger]
                scene.base.dom().contains(k) && normalized(k) == Some(p);
            assert(index.entries@.dom().contains(k));
            assert(known.to_set().contains(k));
            let i = known.index_of(k);
            assert(0 <= i < known.len() && known[i] == k);
            assert(names[i] == p);
            assert(all[local.keys().len() + remote.keys().len() + i] == p);
        }
    }
    vstd::seq_lib::seq_to_set_is_finite(all);
    vstd::set_lib::lemma_len_subset(subjects(scene), all.to_set());
}

/// The jobs of a two-way sync bring every new file to the other side: one that only one
/// side has is copied, and one that both have is a conflict. This is so for each path on
/// its own, whatever else the tables hold.
pub proof fn law_new_files_get_their_job(
    local: &Table<FileMeta>,
    remote: &Table<RemoteMeta>,
    index: &Index,
    includes: &Matcher,
    rules: Rules,
    out: Vec<Job>,
    path: Seq<char>,
)
    requires
        call_ensures(jobs, (local, remote, index, includes, rules), out),
        tables_ok(*local, *remote, *index),
        rules.scope == Scope::Mirror || includes.matches(path),
        !rules.remote_refresh,
        rules.max_file_size == 0,
        local@.dom().contains(path) || remote@.dom().contains(path),
        !index.entries@.dom().contains(path),
    ensures
        exists|i: int|
            0 <= i < out@.len() && (#[trigger] out@[i]).path@ == path && out@[i].action == (
            if !remote@.dom().contains(path) {
                Action::Push
            } else if !local@.dom().contains(path) {
                Action::Pull
            } else {
                Action::Conflict
            }),
{
    let scene = scene_of(*local, *remote, *index, *includes);
    lemma_subjects_finite(*local, *remote, *index, *includes);
    assert(scene.local.dom() =~= local@.dom());
    assert(scene.remote.dom() =~= remote@.dom());
    assert(scene.base.dom() =~= index.entries@.dom());
    law_no_file_is_forgotten(scene, rules, path);
    let views = job_views(out@);
    let i = choose|i: int| 0 <= i < views.len() && (#[trigger] views[i]).path == path;
    assert(views[i] == out@[i]@);
    assert(out@[i].path@ == path);
}

/// Under the `include` scope a path that no include glob covers has no job, whatever the
/// tables hold for it.
pub proof fn law_uncovered_files_get_no_job(
    local: &Table<FileMeta>,
    remote: &Table<RemoteMeta>,
    index: &Index,
    includes: &Matcher,
    rules: Rules,
    out: Vec<Job>,
    i: int,
)
    requires
        call_ensures(jobs, (local, remote, index, includes, rules), out),
        tables_ok(*local, *remote, *index),
        rules.scope == Scope::Include,
        0 <= i < out@.len(),
    ensures
        includes.matches(out@[i].path@),
{
    let scene = scene_of(*local, *remote, *index, *includes);
    lemma_subjects_finite(*local, *remote, *index, *includes);
    law_every_path_has_its_job(scene, rules);
    let views = job_views(out@);
    assert(views[i] == out@[i]@);
    let job = jobs_of(scene, rules)[i];
    assert(job_at(scene, rules, job.path) == Some(job));
}

} // verus!
