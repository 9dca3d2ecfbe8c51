//! A sync of one group, put together: its globs, what is left of both sides, and
//! the session or the plan that follows from them.

use crate::config::{excludes_of, Sync};
use crate::decide::{Action, Rules};
use crate::dirs::dir_scene;
use crate::engine::{files_of, is_scanned, job_at, jobs, jobs_of, keys_are_paths,
    law_every_path_has_its_job, not_excluded, remotes_of, scanned_as, subjects, tables_ok,
    without_excluded, Scene};
use crate::error::Error;
use crate::index::{EntryView, Index};
use crate::matcher::{can_compile, covers, matcher_error, Matcher};
use crate::model::{EmptyDirMode, FileMeta, FileView, RemoteMeta, RemoteView};
use crate::plan::{dir_changes, ops_of, plan_group, SyncPlan};
use crate::report::ReportView;
use crate::session::{next_command, no_facts, report_after, Command, FactsView, Session, SessionView};
use crate::table::Table;
use crate::text::texts;
use vstd::prelude::*;

verus! {

/// The compiled globs of a group.
pub struct GroupGlobs {
    /// What is left out, on both sides.
    pub exclude: Matcher,
    /// What the group covers.
    pub includes: Matcher,
}

/// Why the globs of a group cannot be compiled, if so.
pub open spec fn globs_error(sync: Sync, defaults: Seq<Seq<char>>) -> Option<Seq<char>> {
    if matcher_error(excludes_of(sync, defaults)) is Some {
        matcher_error(excludes_of(sync, defaults))
    } else {
        matcher_error(texts(sync.includes@))
    }
}

/// Whether a path is excluded from a group.
pub open spec fn is_excluded(sync: Sync, defaults: Seq<Seq<char>>, path: Seq<char>) -> bool {
    covers(excludes_of(sync, defaults), false, path)
}

/// Whether a path is included in a group. Without globs, nothing is.
pub open spec fn is_included(sync: Sync, path: Seq<char>) -> bool {
    covers(texts(sync.includes@), false, path)
}

impl GroupGlobs {
    /// Whether both sets of globs are in order.
    pub open spec fn wf(&self) -> bool {
        self.exclude.wf() && self.includes.wf()
    }

    /// Whether these are the globs of a group.
    pub open spec fn belong_to(&self, sync: Sync, defaults: Seq<Seq<char>>) -> bool {
        &&& self.wf()
        &&& forall|p: Seq<char>| #[trigger]
            self.exclude.matches(p) == is_excluded(sync, defaults, p)
        &&& forall|p: Seq<char>| #[trigger] self.includes.matches(p) == is_included(sync, p)
    }

    /// Compiles the globs of a group.
    pub fn new(sync: &Sync, exclude_defaults: &[String]) -> (out: Result<GroupGlobs, Error>)
        requires
            can_compile(excludes_of(*sync, texts(exclude_defaults@))),
            can_compile(texts(sync.includes@)),
        ensures
            match out {
                Ok(g) => globs_error(*sync, texts(exclude_defaults@)) is None && g.belong_to(
                    *sync,
                    texts(exclude_defaults@),
                ),
                Err(Error::Validation(e)) => globs_error(*sync, texts(exclude_defaults@))
                    == Some(e@),
                Err(_) => false,
            },
    {
        let patterns = sync.effective_excludes(exclude_defaults);
        let exclude = match Matcher::new(patterns.as_slice(), false) {
            Ok(m) => m,
            Err(e) => {
                return Err(e);
            },
        };
        let includes = match Matcher::new(sync.includes.as_slice(), false) {
            Ok(m) => m,
            Err(e) => {
                return Err(e);
            },
        };
        Ok(GroupGlobs { exclude, includes })
    }
}

/// What a sync looks at, given the files of both sides and the baseline.
pub open spec fn scene_with(
    globs: GroupGlobs,
    local: Map<Seq<char>, FileView>,
    remote: Map<Seq<char>, RemoteView>,
    base: Map<Seq<char>, EntryView>,
) -> Scene {
    Scene {
        local,
        remote: not_excluded(remote, globs.exclude),
        base,
        included: |p: Seq<char>| globs.includes.matches(p),
    }
}

/// What a sync of a group looks at: the local files, which were scanned without
/// the excluded ones, the remote files that are not excluded, and the baseline.
pub open spec fn group_scene(
    globs: GroupGlobs,
    local: Table<FileMeta>,
    remote: Table<RemoteMeta>,
    index: Index,
) -> Scene {
    scene_with(globs, files_of(local), remotes_of(remote), index.files())
}

/// Reconcile one sync group: the session that carries out what is to be done. Its
/// commands are performed by the caller, who hands back what came of each.
pub fn sync_group(
    globs: &GroupGlobs,
    local: &Table<FileMeta>,
    remote: &Table<RemoteMeta>,
    index: Index,
    rules: Rules,
) -> (out: Session)
    requires
        tables_ok(*local, *remote, index),
        globs.wf(),
    ensures
        out.wf(),
        out@ == (SessionView {
            jobs: jobs_of(group_scene(*globs, *local, *remote, index), rules),
            at: 0,
            facts: no_facts(),
            files: index.files(),
            report: ReportView::blank(),
        }),
        out.dir_set() == index.dir_set(),
{
    let kept = without_excluded(remote, &globs.exclude);
    let list = jobs(local, &kept, &index, &globs.includes, rules);
    Session::new(list, index)
}

/// Predicts what [`sync_group`] would do, and what would happen to the directories
/// that are empty now.
pub fn plan_sync(
    globs: &GroupGlobs,
    local: &Table<FileMeta>,
    remote: &Table<RemoteMeta>,
    index: &Index,
    rules: Rules,
    empty_dirs: EmptyDirMode,
    local_dirs: &Table<()>,
    remote_dirs: &Table<()>,
) -> (out: SyncPlan)
    requires
        tables_ok(*local, *remote, *index),
        globs.wf(),
        local_dirs.wf(),
        remote_dirs.wf(),
        keys_are_paths(*local_dirs),
        keys_are_paths(*remote_dirs),
    ensures
        out@ == ops_of(group_scene(*globs, *local, *remote, *index), rules) + dir_changes(
            empty_dirs,
            dir_scene(*local_dirs, *remote_dirs, *index),
        ),
{
    let kept = without_excluded(remote, &globs.exclude);
    plan_group(
        local,
        &kept,
        index,
        &globs.includes,
        rules,
        empty_dirs,
        local_dirs,
        remote_dirs,
    )
}

/// A sync of a group looks at a remote file exactly when no exclude glob covers
/// it, and treats a path as included exactly when an include glob covers it.
pub proof fn law_globs_select(
    globs: GroupGlobs,
    sync: Sync,
    defaults: Seq<Seq<char>>,
    local: Table<FileMeta>,
    remote: Table<RemoteMeta>,
    index: Index,
    path: Seq<char>,
)
    requires
        globs.belong_to(sync, defaults),
    ensures
        ({
            let scene = group_scene(globs, local, remote, index);
            &&& scene.remote.dom().contains(path) <==> remote@.dom().contains(path)
                && !is_excluded(sync, defaults, path)
            &&& (scene.included)(path) == is_included(sync, path)
        }),
{
}

/// Excluded paths are left alone, whatever the scope: where the local side was
/// scanned without them, the only job that such a path can have is to drop a stale
/// baseline. That job reads, writes and removes nothing and is not reported.
pub proof fn law_excluded_paths_are_untouched(
    globs: GroupGlobs,
    sync: Sync,
    defaults: Seq<Seq<char>>,
    local: Table<FileMeta>,
    remote: Table<RemoteMeta>,
    index: Index,
    rules: Rules,
    path: Seq<char>,
)
    requires
        globs.belong_to(sync, defaults),
        is_scanned(local, sync.local@, globs.exclude),
        is_excluded(sync, defaults, path),
        subjects(group_scene(globs, local, remote, index)).finite(),
    ensures
        forall|i: int|
            0 <= i < jobs_of(group_scene(globs, local, remote, index), rules).len() ==> {
                let job = #[trigger] jobs_of(group_scene(globs, local, remote, index), rules)[i];
                job.path == path ==> job.action == Action::DropIndex && forall|
                    f: FactsView,
                    report: ReportView,
                |
                    #![trigger report_after(report, job, f)]
                    next_command(job, f) == Command::Finish && report_after(report, job, f)
                        == report
            },
{
    let scene = group_scene(globs, local, remote, index);
    assert(globs.exclude.matches(path));
    if local@.dom().contains(path) {
        let file = choose|file: Seq<char>| #[trigger]
            scanned_as(sync.local@, file, globs.exclude) == Some(path);
        assert(false);
    }
    assert(!scene.local.dom().contains(path));
    assert(!scene.remote.dom().contains(path));
    law_every_path_has_its_job(scene, rules);
    assert forall|i: int| 0 <= i < jobs_of(scene, rules).len() implies {
        let job = #[trigger] jobs_of(scene, rules)[i];
        job.path == path ==> job.action == Action::DropIndex
    } by {
        let job = jobs_of(scene, rules)[i];
        assert(job_at(scene, rules, job.path) == Some(job));
    }
}

/// Nothing is included where there is no include glob; else what one of them covers is,
/// and nothing else.
pub proof fn law_included_is_what_a_glob_covers(sync: Sync, path: Seq<char>)
    ensures
        is_included(sync, path) <==> exists|i: int|
            0 <= i < sync.includes@.len() && covers(
                seq![(#[trigger] sync.includes@[i])@],
                false,
                path,
            ),
{
    let ps = texts(sync.includes@);
    crate::matcher::law_list_covers_what_its_patterns_cover(ps, false, path);
    if is_included(sync, path) {
        let i = choose|i: int| 0 <= i < ps.len() && covers(seq![#[trigger] ps[i]], false, path);
        assert(covers(seq![sync.includes@[i]@], false, path));
    }
    if exists|i: int|
        0 <= i < sync.includes@.len() && covers(seq![(#[trigger] sync.includes@[i])@], false, path) {
        let i = choose|i: int|
            0 <= i < sync.includes@.len() && covers(
                seq![(#[trigger] sync.includes@[i])@],
                false,
                path,
            );
        assert(ps[i] == sync.includes@[i]@);
    }
}

/// A path is excluded exactly where a default glob, a glob of the group or the glob for
/// conflict copies covers it.
pub proof fn law_excluded_is_what_a_glob_covers(
    sync: Sync,
    defaults: Seq<Seq<char>>,
    path: Seq<char>,
)
    ensures
        is_excluded(sync, defaults, path) <==> covers(
            seq![crate::config::CONFLICT_GLOB@],
            false,
            path,
        ) || (exists|i: int|
            0 <= i < defaults.len() && covers(seq![#[trigger] defaults[i]], false, path)) || (
        exists|i: int|
            0 <= i < sync.exclude@.len() && covers(
                seq![(#[trigger] sync.exclude@[i])@],
                false,
                path,
            )),
{
    let ps = excludes_of(sync, defaults);
    let own = texts(sync.exclude@);
    let glob = crate::config::CONFLICT_GLOB@;
    crate::config::law_effective_excludes(sync, defaults, glob);
    assert(ps.contains(glob));
    crate::matcher::law_list_covers_what_its_patterns_cover(ps, false, path);
    if is_excluded(sync, defaults, path) {
        let i = choose|i: int| 0 <= i < ps.len() && covers(seq![#[trigger] ps[i]], false, path);
        let p = ps[i];
        assert(ps.contains(p));
        crate::config::law_effective_excludes(sync, defaults, p);
        if defaults.contains(p) {
            let k = defaults.index_of(p);
            assert(0 <= k < defaults.len() && defaults[k] == p);
        } else if own.contains(p) {
            let k = own.index_of(p);
            assert(0 <= k < own.len() && own[k] == p);
            assert(sync.exclude@[k]@ == p);
        }
    }
    if covers(seq![glob], false, path) {
        lemma_excluded_by(sync, defaults, glob, path);
    }
    if exists|i: int| 0 <= i < defaults.len() && covers(seq![#[trigger] defaults[i]], false, path) {
        let i = choose|i: int|
            0 <= i < defaults.len() && covers(seq![#[trigger] defaults[i]], false, path);
        assert(defaults.contains(defaults[i]));
        lemma_excluded_by(sync, defaults, defaults[i], path);
    }
    if exists|i: int|
        0 <= i < sync.exclude@.len() && covers(seq![(#[trigger] sync.exclude@[i])@], false, path) {
        let i = choose|i: int|
            0 <= i < sync.exclude@.len() && covers(
                seq![(#[trigger] sync.exclude@[i])@],
                false,
                path,
            );
        assert(own[i] == sync.exclude@[i]@);
        assert(own.contains(own[i]));
        lemma_excluded_by(sync, defaults, own[i], path);
    }
}

proof fn lemma_excluded_by(sync: Sync, defaults: Seq<Seq<char>>, p: Seq<char>, path: Seq<char>)
    requires
        p == crate::config::CONFLICT_GLOB@ || defaults.contains(p) || texts(
            sync.exclude@,
        ).contains(p),
        covers(seq![p], false, path),
    ensures
        is_excluded(sync, defaults, path),
{
    let ps = excludes_of(sync, defaults);
    crate::config::law_effective_excludes(sync, defaults, p);
    crate::matcher::law_list_covers_what_its_patterns_cover(ps, false, path);
    let k = ps.index_of(p);
    assert(0 <= k < ps.len() && ps[k] == p);
    assert(covers(seq![ps[k]], false, path));
}

/// Every file of the group that is not excluded is seen by a sync, on the remote side as it
/// was listed and on the local side as it was scanned; and the baseline is seen whole.
pub proof fn law_sync_sees_what_is_not_excluded(
    globs: GroupGlobs,
    local: Map<Seq<char>, FileView>,
    remote: Map<Seq<char>, RemoteView>,
    base: Map<Seq<char>, EntryView>,
    path: Seq<char>,
)
    ensures
        ({
            let scene = scene_with(globs, local, remote, base);
            &&& scene.local == local
            &&& scene.base == base
            &&& remote.dom().contains(path) && !globs.exclude.matches(path)
                ==> scene.remote.dom().contains(path) && scene.remote[path] == remote[path]
            &&& scene.remote.dom().contains(path) ==> remote.dom().contains(path)
                && !globs.exclude.matches(path)
            &&& (scene.included)(path) == globs.includes.matches(path)
        }),
{
}

/// A group with a pattern that is not a glob cannot be compiled, be it one that excludes
/// or one that includes.
pub proof fn law_bad_patterns_are_refused(sync: Sync, defaults: Seq<Seq<char>>, i: int)
    requires
        (0 <= i < sync.includes@.len() && crate::matcher::complaint_of(sync.includes@[i]@) is Some)
            || (0 <= i < sync.exclude@.len() && crate::matcher::complaint_of(sync.exclude@[i]@) is Some)
            || (0 <= i < defaults.len() && crate::matcher::complaint_of(defaults[i]) is Some),
    ensures
        globs_error(sync, defaults) is Some,
{
    let all = excludes_of(sync, defaults);
    if 0 <= i < sync.includes@.len() && crate::matcher::complaint_of(sync.includes@[i]@) is Some {
        crate::matcher::law_bad_globs_are_refused(texts(sync.includes@), i);
    } else {
        let p = if 0 <= i < sync.exclude@.len() && crate::matcher::complaint_of(
            sync.exclude@[i]@,
        ) is Some {
            assert(texts(sync.exclude@)[i] == sync.exclude@[i]@);
            assert(texts(sync.exclude@).contains(sync.exclude@[i]@));
            sync.exclude@[i]@
        } else {
            assert(defaults.contains(defaults[i]));
            defaults[i]
        };
        crate::config::law_effective_excludes(sync, defaults, p);
        let k = all.index_of(p);
        assert(0 <= k < all.len() && all[k] == p);
        crate::matcher::law_bad_globs_are_refused(all, k);
    }
}

} // verus!
