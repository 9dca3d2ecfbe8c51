//! What the steps of a sync amount to when every command is carried out as
//! asked: the two sides agree, the next sync has nothing to do, and no content
//! is lost.

use crate::decide::{action_for, diverged, local_settled, remote_settled, law_actions_have_their_files, law_deletes_only_unchanged_files,
    law_settled_path_is_quiet, local_change, local_is_newer, pulls, pushes, remote_change, Action,
    Rules, Winner};
use crate::engine::{in_order, job_at, jobs_for, jobs_of, lookup, subjects, JobView, Scene};
use crate::hash::blake3_hex;
use crate::index::EntryView;
use crate::model::{Deletions, FileView, RemoteView, Scope};
use crate::relpath::{is_rel, law_normalized_is_relative, law_normalized_is_stable, normalized};
use crate::report::{ConflictView, ReportView};
use crate::session::{baseline_after, files_after, learned, next_command, no_facts, report_after, write_of,
    Command, EventView, FactsView};
use vstd::prelude::*;

verus! {

/// A file of the local tree.
pub struct LocalFile {
    /// Its bytes.
    pub data: Seq<u8>,
    /// Its modification time.
    pub mtime: i128,
}

/// A file of the remote.
pub struct RemoteFile {
    /// Its bytes.
    pub data: Seq<u8>,
    /// Its change id.
    pub id: Seq<char>,
    /// Its modification time, if the backend exposes one.
    pub mtime: Option<i128>,
}

/// One path on both sides, its baseline, and the conflict copies made of it.
#[verifier::ext_equal]
pub struct Place {
    /// The local file.
    pub local: Option<LocalFile>,
    /// The remote file.
    pub remote: Option<RemoteFile>,
    /// The baseline.
    pub base: Option<EntryView>,
    /// The bytes of the conflict copies, in the order in which they were saved.
    pub copies: Seq<Seq<u8>>,
}

/// What the outside world chooses: the change id of what is written to the remote,
/// the modification times that a write does not fix, and the names of conflict copies.
pub struct Choice {
    /// The change id of a file written to the remote.
    pub id: Seq<char>,
    /// Whether the remote gives a file the modification time that it is handed.
    pub keeps_mtime: bool,
    /// The modification time of a file written to a remote that does not.
    pub remote_mtime: Option<i128>,
    /// The modification time of a file written to the local tree, where none is known.
    pub local_mtime: i128,
    /// The path of a conflict copy.
    pub copy: Seq<char>,
}

/// What a scan says of a local file.
pub open spec fn seen_local(f: Option<LocalFile>) -> Option<FileView> {
    match f {
        Some(x) => Some(
            FileView { hash: blake3_hex(x.data), mtime: x.mtime as int, size: x.data.len() as int },
        ),
        None => None,
    }
}

/// What a snapshot says of a remote file.
pub open spec fn seen_remote(f: Option<RemoteFile>) -> Option<RemoteView> {
    match f {
        Some(x) => Some(RemoteView { id: x.id, mtime: x.mtime, size: x.data.len() as int }),
        None => None,
    }
}

/// Carries out a command as it is asked for: the place afterwards, and the event
/// that is handed back.
pub open spec fn carried_out(
    job: JobView,
    at: Place,
    f: FactsView,
    command: Command,
    c: Choice,
) -> (Place, EventView) {
    let write = write_of(job, f, command).unwrap();
    match command {
        Command::ReadLocal | Command::TryReadLocal => match at.local {
            Some(x) => (at, EventView::LocalData(x.data)),
            None => (at, EventView::LocalUnreadable),
        },
        Command::ReadRemote => (at, EventView::RemoteData(at.remote.unwrap().data)),
        Command::WriteLocal => (
            Place {
                local: Some(
                    LocalFile {
                        data: write.data,
                        mtime: match write.mtime {
                            Some(t) => t as i128,
                            None => c.local_mtime,
                        },
                    },
                ),
                ..at
            },
            EventView::Done,
        ),
        Command::WriteRemote => (
            Place {
                remote: Some(
                    RemoteFile {
                        data: write.data,
                        id: c.id,
                        mtime: match write.mtime {
                            Some(t) if c.keeps_mtime => Some(t as i128),
                            _ => c.remote_mtime,
                        },
                    },
                ),
                ..at
            },
            EventView::Stored(c.id),
        ),
        Command::SaveCopy { .. } => (
            Place { copies: at.copies.push(write.data), ..at },
            EventView::Copied(c.copy),
        ),
        Command::RemoveLocal => (Place { local: None, ..at }, EventView::Done),
        Command::RemoveRemote => (Place { remote: None, ..at }, EventView::Done),
        Command::Finish => (at, EventView::Done),
    }
}

/// The place and what is known after at most `steps` commands of a job.
pub open spec fn run(job: JobView, at: Place, f: FactsView, c: Choice, steps: nat) -> (
    Place,
    FactsView,
)
    decreases steps,
{
    let command = next_command(job, f);
    if steps == 0 || command == Command::Finish {
        (at, f)
    } else {
        let (then, event) = carried_out(job, at, f, command, c);
        run(job, then, learned(f, event), c, (steps - 1) as nat)
    }
}

/// The most commands that a job takes.
pub open spec fn enough() -> nat {
    5
}

/// The place once a job is done, with the baseline that the job records.
pub open spec fn finished(job: JobView, at: Place, c: Choice) -> Place {
    let (then, f) = run(job, at, no_facts(), c, enough());
    Place { base: baseline_after(job, f), ..then }
}

/// Whether `job` is what the rules ask for at a place.
pub open spec fn fits(job: JobView, at: Place, rules: Rules, included: bool) -> bool {
    &&& job.local == seen_local(at.local)
    &&& job.remote == seen_remote(at.remote)
    &&& job.had_baseline == (at.base is Some)
    &&& job.action == action_for(rules, included, job.local, job.remote, at.base)
    &&& job.action != Action::Nothing
}

/// Whether both sides hold the file that the baseline says, or none is left.
pub open spec fn in_step(at: Place) -> bool {
    match at.base {
        Some(b) => at.local is Some && at.remote is Some && blake3_hex(at.local.unwrap().data)
            == b.local_hash && at.remote.unwrap().id == b.remote_id,
        None => at.local is None && at.remote is None,
    }
}

/// Unfolds the run of a job command by command.
proof fn lemma_run(job: JobView, at: Place, rules: Rules, included: bool, c: Choice)
    requires
        fits(job, at, rules, included),
    ensures
        ({
            let (then, f) = run(job, at, no_facts(), c, enough());
            &&& next_command(job, f) == Command::Finish
            &&& in_step(finished(job, at, c))
            &&& finished(job, at, c).local is Some ==> blake3_hex(
                finished(job, at, c).local.unwrap().data,
            ) == blake3_hex(finished(job, at, c).remote.unwrap().data)
        }),
{
    reveal_with_fuel(run, 6);
    law_actions_have_their_files(rules, included, job.local, job.remote, at.base);
    law_deletes_only_unchanged_files(rules, included, job.local, job.remote, at.base);
}

// ---------------------------------------------------------------------------
// Laws
// ---------------------------------------------------------------------------

/// Every job comes to an end, after at most five commands.
pub proof fn law_jobs_end(job: JobView, at: Place, rules: Rules, included: bool, c: Choice)
    requires
        fits(job, at, rules, included),
    ensures
        next_command(job, run(job, at, no_facts(), c, 5).1) == Command::Finish,
{
    lemma_run(job, at, rules, included, c);
}

/// Once a job is done, both sides hold the same content (as far as its hash
/// tells), or the file is gone from both.
pub proof fn law_sides_agree(job: JobView, at: Place, rules: Rules, included: bool, c: Choice)
    requires
        fits(job, at, rules, included),
    ensures
        match finished(job, at, c).local {
            Some(l) => finished(job, at, c).remote is Some && blake3_hex(l.data) == blake3_hex(
                finished(job, at, c).remote.unwrap().data,
            ),
            None => finished(job, at, c).remote is None,
        },
{
    lemma_run(job, at, rules, included, c);
}

/// Once a job is done, the next sync finds nothing to do for its path, whatever
/// the rules of that sync are.
pub proof fn law_done_is_done(
    job: JobView,
    at: Place,
    rules: Rules,
    included: bool,
    c: Choice,
    later: Rules,
    later_included: bool,
)
    requires
        fits(job, at, rules, included),
    ensures
        ({
            let then = finished(job, at, c);
            action_for(
                later,
                later_included,
                seen_local(then.local),
                seen_remote(then.remote),
                then.base,
            ) == Action::Nothing
        }),
{
    lemma_run(job, at, rules, included, c);
    let then = finished(job, at, c);
    law_settled_path_is_quiet(
        later,
        later_included,
        seen_local(then.local),
        seen_remote(then.remote),
        then.base,
    );
}

/// Whether `data` is still to be found at a place: on one of the sides (as far as
/// its hash tells), or as a conflict copy.
pub open spec fn survives(at: Place, data: Seq<u8>) -> bool {
    ||| at.local is Some && blake3_hex(at.local.unwrap().data) == blake3_hex(data)
    ||| at.remote is Some && blake3_hex(at.remote.unwrap().data) == blake3_hex(data)
    ||| at.copies.contains(data)
}

/// No content is lost: what either side held before a job is still there
/// afterwards, on a side or as a conflict copy, unless it is what that side held
/// at the last sync already (and the other side has moved on).
pub proof fn law_no_content_is_lost(
    job: JobView,
    at: Place,
    rules: Rules,
    included: bool,
    c: Choice,
)
    requires
        fits(job, at, rules, included),
    ensures
        at.local matches Some(l) ==> survives(finished(job, at, c), l.data) || !diverged(
            local_change(job.local, at.base),
        ),
        at.remote matches Some(r) ==> survives(finished(job, at, c), r.data) || !diverged(
            remote_change(job.remote, at.base),
        ),
{
    lemma_run(job, at, rules, included, c);
    reveal_with_fuel(run, 6);
    let then = finished(job, at, c);
    law_actions_have_their_files(rules, included, job.local, job.remote, at.base);
    crate::decide::law_diverged_files_are_preserved(
        rules,
        included,
        job.local,
        job.remote,
        at.base,
    );
    law_deletes_only_unchanged_files(rules, included, job.local, job.remote, at.base);
    if then.copies.len() > 0 {
        assert(then.copies.last() == then.copies[then.copies.len() - 1]);
    }
}

/// Whether the local version is the one that a job takes to the other side.
pub open spec fn local_prevails(job: JobView) -> bool {
    pushes(job.action) || (job.action == Action::Conflict && local_is_newer(
        job.local.unwrap(),
        job.remote.unwrap(),
    ))
}

/// Whether the remote version is the one that a job takes to the other side.
pub open spec fn remote_prevails(job: JobView) -> bool {
    pulls(job.action) || (job.action == Action::Conflict && !local_is_newer(
        job.local.unwrap(),
        job.remote.unwrap(),
    ))
}

/// The version that prevails is written to the other side byte for byte, with its
/// modification time (where it is known, and where the remote keeps times), and stays
/// as it was on its own side. Two versions that turn out to be the same are not
/// written.
pub proof fn law_bytes_and_times_follow(
    job: JobView,
    at: Place,
    rules: Rules,
    included: bool,
    c: Choice,
)
    requires
        fits(job, at, rules, included),
        job.action == Action::Conflict ==> blake3_hex(at.local.unwrap().data) != blake3_hex(
            at.remote.unwrap().data,
        ),
    ensures
        local_prevails(job) ==> {
            let then = finished(job, at, c);
            &&& at.local is Some && then.local == at.local
            &&& then.remote is Some && then.remote.unwrap().data == at.local.unwrap().data
            &&& then.remote.unwrap().mtime == (if c.keeps_mtime {
                Some(at.local.unwrap().mtime)
            } else {
                c.remote_mtime
            })
        },
        remote_prevails(job) ==> {
            let then = finished(job, at, c);
            &&& at.remote is Some && then.remote == at.remote
            &&& then.local is Some && then.local.unwrap().data == at.remote.unwrap().data
            &&& then.local.unwrap().mtime == (match at.remote.unwrap().mtime {
                Some(t) => t,
                None => c.local_mtime,
            })
        },
{
    reveal_with_fuel(run, 6);
    law_actions_have_their_files(rules, included, job.local, job.remote, at.base);
}

/// The two sides and the baseline of a whole group, without what is excluded.
pub struct Stores {
    /// The local files.
    pub local: Map<Seq<char>, LocalFile>,
    /// The remote files.
    pub remote: Map<Seq<char>, RemoteFile>,
    /// The baseline.
    pub base: Map<Seq<char>, EntryView>,
}

/// One path of the stores.
pub open spec fn place_at(s: Stores, path: Seq<char>) -> Place {
    Place {
        local: lookup(s.local, path),
        remote: lookup(s.remote, path),
        base: lookup(s.base, path),
        copies: seq![],
    }
}

/// What a sync of the stores sees.
pub open spec fn view_of(s: Stores, included: spec_fn(Seq<char>) -> bool) -> Scene {
    Scene {
        local: s.local.map_values(|f: LocalFile| seen_local(Some(f)).unwrap()),
        remote: s.remote.map_values(|f: RemoteFile| seen_remote(Some(f)).unwrap()),
        base: s.base,
        included,
    }
}

/// Whether the two places hold the same, conflict copies aside.
pub open spec fn same_place(a: Place, b: Place) -> bool {
    a.local == b.local && a.remote == b.remote && a.base == b.base
}

/// Whether `after` is what a sync makes of `before`: the jobs were carried out,
/// and every other path is as it was.
pub open spec fn synced(
    before: Stores,
    after: Stores,
    included: spec_fn(Seq<char>) -> bool,
    rules: Rules,
    choices: spec_fn(Seq<char>) -> Choice,
) -> bool {
    let scene = view_of(before, included);
    forall|p: Seq<char>|
        same_place(
            #[trigger] place_at(after, p),
            if subjects(scene).contains(p) && job_at(scene, rules, p) is Some {
                finished(job_at(scene, rules, p).unwrap(), place_at(before, p), choices(p))
            } else {
                place_at(before, p)
            },
        )
}

/// After a sync, a second sync with the same rules has no jobs.
pub proof fn law_second_sync_is_quiet(
    before: Stores,
    after: Stores,
    included: spec_fn(Seq<char>) -> bool,
    rules: Rules,
    choices: spec_fn(Seq<char>) -> Choice,
)
    requires
        synced(before, after, included, rules, choices),
        forall|p: Seq<char>| #[trigger] before.local.dom().contains(p) ==> is_rel(p),
        forall|p: Seq<char>| #[trigger] before.remote.dom().contains(p) ==> is_rel(p),
        subjects(view_of(after, included)).finite(),
    ensures
        jobs_of(view_of(after, included), rules) == Seq::<JobView>::empty(),
{
    let scene = view_of(before, included);
    let then = view_of(after, included);
    assert forall|p: Seq<char>| #[trigger] subjects(then).contains(p) implies job_at(
        then,
        rules,
        p,
    ) is None by {
        lemma_path_is_quiet(before, after, included, rules, choices, p);
    }
    let listed = crate::table::lemma_listable(subjects(then));
    let keys = in_order(subjects(then));
    assert(crate::table::ascending(listed) && listed.to_set() == subjects(then));
    assert(crate::table::ascending(keys) && keys.to_set() == subjects(then));
    assert forall|i: int| 0 <= i < keys.len() implies subjects(then).contains(
        #[trigger] keys[i],
    ) by {
        assert(keys.to_set().contains(keys[i]));
    }
    lemma_no_jobs(then, rules, keys);
}

/// What a sync sees of one path.
proof fn lemma_seen(s: Stores, included: spec_fn(Seq<char>) -> bool, p: Seq<char>)
    ensures
        lookup(view_of(s, included).local, p) == seen_local(place_at(s, p).local),
        lookup(view_of(s, included).remote, p) == seen_remote(place_at(s, p).remote),
        lookup(view_of(s, included).base, p) == place_at(s, p).base,
{
}

/// No path gives a job after a sync.
proof fn lemma_path_is_quiet(
    before: Stores,
    after: Stores,
    included: spec_fn(Seq<char>) -> bool,
    rules: Rules,
    choices: spec_fn(Seq<char>) -> Choice,
    p: Seq<char>,
)
    requires
        synced(before, after, included, rules, choices),
        forall|p: Seq<char>| #[trigger] before.local.dom().contains(p) ==> is_rel(p),
        forall|p: Seq<char>| #[trigger] before.remote.dom().contains(p) ==> is_rel(p),
        subjects(view_of(after, included)).contains(p),
    ensures
        job_at(view_of(after, included), rules, p) is None,
{
    let scene = view_of(before, included);
    let then = view_of(after, included);
    lemma_seen(before, included, p);
    lemma_seen(after, included, p);
    assert(same_place(place_at(after, p), place_at(after, p)));
    let was = place_at(before, p);
    let now = place_at(after, p);
    if subjects(scene).contains(p) && job_at(scene, rules, p) is Some {
        let job = job_at(scene, rules, p).unwrap();
        assert(fits(job, was, rules, included(p)));
        law_done_is_done(job, was, rules, included(p), choices(p), rules, included(p));
    } else {
        assert(same_place(now, was));
        assert(job_at(then, rules, p) == job_at(scene, rules, p));
        if !subjects(scene).contains(p) {
            // The path can only have become a subject through a job of its own.
            let k = choose|k: Seq<char>| #[trigger]
                then.base.dom().contains(k) && normalized(k) == Some(p);
            assert(then.base.dom().contains(k) && normalized(k) == Some(p));
            lemma_seen(after, included, k);
            lemma_seen(before, included, k);
            assert(same_place(place_at(after, k), place_at(after, k)));
            law_normalized_is_relative(k);
            if subjects(scene).contains(k) && job_at(scene, rules, k) is Some {
                assert(is_rel(k)) by {
                    if !scene.local.dom().contains(k) && !scene.remote.dom().contains(k) {
                        let j = choose|j: Seq<char>| #[trigger]
                            scene.base.dom().contains(j) && normalized(j) == Some(k);
                        law_normalized_is_relative(j);
                    } else {
                        assert(before.local.dom().contains(k) || before.remote.dom().contains(k));
                    }
                }
                law_normalized_is_stable(k);
                assert(k == p);
            } else {
                assert(scene.base.dom().contains(k));
            }
        }
    }
}

proof fn lemma_no_jobs(scene: Scene, rules: Rules, keys: Seq<Seq<char>>)
    requires
        forall|i: int| 0 <= i < keys.len() ==> job_at(scene, rules, #[trigger] keys[i]) is None,
    ensures
        jobs_for(scene, rules, keys) == Seq::<JobView>::empty(),
    decreases keys.len(),
{
    if keys.len() > 0 {
        assert(job_at(scene, rules, keys[keys.len() - 1]) is None);
        assert forall|i: int| 0 <= i < keys.drop_last().len() implies job_at(
            scene,
            rules,
            #[trigger] keys.drop_last()[i],
        ) is None by {
            assert(keys[i] == keys.drop_last()[i]);
        }
        lemma_no_jobs(scene, rules, keys.drop_last());
    }
}

/// What the baseline does not know is never lost: unless a side is what the baseline
/// says, what it held before a job is still there afterwards, on a side or as a conflict
/// copy.
pub proof fn law_unknown_content_survives(
    job: JobView,
    at: Place,
    rules: Rules,
    included: bool,
    c: Choice,
)
    requires
        fits(job, at, rules, included),
    ensures
        at.local is Some && !local_settled(seen_local(at.local), at.base) ==> survives(
            finished(job, at, c),
            at.local.unwrap().data,
        ),
        at.remote is Some && !remote_settled(seen_remote(at.remote), at.base) ==> survives(
            finished(job, at, c),
            at.remote.unwrap().data,
        ),
{
    law_no_content_is_lost(job, at, rules, included, c);
}

/// A conflict copy is made exactly where both sides hold something that the baseline
/// does not know and the two are not the same. It is one copy, of the version that is
/// overwritten.
pub proof fn law_copies_are_of_what_is_overwritten(
    job: JobView,
    at: Place,
    rules: Rules,
    included: bool,
    c: Choice,
)
    requires
        fits(job, at, rules, included),
    ensures
        ({
            let then = finished(job, at, c);
            let clash = at.local is Some && at.remote is Some && !local_settled(
                seen_local(at.local),
                at.base,
            ) && !remote_settled(seen_remote(at.remote), at.base) && blake3_hex(
                at.local.unwrap().data,
            ) != blake3_hex(at.remote.unwrap().data);
            &&& !clash ==> then.copies == at.copies
            &&& clash ==> then.copies == at.copies.push(at.local.unwrap().data) || then.copies
                == at.copies.push(at.remote.unwrap().data)
            &&& clash && then.local == at.local ==> then.copies == at.copies.push(
                at.remote.unwrap().data,
            )
            &&& clash && then.remote == at.remote ==> then.copies == at.copies.push(
                at.local.unwrap().data,
            )
            &&& clash ==> then.local == at.local || then.remote == at.remote
        }),
{
    reveal_with_fuel(run, 6);
    law_actions_have_their_files(rules, included, job.local, job.remote, at.base);
    law_deletes_only_unchanged_files(rules, included, job.local, job.remote, at.base);
}

/// In a two-way conflict the younger version goes to both sides; the local one does
/// where neither is known to be younger.
pub proof fn law_younger_content_prevails(
    job: JobView,
    at: Place,
    rules: Rules,
    included: bool,
    c: Choice,
)
    requires
        fits(job, at, rules, included),
        job.action == Action::Conflict,
        blake3_hex(at.local.unwrap().data) != blake3_hex(at.remote.unwrap().data),
    ensures
        ({
            let then = finished(job, at, c);
            let younger = at.remote.unwrap().mtime matches Some(t) && t > at.local.unwrap().mtime;
            &&& at.local is Some
            &&& at.remote is Some
            &&& then.local.unwrap().data == (if younger {
                at.remote.unwrap().data
            } else {
                at.local.unwrap().data
            })
            &&& then.remote.unwrap().data == then.local.unwrap().data
        }),
{
    law_actions_have_their_files(rules, included, job.local, job.remote, at.base);
    law_bytes_and_times_follow(job, at, rules, included, c);
}

/// A deletion takes the file from the side that still has it, and nothing is left of it
/// anywhere, the baseline included.
pub proof fn law_deletions_are_carried_out(
    job: JobView,
    at: Place,
    rules: Rules,
    included: bool,
    c: Choice,
)
    requires
        fits(job, at, rules, included),
        job.action == Action::DeleteLocal || job.action == Action::DeleteRemote || job.action
            == Action::DropIndex,
    ensures
        ({
            let then = finished(job, at, c);
            then.local is None && then.remote is None && then.base is None && then.copies
                == at.copies
        }),
{
    reveal_with_fuel(run, 6);
    law_deletes_only_unchanged_files(rules, included, job.local, job.remote, at.base);
}

/// A job touches the baseline of its own path alone, and leaves there what the two sides
/// hold once it is done.
pub proof fn law_baseline_is_what_was_synced(
    job: JobView,
    at: Place,
    rules: Rules,
    included: bool,
    c: Choice,
    files: Map<Seq<char>, EntryView>,
    path: Seq<char>,
)
    requires
        fits(job, at, rules, included),
    ensures
        ({
            let then = finished(job, at, c);
            let f = run(job, at, no_facts(), c, enough()).1;
            let after = files_after(files, job, f);
            &&& path != job.path ==> after.dom().contains(path) == files.dom().contains(path)
            &&& path != job.path && files.dom().contains(path) ==> after[path] == files[path]
            &&& after.dom().contains(job.path) <==> then.local is Some
            &&& then.local is Some ==> after[job.path].local_hash == blake3_hex(
                then.local.unwrap().data,
            ) && after[job.path].remote_id == then.remote.unwrap().id
        }),
{
    lemma_run(job, at, rules, included, c);
}

/// A job is reported as what it did. One that saved a copy is a conflict, won by the side
/// whose version was not overwritten, and says where the copy is. One that removed a file
/// is a removal. One that found the same on both sides, or nothing on either, is not
/// reported. Any other wrote a file: that is an addition where there was no baseline, and
/// else a modification.
pub proof fn law_report_says_what_was_done(
    job: JobView,
    at: Place,
    rules: Rules,
    included: bool,
    c: Choice,
    report: ReportView,
)
    requires
        fits(job, at, rules, included),
    ensures
        ({
            let then = finished(job, at, c);
            let after = report_after(report, job, run(job, at, no_facts(), c, enough()).1);
            if then.copies.len() > at.copies.len() {
                let winner = if then.copies.last() == at.remote.unwrap().data {
                    Winner::Local
                } else {
                    Winner::Remote
                };
                after == (ReportView {
                    conflicts: report.conflicts.push(
                        ConflictView { path: job.path, winner, conflict_copy: c.copy },
                    ),
                    ..report
                })
            } else if job.action == Action::DeleteLocal || job.action == Action::DeleteRemote {
                after == (ReportView { removed: report.removed.push(job.path), ..report })
            } else if job.action == Action::Conflict || job.action == Action::DropIndex {
                after == report
            } else if at.base is Some {
                after == (ReportView { modified: report.modified.push(job.path), ..report })
            } else {
                after == (ReportView { added: report.added.push(job.path), ..report })
            }
        }),
{
    reveal_with_fuel(run, 6);
    law_actions_have_their_files(rules, included, job.local, job.remote, at.base);
    law_deletes_only_unchanged_files(rules, included, job.local, job.remote, at.base);
    let then = finished(job, at, c);
    if then.copies.len() > at.copies.len() {
        assert(then.copies.last() == at.local.unwrap().data || then.copies.last()
            == at.remote.unwrap().data);
    }
}

/// A two-way sync leaves nothing undone: afterwards both sides of every path hold the
/// file that the baseline says, or none is left. This is so where deletions are allowed
/// and there is no size limit.
pub proof fn law_two_way_sync_leaves_nothing_undone(
    before: Stores,
    after: Stores,
    included: spec_fn(Seq<char>) -> bool,
    rules: Rules,
    choices: spec_fn(Seq<char>) -> Choice,
    path: Seq<char>,
)
    requires
        synced(before, after, included, rules, choices),
        rules.scope == Scope::Mirror,
        !rules.remote_refresh,
        rules.deletions == Deletions::Allow,
        rules.max_file_size == 0,
        is_rel(path),
    ensures
        in_step(place_at(after, path)),
{
    let scene = view_of(before, included);
    lemma_seen(before, included, path);
    let was = place_at(before, path);
    assert(same_place(place_at(after, path), place_at(after, path)));
    crate::decide::law_two_way_paths_make_progress(
        rules,
        included(path),
        seen_local(was.local),
        seen_remote(was.remote),
        was.base,
    );
    if subjects(scene).contains(path) && job_at(scene, rules, path) is Some {
        let job = job_at(scene, rules, path).unwrap();
        assert(fits(job, was, rules, included(path)));
        lemma_run(job, was, rules, included(path), choices(path));
    } else if subjects(scene).contains(path) {
        assert(job_at(scene, rules, path) is None);
    } else {
        law_normalized_is_stable(path);
        if scene.base.dom().contains(path) {
            assert(scene.base.dom().contains(path) && normalized(path) == Some(path));
        }
    }
}

} // verus!
