//! What the CLI shows of the daemon's answers.

use crate::config::{warnings_about, Config};
use crate::decide::Winner;
use crate::ipc::{GroupOutcome, GroupPlan, GroupStatus, Response};
use crate::paths::Paths;
use crate::plan::{PlanOp, PlannedChange};
use crate::report::{count, SyncSummary};
use crate::text::{cat, cat3, cat4, cat5, chars_of, decimal, text_opt, texts};
use crate::timefmt::{is_shown, local, MAX_SECONDS};
use vstd::prelude::*;

verus! {

// ---------------------------------------------------------------------------
// Planned changes
// ---------------------------------------------------------------------------

/// The direction marker of a planned change.
pub open spec fn symbol(op: PlanOp) -> char {
    match op {
        PlanOp::Push { .. } | PlanOp::PushPreserveRemote | PlanOp::CreateRemoteDir => '↑',
        PlanOp::Pull { .. } | PlanOp::PullPreserveLocal | PlanOp::CreateLocalDir => '↓',
        PlanOp::DeleteLocal
        | PlanOp::DeleteRemote
        | PlanOp::DeleteLocalDir
        | PlanOp::DeleteRemoteDir => '✗',
        PlanOp::Conflict { .. } => '!',
        PlanOp::OversizeSkip { .. } => '·',
    }
}

/// A one-character direction marker for a planned op: `↑` uploads, `↓` downloads,
/// `✗` deletes, `!` conflicts, `·` skips.
pub fn op_symbol(op: &PlanOp) -> (out: char)
    ensures
        out == symbol(*op),
{
    match op {
        PlanOp::Push { .. } | PlanOp::PushPreserveRemote | PlanOp::CreateRemoteDir => '↑',
        PlanOp::Pull { .. } | PlanOp::PullPreserveLocal | PlanOp::CreateLocalDir => '↓',
        PlanOp::DeleteLocal
        | PlanOp::DeleteRemote
        | PlanOp::DeleteLocalDir
        | PlanOp::DeleteRemoteDir => '✗',
        PlanOp::Conflict { .. } => '!',
        PlanOp::OversizeSkip { .. } => '·',
    }
}

/// The name of a side.
pub open spec fn side_name(winner: Winner) -> Seq<char> {
    match winner {
        Winner::Local => "local"@,
        Winner::Remote => "remote"@,
    }
}

/// The name of a side.
pub fn winner_side(winner: Winner) -> (out: &'static str)
    ensures
        out@ == side_name(winner),
{
    match winner {
        Winner::Local => "local",
        Winner::Remote => "remote",
    }
}

/// A short description of a planned change; `size` is the size of the file in a
/// form for people.
pub open spec fn label(op: PlanOp, size: Seq<char>) -> Seq<char> {
    match op {
        PlanOp::Push { update } => if update {
            "upload"@
        } else {
            "upload (new)"@
        },
        PlanOp::Pull { update } => if update {
            "download"@
        } else {
            "download (new)"@
        },
        PlanOp::DeleteLocal => "delete local"@,
        PlanOp::DeleteRemote => "delete remote"@,
        PlanOp::Conflict { winner } => "conflict (keep "@ + side_name(winner) + ")"@,
        PlanOp::PullPreserveLocal => "download (local kept as conflict copy)"@,
        PlanOp::PushPreserveRemote => "upload (remote kept as conflict copy)"@,
        PlanOp::OversizeSkip { .. } => "skip ("@ + size + " over max_file_size)"@,
        PlanOp::CreateLocalDir => "create local dir"@,
        PlanOp::CreateRemoteDir => "create remote dir"@,
        PlanOp::DeleteLocalDir => "delete local dir"@,
        PlanOp::DeleteRemoteDir => "delete remote dir"@,
    }
}

/// A short human description of a planned op. `size` is the size of the file in a
/// form for people, used where the file is too large.
pub fn op_label(op: &PlanOp, size: &str) -> (out: String)
    ensures
        out@ == label(*op, size@),
{
    match op {
        PlanOp::Push { update } => if *update {
            "upload".to_string()
        } else {
            "upload (new)".to_string()
        },
        PlanOp::Pull { update } => if *update {
            "download".to_string()
        } else {
            "download (new)".to_string()
        },
        PlanOp::DeleteLocal => "delete local".to_string(),
        PlanOp::DeleteRemote => "delete remote".to_string(),
        PlanOp::Conflict { winner } => cat3("conflict (keep ", winner_side(*winner), ")"),
        PlanOp::PullPreserveLocal => "download (local kept as conflict copy)".to_string(),
        PlanOp::PushPreserveRemote => "upload (remote kept as conflict copy)".to_string(),
        PlanOp::OversizeSkip { .. } => cat3("skip (", size, " over max_file_size)"),
        PlanOp::CreateLocalDir => "create local dir".to_string(),
        PlanOp::CreateRemoteDir => "create remote dir".to_string(),
        PlanOp::DeleteLocalDir => "delete local dir".to_string(),
        PlanOp::DeleteRemoteDir => "delete remote dir".to_string(),
    }
}

/// A text with spaces behind it, up to the given width.
pub open spec fn padded(s: Seq<char>, width: int) -> Seq<char> {
    if s.len() < width {
        s + Seq::new((width - s.len()) as nat, |i: int| ' ')
    } else {
        s
    }
}

/// The width of the column of descriptions.
pub const LABEL_WIDTH: usize = 38;

/// A text with spaces behind it, up to the width of the column of descriptions.
fn pad(s: &str) -> (out: String)
    ensures
        out@ == padded(s@, LABEL_WIDTH as int),
{
    let mut n: usize = chars_of(s).len();
    let mut out = s.to_string();
    while n < LABEL_WIDTH
        invariant
            out@ == padded(s@, n as int),
            s@.len() <= n,
            n <= LABEL_WIDTH || n == s@.len(),
        decreases LABEL_WIDTH - n,
    {
        let ghost before = out@;
        out.push(' ');
        n = n + 1;
        assert(out@ =~= padded(s@, n as int));
    }
    out
}

/// The line of a planned change.
pub open spec fn change_line(path: Seq<char>, op: PlanOp, size: Seq<char>) -> Seq<char> {
    "  "@ + seq![symbol(op)] + " "@ + padded(label(op, size), LABEL_WIDTH as int) + " "@ + path
}

/// The line of a planned change.
fn render_change(change: &PlannedChange, size: &str) -> (out: String)
    ensures
        out@ == change_line(change.path@, change.op, size@),
{
    let mut start = "  ".to_string();
    start.push(op_symbol(&change.op));
    assert(start@ =~= "  "@ + seq![symbol(change.op)]);
    let text = pad(op_label(&change.op, size).as_str());
    cat5(start.as_str(), " ", text.as_str(), " ", change.path.as_str())
}

/// The lines of the first `n` planned changes.
pub open spec fn change_lines(
    changes: Seq<(Seq<char>, PlanOp)>,
    sizes: Seq<Seq<char>>,
    n: int,
) -> Seq<Seq<char>> {
    Seq::new(n as nat, |i: int| change_line(changes[i].0, changes[i].1, sizes[i]))
}

/// The lines of a dry run.
pub open spec fn plan_lines(
    name: Seq<char>,
    error: Option<Seq<char>>,
    changes: Seq<(Seq<char>, PlanOp)>,
    sizes: Seq<Seq<char>>,
) -> Seq<Seq<char>> {
    match error {
        Some(e) => seq![name + " (dry run): ERROR: "@ + e],
        None => if changes.len() == 0 {
            seq![name + " (dry run): no changes"@]
        } else {
            seq![
                name + " (dry run): "@ + decimal(changes.len()) + " change"@ + if changes.len()
                    == 1 {
                    ""@
                } else {
                    "s"@
                },
            ] + change_lines(changes, sizes, changes.len() as int)
        },
    }
}

/// The changes of a dry run.
pub open spec fn changes_of(gp: GroupPlan) -> Seq<(Seq<char>, PlanOp)> {
    match gp.plan {
        Some(p) => p@,
        None => seq![],
    }
}

/// The lines of a dry run of a group. `sizes` gives the size of each change in a
/// form for people.
pub fn render_plan(gp: &GroupPlan, sizes: &Vec<String>) -> (out: Vec<String>)
    requires
        changes_of(*gp).len() <= sizes@.len(),
    ensures
        texts(out@) == plan_lines(
            gp.label@,
            text_opt(gp.error),
            changes_of(*gp),
            texts(sizes@),
        ),
{
    let name = gp.label.as_str();
    let mut out: Vec<String> = Vec::new();
    let ghost wanted = plan_lines(name@, text_opt(gp.error), changes_of(*gp), texts(sizes@));
    if let Some(e) = &gp.error {
        out.push(cat3(name, " (dry run): ERROR: ", e.as_str()));
        assert(texts(out@) =~= wanted);
        return out;
    }
    let plan = match &gp.plan {
        Some(p) => p,
        None => {
            out.push(cat(name, " (dry run): no changes"));
            assert(texts(out@) =~= wanted);
            return out;
        },
    };
    let ghost all = plan@;
    let total: usize = plan.changes.len();
    if total == 0 {
        out.push(cat(name, " (dry run): no changes"));
        assert(texts(out@) =~= wanted);
        return out;
    }
    let plural = if total == 1 {
        ""
    } else {
        "s"
    };
    let n = count(total);
    let head = cat5(name, " (dry run): ", n.as_str(), " change", plural);
    let ghost first = head@;
    out.push(head);
    let mut i: usize = 0;
    while i < plan.changes.len()
        invariant
            i <= plan.changes@.len(),
            all == plan@,
            plan.changes@.len() <= sizes@.len(),
            out@.len() == i + 1,
            texts(out@) =~= seq![first] + change_lines(all, texts(sizes@), i as int),
        decreases plan.changes.len() - i,
    {
        let ghost before = texts(out@);
        let line = render_change(&plan.changes[i], sizes[i].as_str());
        let ghost l = line@;
        out.push(line);
        assert(texts(out@) =~= before.push(l));
        assert(all[i as int] == (plan.changes@[i as int].path@, plan.changes@[i as int].op));
        i = i + 1;
    }
    out
}

// ---------------------------------------------------------------------------
// Outcomes and status
// ---------------------------------------------------------------------------

/// The line of the outcome of a group.
pub open spec fn outcome_line(
    name: Seq<char>,
    summary: Option<SyncSummary>,
    error: Option<Seq<char>>,
) -> Seq<char> {
    match summary {
        Some(s) => name + ": "@ + s.text(),
        None => match error {
            Some(e) => name + ": ERROR: "@ + e,
            None => name + ": done"@,
        },
    }
}

/// The line of the outcome of a group.
pub fn render_outcome(o: &GroupOutcome) -> (out: String)
    ensures
        out@ == outcome_line(o.label@, o.summary, text_opt(o.error)),
{
    match (&o.summary, &o.error) {
        (Some(s), _) => cat3(o.label.as_str(), ": ", s.render().as_str()),
        (None, Some(e)) => cat3(o.label.as_str(), ": ERROR: ", e.as_str()),
        (None, None) => cat(o.label.as_str(), ": done"),
    }
}

/// Whether an outcome is a failure.
pub open spec fn has_failed(o: GroupOutcome) -> bool {
    o.summary is None && o.error is Some
}

/// The two lines of the status of a group, given the time of its last run.
pub open spec fn status_lines(
    name: Seq<char>,
    trigger: Seq<char>,
    root: Seq<char>,
    summary: Option<SyncSummary>,
    error: Option<Seq<char>>,
    time: Seq<char>,
) -> (Seq<char>, Seq<char>) {
    (
        name + " ["@ + trigger + "] root="@ + root,
        match error {
            Some(e) => "  last run: ERROR ("@ + time + "): "@ + e,
            None => match summary {
                Some(s) => "  last run: "@ + time + " — "@ + s.text(),
                None => "  last run: "@ + time,
            },
        },
    )
}

/// The two lines of the status of a group, given the time of its last run.
pub fn render_status(g: &GroupStatus, time: &str) -> (out: (String, String))
    ensures
        (out.0@, out.1@) == status_lines(
            g.label@,
            g.trigger@,
            g.root@,
            g.last_summary,
            text_opt(g.last_error),
            time@,
        ),
{
    let first = cat5(
        g.label.as_str(),
        " [",
        g.trigger.as_str(),
        "] root=",
        g.root.as_str(),
    );
    let second = match (&g.last_summary, &g.last_error) {
        (_, Some(e)) => cat4("  last run: ERROR (", time, "): ", e.as_str()),
        (Some(s), None) => cat4("  last run: ", time, " — ", s.render().as_str()),
        (None, None) => cat("  last run: ", time),
    };
    (first, second)
}

/// The time of the last run in the time zone of the machine, or `never`.
pub fn shown_time(last_run: Option<u64>) -> (out: String)
    requires
        last_run matches Some(secs) ==> secs <= MAX_SECONDS,
    ensures
        is_time_of(last_run, out@),
{
    match last_run {
        Some(secs) => local(secs),
        None => "never".to_string(),
    }
}

/// Whether `text` is what is shown of the time of a last run.
pub open spec fn is_time_of(last_run: Option<u64>, text: Seq<char>) -> bool {
    match last_run {
        Some(secs) => is_shown(secs, text),
        None => text == "never"@,
    }
}

/// The groups of a status.
pub open spec fn groups_of(response: Response) -> Seq<GroupStatus> {
    match response {
        Response::Status(groups) => groups@,
        _ => seq![],
    }
}

/// Whether the times of the last runs are in the calendar.
pub open spec fn runs_in_calendar(groups: Seq<GroupStatus>) -> bool {
    forall|i: int|
        0 <= i < groups.len() ==> ((#[trigger] groups[i]).last_run matches Some(secs) ==> secs
            <= MAX_SECONDS)
}

/// The times of the last runs of the groups of a status, in their order; `None` if one
/// of them is not in the calendar.
pub fn status_times(response: &Response) -> (out: Option<Vec<String>>)
    ensures
        match out {
            Some(times) => runs_in_calendar(groups_of(*response)) && times@.len() == groups_of(
                *response,
            ).len() && forall|i: int|
                0 <= i < times@.len() ==> is_time_of(
                    groups_of(*response)[i].last_run,
                    (#[trigger] times@[i])@,
                ),
            None => !runs_in_calendar(groups_of(*response)),
        },
{
    let mut out: Vec<String> = Vec::new();
    let groups = match response {
        Response::Status(groups) => groups,
        _ => {
            return Some(out);
        },
    };
    let mut i: usize = 0;
    while i < groups.len()
        invariant
            i <= groups@.len(),
            groups@ == groups_of(*response),
            out@.len() == i,
            forall|j: int|
                0 <= j < i ==> ((#[trigger] groups@[j]).last_run matches Some(secs) ==> secs
                    <= MAX_SECONDS),
            forall|j: int|
                0 <= j < i ==> is_time_of(groups@[j].last_run, (#[trigger] out@[j])@),
        decreases groups.len() - i,
    {
        let last_run = groups[i].last_run;
        if let Some(secs) = last_run {
            if secs > MAX_SECONDS {
                assert(groups_of(*response)[i as int].last_run == Some(secs));
                return None;
            }
        }
        out.push(shown_time(last_run));
        i = i + 1;
    }
    Some(out)
}

/// The plans of a dry run.
pub open spec fn plans_of(response: Response) -> Seq<GroupPlan> {
    match response {
        Response::Planned(plans) => plans@,
        _ => seq![],
    }
}

/// The size that is shown with a change: that of a file that is skipped for it.
pub open spec fn size_of_op(op: PlanOp) -> u64 {
    match op {
        PlanOp::OversizeSkip { size } => size,
        _ => 0,
    }
}

/// The sizes of the changes of a plan, in their order.
fn change_sizes(gp: &GroupPlan) -> (out: Vec<u64>)
    ensures
        out@.len() == changes_of(*gp).len(),
        forall|i: int| 0 <= i < out@.len() ==> #[trigger] out@[i] == size_of_op(changes_of(*gp)[i].1),
{
    let mut out: Vec<u64> = Vec::new();
    if let Some(plan) = &gp.plan {
        let mut i: usize = 0;
        while i < plan.changes.len()
            invariant
                i <= plan.changes@.len(),
                out@.len() == i,
                forall|j: int|
                    0 <= j < i ==> #[trigger] out@[j] == size_of_op(plan.changes@[j].op),
            decreases plan.changes.len() - i,
        {
            out.push(
                match &plan.changes[i].op {
                    PlanOp::OversizeSkip { size } => *size,
                    _ => 0,
                },
            );
            i = i + 1;
        }
    }
    out
}

/// The sizes of the changes of a dry run, in their order.
pub fn plan_sizes(response: &Response) -> (out: Vec<Vec<u64>>)
    ensures
        out@.len() == plans_of(*response).len(),
        forall|i: int|
            0 <= i < out@.len() ==> (#[trigger] out@[i])@.len() == changes_of(
                plans_of(*response)[i],
            ).len() && forall|k: int|
                0 <= k < out@[i]@.len() ==> #[trigger] out@[i]@[k] == size_of_op(
                    changes_of(plans_of(*response)[i])[k].1,
                ),
{
    let mut out: Vec<Vec<u64>> = Vec::new();
    if let Response::Planned(plans) = response {
        let mut i: usize = 0;
        while i < plans.len()
            invariant
                i <= plans@.len(),
                plans@ == plans_of(*response),
                out@.len() == i,
                forall|j: int|
                    0 <= j < i ==> (#[trigger] out@[j])@.len() == changes_of(plans@[j]).len()
                        && forall|k: int|
                        0 <= k < out@[j]@.len() ==> #[trigger] out@[j]@[k] == size_of_op(
                            changes_of(plans@[j])[k].1,
                        ),
            decreases plans.len() - i,
        {
            out.push(change_sizes(&plans[i]));
            i = i + 1;
        }
    }
    out
}

// ---------------------------------------------------------------------------
// Answers
// ---------------------------------------------------------------------------

/// What is shown of an answer.
#[derive(Debug)]
pub struct Shown {
    /// The lines.
    pub lines: Vec<String>,
    /// Whether they tell of an error of the request itself.
    pub is_error: bool,
    /// Whether the command succeeded.
    pub ok: bool,
}

/// The lines of the status of the groups.
pub open spec fn all_status_lines(groups: Seq<GroupStatus>, times: Seq<Seq<char>>) -> Seq<
    Seq<char>,
>
    decreases groups.len(),
{
    if groups.len() == 0 {
        seq![]
    } else {
        let n = groups.len() - 1;
        let g = groups[n];
        let pair = status_lines(
            g.label@,
            g.trigger@,
            g.root@,
            g.last_summary,
            text_opt(g.last_error),
            times[n],
        );
        all_status_lines(groups.drop_last(), times).push(pair.0).push(pair.1)
    }
}

/// The lines of the outcomes of the groups.
pub open spec fn all_outcome_lines(outcomes: Seq<GroupOutcome>) -> Seq<Seq<char>> {
    outcomes.map_values(
        |o: GroupOutcome| outcome_line(o.label@, o.summary, text_opt(o.error)),
    )
}

/// The sizes of the changes of each group, as texts.
pub open spec fn size_texts(sizes: Seq<Vec<String>>) -> Seq<Seq<Seq<char>>> {
    sizes.map_values(|v: Vec<String>| texts(v@))
}

/// The lines of the dry runs of the groups.
pub open spec fn all_plan_lines(plans: Seq<GroupPlan>, sizes: Seq<Seq<Seq<char>>>) -> Seq<Seq<char>>
    decreases plans.len(),
{
    if plans.len() == 0 {
        seq![]
    } else {
        let n = plans.len() - 1;
        let gp = plans[n];
        all_plan_lines(plans.drop_last(), sizes) + plan_lines(
            gp.label@,
            text_opt(gp.error),
            changes_of(gp),
            sizes[n],
        )
    }
}

/// Whether every dry run has a size text for each of its changes.
pub open spec fn sizes_fit(plans: Seq<GroupPlan>, sizes: Seq<Vec<String>>) -> bool {
    &&& plans.len() <= sizes.len()
    &&& forall|i: int|
        0 <= i < plans.len() ==> changes_of(#[trigger] plans[i]).len() <= sizes[i]@.len()
}

/// The status of the groups, given the times of their last runs.
pub fn show_status(groups: &Vec<GroupStatus>, times: &Vec<String>) -> (out: Shown)
    requires
        groups@.len() <= times@.len(),
    ensures
        out.ok,
        !out.is_error,
        texts(out.lines@) == (if groups@.len() == 0 {
            seq!["no active sync groups"@]
        } else {
            all_status_lines(groups@, texts(times@))
        }),
{
    let mut lines: Vec<String> = Vec::new();
    if groups.len() == 0 {
        lines.push("no active sync groups".to_string());
        assert(texts(lines@) =~= seq!["no active sync groups"@]);
        return Shown { lines, is_error: false, ok: true };
    }
    let ghost all = groups@;
    let mut i: usize = 0;
    assert(all.take(0) =~= Seq::<GroupStatus>::empty());
    assert(texts(lines@) =~= Seq::<Seq<char>>::empty());
    while i < groups.len()
        invariant
            i <= groups@.len(),
            all == groups@,
            groups@.len() <= times@.len(),
            texts(lines@) == all_status_lines(all.take(i as int), texts(times@)),
        decreases groups.len() - i,
    {
        let ghost before = texts(lines@);
        let (first, second) = render_status(&groups[i], times[i].as_str());
        let ghost pair = (first@, second@);
        lines.push(first);
        lines.push(second);
        assert(texts(lines@) =~= before.push(pair.0).push(pair.1));
        assert(all.take(i + 1).drop_last() =~= all.take(i as int));
        assert(all.take(i + 1).last() == groups@[i as int]);
        i = i + 1;
    }
    assert(all.take(all.len() as int) =~= all);
    Shown { lines, is_error: false, ok: true }
}

/// The outcomes of the groups. The command succeeded if none of them failed.
pub fn show_outcomes(outcomes: &Vec<GroupOutcome>) -> (out: Shown)
    ensures
        texts(out.lines@) == all_outcome_lines(outcomes@),
        !out.is_error,
        out.ok == (forall|i: int| 0 <= i < outcomes@.len() ==> !has_failed(#[trigger] outcomes@[i])),
{
    let mut lines: Vec<String> = Vec::new();
    let mut ok = true;
    let mut i: usize = 0;
    while i < outcomes.len()
        invariant
            i <= outcomes@.len(),
            lines@.len() == i,
            texts(lines@) =~= all_outcome_lines(outcomes@).take(i as int),
            ok == (forall|j: int| 0 <= j < i ==> !has_failed(#[trigger] outcomes@[j])),
        decreases outcomes.len() - i,
    {
        let o = &outcomes[i];
        let ghost before = texts(lines@);
        let line = render_outcome(o);
        let ghost l = line@;
        lines.push(line);
        assert(texts(lines@) =~= before.push(l));
        if o.summary.is_none() && o.error.is_some() {
            assert(has_failed(outcomes@[i as int]));
            ok = false;
        }
        i = i + 1;
    }
    Shown { lines, is_error: false, ok }
}

/// The dry runs of the groups, given the sizes of the changes in a form for
/// people. The command succeeded if every plan could be made.
pub fn show_plans(plans: &Vec<GroupPlan>, sizes: &Vec<Vec<String>>) -> (out: Shown)
    requires
        sizes_fit(plans@, sizes@),
    ensures
        texts(out.lines@) == all_plan_lines(plans@, size_texts(sizes@)),
        !out.is_error,
        out.ok == (forall|i: int| 0 <= i < plans@.len() ==> (#[trigger] plans@[i]).error is None),
{
    let mut lines: Vec<String> = Vec::new();
    let mut ok = true;
    let ghost all = plans@;
    let mut i: usize = 0;
    assert(all.take(0) =~= Seq::<GroupPlan>::empty());
    assert(texts(lines@) =~= Seq::<Seq<char>>::empty());
    while i < plans.len()
        invariant
            i <= plans@.len(),
            all == plans@,
            sizes_fit(plans@, sizes@),
            texts(lines@) == all_plan_lines(all.take(i as int), size_texts(sizes@)),
            ok == (forall|j: int| 0 <= j < i ==> (#[trigger] plans@[j]).error is None),
        decreases plans.len() - i,
    {
        let ghost before = texts(lines@);
        let ghost old_lines = lines@;
        let gp = &plans[i];
        let mut more = render_plan(gp, &sizes[i]);
        let ghost added = more@;
        lines.append(&mut more);
        assert(texts(lines@) =~= before + texts(added));
        assert(all.take(i + 1).drop_last() =~= all.take(i as int));
        assert(all.take(i + 1).last() == *gp);
        if gp.error.is_some() {
            ok = false;
        }
        i = i + 1;
    }
    assert(all.take(all.len() as int) =~= all);
    Shown { lines, is_error: false, ok }
}

/// What is shown of an answer, given the times of the last runs (for a status) and
/// the sizes of the planned changes (for a dry run).
pub fn show_response(response: &Response, times: &Vec<String>, sizes: &Vec<Vec<String>>) -> (out:
    Shown)
    requires
        response matches Response::Status(groups) ==> groups@.len() <= times@.len(),
        response matches Response::Planned(plans) ==> sizes_fit(plans@, sizes@),
    ensures
        out.is_error == (response is Error),
        match *response {
            Response::Status(groups) => out.ok && texts(out.lines@) == (if groups@.len() == 0 {
                seq!["no active sync groups"@]
            } else {
                all_status_lines(groups@, texts(times@))
            }),
            Response::Synced(outcomes) => texts(out.lines@) == all_outcome_lines(outcomes@)
                && out.ok == (forall|i: int|
                0 <= i < outcomes@.len() ==> !has_failed(#[trigger] outcomes@[i])),
            Response::Planned(plans) => texts(out.lines@) == all_plan_lines(
                plans@,
                size_texts(sizes@),
            ) && out.ok == (forall|i: int|
                0 <= i < plans@.len() ==> (#[trigger] plans@[i]).error is None),
            Response::Reloaded { ok, message } => out.ok == ok && texts(out.lines@)
                == seq![message@],
            Response::Error(e) => !out.ok && texts(out.lines@) == seq!["error: "@ + e@],
        },
{
    match response {
        Response::Status(groups) => show_status(groups, times),
        Response::Synced(outcomes) => show_outcomes(outcomes),
        Response::Planned(plans) => show_plans(plans, sizes),
        Response::Reloaded { ok, message } => {
            let mut lines: Vec<String> = Vec::new();
            lines.push(message.clone());
            assert(texts(lines@) =~= seq![message@]);
            Shown { lines, is_error: false, ok: *ok }
        },
        Response::Error(e) => {
            let mut lines: Vec<String> = Vec::new();
            lines.push(cat("error: ", e.as_str()));
            assert(texts(lines@) =~= seq!["error: "@ + e@]);
            Shown { lines, is_error: true, ok: false }
        },
    }
}

// ---------------------------------------------------------------------------
// Configuration
// ---------------------------------------------------------------------------

/// The lines that show where things are.
pub fn path_lines(paths: &Paths) -> (out: Vec<String>)
    ensures
        texts(out@) == seq![
            "config: "@ + paths.config@,
            "state:  "@ + paths.state@,
            "socket: "@ + paths.socket@,
        ],
{
    let mut out: Vec<String> = Vec::new();
    out.push(cat("config: ", paths.config.as_str()));
    out.push(cat("state:  ", paths.state.as_str()));
    out.push(cat("socket: ", paths.socket.as_str()));
    assert(texts(out@) =~= seq![
        "config: "@ + paths.config@,
        "state:  "@ + paths.state@,
        "socket: "@ + paths.socket@,
    ]);
    out
}

/// The lines that are shown of a valid configuration: how much it holds, and the
/// warnings about it.
pub fn validation_lines(config: &Config) -> (out: Vec<String>)
    ensures
        texts(out@) == seq![
            "ok: "@ + decimal(config.remotes@.len()) + " remote(s), "@ + decimal(
                config.syncs@.len(),
            ) + " sync group(s)"@,
        ] + warnings_about(config.syncs@, config.syncs@.len() as int).map_values(
            |w: Seq<char>| "warning: "@ + w,
        ),
{
    let remotes = count(config.remotes.len());
    let syncs = count(config.syncs.len());
    let first = cat5("ok: ", remotes.as_str(), " remote(s), ", syncs.as_str(), " sync group(s)");
    let ghost head = first@;
    let warnings = config.warnings();
    let ghost ws = texts(warnings@);
    let mut out: Vec<String> = Vec::new();
    out.push(first);
    let mut i: usize = 0;
    while i < warnings.len()
        invariant
            i <= warnings@.len(),
            ws == texts(warnings@),
            out@.len() == i + 1,
            texts(out@) =~= seq![head] + ws.take(i as int).map_values(
                |w: Seq<char>| "warning: "@ + w,
            ),
        decreases warnings.len() - i,
    {
        let ghost before = texts(out@);
        let line = cat("warning: ", warnings[i].as_str());
        let ghost l = line@;
        assert(l == "warning: "@ + ws[i as int]);
        out.push(line);
        assert(texts(out@) =~= before.push(l));
        i = i + 1;
    }
    assert(ws.take(ws.len() as int) =~= ws);
    out
}

/// A dry run shows a line for every change, in order, below a line that counts them: a
/// line names its path at the end and says with its mark which way the change goes.
pub proof fn law_every_change_is_shown(
    name: Seq<char>,
    changes: Seq<(Seq<char>, PlanOp)>,
    sizes: Seq<Seq<char>>,
    i: int,
)
    requires
        0 <= i < changes.len(),
    ensures
        ({
            let lines = plan_lines(name, None, changes, sizes);
            let line = lines[i + 1];
            let path = changes[i].0;
            let op = changes[i].1;
            &&& lines.len() == changes.len() + 1
            &&& line.len() >= path.len() + LABEL_WIDTH + 5
            &&& line.skip(line.len() - path.len()) == path
            &&& op is Push || op is PushPreserveRemote || op is CreateRemoteDir <==> line[2] == '↑'
            &&& op is Pull || op is PullPreserveLocal || op is CreateLocalDir <==> line[2] == '↓'
            &&& op is DeleteLocal || op is DeleteRemote || op is DeleteLocalDir || op
                is DeleteRemoteDir <==> line[2] == '✗'
            &&& op is Conflict <==> line[2] == '!'
            &&& op is OversizeSkip <==> line[2] == '·'
        }),
{
    reveal_strlit("  ");
    reveal_strlit(" ");
    let lines = plan_lines(name, None, changes, sizes);
    let path = changes[i].0;
    let op = changes[i].1;
    assert(lines[i + 1] == change_line(path, op, sizes[i]));
    let line = change_line(path, op, sizes[i]);
    assert(line.skip(line.len() - path.len()) =~= path);
    assert(line[2] == symbol(op));
}

/// The status shows two lines for every group, in order, and an error of the last run is
/// shown before its counts.
pub proof fn law_every_group_is_shown(groups: Seq<GroupStatus>, times: Seq<Seq<char>>, i: int)
    requires
        0 <= i < groups.len(),
    ensures
        ({
            let lines = all_status_lines(groups, times);
            let g = groups[i];
            &&& lines.len() == 2 * groups.len()
            &&& lines[2 * i] == g.label@ + " ["@ + g.trigger@ + "] root="@ + g.root@
            &&& g.last_error matches Some(e) ==> lines[2 * i + 1] == "  last run: ERROR ("@
                + times[i] + "): "@ + e@
            &&& g.last_error is None ==> (g.last_summary matches Some(s) ==> lines[2 * i + 1]
                == "  last run: "@ + times[i] + " — "@ + s.text())
            &&& g.last_error is None && g.last_summary is None ==> lines[2 * i + 1]
                == "  last run: "@ + times[i]
        }),
    decreases groups.len(),
{
    let less = groups.drop_last();
    if i < less.len() {
        law_every_group_is_shown(less, times, i);
        assert(less[i] == groups[i]);
    } else if less.len() > 0 {
        law_every_group_is_shown(less, times, 0);
    } else {
        assert(all_status_lines(less, times).len() == 0);
    }
}

/// Outcomes are shown line by line, in order: the counts of a run that succeeded, or the
/// error of one that failed. A command fails exactly where a run did.
pub proof fn law_every_outcome_is_shown(outcomes: Seq<GroupOutcome>, i: int)
    requires
        0 <= i < outcomes.len(),
    ensures
        ({
            let line = all_outcome_lines(outcomes)[i];
            let o = outcomes[i];
            &&& all_outcome_lines(outcomes).len() == outcomes.len()
            &&& o.summary matches Some(s) ==> line == o.label@ + ": "@ + s.text()
            &&& o.summary is None ==> (o.error matches Some(e) ==> line == o.label@ + ": ERROR: "@
                + e@)
            &&& has_failed(o) <==> o.summary is None && o.error is Some
        }),
{
}

/// Dry runs are shown one after the other: first all lines of the first group, and so on.
pub proof fn law_every_plan_is_shown(
    plans: Seq<GroupPlan>,
    sizes: Seq<Seq<Seq<char>>>,
    last: GroupPlan,
)
    ensures
        all_plan_lines(plans.push(last), sizes) == all_plan_lines(plans, sizes) + plan_lines(
            last.label@,
            text_opt(last.error),
            changes_of(last),
            sizes[plans.len() as int],
        ),
        last.plan matches Some(p) ==> changes_of(last) == p@,
        text_opt(last.error) is Some ==> plan_lines(
            last.label@,
            text_opt(last.error),
            changes_of(last),
            sizes[plans.len() as int],
        ).len() == 1,
{
    assert(plans.push(last).drop_last() =~= plans);
}

/// The size that is shown with a change is that of the file that is skipped.
pub proof fn law_skipped_size_is_shown(op: PlanOp)
    ensures
        op matches PlanOp::OversizeSkip { size } ==> size_of_op(op) == size,
{
}

/// What is said of a change names the side that it is made on, the side that is kept, and
/// whether the file is new.
pub proof fn law_changes_are_named(size: Seq<char>)
    ensures
        label(PlanOp::Push { update: true }, size) == "upload"@,
        label(PlanOp::Push { update: false }, size) == "upload (new)"@,
        label(PlanOp::Pull { update: true }, size) == "download"@,
        label(PlanOp::Pull { update: false }, size) == "download (new)"@,
        label(PlanOp::DeleteLocal, size) == "delete local"@,
        label(PlanOp::DeleteRemote, size) == "delete remote"@,
        label(PlanOp::Conflict { winner: Winner::Local }, size) == "conflict (keep "@ + "local"@
            + ")"@,
        label(PlanOp::Conflict { winner: Winner::Remote }, size) == "conflict (keep "@ + "remote"@
            + ")"@,
        label(PlanOp::PullPreserveLocal, size) == "download (local kept as conflict copy)"@,
        label(PlanOp::PushPreserveRemote, size) == "upload (remote kept as conflict copy)"@,
        label(PlanOp::CreateLocalDir, size) == "create local dir"@,
        label(PlanOp::CreateRemoteDir, size) == "create remote dir"@,
        label(PlanOp::DeleteLocalDir, size) == "delete local dir"@,
        label(PlanOp::DeleteRemoteDir, size) == "delete remote dir"@,
        forall|n: u64|
            #[trigger] label(PlanOp::OversizeSkip { size: n }, size) == "skip ("@ + size
                + " over max_file_size)"@,
{
}

/// There is a time for the last run of every group, and a group that never ran says so.
pub proof fn law_times_of_the_last_runs(response: &Response, out: Option<Vec<String>>, i: int)
    requires
        call_ensures(status_times, (response,), out),
        out is Some,
        *response matches Response::Status(groups) && 0 <= i < groups@.len(),
    ensures
        ({
            let groups = response->Status_0@;
            &&& out.unwrap()@.len() == groups.len()
            &&& groups[i].last_run is None ==> out.unwrap()@[i]@ == "never"@
            &&& groups[i].last_run matches Some(t) ==> is_shown(t, out.unwrap()@[i]@)
        }),
{
    let times = out.unwrap()@;
    assert(is_time_of(groups_of(*response)[i].last_run, times[i]@));
}

/// What is shown of an answer succeeds or fails as what it tells of does.
pub proof fn law_answers_succeed_as_they_say(
    response: &Response,
    times: &Vec<String>,
    sizes: &Vec<Vec<String>>,
    out: Shown,
    i: int,
)
    requires
        call_ensures(show_response, (response, times, sizes), out),
    ensures
        *response is Error <==> out.is_error,
        *response is Error ==> !out.ok,
        *response is Status ==> out.ok,
        *response matches Response::Reloaded { ok, message } ==> out.ok == ok,
        *response matches Response::Synced(os) ==> (0 <= i < os@.len() && os@[i].summary is None
            && os@[i].error is Some ==> !out.ok),
        *response matches Response::Planned(ps) ==> (0 <= i < ps@.len() && ps@[i].error is Some
            ==> !out.ok),
{
    if let Response::Synced(os) = *response {
        if 0 <= i < os@.len() && os@[i].summary is None && os@[i].error is Some {
            assert(has_failed(os@[i]));
        }
    }
}

} // verus!
