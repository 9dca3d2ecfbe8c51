//! The decision for a single path: how each side changed since the baseline,
//! and what follows from that under the group's rules.

use crate::index::{EntryView, IndexEntry};
use crate::model::{Deletions, FileMeta, FileView, RemoteMeta, RemoteView, Scope};
use crate::text::same;
use vstd::prelude::*;

verus! {

/// Which side won a conflict.
#[derive(Debug, Clone, Copy, PartialEq, Eq, Structural)]
pub enum Winner {
    /// Local file was kept; remote version saved as a conflict copy.
    Local,
    /// Remote file was kept; local version saved as a conflict copy.
    Remote,
}

/// How a side changed relative to the baseline.
#[derive(Debug, Clone, Copy, PartialEq, Eq, Structural)]
pub enum Change {
    /// Present and identical to the baseline.
    Same,
    /// Present but differs from the baseline.
    Modified,
    /// Present with no baseline (newly appeared).
    Created,
    /// Absent but present in the baseline (deleted).
    Removed,
    /// Absent with no baseline.
    Gone,
}

/// The action chosen for a single path.
#[derive(Debug, Clone, Copy, PartialEq, Eq, Structural)]
pub enum Action {
    /// Leave the path alone.
    Nothing,
    /// Gone from both sides: forget the baseline.
    DropIndex,
    /// Copy the local file to the remote.
    Push,
    /// Copy the remote file to the local tree.
    Pull,
    /// Delete the local file.
    DeleteLocal,
    /// Delete the remote file.
    DeleteRemote,
    /// Both sides modified: resolve by newer-wins.
    Conflict,
    /// Local modified, remote deleted: keep local (re-upload).
    ResurrectPush,
    /// Local deleted, remote modified: keep remote (restore locally).
    ResurrectPull,
    /// Pull-only path whose local copy diverged: overwrite, preserving local.
    PullPreserveLocal,
    /// Push-only path whose remote copy diverged: overwrite, preserving the
    /// remote version as a local conflict copy.
    PushPreserveRemote,
}

/// How a single path is synced, derived from the group's [`Scope`] and the
/// path's `include` membership.
#[derive(Debug, Clone, Copy, PartialEq, Eq, Structural)]
pub enum KeyMode {
    /// Ignore the path entirely (never push, pull, or delete).
    Skip,
    /// Reconcile both sides (creates, edits, deletes, conflicts).
    Bidir,
    /// Only bring remote changes down; local edits never reach the remote.
    PullOnly,
    /// Only push local changes up; remote edits never reach local.
    PushOnly,
}

/// The rules of one run of a sync group.
#[derive(Debug, Clone, Copy, PartialEq, Eq, Structural)]
pub struct Rules {
    /// Whether this is a periodic poll of the remote: bidirectional files only
    /// follow remote-originated changes, and nothing is pushed.
    pub remote_refresh: bool,
    /// What the group covers.
    pub scope: Scope,
    /// Whether files may be deleted.
    pub deletions: Deletions,
    /// The largest file that is transferred, in bytes; 0 means no limit.
    pub max_file_size: u64,
}

// ---------------------------------------------------------------------------
// Changes
// ---------------------------------------------------------------------------

/// The text of an optional string slice.
pub open spec fn str_opt(s: Option<&str>) -> Option<Seq<char>> {
    match s {
        Some(t) => Some(t@),
        None => None,
    }
}

/// How a side changed, from its change token now and in the baseline.
pub open spec fn change(current: Option<Seq<char>>, baseline: Option<Seq<char>>) -> Change {
    match (current, baseline) {
        (Some(c), Some(b)) => if c == b {
            Change::Same
        } else {
            Change::Modified
        },
        (Some(_), None) => Change::Created,
        (None, Some(_)) => Change::Removed,
        (None, None) => Change::Gone,
    }
}

/// How a side changed, from its change token now and in the baseline.
pub fn classify(current: Option<&str>, baseline: Option<&str>) -> (out: Change)
    ensures
        out == change(str_opt(current), str_opt(baseline)),
{
    match (current, baseline) {
        (Some(c), Some(b)) => if same(c, b) {
            Change::Same
        } else {
            Change::Modified
        },
        (Some(_), None) => Change::Created,
        (None, Some(_)) => Change::Removed,
        (None, None) => Change::Gone,
    }
}

/// Whether a side holds the file.
pub open spec fn present(c: Change) -> bool {
    c == Change::Same || c == Change::Modified || c == Change::Created
}

/// Whether a side has content that the baseline does not know.
pub open spec fn diverged(c: Change) -> bool {
    c == Change::Modified || c == Change::Created
}

// ---------------------------------------------------------------------------
// Modes and actions
// ---------------------------------------------------------------------------

/// How a path is synced: `mirror` ignores `include` (everything is
/// bidirectional); the other scopes make included paths bidirectional and treat
/// the rest per scope.
pub open spec fn mode(scope: Scope, included: bool) -> KeyMode {
    if scope == Scope::Mirror || included {
        KeyMode::Bidir
    } else {
        match scope {
            Scope::Include => KeyMode::Skip,
            Scope::Remote => KeyMode::PullOnly,
            _ => KeyMode::PushOnly,
        }
    }
}

/// Resolve how one path is synced from the group's scope and the path's
/// `include` membership.
pub fn key_mode(scope: Scope, included: bool) -> (out: KeyMode)
    ensures
        out == mode(scope, included),
{
    match scope {
        Scope::Mirror => KeyMode::Bidir,
        Scope::Include => if included {
            KeyMode::Bidir
        } else {
            KeyMode::Skip
        },
        Scope::Remote => if included {
            KeyMode::Bidir
        } else {
            KeyMode::PullOnly
        },
        Scope::Local => if included {
            KeyMode::Bidir
        } else {
            KeyMode::PushOnly
        },
    }
}

/// The action for a path that is reconciled both ways: a change on one side goes
/// to the other, unless the other changed too. A modification wins over a
/// deletion, and two diverged sides are a conflict.
pub open spec fn bidir(local: Change, remote: Change) -> Action {
    if diverged(local) && diverged(remote) {
        Action::Conflict
    } else {
        match (local, remote) {
            (Change::Created, Change::Gone) => Action::Push,
            (Change::Modified, Change::Same) => Action::Push,
            (Change::Modified, Change::Removed) => Action::ResurrectPush,
            (Change::Removed, Change::Same) => Action::DeleteRemote,
            (Change::Removed, Change::Removed) => Action::DropIndex,
            (Change::Gone, Change::Created) => Action::Pull,
            (Change::Same, Change::Modified) => Action::Pull,
            (Change::Removed, Change::Modified) => Action::ResurrectPull,
            (Change::Same, Change::Removed) => Action::DeleteLocal,
            _ => Action::Nothing,
        }
    }
}

/// The action for a path that is reconciled both ways.
pub fn decide_bidir(local: Change, remote: Change) -> (out: Action)
    ensures
        out == bidir(local, remote),
{
    match (local, remote) {
        (Change::Same, Change::Same) => Action::Nothing,
        (Change::Created, Change::Gone) => Action::Push,
        (Change::Modified, Change::Same) => Action::Push,
        (Change::Removed, Change::Same) => Action::DeleteRemote,
        (Change::Gone, Change::Created) => Action::Pull,
        (Change::Same, Change::Modified) => Action::Pull,
        (Change::Same, Change::Removed) => Action::DeleteLocal,
        (Change::Removed, Change::Removed) => Action::DropIndex,
        (Change::Modified, Change::Removed) => Action::ResurrectPush,
        (Change::Removed, Change::Modified) => Action::ResurrectPull,
        // Both sides moved (or an inconsistent baseline): resolve as a conflict.
        (Change::Created, Change::Created) => Action::Conflict,
        (Change::Modified, Change::Modified) => Action::Conflict,
        (Change::Created, Change::Modified) => Action::Conflict,
        (Change::Modified, Change::Created) => Action::Conflict,
        _ => Action::Nothing,
    }
}

/// The action for a bidirectional path during a poll of the remote: what
/// [`bidir`] does with a change of the remote alone, and nothing else.
pub open spec fn refresh(local: Change, remote: Change) -> Action {
    if (local == Change::Same && (remote == Change::Modified || remote == Change::Removed)) || (
    local == Change::Gone && remote == Change::Created) {
        bidir(local, remote)
    } else {
        Action::Nothing
    }
}

/// Decide the action for a **remote-refresh** run: a periodic `pull_interval`
/// poll of a bidirectional group. It applies only remote-originated changes and
/// defers every local-side change to the normal bidirectional trigger, so a
/// background pull can never resurrect a file the user just deleted locally.
pub fn decide_remote_refresh(local: Change, remote: Change) -> (out: Action)
    ensures
        out == refresh(local, remote),
{
    match (local, remote) {
        // Remote changed while local stayed put: bring the remote change down.
        (Change::Same, Change::Modified) => Action::Pull,
        (Change::Gone, Change::Created) => Action::Pull,
        (Change::Same, Change::Removed) => Action::DeleteLocal,
        // Local-side changes, or both sides changed: leave it to the
        // bidirectional trigger (which pushes, deletes, or conflict-resolves).
        _ => Action::Nothing,
    }
}

/// The action for a pull-only path: the local side becomes what the remote side
/// is, except that a local edit is not undone while the remote stays put, and
/// not deleted with it.
pub open spec fn pull_only(local: Change, remote: Change, local_present: bool) -> Action {
    if diverged(remote) {
        if local_present && diverged(local) {
            Action::PullPreserveLocal
        } else {
            Action::Pull
        }
    } else if remote == Change::Removed && local == Change::Same {
        Action::DeleteLocal
    } else if remote == Change::Same && local == Change::Removed {
        Action::Pull
    } else {
        Action::Nothing
    }
}

/// The action for a pull-only path (`scope = "remote"`, not included).
pub fn decide_pull_only(local: Change, remote: Change, local_present: bool) -> (out: Action)
    ensures
        out == pull_only(local, remote, local_present),
{
    match remote {
        Change::Modified | Change::Created => {
            if local_present && (local == Change::Modified || local == Change::Created) {
                Action::PullPreserveLocal
            } else {
                Action::Pull
            }
        },
        Change::Removed => {
            if local == Change::Same {
                Action::DeleteLocal
            } else {
                Action::Nothing
            }
        },
        // Remote unchanged: restore a tracked file the user deleted, else leave local alone.
        Change::Same => {
            if local == Change::Removed {
                Action::Pull
            } else {
                Action::Nothing
            }
        },
        Change::Gone => Action::Nothing,
    }
}

/// The action for a push-only path: that of a pull-only path with the sides
/// swapped.
pub open spec fn push_only(local: Change, remote: Change, remote_present: bool) -> Action {
    swapped(pull_only(remote, local, remote_present))
}

/// The mirror of [`decide_pull_only`] for a push-only path (`scope = "local"`):
/// local changes flow up, remote changes never come down. Keyed on the local
/// change, with the remote in the passenger seat.
pub fn decide_push_only(local: Change, remote: Change, remote_present: bool) -> (out: Action)
    ensures
        out == push_only(local, remote, remote_present),
{
    match local {
        Change::Modified | Change::Created => {
            if remote_present && (remote == Change::Modified || remote == Change::Created) {
                Action::PushPreserveRemote
            } else {
                Action::Push
            }
        },
        Change::Removed => {
            if remote == Change::Same {
                Action::DeleteRemote
            } else {
                Action::Nothing
            }
        },
        // Local unchanged: restore a tracked file deleted on the remote, else leave it.
        Change::Same => {
            if remote == Change::Removed {
                Action::Push
            } else {
                Action::Nothing
            }
        },
        Change::Gone => Action::Nothing,
    }
}

/// The same action with the two sides exchanged.
pub open spec fn swapped(action: Action) -> Action {
    match action {
        Action::Push => Action::Pull,
        Action::Pull => Action::Push,
        Action::DeleteLocal => Action::DeleteRemote,
        Action::DeleteRemote => Action::DeleteLocal,
        Action::ResurrectPush => Action::ResurrectPull,
        Action::ResurrectPull => Action::ResurrectPush,
        Action::PullPreserveLocal => Action::PushPreserveRemote,
        Action::PushPreserveRemote => Action::PullPreserveLocal,
        _ => action,
    }
}

// ---------------------------------------------------------------------------
// Classes of actions
// ---------------------------------------------------------------------------

/// Whether the action deletes a file.
pub open spec fn deletes(action: Action) -> bool {
    action == Action::DeleteLocal || action == Action::DeleteRemote
}

/// Whether the action copies the local file to the remote, whatever it finds.
pub open spec fn pushes(action: Action) -> bool {
    action == Action::Push || action == Action::ResurrectPush || action
        == Action::PushPreserveRemote
}

/// Whether the action copies the remote file to the local tree, whatever it finds.
pub open spec fn pulls(action: Action) -> bool {
    action == Action::Pull || action == Action::ResurrectPull || action
        == Action::PullPreserveLocal
}

/// The action once the deletion policy had its say: a denied deletion leaves the
/// path alone.
pub open spec fn permitted(deletions: Deletions, action: Action) -> Action {
    if deletions == Deletions::Deny && deletes(action) {
        Action::Nothing
    } else {
        action
    }
}

// ---------------------------------------------------------------------------
// The decision
// ---------------------------------------------------------------------------

/// How the local side changed.
pub open spec fn local_change(local: Option<FileView>, base: Option<EntryView>) -> Change {
    change(
        match local {
            Some(m) => Some(m.hash),
            None => None,
        },
        match base {
            Some(b) => Some(b.local_hash),
            None => None,
        },
    )
}

/// How the remote side changed.
pub open spec fn remote_change(remote: Option<RemoteView>, base: Option<EntryView>) -> Change {
    change(
        match remote {
            Some(m) => Some(m.id),
            None => None,
        },
        match base {
            Some(b) => Some(b.remote_id),
            None => None,
        },
    )
}

/// The action that the mode of a path gives.
pub open spec fn mode_action(
    key: KeyMode,
    remote_refresh: bool,
    local: Change,
    remote: Change,
) -> Action {
    match key {
        KeyMode::Skip => Action::Nothing,
        KeyMode::Bidir => if remote_refresh {
            refresh(local, remote)
        } else {
            bidir(local, remote)
        },
        KeyMode::PullOnly => pull_only(local, remote, present(local)),
        KeyMode::PushOnly => if remote_refresh {
            Action::Nothing
        } else {
            push_only(local, remote, present(remote))
        },
    }
}

/// The action for a path, before its size is looked at.
pub open spec fn action_for(
    rules: Rules,
    included: bool,
    local: Option<FileView>,
    remote: Option<RemoteView>,
    base: Option<EntryView>,
) -> Action {
    permitted(
        rules.deletions,
        mode_action(
            mode(rules.scope, included),
            rules.remote_refresh,
            local_change(local, base),
            remote_change(remote, base),
        ),
    )
}

/// The larger of two sizes.
pub open spec fn larger(a: int, b: int) -> int {
    if a >= b {
        a
    } else {
        b
    }
}

/// The size of a file, or 0 if there is none.
pub open spec fn local_size(local: Option<FileView>) -> int {
    match local {
        Some(m) => m.size,
        None => 0,
    }
}

/// The size of a file, or 0 if there is none.
pub open spec fn remote_size(remote: Option<RemoteView>) -> int {
    match remote {
        Some(m) => m.size,
        None => 0,
    }
}

/// The number of bytes that the action would transfer. A conflict may go either
/// way, so the larger side counts.
pub open spec fn transfer_size(
    action: Action,
    local: Option<FileView>,
    remote: Option<RemoteView>,
) -> int {
    if pushes(action) {
        local_size(local)
    } else if pulls(action) {
        remote_size(remote)
    } else if action == Action::Conflict {
        larger(local_size(local), remote_size(remote))
    } else {
        0
    }
}

/// The size of the transfer, if it is over the limit (0 means no limit).
pub open spec fn over_limit(
    action: Action,
    local: Option<FileView>,
    remote: Option<RemoteView>,
    limit: int,
) -> Option<int> {
    if limit != 0 && transfer_size(action, local, remote) > limit {
        Some(transfer_size(action, local, remote))
    } else {
        None
    }
}

/// The view of an optional file.
pub open spec fn file_opt(local: Option<&FileMeta>) -> Option<FileView> {
    match local {
        Some(m) => Some(m@),
        None => None,
    }
}

/// The view of an optional remote file.
pub open spec fn remote_opt(remote: Option<&RemoteMeta>) -> Option<RemoteView> {
    match remote {
        Some(m) => Some(m@),
        None => None,
    }
}

/// The view of an optional baseline.
pub open spec fn entry_opt(base: Option<&IndexEntry>) -> Option<EntryView> {
    match base {
        Some(b) => Some(b@),
        None => None,
    }
}

/// The action for a path, before its size is looked at.
pub fn decide(
    rules: Rules,
    included: bool,
    local: Option<&FileMeta>,
    remote: Option<&RemoteMeta>,
    base: Option<&IndexEntry>,
) -> (out: Action)
    ensures
        out == action_for(rules, included, file_opt(local), remote_opt(remote), entry_opt(base)),
{
    let local_now = match local {
        Some(m) => Some(m.hash.as_str()),
        None => None,
    };
    let local_base = match base {
        Some(b) => Some(b.local_hash.as_str()),
        None => None,
    };
    let remote_now = match remote {
        Some(m) => Some(m.id.as_str()),
        None => None,
    };
    let remote_base = match base {
        Some(b) => Some(b.remote_id.as_str()),
        None => None,
    };
    let local_changed = classify(local_now, local_base);
    let remote_changed = classify(remote_now, remote_base);
    let action = match key_mode(rules.scope, included) {
        KeyMode::Skip => Action::Nothing,
        // Bidirectional file during a background pull: apply only remote-side
        // changes; leave local edits/deletes to the bidirectional trigger.
        KeyMode::Bidir => if rules.remote_refresh {
            decide_remote_refresh(local_changed, remote_changed)
        } else {
            decide_bidir(local_changed, remote_changed)
        },
        KeyMode::PullOnly => decide_pull_only(local_changed, remote_changed, local.is_some()),
        // A background remote poll never pushes, so a push-only file is left
        // for its normal (local-driven) trigger.
        KeyMode::PushOnly => if rules.remote_refresh {
            Action::Nothing
        } else {
            decide_push_only(local_changed, remote_changed, remote.is_some())
        },
    };
    if rules.deletions == Deletions::Deny && (action == Action::DeleteLocal || action
        == Action::DeleteRemote) {
        Action::Nothing
    } else {
        action
    }
}

/// If `action` would transfer a file whose size exceeds `limit`, return that
/// size (so the caller can skip and log it). `limit == 0` means no cap. Actions
/// that move no bytes (deletes, index-only, nothing) are never capped. A
/// conflict transfers both ways, so the larger side is checked.
pub fn oversize(
    action: Action,
    local: Option<&FileMeta>,
    remote: Option<&RemoteMeta>,
    limit: u64,
) -> (out: Option<u64>)
    ensures
        match out {
            Some(size) => over_limit(action, file_opt(local), remote_opt(remote), limit as int)
                == Some(size as int),
            None => over_limit(action, file_opt(local), remote_opt(remote), limit as int) is None,
        },
{
    if limit == 0 {
        return None;
    }
    let l: u64 = match local {
        Some(m) => m.size,
        None => 0,
    };
    let r: u64 = match remote {
        Some(m) => m.size,
        None => 0,
    };
    let size: u64 = match action {
        Action::Push | Action::ResurrectPush | Action::PushPreserveRemote => l,
        Action::Pull | Action::ResurrectPull | Action::PullPreserveLocal => r,
        Action::Conflict => if l >= r {
            l
        } else {
            r
        },
        Action::Nothing | Action::DropIndex | Action::DeleteLocal | Action::DeleteRemote => {
            return None;
        },
    };
    if size > limit {
        Some(size)
    } else {
        None
    }
}

/// Newer-wins: local wins ties and cases where the remote has no known mtime.
pub open spec fn local_is_newer(local: FileView, remote: RemoteView) -> bool {
    match remote.mtime {
        Some(t) => local.mtime >= t,
        None => true,
    }
}

/// Newer-wins: local wins ties and cases where the remote has no known mtime.
pub fn newer_is_local(local: &FileMeta, remote: &RemoteMeta) -> (out: bool)
    ensures
        out == local_is_newer(local@, remote@),
{
    match remote.mtime {
        Some(t) => local.mtime >= t,
        None => true,
    }
}

// ---------------------------------------------------------------------------
// Laws
// ---------------------------------------------------------------------------

/// A two-way sync does not favour a side: exchanging the sides exchanges the
/// action.
pub proof fn law_bidir_is_symmetric(local: Change, remote: Change)
    ensures
        bidir(remote, local) == swapped(bidir(local, remote)),
{
}

/// A push-only path is a pull-only path with the sides exchanged.
pub proof fn law_push_only_mirrors_pull_only(local: Change, remote: Change, there: bool)
    ensures
        push_only(local, remote, there) == swapped(pull_only(remote, local, there)),
{
}

/// A poll of the remote only does what the two-way sync would do too.
pub proof fn law_refresh_agrees_with_bidir(local: Change, remote: Change)
    ensures
        refresh(local, remote) == Action::Nothing || refresh(local, remote) == bidir(
            local,
            remote,
        ),
{
}

/// A poll of the remote never writes to the remote and never deletes there.
pub proof fn law_refresh_leaves_remote_alone(
    rules: Rules,
    included: bool,
    local: Option<FileView>,
    remote: Option<RemoteView>,
    base: Option<EntryView>,
)
    requires
        rules.remote_refresh,
    ensures
        ({
            let a = action_for(rules, included, local, remote, base);
            !pushes(a) && a != Action::DeleteRemote && a != Action::Conflict
        }),
{
}

/// A poll of the remote does not bring back a file that was deleted locally from
/// a group that is synced both ways.
pub proof fn law_refresh_never_resurrects(
    rules: Rules,
    included: bool,
    remote: Option<RemoteView>,
    base: EntryView,
)
    requires
        rules.remote_refresh,
        mode(rules.scope, included) == KeyMode::Bidir,
    ensures
        action_for(rules, included, None, remote, Some(base)) == Action::Nothing,
{
}

/// Where deletions are denied, no file is ever deleted.
pub proof fn law_denied_deletions_never_delete(
    rules: Rules,
    included: bool,
    local: Option<FileView>,
    remote: Option<RemoteView>,
    base: Option<EntryView>,
)
    requires
        rules.deletions == Deletions::Deny,
    ensures
        !deletes(action_for(rules, included, local, remote, base)),
{
}

/// The deletion policy changes nothing but deletions.
pub proof fn law_deletion_policy_is_only_about_deletions(
    rules: Rules,
    included: bool,
    local: Option<FileView>,
    remote: Option<RemoteView>,
    base: Option<EntryView>,
)
    ensures
        ({
            let allowed = Rules { deletions: Deletions::Allow, ..rules };
            let denied = Rules { deletions: Deletions::Deny, ..rules };
            let a = action_for(allowed, included, local, remote, base);
            action_for(denied, included, local, remote, base) == (if deletes(a) {
                Action::Nothing
            } else {
                a
            })
        }),
{
}

/// A file is deleted on one side only if the other side lost it since the last
/// sync and it is what it was at the last sync.
pub proof fn law_deletes_only_unchanged_files(
    rules: Rules,
    included: bool,
    local: Option<FileView>,
    remote: Option<RemoteView>,
    base: Option<EntryView>,
)
    ensures
        action_for(rules, included, local, remote, base) == Action::DeleteLocal ==> remote is None
            && base is Some && local is Some && local.unwrap().hash == base.unwrap().local_hash,
        action_for(rules, included, local, remote, base) == Action::DeleteRemote ==> local is None
            && base is Some && remote is Some && remote.unwrap().id == base.unwrap().remote_id,
{
}

/// A path that `include` does not match is left alone under the `include` scope.
pub proof fn law_not_included_is_untouched(
    rules: Rules,
    local: Option<FileView>,
    remote: Option<RemoteView>,
    base: Option<EntryView>,
)
    requires
        rules.scope == Scope::Include,
    ensures
        action_for(rules, false, local, remote, base) == Action::Nothing,
{
}

/// Under the `remote` scope a path that is not included is never written to the
/// remote or deleted there; under the `local` scope it is never written to the
/// local tree or deleted there.
pub proof fn law_one_way_scopes(
    rules: Rules,
    local: Option<FileView>,
    remote: Option<RemoteView>,
    base: Option<EntryView>,
)
    ensures
        ({
            let a = action_for(rules, false, local, remote, base);
            &&& rules.scope == Scope::Remote ==> !pushes(a) && a != Action::DeleteRemote && a
                != Action::Conflict
            &&& rules.scope == Scope::Local ==> !pulls(a) && a != Action::DeleteLocal && a
                != Action::Conflict
        }),
{
}

/// The actions find the files that they need: a push has a local file, a pull a
/// remote file, and a conflict both.
pub proof fn law_actions_have_their_files(
    rules: Rules,
    included: bool,
    local: Option<FileView>,
    remote: Option<RemoteView>,
    base: Option<EntryView>,
)
    ensures
        ({
            let a = action_for(rules, included, local, remote, base);
            &&& pushes(a) || a == Action::Conflict ==> local is Some
            &&& pulls(a) || a == Action::Conflict ==> remote is Some
        }),
{
}

/// Content that the baseline does not know is never overwritten unseen: where an
/// action replaces a diverged file by the other side's, it is one that keeps a
/// copy.
pub proof fn law_diverged_files_are_preserved(
    rules: Rules,
    included: bool,
    local: Option<FileView>,
    remote: Option<RemoteView>,
    base: Option<EntryView>,
)
    ensures
        ({
            let a = action_for(rules, included, local, remote, base);
            &&& diverged(local_change(local, base)) && pulls(a) ==> a == Action::PullPreserveLocal
            &&& diverged(remote_change(remote, base)) && pushes(a) ==> a
                == Action::PushPreserveRemote
            &&& diverged(local_change(local, base)) ==> a != Action::DeleteLocal
            &&& diverged(remote_change(remote, base)) ==> a != Action::DeleteRemote
        }),
{
}

/// When both sides are what the baseline says, nothing is done.
pub proof fn law_settled_path_is_quiet(
    rules: Rules,
    included: bool,
    local: Option<FileView>,
    remote: Option<RemoteView>,
    base: Option<EntryView>,
)
    requires
        match base {
            Some(b) => local is Some && remote is Some && local.unwrap().hash == b.local_hash
                && remote.unwrap().id == b.remote_id,
            None => local is None && remote is None,
        },
    ensures
        action_for(rules, included, local, remote, base) == Action::Nothing,
{
}

/// Whether the local side is what the baseline says: the same content, or none where
/// there is no baseline.
pub open spec fn local_settled(local: Option<FileView>, base: Option<EntryView>) -> bool {
    match (local, base) {
        (Some(f), Some(b)) => f.hash == b.local_hash,
        (None, None) => true,
        _ => false,
    }
}

/// Whether the remote side is what the baseline says: the same content, or none where
/// there is no baseline.
pub open spec fn remote_settled(remote: Option<RemoteView>, base: Option<EntryView>) -> bool {
    match (remote, base) {
        (Some(f), Some(b)) => f.id == b.remote_id,
        (None, None) => true,
        _ => false,
    }
}

/// Two-way paths make progress: nothing is done only where both sides are what the
/// baseline says. Otherwise, a side that is settled follows the other one, be it to new
/// content or to a deletion; a deletion gives way to new content; new content on both
/// sides is a conflict; and a file that is gone from both is forgotten.
pub proof fn law_two_way_paths_make_progress(
    rules: Rules,
    included: bool,
    local: Option<FileView>,
    remote: Option<RemoteView>,
    base: Option<EntryView>,
)
    requires
        rules.scope == Scope::Mirror || included,
        !rules.remote_refresh,
        rules.deletions == Deletions::Allow,
    ensures
        ({
            let a = action_for(rules, included, local, remote, base);
            let here = local_settled(local, base);
            let there = remote_settled(remote, base);
            &&& a == Action::Nothing <==> here && there
            &&& !here && local is Some && !there && remote is Some <==> a == Action::Conflict
            &&& !here && local is Some && there <==> a == Action::Push
            &&& !here && local is Some && !there && remote is None <==> a == Action::ResurrectPush
            &&& here && !there && remote is Some <==> a == Action::Pull
            &&& !here && local is None && !there && remote is Some <==> a
                == Action::ResurrectPull
            &&& !here && local is None && there <==> a == Action::DeleteRemote
            &&& here && !there && remote is None <==> a == Action::DeleteLocal
            &&& !here && local is None && !there && remote is None <==> a == Action::DropIndex
        }),
{
}

/// A poll follows the remote: on a two-way path it acts exactly where the local side is
/// what the baseline says and the remote side is not, and then makes the local side what
/// the remote side is.
pub proof fn law_poll_follows_the_remote(
    rules: Rules,
    included: bool,
    local: Option<FileView>,
    remote: Option<RemoteView>,
    base: Option<EntryView>,
)
    requires
        rules.scope == Scope::Mirror || included,
        rules.remote_refresh,
        rules.deletions == Deletions::Allow,
    ensures
        ({
            let a = action_for(rules, included, local, remote, base);
            let due = local_settled(local, base) && !remote_settled(remote, base);
            &&& a == Action::Pull <==> due && remote is Some
            &&& a == Action::DeleteLocal <==> due && remote is None
            &&& a == Action::Nothing <==> !due
        }),
{
}

/// Under the `remote` scope a path that is not included follows the remote, in a poll as
/// in any other sync. New remote content comes down, and keeps a copy of local content
/// that the baseline does not know. A file that is gone from the remote goes from the
/// local side if that is what the baseline says, and one that is gone from the local
/// side alone comes back. All else is left alone.
pub proof fn law_remote_scope_follows_the_remote(
    rules: Rules,
    local: Option<FileView>,
    remote: Option<RemoteView>,
    base: Option<EntryView>,
)
    requires
        rules.scope == Scope::Remote,
        rules.deletions == Deletions::Allow,
    ensures
        ({
            let a = action_for(rules, false, local, remote, base);
            let here = local_settled(local, base);
            let there = remote_settled(remote, base);
            &&& a == action_for(
                Rules { remote_refresh: !rules.remote_refresh, ..rules },
                false,
                local,
                remote,
                base,
            )
            &&& a == Action::PullPreserveLocal <==> !there && remote is Some && !here && local is Some
            &&& a == Action::Pull <==> (!there && remote is Some && (here || local is None)) || (there
                && remote is Some && local is None)
            &&& a == Action::DeleteLocal <==> !there && remote is None && here
            &&& a == Action::Nothing <==> (remote is None && (there || !here)) || (there
                && local is Some)
        }),
{
}

/// Under the `local` scope a path that is not included follows the local side, but not
/// in a poll. New local content goes up, and keeps a copy of remote content that the
/// baseline does not know. A file that is gone from the local side goes from the remote
/// if that is what the baseline says, and one that is gone from the remote alone goes up
/// again. All else is left alone.
pub proof fn law_local_scope_follows_the_local_side(
    rules: Rules,
    local: Option<FileView>,
    remote: Option<RemoteView>,
    base: Option<EntryView>,
)
    requires
        rules.scope == Scope::Local,
        rules.deletions == Deletions::Allow,
    ensures
        ({
            let a = action_for(rules, false, local, remote, base);
            let here = local_settled(local, base);
            let there = remote_settled(remote, base);
            if rules.remote_refresh {
                a == Action::Nothing
            } else {
                &&& a == Action::PushPreserveRemote <==> !here && local is Some && !there && remote
                    is Some
                &&& a == Action::Push <==> (!here && local is Some && (there || remote is None)) || (
                here && local is Some && remote is None)
                &&& a == Action::DeleteRemote <==> !here && local is None && there
                &&& a == Action::Nothing <==> (local is None && (here || !there)) || (here && remote
                    is Some)
            }
        }),
{
}

/// Where deletions are denied, everything else is as where they are allowed, and a
/// deletion leaves the path alone.
pub proof fn law_denial_only_drops_deletions(
    rules: Rules,
    included: bool,
    local: Option<FileView>,
    remote: Option<RemoteView>,
    base: Option<EntryView>,
)
    requires
        rules.deletions == Deletions::Deny,
    ensures
        ({
            let a = action_for(rules, included, local, remote, base);
            let b = action_for(
                Rules { deletions: Deletions::Allow, ..rules },
                included,
                local,
                remote,
                base,
            );
            &&& b == Action::DeleteLocal || b == Action::DeleteRemote ==> a == Action::Nothing
            &&& b != Action::DeleteLocal && b != Action::DeleteRemote ==> a == b
        }),
{
}

/// The size limit stops a transfer exactly when a file that may be copied is larger, and
/// tells the size of the largest such file. Without a limit nothing is stopped, and what
/// moves no bytes never is.
pub proof fn law_limit_is_about_what_is_copied(
    action: Action,
    local: FileView,
    remote: RemoteView,
    limit: int,
)
    requires
        local.size >= 0,
        remote.size >= 0,
        limit >= 0,
    ensures
        ({
            let up = action == Action::Push || action == Action::ResurrectPush || action
                == Action::PushPreserveRemote || action == Action::Conflict;
            let down = action == Action::Pull || action == Action::ResurrectPull || action
                == Action::PullPreserveLocal || action == Action::Conflict;
            let out = over_limit(action, Some(local), Some(remote), limit);
            &&& out is Some <==> limit > 0 && ((up && local.size > limit) || (down && remote.size
                > limit))
            &&& out is Some ==> (up && out.unwrap() == local.size) || (down && out.unwrap()
                == remote.size)
            &&& out is Some && up ==> out.unwrap() >= local.size
            &&& out is Some && down ==> out.unwrap() >= remote.size
        }),
{
}

/// The remote version wins a conflict exactly when it is known to be younger.
pub proof fn law_younger_version_wins(local: FileView, remote: RemoteView)
    ensures
        !local_is_newer(local, remote) <==> (remote.mtime is Some && remote.mtime.unwrap()
            > local.mtime),
{
}

/// A side is known by its content alone: neither times nor sizes decide what is done.
pub proof fn law_only_content_decides(
    rules: Rules,
    included: bool,
    local: FileView,
    remote: RemoteView,
    other: FileView,
    another: RemoteView,
    base: Option<EntryView>,
)
    requires
        other.hash == local.hash,
        another.id == remote.id,
    ensures
        action_for(rules, included, Some(local), Some(remote), base) == action_for(
            rules,
            included,
            Some(other),
            Some(another),
            base,
        ),
        action_for(rules, included, Some(local), None, base) == action_for(
            rules,
            included,
            Some(other),
            None,
            base,
        ),
        action_for(rules, included, None, Some(remote), base) == action_for(
            rules,
            included,
            None,
            Some(another),
            base,
        ),
{
}

/// A side is the same where its token is that of the baseline, modified where it is
/// another, and new or gone where only one of the two is there.
pub proof fn law_changes_go_by_the_token(
    current: Option<Seq<char>>,
    baseline: Option<Seq<char>>,
)
    ensures
        change(current, baseline) == Change::Same <==> current is Some && current == baseline,
        change(current, baseline) == Change::Modified <==> current is Some && baseline is Some
            && current != baseline,
        change(current, baseline) == Change::Created <==> current is Some && baseline is None,
        change(current, baseline) == Change::Removed <==> current is None && baseline is Some,
        change(current, baseline) == Change::Gone <==> current is None && baseline is None,
{
}

/// Included paths, and all paths of a mirrored group, are synced both ways; of the others
/// a group leaves all alone, or follows the side that its scope names.
pub proof fn law_scope_says_how_a_path_is_synced(scope: Scope, included: bool)
    ensures
        mode(scope, included) == KeyMode::Bidir <==> included || scope == Scope::Mirror,
        mode(scope, included) == KeyMode::Skip <==> !included && scope == Scope::Include,
        mode(scope, included) == KeyMode::PullOnly <==> !included && scope == Scope::Remote,
        mode(scope, included) == KeyMode::PushOnly <==> !included && scope == Scope::Local,
{
}

/// Where the baseline of the two sides is not the same one, two sides with content that
/// is not known are still a conflict, and nothing else is done both ways.
pub proof fn law_broken_baselines_are_safe(local: Change, remote: Change)
    ensures
        bidir(local, remote) == Action::Conflict <==> (local == Change::Created || local
            == Change::Modified) && (remote == Change::Created || remote == Change::Modified),
        (local == Change::Created || local == Change::Gone) && (remote == Change::Same || remote
            == Change::Removed) ==> bidir(local, remote) == Action::Nothing,
        (remote == Change::Created || remote == Change::Gone) && (local == Change::Same || local
            == Change::Removed) ==> bidir(local, remote) == Action::Nothing,
        local == Change::Gone && remote == Change::Modified || local == Change::Modified && remote
            == Change::Gone ==> bidir(local, remote) == Action::Nothing,
        local == Change::Modified || local == Change::Created || local == Change::Removed
            ==> refresh(local, remote) == Action::Nothing,
{
}

/// A path that follows the remote gets whatever new content the remote has; what is
/// there and not known is kept as a copy.
pub proof fn law_following_a_side(local: Change, remote: Change, there: bool)
    ensures
        ({
            let new = remote == Change::Modified || remote == Change::Created;
            let own = there && (local == Change::Modified || local == Change::Created);
            let a = pull_only(local, remote, there);
            &&& a == Action::PullPreserveLocal <==> new && own
            &&& a == Action::Pull <==> (new && !own) || (remote == Change::Same && local
                == Change::Removed)
            &&& a == Action::DeleteLocal <==> remote == Change::Removed && local == Change::Same
        }),
        ({
            let new = local == Change::Modified || local == Change::Created;
            let own = there && (remote == Change::Modified || remote == Change::Created);
            let a = push_only(local, remote, there);
            &&& a == Action::PushPreserveRemote <==> new && own
            &&& a == Action::Push <==> (new && !own) || (local == Change::Same && remote
                == Change::Removed)
            &&& a == Action::DeleteRemote <==> local == Change::Removed && remote == Change::Same
        }),
{
}

/// What is decided for a two-way path never loses sight of a change: nothing is done only
/// where both files are there as the baseline says, or neither is and there is none; and
/// a new file on both sides is a conflict.
pub proof fn law_no_change_goes_unseen(
    rules: Rules,
    included: bool,
    local: Option<&FileMeta>,
    remote: Option<&RemoteMeta>,
    base: Option<&IndexEntry>,
    out: Action,
)
    requires
        call_ensures(decide, (rules, included, local, remote, base), out),
        rules.scope == Scope::Mirror || included,
        !rules.remote_refresh,
    ensures
        rules.deletions == Deletions::Allow && out == Action::Nothing ==> match base {
            Some(b) => (local matches Some(l) && l.hash@ == b.local_hash@) && (
            remote matches Some(r) && r.id@ == b.remote_id@),
            None => local is None && remote is None,
        },
        base is None && local is Some && remote is Some ==> out == Action::Conflict,
        base is None && local is Some && remote is None ==> out == Action::Push,
        base is None && local is None && remote is Some ==> out == Action::Pull,
        base matches Some(b) ==> (local matches Some(l) && l.hash@ != b.local_hash@) && (
        remote matches Some(r) && r.id@ != b.remote_id@) ==> out == Action::Conflict,
{
}

/// What is decided in a poll for a path that follows the remote is what is decided in any
/// other run.
pub proof fn law_polls_decide_alike_for_the_remote_scope(
    rules: Rules,
    local: Option<&FileMeta>,
    remote: Option<&RemoteMeta>,
    base: Option<&IndexEntry>,
    polled: Action,
    synced: Action,
)
    requires
        rules.scope == Scope::Remote,
        call_ensures(
            decide,
            (Rules { remote_refresh: true, ..rules }, false, local, remote, base),
            polled,
        ),
        call_ensures(
            decide,
            (Rules { remote_refresh: false, ..rules }, false, local, remote, base),
            synced,
        ),
    ensures
        polled == synced,
        base is None && local is None && remote is Some ==> polled == Action::Pull,
        base matches Some(b) ==> (remote matches Some(r) && r.id@ != b.remote_id@) && (
        local matches Some(l) && l.hash@ == b.local_hash@) ==> polled == Action::Pull,
{
}

/// The size limit looks at the side that is copied from, be there a file on the other side
/// or not.
pub proof fn law_limit_looks_at_the_source(
    action: Action,
    local: Option<FileView>,
    remote: Option<RemoteView>,
    limit: int,
)
    requires
        limit > 0,
    ensures
        local matches Some(l) ==> (action == Action::Push || action == Action::ResurrectPush
            || action == Action::PushPreserveRemote ==> (over_limit(action, local, remote, limit)
            == (if l.size > limit {
            Some(l.size)
        } else {
            None
        }))),
        remote matches Some(r) ==> (action == Action::Pull || action == Action::ResurrectPull
            || action == Action::PullPreserveLocal ==> (over_limit(action, local, remote, limit)
            == (if r.size > limit {
            Some(r.size)
        } else {
            None
        }))),
        action == Action::DeleteLocal || action == Action::DeleteRemote || action
            == Action::DropIndex || action == Action::Nothing ==> over_limit(
            action,
            local,
            remote,
            limit,
        ) is None,
        over_limit(action, local, remote, 0) is None,
{
}

} // verus!
