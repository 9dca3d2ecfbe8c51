//! What is decided for a single path.

use conflux::decide::{
    classify, decide, decide_bidir, decide_pull_only, decide_push_only, decide_remote_refresh,
    key_mode, newer_is_local, oversize, Action, Change, KeyMode, Rules,
};
use conflux::dirs::{decide_dir, empty_dirs, prune_again, DirOp, PRUNE_PASSES};
use conflux::index::IndexEntry;
use conflux::model::{Deletions, FileMeta, RemoteMeta, Scope};

const CHANGES: [Change; 5] = [
    Change::Same,
    Change::Modified,
    Change::Created,
    Change::Removed,
    Change::Gone,
];

#[test]
fn bidirectional_local_delete_propagates_to_remote() {
    // The real (watch/timer/manual) trigger deletes a locally-removed file
    // from the remote instead of resurrecting it.
    assert_eq!(
        decide_bidir(Change::Removed, Change::Same),
        Action::DeleteRemote
    );
}

#[test]
fn remote_refresh_never_resurrects_a_local_delete() {
    // A background `pull_interval` poll must not restore the file the user just
    // deleted, which would undo the pending bidirectional delete.
    assert_eq!(
        decide_remote_refresh(Change::Removed, Change::Same),
        Action::Nothing
    );
    // It also leaves other local-only changes alone.
    assert_eq!(
        decide_remote_refresh(Change::Modified, Change::Same),
        Action::Nothing
    );
    assert_eq!(
        decide_remote_refresh(Change::Created, Change::Gone),
        Action::Nothing
    );
    // ...and defers both-sides-changed to the bidirectional trigger.
    assert_eq!(
        decide_remote_refresh(Change::Modified, Change::Modified),
        Action::Nothing
    );
}

#[test]
fn remote_refresh_still_applies_remote_side_changes() {
    assert_eq!(
        decide_remote_refresh(Change::Same, Change::Modified),
        Action::Pull
    );
    assert_eq!(
        decide_remote_refresh(Change::Gone, Change::Created),
        Action::Pull
    );
    assert_eq!(
        decide_remote_refresh(Change::Same, Change::Removed),
        Action::DeleteLocal
    );
}

#[test]
fn pull_only_group_still_restores_a_local_delete() {
    // For genuinely pull-only groups local is a mirror, so a deleted file is
    // restored from the remote on the next pull.
    assert_eq!(
        decide_pull_only(Change::Removed, Change::Same, false),
        Action::Pull
    );
}

#[test]
fn push_only_mirrors_pull_only_with_the_sides_swapped() {
    // Local changes flow up; remote changes never come down.
    assert_eq!(
        decide_push_only(Change::Created, Change::Gone, false),
        Action::Push
    );
    assert_eq!(
        decide_push_only(Change::Modified, Change::Same, true),
        Action::Push
    );
    // Both sides diverged: local wins, remote kept as a local conflict copy.
    assert_eq!(
        decide_push_only(Change::Modified, Change::Modified, true),
        Action::PushPreserveRemote
    );
    // A tracked file deleted on the remote is restored by re-pushing.
    assert_eq!(
        decide_push_only(Change::Same, Change::Removed, false),
        Action::Push
    );
    // A local delete propagates to the remote.
    assert_eq!(
        decide_push_only(Change::Removed, Change::Same, true),
        Action::DeleteRemote
    );
    // Remote-only changes are ignored.
    assert_eq!(
        decide_push_only(Change::Same, Change::Modified, true),
        Action::Nothing
    );
}

#[test]
fn key_mode_include_scope_skips_non_included_paths() {
    // Included paths sync both ways; the rest are ignored entirely.
    assert_eq!(key_mode(Scope::Include, true), KeyMode::Bidir);
    assert_eq!(key_mode(Scope::Include, false), KeyMode::Skip);
}

#[test]
fn key_mode_remote_scope_pulls_non_included_paths() {
    assert_eq!(key_mode(Scope::Remote, true), KeyMode::Bidir);
    assert_eq!(key_mode(Scope::Remote, false), KeyMode::PullOnly);
}

#[test]
fn key_mode_local_scope_pushes_non_included_paths() {
    assert_eq!(key_mode(Scope::Local, true), KeyMode::Bidir);
    assert_eq!(key_mode(Scope::Local, false), KeyMode::PushOnly);
}

#[test]
fn key_mode_mirror_scope_ignores_include() {
    assert_eq!(key_mode(Scope::Mirror, false), KeyMode::Bidir);
    assert_eq!(key_mode(Scope::Mirror, true), KeyMode::Bidir);
}

#[test]
fn changes_are_told_from_the_baseline() {
    assert_eq!(classify(Some("a"), Some("a")), Change::Same);
    assert_eq!(classify(Some("b"), Some("a")), Change::Modified);
    assert_eq!(classify(Some("a"), None), Change::Created);
    assert_eq!(classify(None, Some("a")), Change::Removed);
    assert_eq!(classify(None, None), Change::Gone);
}

/// An action with the two sides swapped.
fn swapped(action: Action) -> Action {
    match action {
        Action::Push => Action::Pull,
        Action::Pull => Action::Push,
        Action::DeleteLocal => Action::DeleteRemote,
        Action::DeleteRemote => Action::DeleteLocal,
        Action::ResurrectPush => Action::ResurrectPull,
        Action::ResurrectPull => Action::ResurrectPush,
        Action::PullPreserveLocal => Action::PushPreserveRemote,
        Action::PushPreserveRemote => Action::PullPreserveLocal,
        other => other,
    }
}

#[test]
fn the_two_sides_are_treated_alike() {
    for a in CHANGES {
        for b in CHANGES {
            assert_eq!(decide_bidir(a, b), swapped(decide_bidir(b, a)));
            for present in [false, true] {
                assert_eq!(
                    decide_push_only(a, b, present),
                    swapped(decide_pull_only(b, a, present))
                );
            }
        }
    }
}

#[test]
fn a_refresh_never_touches_the_remote() {
    for a in CHANGES {
        for b in CHANGES {
            assert!(!matches!(
                decide_remote_refresh(a, b),
                Action::Push
                    | Action::DeleteRemote
                    | Action::ResurrectPush
                    | Action::PushPreserveRemote
                    | Action::Conflict
            ));
        }
    }
}

#[test]
fn a_file_changed_on_one_side_outlives_its_deletion_on_the_other() {
    assert_eq!(
        decide_bidir(Change::Modified, Change::Removed),
        Action::ResurrectPush
    );
    assert_eq!(
        decide_bidir(Change::Removed, Change::Modified),
        Action::ResurrectPull
    );
    assert_eq!(
        decide_bidir(Change::Modified, Change::Modified),
        Action::Conflict
    );
    assert_eq!(
        decide_bidir(Change::Removed, Change::Removed),
        Action::DropIndex
    );
    assert_eq!(decide_bidir(Change::Same, Change::Same), Action::Nothing);
}

fn rules(scope: Scope, deletions: Deletions, remote_refresh: bool) -> Rules {
    Rules {
        remote_refresh,
        scope,
        deletions,
        max_file_size: 0,
    }
}

fn file(hash: &str, mtime: i128, size: u64) -> FileMeta {
    FileMeta {
        hash: hash.to_string(),
        mtime,
        size,
    }
}

fn remote(id: &str, mtime: Option<i128>, size: u64) -> RemoteMeta {
    RemoteMeta {
        id: id.to_string(),
        mtime,
        size,
    }
}

fn entry(hash: &str, id: &str) -> IndexEntry {
    IndexEntry {
        local_hash: hash.to_string(),
        remote_id: id.to_string(),
    }
}

#[test]
fn deletions_need_leave() {
    let base = entry("h", "i");
    let r = remote("i", None, 1);
    let allow = rules(Scope::Mirror, Deletions::Allow, false);
    let deny = rules(Scope::Mirror, Deletions::Deny, false);
    assert_eq!(
        decide(allow, false, None, Some(&r), Some(&base)),
        Action::DeleteRemote
    );
    assert_eq!(
        decide(deny, false, None, Some(&r), Some(&base)),
        Action::Nothing
    );
    let l = file("h", 0, 1);
    assert_eq!(
        decide(allow, false, Some(&l), None, Some(&base)),
        Action::DeleteLocal
    );
    assert_eq!(
        decide(deny, false, Some(&l), None, Some(&base)),
        Action::Nothing
    );
    // Other actions do not ask.
    assert_eq!(decide(deny, false, Some(&l), None, None), Action::Push);
}

#[test]
fn paths_outside_the_scope_are_left_alone() {
    let l = file("h", 0, 1);
    let r = remote("i", None, 1);
    for deletions in [Deletions::Allow, Deletions::Deny] {
        let r0 = rules(Scope::Include, deletions, false);
        assert_eq!(decide(r0, false, Some(&l), None, None), Action::Nothing);
        assert_eq!(decide(r0, false, None, Some(&r), None), Action::Nothing);
        assert_eq!(decide(r0, true, None, Some(&r), None), Action::Pull);
    }
    // A poll of the remote pushes nothing.
    let poll = rules(Scope::Local, Deletions::Allow, true);
    assert_eq!(decide(poll, false, Some(&l), None, None), Action::Nothing);
}

#[test]
fn the_limit_applies_to_what_is_transferred() {
    let l = file("h", 0, 10);
    let r = remote("i", None, 20);
    assert_eq!(oversize(Action::Push, Some(&l), Some(&r), 9), Some(10));
    assert_eq!(oversize(Action::Push, Some(&l), Some(&r), 10), None);
    assert_eq!(oversize(Action::Pull, Some(&l), Some(&r), 19), Some(20));
    assert_eq!(oversize(Action::Pull, Some(&l), Some(&r), 20), None);
    assert_eq!(oversize(Action::Conflict, Some(&l), Some(&r), 15), Some(20));
    assert_eq!(oversize(Action::DeleteLocal, Some(&l), Some(&r), 1), None);
    // Zero means no limit.
    assert_eq!(oversize(Action::Push, Some(&l), Some(&r), 0), None);
}

#[test]
fn the_newer_side_wins() {
    let l = file("h", 2_000, 1);
    assert!(newer_is_local(&l, &remote("i", Some(1_000), 1)));
    assert!(newer_is_local(&l, &remote("i", Some(2_000), 1)));
    assert!(!newer_is_local(&l, &remote("i", Some(2_001), 1)));
    assert!(newer_is_local(&l, &remote("i", None, 1)));
}

#[test]
fn empty_directories_follow_the_side_that_changed() {
    assert_eq!(decide_dir(true, false, false), DirOp::CreateRemote);
    assert_eq!(decide_dir(false, true, false), DirOp::CreateLocal);
    assert_eq!(decide_dir(true, false, true), DirOp::RemoveLocal);
    assert_eq!(decide_dir(false, true, true), DirOp::RemoveRemote);
    for known in [false, true] {
        assert_eq!(decide_dir(true, true, known), DirOp::Track);
        assert_eq!(decide_dir(false, false, known), DirOp::Forget);
    }
    assert!(prune_again(1, true));
    assert!(!prune_again(1, false));
    assert!(!prune_again(PRUNE_PASSES, true));
}

#[test]
fn only_directories_without_anything_beneath_are_empty() {
    let path = |p: &str| conflux::RelPath::from_relative(p).unwrap();
    let dirs = vec![path("a"), path("a/b"), path("a/b/c"), path("kept"), path("ke")];
    let mut all: Vec<conflux::RelPath> =
        vec![path("a"), path("a/b"), path("a/b/c"), path("kept"), path("ke")];
    all.push(path("kept/file.txt"));
    let empties = empty_dirs(&dirs, &all);
    assert_eq!(empties.len(), 2);
    assert!(empties.contains("a/b/c"));
    assert!(empties.contains("ke"));
}

/// Every state of a path that two contents can make: each side missing or one of
/// two versions, with and without a baseline.
fn states() -> Vec<(Option<FileMeta>, Option<RemoteMeta>, Option<IndexEntry>)> {
    let mut out = Vec::new();
    for l in [None, Some("a"), Some("b")] {
        for r in [None, Some("a"), Some("b")] {
            for b in [None, Some("a")] {
                out.push((
                    l.map(|h| file(h, 1, 1)),
                    r.map(|i| remote(i, Some(2), 1)),
                    b.map(|h| entry(h, h)),
                ));
            }
        }
    }
    out
}

fn every_rule() -> Vec<Rules> {
    let mut out = Vec::new();
    for scope in [Scope::Include, Scope::Remote, Scope::Local, Scope::Mirror] {
        for deletions in [Deletions::Allow, Deletions::Deny] {
            for poll in [false, true] {
                out.push(rules(scope, deletions, poll));
            }
        }
    }
    out
}

fn uploads(action: Action) -> bool {
    matches!(
        action,
        Action::Push | Action::ResurrectPush | Action::PushPreserveRemote
    )
}

fn downloads(action: Action) -> bool {
    matches!(
        action,
        Action::Pull | Action::ResurrectPull | Action::PullPreserveLocal
    )
}

#[test]
fn actions_keep_their_promises() {
    for r in every_rule() {
        for included in [false, true] {
            for (l, m, b) in states() {
                let action = decide(r, included, l.as_ref(), m.as_ref(), b.as_ref());
                // An action has the files that it needs.
                if uploads(action) || action == Action::Conflict {
                    assert!(l.is_some());
                }
                if downloads(action) || action == Action::Conflict {
                    assert!(m.is_some());
                }
                // Only a file that the other side knew and dropped is deleted.
                if action == Action::DeleteLocal {
                    assert!(m.is_none());
                    assert_eq!(l.as_ref().unwrap().hash, b.as_ref().unwrap().local_hash);
                }
                if action == Action::DeleteRemote {
                    assert!(l.is_none());
                    assert_eq!(m.as_ref().unwrap().id, b.as_ref().unwrap().remote_id);
                }
                // Nothing is deleted without leave.
                if r.deletions == Deletions::Deny {
                    assert!(!matches!(action, Action::DeleteLocal | Action::DeleteRemote));
                }
                // A poll changes nothing on the remote.
                if r.remote_refresh {
                    assert!(!uploads(action) && action != Action::DeleteRemote);
                }
                // One-way scopes go one way.
                if r.scope == Scope::Remote && !included {
                    assert!(!uploads(action) && action != Action::DeleteRemote);
                }
                if r.scope == Scope::Local && !included {
                    assert!(!downloads(action) && action != Action::DeleteLocal);
                }
                if r.scope == Scope::Include && !included {
                    assert_eq!(action, Action::Nothing);
                }
                // A local version that the baseline does not know is kept.
                let diverged = match (&l, &b) {
                    (Some(l), Some(b)) => l.hash != b.local_hash,
                    (Some(_), None) => true,
                    (None, _) => false,
                };
                if diverged && downloads(action) {
                    assert_eq!(action, Action::PullPreserveLocal);
                }
            }
        }
    }
}

#[test]
fn a_settled_path_is_quiet() {
    let (l, m, b) = (file("a", 1, 1), remote("a", None, 1), entry("a", "a"));
    for r in every_rule() {
        for included in [false, true] {
            let action = decide(r, included, Some(&l), Some(&m), Some(&b));
            assert_eq!(action, Action::Nothing);
            assert_eq!(decide(r, included, None, None, None), Action::Nothing);
        }
    }
}

#[test]
fn a_refresh_does_what_a_sync_would_do_or_nothing() {
    for a in CHANGES {
        for b in CHANGES {
            let action = decide_remote_refresh(a, b);
            assert!(action == Action::Nothing || action == decide_bidir(a, b));
        }
    }
}
