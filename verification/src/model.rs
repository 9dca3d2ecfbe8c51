//! Core domain types shared across the configuration, the sync engine, and the
//! backends.

use crate::text::same;
use vstd::prelude::*;

verus! {

/// Metadata for a local file: content hash, modification time, and size.
#[derive(Debug)]
pub struct FileMeta {
    /// Content hash, hex-encoded.
    pub hash: String,
    /// Last modification time, in nanoseconds since the Unix epoch.
    pub mtime: i128,
    /// Size in bytes.
    pub size: u64,
}

/// What [`FileMeta`] says of a file.
pub struct FileView {
    /// The content hash.
    pub hash: Seq<char>,
    /// The modification time.
    pub mtime: int,
    /// The size.
    pub size: int,
}

impl View for FileMeta {
    type V = FileView;

    open spec fn view(&self) -> FileView {
        FileView { hash: self.hash@, mtime: self.mtime as int, size: self.size as int }
    }
}

impl Clone for FileMeta {
    fn clone(&self) -> (out: Self)
        ensures
            out == *self,
    {
        FileMeta { hash: self.hash.clone(), mtime: self.mtime, size: self.size }
    }
}

/// Metadata for a remote file: a backend-defined change id, optional mtime, size.
#[derive(Debug)]
pub struct RemoteMeta {
    /// Change token: WebDAV ETag, or content hash.
    pub id: String,
    /// Last modification time, in nanoseconds since the Unix epoch, if the
    /// backend exposes one.
    pub mtime: Option<i128>,
    /// Size in bytes.
    pub size: u64,
}

/// What [`RemoteMeta`] says of a file.
pub struct RemoteView {
    /// The change token.
    pub id: Seq<char>,
    /// The modification time, if it is known.
    pub mtime: Option<i128>,
    /// The size.
    pub size: int,
}

impl View for RemoteMeta {
    type V = RemoteView;

    open spec fn view(&self) -> RemoteView {
        RemoteView { id: self.id@, mtime: self.mtime, size: self.size as int }
    }
}

impl Clone for RemoteMeta {
    fn clone(&self) -> (out: Self)
        ensures
            out == *self,
    {
        RemoteMeta { id: self.id.clone(), mtime: self.mtime, size: self.size }
    }
}

/// Which kind of remote backend a connection uses.
#[derive(Debug, Clone, Copy, PartialEq, Eq, Structural)]
pub enum RemoteKind {
    /// WebDAV (e.g. Nextcloud).
    Webdav,
    /// A git repository.
    Git,
    /// A local directory (mirror / backup disk).
    Local,
}

impl RemoteKind {
    /// The name used in the configuration.
    pub open spec fn name(self) -> Seq<char> {
        match self {
            RemoteKind::Webdav => "webdav"@,
            RemoteKind::Git => "git"@,
            RemoteKind::Local => "local"@,
        }
    }

    /// The kind that a name in the configuration stands for. A local directory
    /// is called `filesystem` too.
    pub open spec fn named(name: Seq<char>) -> Option<RemoteKind> {
        if name == "webdav"@ {
            Some(RemoteKind::Webdav)
        } else if name == "git"@ {
            Some(RemoteKind::Git)
        } else if name == "local"@ || name == "filesystem"@ {
            Some(RemoteKind::Local)
        } else {
            None
        }
    }

    /// The lowercase name used in config (`"webdav"`, `"git"`, `"local"`).
    pub fn as_str(&self) -> (out: &'static str)
        ensures
            out@ == self.name(),
    {
        match self {
            RemoteKind::Webdav => "webdav",
            RemoteKind::Git => "git",
            RemoteKind::Local => "local",
        }
    }

    /// The kind that a name in the configuration stands for.
    pub fn from_name(name: &str) -> (out: Option<RemoteKind>)
        ensures
            out == RemoteKind::named(name@),
    {
        if same(name, "webdav") {
            Some(RemoteKind::Webdav)
        } else if same(name, "git") {
            Some(RemoteKind::Git)
        } else if same(name, "local") || same(name, "filesystem") {
            Some(RemoteKind::Local)
        } else {
            None
        }
    }
}

/// A kind is found again by its name.
pub proof fn law_kind_name_round_trip(kind: RemoteKind)
    ensures
        RemoteKind::named(kind.name()) == Some(kind),
{
    reveal_strlit("webdav");
    reveal_strlit("git");
    reveal_strlit("local");
    assert("webdav"@.len() == 6);
    assert("git"@.len() == 3);
    assert("local"@.len() == 5);
}

/// How a sync group is triggered.
#[derive(Debug, Clone, Copy, PartialEq, Eq, Structural)]
pub enum Trigger {
    /// Only synced on explicit request (`conflux sync`).
    Manual,
    /// Synced on a fixed interval.
    Timer,
    /// Synced when watched local files change.
    Watch,
    /// Like `watch`, but also watches the remote side. Only a local directory
    /// exposes a watchable path, so for other backends this behaves like
    /// `watch`.
    WatchBoth,
}

impl Trigger {
    /// The name shown in a group's status.
    pub open spec fn label(self) -> Seq<char> {
        match self {
            Trigger::Manual => "manual"@,
            Trigger::Timer => "timer"@,
            Trigger::Watch => "watch"@,
            Trigger::WatchBoth => "watchboth"@,
        }
    }

    /// The name shown in a group's status.
    pub fn as_label(&self) -> (out: &'static str)
        ensures
            out@ == self.label(),
    {
        match self {
            Trigger::Manual => "manual",
            Trigger::Timer => "timer",
            Trigger::Watch => "watch",
            Trigger::WatchBoth => "watchboth",
        }
    }

    /// Whether local changes trigger a sync.
    pub open spec fn watches(self) -> bool {
        self == Trigger::Watch || self == Trigger::WatchBoth
    }
}

/// How empty directories are handled during a sync.
#[derive(Debug, Clone, Copy, PartialEq, Eq, Structural)]
pub enum EmptyDirMode {
    /// Sync files only; empty directories are neither created nor removed (default).
    Ignore,
    /// Prune empty directories from both sides after a sync.
    Prune,
    /// Treat empty directories as first-class: mirror them to both sides and
    /// propagate their creation and deletion (tracked in the index).
    Mirror,
}

impl Default for EmptyDirMode {
    fn default() -> (out: Self)
        ensures
            out == EmptyDirMode::Ignore,
    {
        EmptyDirMode::Ignore
    }
}

/// Whether a sync group is allowed to delete files.
#[derive(Debug, Clone, Copy, PartialEq, Eq, Structural)]
pub enum Deletions {
    /// Never delete a file on either side, regardless of `scope` (default). A
    /// file removed on one side is left in place on the other and the deletion
    /// is not propagated, guarding against accidental data loss.
    Deny,
    /// Propagate deletions in both directions: a file removed on one side is
    /// removed on the other.
    Allow,
}

impl Default for Deletions {
    fn default() -> (out: Self)
        ensures
            out == Deletions::Deny,
    {
        Deletions::Deny
    }
}

/// What a sync group covers, relative to its `include` globs. `exclude` always
/// applies on top, in every variant.
#[derive(Debug, Clone, Copy, PartialEq, Eq, Structural)]
pub enum Scope {
    /// Sync only the paths matched by `include`, bidirectionally (creates,
    /// modifications, and deletions). Anything outside `include` is ignored
    /// entirely: never pushed, pulled, or deleted (default).
    Include,
    /// Like `include`, but additionally pull every other remote file down. Those
    /// non-included files are pull-only: the remote overrides local (a conflict
    /// copy is still kept locally when the local copy diverged).
    Remote,
    /// The reverse of `remote`: like `include`, but additionally push every other
    /// local file up. Those non-included files are push-only: local overrides the
    /// remote (a conflict copy of the losing remote version is still kept
    /// locally).
    Local,
    /// Sync the whole tree in both directions, ignoring `include`. Deletions
    /// are propagated only when the group's [`Deletions`] policy is `allow`.
    Mirror,
}

impl Default for Scope {
    fn default() -> (out: Self)
        ensures
            out == Scope::Include,
    {
        Scope::Include
    }
}

/// The names of the kinds of remote: each is known by its own, a local directory also as
/// `filesystem`, and no other name stands for one.
pub proof fn law_names_of_remotes(name: Seq<char>)
    ensures
        RemoteKind::named(name) is Some <==> name == "webdav"@ || name == "git"@ || name
            == "local"@ || name == "filesystem"@,
        RemoteKind::named("filesystem"@) == Some(RemoteKind::Local),
        RemoteKind::Webdav.name() == "webdav"@,
        RemoteKind::Git.name() == "git"@,
        RemoteKind::Local.name() == "local"@,
{
    reveal_strlit("webdav");
    reveal_strlit("git");
    reveal_strlit("filesystem");
    assert("webdav"@.len() == 6);
    assert("git"@.len() == 3);
    assert("filesystem"@.len() == 10);
}

} // verus!
