//! The configuration: its schema, normalization, validation, and what follows
//! from it for each sync group.

use crate::error::Error;
use crate::matcher::{bad_glob, complaint_of, first_bad, glob_complaint, is_special};
use crate::model::{Deletions, EmptyDirMode, RemoteKind, Scope, Trigger};
use crate::span::Span;
use crate::text::{begins, cat3, cat4, cat5, chars_of, first_index, home_expanded, is_alnum,
    lemma_first_index, lemma_trim, same, string_of, text_opt, texts, trim, trimmed, Class};
use vstd::prelude::*;

verus! {

/// Glob force-added to every group's excludes so conflict copies never re-sync.
/// The leading `**/` matches conflict copies at any depth, not just the root.
pub const CONFLICT_GLOB: &'static str = "**/*.conflux-conflict-*";

/// Default watch debounce when none is configured at any level, in seconds.
pub const DEFAULT_DEBOUNCE: u64 = 5;

/// Default timer interval when a `timer` sync omits `interval`, in seconds.
pub const DEFAULT_INTERVAL: u64 = 3600;

/// Default `max_file_size` when none is configured at any level: 100 MB.
pub const DEFAULT_MAX_FILE_SIZE: u64 = 100_000_000;

/// Top-level configuration.
#[derive(Debug, Clone)]
pub struct Config {
    /// Daemon-wide settings.
    pub daemon: DaemonConfig,
    /// Remote connections (`[[remote]]`).
    pub remotes: Vec<Remote>,
    /// Sync groups (`[[sync]]`).
    pub syncs: Vec<Sync>,
}

/// Daemon-wide settings.
#[derive(Debug, Clone)]
pub struct DaemonConfig {
    /// Tracing log level (e.g. `info`, `debug`).
    pub log_level: String,
    /// Default watch debounce, overridable per sync.
    pub debounce: Span,
    /// Default timer interval, overridable per sync.
    pub interval: Span,
    /// Default interval for periodic remote pulls, overridable per remote/sync.
    /// `None` (unset) disables background pulling; `0` also disables it (handy to
    /// opt a single group out when a broader level enables it).
    pub pull_interval: Option<Span>,
    /// Default empty-directory handling, overridable per remote/sync.
    pub empty_dirs: EmptyDirMode,
    /// Default deletion policy, overridable per sync.
    pub deletions: Deletions,
    /// Default maximum size, in bytes, of a file synced in either direction;
    /// larger files are skipped. `0` means unlimited. Overridable per remote/sync.
    pub max_file_size: u64,
    /// Globs excluded from every sync (in addition to each sync's own `exclude`
    /// and the always-forced conflict-copy glob). Defaults to well-known cruft
    /// like `.git`; set to `[]` to sync everything.
    pub exclude: Vec<String>,
    /// Active profile for this host; defaults to `"default"` when unset. Only
    /// syncs whose `profiles` hold this value run, so the default runs the
    /// syncs that omitted the `profiles` setting. `None` runs every sync.
    pub profile: Option<String>,
}

/// A remote connection.
#[derive(Debug, Clone)]
pub struct Remote {
    /// Unique id referenced by sync groups (each sync's `remote` field).
    pub id: String,
    /// Optional human-friendly label for UIs; not used by the daemon.
    pub label: Option<String>,
    /// Backend kind.
    pub backend: RemoteKind,
    /// Backend URL (WebDAV base / git remote / local path).
    pub url: String,
    /// Optional username for auth.
    pub username: Option<String>,
    /// Optional plaintext password.
    pub password: Option<String>,
    /// Optional command whose stdout yields the password.
    pub password_command: Option<String>,
    /// Git only (optional): private key file to authenticate with over SSH.
    pub identity_file: Option<String>,
    /// Git only (optional): command whose stdout yields the private key.
    pub identity_file_command: Option<String>,
    /// Git branch; defaults to the remote's default branch when omitted.
    pub branch: Option<String>,
    /// Git only (optional): command whose stdout is used as the commit message
    /// (run via `sh -c` in the clone directory).
    pub commit_msg_command: Option<String>,
    /// Remote-level default for periodic remote pulls (overrides the daemon
    /// default; overridden per sync). See [`DaemonConfig::pull_interval`].
    pub pull_interval: Option<Span>,
    /// Remote-level empty-directory handling (overrides the daemon default;
    /// overridden per sync). Ignored for git remotes, which cannot store them.
    pub empty_dirs: Option<EmptyDirMode>,
    /// Remote-level maximum synced file size in bytes (overrides the daemon
    /// default; overridden per sync). `0` means unlimited. See
    /// [`DaemonConfig::max_file_size`].
    pub max_file_size: Option<u64>,
}

/// A sync group: one local root mapped to a remote path.
#[derive(Debug, Clone)]
pub struct Sync {
    /// Optional short id for this group, used to target it from the CLI
    /// (`conflux sync <id>`). Must be unique across syncs when set. The
    /// `remote:remote_path` label works as a target too.
    pub id: Option<String>,
    /// Optional human-friendly label for UIs; not used by the daemon.
    pub label: Option<String>,
    /// Id of the remote this group syncs with (matches a `[[remote]]` `id`).
    /// Empty where `remote_fs` stands in its place.
    pub remote: String,
    /// Directory to sync with, in place of a `[[remote]]`.
    pub remote_fs: Option<String>,
    /// Single local root directory (tilde/env expanded on load).
    pub local: String,
    /// Path under the remote that mirrors `local`. When empty the group maps to
    /// the remote's root. Normalized to drop surrounding slashes on load.
    pub remote_path: String,
    /// The `include` globs (relative to `local`), selecting what this group
    /// syncs. An empty list matches nothing; use `["**"]` to match everything.
    /// How paths outside are treated is governed by [`Sync::scope`].
    pub includes: Vec<String>,
    /// What this group covers relative to its `include` globs. See [`Scope`].
    pub scope: Scope,
    /// How this group is triggered.
    pub trigger: Trigger,
    /// Timer interval; the daemon default when unset.
    pub interval: Option<Span>,
    /// Watch debounce override.
    pub debounce: Option<Span>,
    /// Periodic remote-pull interval for this group (overrides the remote/daemon
    /// default). Independent of `trigger`: it adds a pull-only run every interval
    /// so remote-side changes are picked up even for `watch`/`manual` groups.
    /// See [`DaemonConfig::pull_interval`].
    pub pull_interval: Option<Span>,
    /// Empty-directory handling for this group (overrides the remote/daemon
    /// default). Ignored for git.
    pub empty_dirs: Option<EmptyDirMode>,
    /// Deletion policy for this group (overrides the daemon default).
    pub deletions: Option<Deletions>,
    /// Maximum synced file size in bytes for this group (overrides the
    /// remote/daemon default). `0` means unlimited. See
    /// [`DaemonConfig::max_file_size`].
    pub max_file_size: Option<u64>,
    /// Profiles this group belongs to. When the setting is omitted it defaults
    /// to the implicit `["default"]`; an explicit list (even empty) is used
    /// verbatim, without any implicit `default` membership.
    pub profiles: Vec<String>,
    /// Glob paths (relative to `local`) excluded from sync, *added to* the
    /// `[daemon] exclude` defaults (they are not replaced).
    pub exclude: Vec<String>,
}

// ---------------------------------------------------------------------------
// Defaults
// ---------------------------------------------------------------------------

/// Log level when none is configured.
pub fn default_log_level() -> (out: String)
    ensures
        out@ == "info"@,
{
    "info".to_string()
}

/// Well-known paths excluded by default (the `[daemon] exclude` default): VCS
/// metadata and common OS/editor cruft that should almost never be synced.
pub open spec fn well_known_excludes() -> Seq<Seq<char>> {
    seq![
        "**/.git/**"@,
        "**/.svn/**"@,
        "**/.hg/**"@,
        "**/.DS_Store"@,
        "**/Thumbs.db"@,
        "**/*.swp"@,
    ]
}

/// Well-known paths excluded by default.
pub fn default_exclude() -> (out: Vec<String>)
    ensures
        texts(out@) == well_known_excludes(),
{
    let mut out: Vec<String> = Vec::new();
    out.push("**/.git/**".to_string());
    out.push("**/.svn/**".to_string());
    out.push("**/.hg/**".to_string());
    out.push("**/.DS_Store".to_string());
    out.push("**/Thumbs.db".to_string());
    out.push("**/*.swp".to_string());
    assert(texts(out@) =~= well_known_excludes());
    out
}

/// Watch debounce when none is configured.
pub fn default_debounce() -> (out: Span)
    ensures
        out == (Span { secs: DEFAULT_DEBOUNCE, nanos: 0 }),
{
    Span::from_secs(DEFAULT_DEBOUNCE)
}

/// Timer interval when none is configured.
pub fn default_interval() -> (out: Span)
    ensures
        out == (Span { secs: DEFAULT_INTERVAL, nanos: 0 }),
{
    Span::from_secs(DEFAULT_INTERVAL)
}

/// Size limit when none is configured.
pub fn default_max_file_size() -> (out: u64)
    ensures
        out == DEFAULT_MAX_FILE_SIZE,
{
    DEFAULT_MAX_FILE_SIZE
}

/// Active profile when the `[daemon] profile` setting is omitted.
pub fn default_profile() -> (out: Option<String>)
    ensures
        text_opt(out) == Some("default"@),
{
    Some("default".to_string())
}

/// Implicit profile membership when the `profiles` setting is omitted.
pub fn default_profiles() -> (out: Vec<String>)
    ensures
        texts(out@) == seq!["default"@],
{
    let mut out: Vec<String> = Vec::new();
    out.push("default".to_string());
    assert(texts(out@) =~= seq!["default"@]);
    out
}

impl Default for DaemonConfig {
    fn default() -> (out: Self)
        ensures
            out.log_level@ == "info"@,
            out.debounce == (Span { secs: DEFAULT_DEBOUNCE, nanos: 0 }),
            out.interval == (Span { secs: DEFAULT_INTERVAL, nanos: 0 }),
            out.pull_interval is None,
            out.empty_dirs == EmptyDirMode::Ignore,
            out.deletions == Deletions::Deny,
            out.max_file_size == DEFAULT_MAX_FILE_SIZE,
            texts(out.exclude@) == well_known_excludes(),
            text_opt(out.profile) == Some("default"@),
    {
        DaemonConfig {
            log_level: default_log_level(),
            debounce: default_debounce(),
            interval: default_interval(),
            pull_interval: None,
            empty_dirs: EmptyDirMode::default(),
            deletions: Deletions::default(),
            max_file_size: default_max_file_size(),
            exclude: default_exclude(),
            profile: default_profile(),
        }
    }
}

// ---------------------------------------------------------------------------
// Sync groups
// ---------------------------------------------------------------------------

/// The label of a sync group: `remote:remote_path`, or just `remote` when the
/// group maps to the remote's root.
pub open spec fn label_of(sync: Sync) -> Seq<char> {
    if sync.remote_path@.len() == 0 {
        sync.remote@
    } else {
        sync.remote@ + ":"@ + sync.remote_path@
    }
}

/// A stable, human-readable label for a sync group (`remote:remote_path`, or
/// just `remote` when the group maps to the remote's root).
pub fn group_label(sync: &Sync) -> (out: String)
    ensures
        out@ == label_of(*sync),
{
    let path = chars_of(sync.remote_path.as_str());
    if path.len() == 0 {
        sync.remote.clone()
    } else {
        cat3(sync.remote.as_str(), ":", sync.remote_path.as_str())
    }
}

/// A list of texts without those that occurred before.
pub open spec fn deduped(v: Seq<Seq<char>>) -> Seq<Seq<char>>
    decreases v.len(),
{
    if v.len() == 0 {
        seq![]
    } else {
        let front = deduped(v.drop_last());
        if front.contains(v.last()) {
            front
        } else {
            front.push(v.last())
        }
    }
}

/// The exclude globs of a group: the defaults, its own, and the glob for conflict
/// copies, each once.
pub open spec fn excludes_of(sync: Sync, defaults: Seq<Seq<char>>) -> Seq<Seq<char>> {
    deduped((defaults + texts(sync.exclude@)).push(CONFLICT_GLOB@))
}

/// Whether a list holds a text.
pub fn holds_text(list: &[String], text: &str) -> (out: bool)
    ensures
        out == texts(list@).contains(text@),
{
    let mut i: usize = 0;
    while i < list.len()
        invariant
            i <= list@.len(),
            forall|j: int| 0 <= j < i ==> texts(list@)[j] != text@,
        decreases list.len() - i,
    {
        assert(texts(list@)[i as int] == list@[i as int]@);
        if same(list[i].as_str(), text) {
            return true;
        }
        i = i + 1;
    }
    false
}

/// Adds the texts of a list that are not there yet.
fn add_new(out: &mut Vec<String>, done: Ghost<Seq<Seq<char>>>, list: &[String])
    requires
        texts(old(out)@) == deduped(done@),
    ensures
        texts(final(out)@) == deduped(done@ + texts(list@)),
{
    let mut i: usize = 0;
    assert(done@ + texts(list@).take(0) =~= done@);
    while i < list.len()
        invariant
            i <= list@.len(),
            texts(out@) == deduped(done@ + texts(list@).take(i as int)),
        decreases list.len() - i,
    {
        let ghost before = out@;
        let ghost all = done@ + texts(list@).take(i + 1);
        assert(all.drop_last() =~= done@ + texts(list@).take(i as int));
        assert(all.last() == list@[i as int]@);
        if !holds_text(out.as_slice(), list[i].as_str()) {
            out.push(list[i].clone());
            assert(texts(out@) =~= texts(before).push(list@[i as int]@));
        }
        i = i + 1;
    }
    assert(texts(list@).take(list@.len() as int) =~= texts(list@));
}

impl Sync {
    /// The id of the remote this group syncs with.
    pub fn remote_id(&self) -> (out: &str)
        ensures
            out@ == self.remote@,
    {
        self.remote.as_str()
    }

    /// Effective timer interval: the per-sync value, else the daemon default.
    pub fn effective_interval(&self, daemon_default: Span) -> (out: Span)
        ensures
            out == (match self.interval {
                Some(d) => d,
                None => daemon_default,
            }),
    {
        match self.interval {
            Some(d) => d,
            None => daemon_default,
        }
    }

    /// Effective excludes: the `[daemon]`-level `defaults`, this group's own
    /// `exclude`, and the always-forced conflict-copy glob, unioned (deduped).
    pub fn effective_excludes(&self, defaults: &[String]) -> (out: Vec<String>)
        ensures
            texts(out@) == excludes_of(*self, texts(defaults@)),
    {
        let mut out: Vec<String> = Vec::new();
        let ghost nothing = Seq::<Seq<char>>::empty();
        assert(texts(out@) =~= deduped(nothing));
        add_new(&mut out, Ghost(nothing), defaults);
        assert(nothing + texts(defaults@) =~= texts(defaults@));
        add_new(&mut out, Ghost(texts(defaults@)), self.exclude.as_slice());
        let ghost both = texts(defaults@) + texts(self.exclude@);
        assert(both.push(CONFLICT_GLOB@).drop_last() =~= both);
        let ghost before = out@;
        if !holds_text(out.as_slice(), CONFLICT_GLOB) {
            out.push(CONFLICT_GLOB.to_string());
            assert(texts(out@) =~= texts(before).push(CONFLICT_GLOB@));
        }
        out
    }
}

// ---------------------------------------------------------------------------
// Normalization
// ---------------------------------------------------------------------------

/// Whether a `$` before `rest` starts no reference to a variable: nothing follows,
/// or an ASCII character that is no letter, digit, `_` or `{`.
pub open spec fn is_bare(rest: Seq<char>) -> bool {
    rest.len() == 0 || (rest[0] < '\u{80}' && !is_alnum(rest[0]) && rest[0] != '_' && rest[0] != '{')
}

/// Whether a text refers to no variable: each `$` is escaped by another, or is bare.
pub open spec fn has_no_reference(s: Seq<char>) -> bool
    decreases s.len(),
{
    if s.len() == 0 {
        true
    } else if begins(s, seq!['$', '$']) {
        has_no_reference(s.skip(2))
    } else {
        (s[0] == '$' ==> is_bare(s.skip(1))) && has_no_reference(s.skip(1))
    }
}

/// A text with `$` in place of each `$$`.
pub open spec fn unescaped(s: Seq<char>) -> Seq<char>
    decreases s.len(),
{
    if s.len() == 0 {
        s
    } else if begins(s, seq!['$', '$']) {
        seq!['$'] + unescaped(s.skip(2))
    } else {
        seq![s[0]] + unescaped(s.skip(1))
    }
}

/// Whether `out` keeps what stands before the first `$` of `path`, where no `~`
/// leads.
pub open spec fn keeps_start(path: Seq<char>, out: Seq<char>) -> bool {
    !begins(path, seq!['~']) ==> begins(out, path.take(first_index(path, '$')))
}

/// What `shellexpand::full` makes of a path, given the variables that are set and
/// the home directory, if there is one; `None` if it fails.
pub uninterp spec fn expanded(
    path: Seq<char>,
    env: Map<Seq<char>, Seq<char>>,
    home: Option<Seq<char>>,
) -> Option<Seq<char>>;

/// Whether `out` can be `path` with a leading `~` and `$VAR` references expanded, or
/// `path` itself where that fails. What a reference stands for depends on the
/// environment; where there is none, `$$` becomes `$`, and a leading `~` is expanded.
pub open spec fn expands_to(path: Seq<char>, out: Seq<char>) -> bool {
    &&& exists|env: Map<Seq<char>, Seq<char>>, home: Option<Seq<char>>|
        out == or_itself(path, #[trigger] expanded(path, env, home))
    &&& has_no_reference(path) ==> home_expanded(unescaped(path), out)
    &&& keeps_start(path, out)
}

/// `shellexpand::full`: a leading `~` and `$VAR` references expanded from the
/// home directory and the environment; `None` if a variable is not set. The result
/// is a function of the path, the variables that are set (to Unicode text) and the
/// home directory; which these are depends on the machine. Where nothing refers to a variable it does not fail: `$$` becomes `$`, another `$`
/// stays, and then a leading `~` is expanded as `shellexpand::tilde` does it. What
/// stands before the first `$` is kept, unless a `~` leads.
#[verifier::external_body]
fn expand_text(path: &str) -> (out: Option<String>)
    ensures
        exists|env: Map<Seq<char>, Seq<char>>, home: Option<Seq<char>>|
            text_opt(out) == #[trigger] expanded(path@, env, home),
        has_no_reference(path@) ==> out is Some && home_expanded(
            unescaped(path@),
            out->Some_0@,
        ),
        out is Some ==> keeps_start(path@, out->Some_0@),
{
    match shellexpand::full(path) {
        Ok(expanded) => Some(expanded.into_owned()),
        Err(_) => None,
    }
}

/// What a path is replaced by: its expansion, or itself if there is none.
pub open spec fn or_itself(path: Seq<char>, found: Option<Seq<char>>) -> Seq<char> {
    match found {
        Some(expanded) => expanded,
        None => path,
    }
}

/// What a path is replaced by: its expansion, or itself if there is none.
pub fn expanded_or_itself(path: &str, found: Option<String>) -> (out: String)
    ensures
        out@ == or_itself(path@, text_opt(found)),
{
    match found {
        Some(expanded) => expanded,
        None => path.to_string(),
    }
}

/// Expand a leading `~` and `$VAR` references; falls back to the input on error.
pub fn expand_path(path: &str) -> (out: String)
    ensures
        expands_to(path@, out@),
{
    let found = expand_text(path);
    let ghost result = text_opt(found);
    let out = expanded_or_itself(path, found);
    proof {
        lemma_first_index(path@, '$');
        let (env, home) = choose|env: Map<Seq<char>, Seq<char>>, home: Option<Seq<char>>|
            result == #[trigger] expanded(path@, env, home);
        assert(out@ == or_itself(path@, expanded(path@, env, home)));
    }
    out
}

/// A path without `$` is kept but for a leading `~`, and one without a leading `~`
/// is then kept as it is.
pub proof fn law_plain_paths_are_kept(path: Seq<char>, out: Seq<char>)
    requires
        expands_to(path, out),
        !path.contains('$'),
    ensures
        home_expanded(path, out),
        !begins(path, seq!['~']) ==> out == path,
{
    lemma_no_dollar(path);
}

/// A text without `$` refers to no variable and has nothing to unescape.
proof fn lemma_no_dollar(s: Seq<char>)
    requires
        !s.contains('$'),
    ensures
        has_no_reference(s),
        unescaped(s) == s,
    decreases s.len(),
{
    if s.len() > 0 {
        let rest = s.skip(1);
        assert(s.contains(s[0]));
        assert(!begins(s, seq!['$', '$'])) by {
            if begins(s, seq!['$', '$']) {
                assert(s.take(2)[0] == s[0]);
            }
        }
        if rest.contains('$') {
            let i = choose|i: int| 0 <= i < rest.len() && rest[i] == '$';
            assert(s[i + 1] == '$');
        }
        lemma_no_dollar(rest);
        assert(seq![s[0]] + rest =~= s);
    }
}

/// Whether two groups differ in nothing but their local root and `remote_fs`.
pub open spec fn same_but_roots(a: Sync, b: Sync) -> bool {
    b == (Sync { local: b.local, remote_fs: b.remote_fs, ..a })
}

/// Whether `after` is the group `before` with its local root and its `remote_fs`
/// expanded.
pub open spec fn is_expansion(before: Sync, after: Sync) -> bool {
    &&& same_but_roots(before, after)
    &&& expands_to(before.local@, after.local@)
    &&& match before.remote_fs {
        Some(dir) => after.remote_fs is Some && expands_to(dir@, after.remote_fs.unwrap()@),
        None => after.remote_fs is None,
    }
}

/// Whether `after` is `before` with the roots of its groups expanded.
pub open spec fn expanded_from(before: Config, after: Config) -> bool {
    &&& after.daemon == before.daemon
    &&& after.remotes == before.remotes
    &&& after.syncs@.len() == before.syncs@.len()
    &&& forall|i: int|
        0 <= i < before.syncs@.len() ==> is_expansion(before.syncs@[i], #[trigger] after.syncs@[i])
}

/// Whether two groups differ in nothing but where they sync to.
pub open spec fn same_but_remote(a: Sync, b: Sync) -> bool {
    b == (Sync { remote: b.remote, remote_fs: b.remote_fs, remote_path: b.remote_path, ..a })
}

/// The directory that stands in place of a remote, if one does. A group that
/// names a remote too is left for validation to reject.
pub open spec fn shortcut(sync: Sync) -> Option<Seq<char>> {
    if sync.remote@.len() == 0 {
        text_opt(sync.remote_fs)
    } else {
        None
    }
}

/// Whether `r` is the remote that stands for the directory `dir`.
pub open spec fn stands_for(r: Remote, dir: Seq<char>) -> bool {
    &&& r.id@ == dir
    &&& r.url@ == dir
    &&& r.backend == RemoteKind::Local
}

/// Whether `r` is exactly the remote that is made up for the directory `dir`.
pub open spec fn made_up_for(r: Remote, dir: Seq<char>) -> bool {
    &&& stands_for(r, dir)
    &&& r.label is None
    &&& r.username is None
    &&& r.password is None
    &&& r.password_command is None
    &&& r.identity_file is None
    &&& r.identity_file_command is None
    &&& r.branch is None
    &&& r.commit_msg_command is None
    &&& r.pull_interval is None
    &&& r.empty_dirs is None
    &&& r.max_file_size is None
}

/// Whether one of the remotes stands for the directory `dir`.
pub open spec fn any_stands_for(remotes: Seq<Remote>, dir: Seq<char>) -> bool {
    exists|i: int| 0 <= i < remotes.len() && stands_for(#[trigger] remotes[i], dir)
}

/// The directories of the first `n` groups that need a remote made up for them,
/// each once.
pub open spec fn missing_dirs(remotes: Seq<Remote>, syncs: Seq<Sync>, n: int) -> Seq<Seq<char>>
    decreases n,
{
    if n <= 0 {
        seq![]
    } else {
        let front = missing_dirs(remotes, syncs, n - 1);
        match shortcut(syncs[n - 1]) {
            Some(dir) => if any_stands_for(remotes, dir) || front.contains(dir) {
                front
            } else {
                front.push(dir)
            },
            None => front,
        }
    }
}

/// Whether `after` is the group `before` with its remote path trimmed and its
/// `remote_fs` turned into the remote that stands for it.
pub open spec fn is_settled(before: Sync, after: Sync) -> bool {
    &&& same_but_remote(before, after)
    &&& after.remote_path@ == trim(before.remote_path@, Class::Slash)
    &&& match shortcut(before) {
        Some(dir) => after.remote@ == dir && after.remote_fs is None,
        None => after.remote == before.remote && after.remote_fs == before.remote_fs,
    }
}

/// Whether `after` is `before` with the remotes made up for these directories.
pub open spec fn has_made_up(
    before: Seq<Remote>,
    after: Seq<Remote>,
    dirs: Seq<Seq<char>>,
) -> bool {
    &&& after.len() == before.len() + dirs.len()
    &&& forall|i: int| 0 <= i < before.len() ==> #[trigger] after[i] == before[i]
    &&& forall|i: int|
        before.len() <= i < after.len() ==> made_up_for(
            #[trigger] after[i],
            dirs[i - before.len()],
        )
}

/// Whether `after` is `before` with its groups settled, and with the remotes that
/// they need made up.
pub open spec fn settled_from(before: Config, after: Config) -> bool {
    &&& after.daemon == before.daemon
    &&& after.syncs@.len() == before.syncs@.len()
    &&& forall|i: int|
        0 <= i < before.syncs@.len() ==> is_settled(before.syncs@[i], #[trigger] after.syncs@[i])
    &&& has_made_up(
        before.remotes@,
        after.remotes@,
        missing_dirs(before.remotes@, before.syncs@, before.syncs@.len() as int),
    )
}

/// Whether `after` is `before` with its roots expanded and then settled.
pub open spec fn normalized_from(before: Config, after: Config) -> bool {
    exists|mid: Config| #[trigger] expanded_from(before, mid) && settled_from(mid, after)
}

/// Whether one of the remotes stands for the directory `dir`.
fn has_remote_for(remotes: &Vec<Remote>, dir: &str) -> (out: bool)
    ensures
        out == any_stands_for(remotes@, dir@),
{
    let mut i: usize = 0;
    while i < remotes.len()
        invariant
            i <= remotes@.len(),
            forall|j: int| 0 <= j < i ==> !stands_for(#[trigger] remotes@[j], dir@),
        decreases remotes.len() - i,
    {
        let r = &remotes[i];
        if same(r.id.as_str(), dir) && same(r.url.as_str(), dir) && r.backend
            == RemoteKind::Local {
            assert(stands_for(remotes@[i as int], dir@));
            return true;
        }
        i = i + 1;
    }
    false
}

/// The remote that is made up for the directory `dir`.
fn remote_for(dir: &str) -> (out: Remote)
    ensures
        made_up_for(out, dir@),
{
    Remote {
        id: dir.to_string(),
        label: None,
        backend: RemoteKind::Local,
        url: dir.to_string(),
        username: None,
        password: None,
        password_command: None,
        identity_file: None,
        identity_file_command: None,
        branch: None,
        commit_msg_command: None,
        pull_interval: None,
        empty_dirs: None,
        max_file_size: None,
    }
}

impl Config {
    /// Expand `~`/env vars in local roots and in `remote_fs` directories.
    pub fn expand(&mut self)
        ensures
            expanded_from(*old(self), *final(self)),
    {
        let mut i: usize = 0;
        while i < self.syncs.len()
            invariant
                i <= self.syncs@.len(),
                self.daemon == old(self).daemon,
                self.remotes == old(self).remotes,
                self.syncs@.len() == old(self).syncs@.len(),
                forall|j: int|
                    i <= j < self.syncs@.len() ==> #[trigger] self.syncs@[j] == old(self).syncs@[j],
                forall|j: int|
                    0 <= j < i ==> is_expansion(old(self).syncs@[j], #[trigger] self.syncs@[j]),
            decreases self.syncs.len() - i,
        {
            let local = expand_path(self.syncs[i].local.as_str());
            let fs = match &self.syncs[i].remote_fs {
                Some(dir) => Some(expand_path(dir.as_str())),
                None => None,
            };
            let ghost s = self.syncs@[i as int];
            self.syncs[i].local = local;
            self.syncs[i].remote_fs = fs;
            assert(is_expansion(s, self.syncs@[i as int]));
            i = i + 1;
        }
    }
}

impl Config {
    /// Trim slashes off remote paths, and turn each `remote_fs` into the remote
    /// that stands for the directory, making that remote up if there is none.
    pub fn settle(&mut self)
        ensures
            settled_from(*old(self), *final(self)),
    {
        let ghost syncs = self.syncs@;
        let ghost remotes = self.remotes@;
        let mut i: usize = 0;
        while i < self.syncs.len()
            invariant
                i <= self.syncs@.len(),
                syncs == old(self).syncs@,
                remotes == old(self).remotes@,
                self.daemon == old(self).daemon,
                self.syncs@.len() == syncs.len(),
                forall|j: int| i <= j < syncs.len() ==> #[trigger] self.syncs@[j] == syncs[j],
                forall|j: int| 0 <= j < i ==> is_settled(syncs[j], #[trigger] self.syncs@[j]),
                has_made_up(remotes, self.remotes@, missing_dirs(remotes, syncs, i as int)),
            decreases self.syncs.len() - i,
        {
            let path = chars_of(self.syncs[i].remote_path.as_str());
            let bare = string_of(trimmed(path.as_slice(), Class::Slash).as_slice());
            let named = chars_of(self.syncs[i].remote.as_str());
            let dir = if named.len() == 0 {
                match &self.syncs[i].remote_fs {
                    Some(d) => Some(d.clone()),
                    None => None,
                }
            } else {
                None
            };
            assert(text_opt(dir) == shortcut(syncs[i as int]));
            // An empty / all-slashes `remote_path` means "the remote root".
            self.syncs[i].remote_path = bare;
            let ghost before = self.remotes@;
            let ghost missing = missing_dirs(remotes, syncs, i as int);
            match dir {
                Some(d) => {
                    proof {
                        lemma_any_stands_for(remotes, before, missing, d@);
                    }
                    if !has_remote_for(&self.remotes, d.as_str()) {
                        let made = remote_for(d.as_str());
                        self.remotes.push(made);
                        assert(has_made_up(remotes, self.remotes@, missing.push(d@)));
                    }
                    self.syncs[i].remote = d;
                    self.syncs[i].remote_fs = None;
                },
                None => {},
            }
            assert(is_settled(syncs[i as int], self.syncs@[i as int]));
            i = i + 1;
        }
    }

    /// Expand `~`/env vars in local roots, trim slashes off remote paths, and turn
    /// each `remote_fs` into a remote.
    pub fn normalize(&mut self)
        ensures
            normalized_from(*old(self), *final(self)),
    {
        self.expand();
        let ghost mid = *self;
        self.settle();
        assert(expanded_from(*old(self), mid) && settled_from(mid, *self));
    }
}

/// After making up remotes for the missing directories, a remote stands for what
/// one stood for before, and for the missing directories.
proof fn lemma_any_stands_for(
    before: Seq<Remote>,
    after: Seq<Remote>,
    dirs: Seq<Seq<char>>,
    dir: Seq<char>,
)
    requires
        has_made_up(before, after, dirs),
    ensures
        any_stands_for(after, dir) == (any_stands_for(before, dir) || dirs.contains(dir)),
{
    if any_stands_for(before, dir) {
        let i = choose|i: int| 0 <= i < before.len() && stands_for(#[trigger] before[i], dir);
        assert(stands_for(after[i], dir));
    }
    if dirs.contains(dir) {
        let i = dirs.index_of(dir);
        assert(0 <= i < dirs.len() && dirs[i] == dir);
        assert(made_up_for(after[before.len() + i], dirs[i]));
        assert(stands_for(after[before.len() + i], dir));
    }
    if any_stands_for(after, dir) {
        let i = choose|i: int| 0 <= i < after.len() && stands_for(#[trigger] after[i], dir);
        if i < before.len() {
            assert(stands_for(before[i], dir));
        } else {
            assert(made_up_for(after[i], dirs[i - before.len()]));
            assert(dirs[i - before.len()] == dir);
        }
    }
}

/// Every directory that stands in place of a remote is missing, or has one.
proof fn lemma_missing(remotes: Seq<Remote>, syncs: Seq<Sync>, n: int, i: int)
    requires
        0 <= i < n <= syncs.len(),
        shortcut(syncs[i]) is Some,
    ensures
        any_stands_for(remotes, shortcut(syncs[i]).unwrap()) || missing_dirs(
            remotes,
            syncs,
            n,
        ).contains(shortcut(syncs[i]).unwrap()),
    decreases n,
{
    let dir = shortcut(syncs[i]).unwrap();
    let front = missing_dirs(remotes, syncs, n - 1);
    if i == n - 1 {
        if !any_stands_for(remotes, dir) && !front.contains(dir) {
            assert(front.push(dir)[front.len() as int] == dir);
        }
    } else {
        lemma_missing(remotes, syncs, n - 1, i);
        if front.contains(dir) {
            let j = front.index_of(dir);
            assert(0 <= j < front.len() && front[j] == dir);
            let all = missing_dirs(remotes, syncs, n);
            assert(all[j] == dir);
        }
    }
}

proof fn lemma_none_missing(remotes: Seq<Remote>, syncs: Seq<Sync>, n: int)
    requires
        0 <= n <= syncs.len(),
        forall|i: int|
            0 <= i < n ==> match shortcut(#[trigger] syncs[i]) {
                Some(dir) => any_stands_for(remotes, dir),
                None => true,
            },
    ensures
        missing_dirs(remotes, syncs, n) == Seq::<Seq<char>>::empty(),
    decreases n,
{
    if n > 0 {
        lemma_none_missing(remotes, syncs, n - 1);
        assert(shortcut(syncs[n - 1]) is Some ==> any_stands_for(
            remotes,
            shortcut(syncs[n - 1]).unwrap(),
        ));
    }
}

/// Normalizing keeps the settings of the daemon, the remotes that are configured
/// and everything of a group but its roots, its remote and the slashes around its
/// remote path. A group that names a remote keeps it; one with a `remote_fs` in its
/// place is given a remote that stands for the directory. No remote is made up
/// where no group asks for one.
pub proof fn law_normalizing_keeps_the_rest(before: Config, after: Config, i: int)
    requires
        normalized_from(before, after),
        0 <= i < before.syncs@.len(),
    ensures
        after.daemon == before.daemon,
        after.syncs@.len() == before.syncs@.len(),
        before.remotes@.len() <= after.remotes@.len(),
        after.remotes@.take(before.remotes@.len() as int) == before.remotes@,
        ({
            let a = before.syncs@[i];
            let b = after.syncs@[i];
            &&& b == (Sync {
                local: b.local,
                remote: b.remote,
                remote_fs: b.remote_fs,
                remote_path: b.remote_path,
                ..a
            })
            &&& b.remote_path@ == trim(a.remote_path@, Class::Slash)
            &&& expands_to(a.local@, b.local@)
            &&& a.remote@.len() > 0 || a.remote_fs is None ==> b.remote == a.remote
            &&& a.remote@.len() == 0 && a.remote_fs is Some ==> b.remote_fs is None && expands_to(
                a.remote_fs.unwrap()@,
                b.remote@,
            ) && any_stands_for(after.remotes@, b.remote@)
        }),
        (forall|j: int| 0 <= j < before.syncs@.len() ==> shortcut(#[trigger] before.syncs@[j]) is None)
            ==> after.remotes@ == before.remotes@,
{
    let mid = choose|mid: Config| #[trigger]
        expanded_from(before, mid) && settled_from(mid, after);
    let n = mid.syncs@.len() as int;
    let dirs = missing_dirs(mid.remotes@, mid.syncs@, n);
    assert(after.remotes@.take(before.remotes@.len() as int) =~= before.remotes@);
    let a = before.syncs@[i];
    let m = mid.syncs@[i];
    let b = after.syncs@[i];
    assert(is_expansion(a, m));
    assert(is_settled(m, b));
    if a.remote@.len() == 0 && a.remote_fs is Some {
        lemma_missing(mid.remotes@, mid.syncs@, n, i);
        lemma_any_stands_for(mid.remotes@, after.remotes@, dirs, b.remote@);
    }
    if forall|j: int| 0 <= j < before.syncs@.len() ==> shortcut(#[trigger] before.syncs@[j]) is None {
        assert forall|j: int| 0 <= j < n implies shortcut(#[trigger] mid.syncs@[j]) is None by {
            assert(shortcut(before.syncs@[j]) is None);
            assert(is_expansion(before.syncs@[j], mid.syncs@[j]));
        }
        lemma_none_missing(mid.remotes@, mid.syncs@, n);
        assert(after.remotes@ =~= mid.remotes@);
    }
}

/// Settling what is settled changes nothing: no remote is made up again, and every
/// group is what it was.
pub proof fn law_settling_is_idempotent(before: Config, once: Config, twice: Config, i: int)
    requires
        settled_from(before, once),
        settled_from(once, twice),
        0 <= i < before.syncs@.len(),
    ensures
        twice.daemon == once.daemon,
        twice.remotes@ == once.remotes@,
        twice.syncs@.len() == once.syncs@.len(),
        ({
            let a = once.syncs@[i];
            let b = twice.syncs@[i];
            &&& same_but_remote(a, b)
            &&& b.remote@ == a.remote@
            &&& b.remote_path@ == a.remote_path@
            &&& text_opt(b.remote_fs) == text_opt(a.remote_fs)
        }),
{
    let n = before.syncs@.len() as int;
    assert forall|j: int| 0 <= j < n implies match shortcut(#[trigger] once.syncs@[j]) {
        Some(dir) => any_stands_for(once.remotes@, dir),
        None => true,
    } by {
        assert(is_settled(before.syncs@[j], once.syncs@[j]));
    }
    lemma_none_missing(once.remotes@, once.syncs@, n);
    assert(twice.remotes@ =~= once.remotes@);
    assert(is_settled(before.syncs@[i], once.syncs@[i]));
    assert(is_settled(once.syncs@[i], twice.syncs@[i]));
    lemma_trim(before.syncs@[i].remote_path@, Class::Slash);
}

// ---------------------------------------------------------------------------
// Validation
// ---------------------------------------------------------------------------

/// The index of the first remote with the given id, or the number of remotes.
pub open spec fn remote_index(remotes: Seq<Remote>, id: Seq<char>) -> int
    decreases remotes.len(),
{
    if remotes.len() == 0 {
        0
    } else {
        let front = remote_index(remotes.drop_last(), id);
        if front < remotes.len() - 1 {
            front
        } else if remotes.last().id@ == id {
            remotes.len() - 1
        } else {
            remotes.len() as int
        }
    }
}

/// Whether a remote has the given id.
pub open spec fn has_remote(remotes: Seq<Remote>, id: Seq<char>) -> bool {
    exists|i: int| 0 <= i < remotes.len() && (#[trigger] remotes[i]).id@ == id
}

/// What is wrong with the remote at index `i`, if anything.
pub open spec fn remote_problem(remotes: Seq<Remote>, i: int) -> Option<Seq<char>> {
    let r = remotes[i];
    if has_remote(remotes.take(i), r.id@) {
        Some("duplicate remote id `"@ + r.id@ + "`"@)
    } else if r.commit_msg_command is Some && r.backend != RemoteKind::Git {
        Some(
            "remote `"@ + r.id@
                + "` sets `commit_msg_command`, which only applies to a `git` backend, but its backend is `"@
                + r.backend.name() + "`"@,
        )
    } else {
        None
    }
}

/// Whether a group has the given label.
pub open spec fn has_label(syncs: Seq<Sync>, label: Seq<char>) -> bool {
    exists|i: int| 0 <= i < syncs.len() && label_of(#[trigger] syncs[i]) == label
}

/// Whether a group has the given id.
pub open spec fn has_sync_id(syncs: Seq<Sync>, id: Seq<char>) -> bool {
    exists|i: int| 0 <= i < syncs.len() && text_opt((#[trigger] syncs[i]).id) == Some(id)
}

/// The patterns of a group, in the order in which they are looked at.
pub open spec fn patterns_of(sync: Sync) -> Seq<Seq<char>> {
    texts(sync.includes@) + texts(sync.exclude@)
}

/// What is wrong with the way a group names its remote, if anything.
pub open spec fn naming_problem(remotes: Seq<Remote>, s: Sync) -> Option<Seq<char>> {
    if s.remote_fs is Some {
        Some("sync for `"@ + s.local@ + "` sets both `remote` and `remote_fs`"@)
    } else if !has_remote(remotes, s.remote@) {
        Some("sync for `"@ + s.local@ + "` references unknown remote `"@ + s.remote@ + "`"@)
    } else {
        None
    }
}

/// What is wrong with the way a group is called, if anything.
pub open spec fn label_problem(before: Seq<Sync>, s: Sync) -> Option<Seq<char>> {
    if has_label(before, label_of(s)) {
        Some("duplicate sync group `"@ + label_of(s) + "` (same remote and remote_path)"@)
    } else if s.id is Some && has_sync_id(before, s.id.unwrap()@) {
        Some("duplicate sync id `"@ + s.id.unwrap()@ + "`"@)
    } else {
        None
    }
}

/// What is wrong with the way a group is triggered, if anything: `watch-both`
/// watches the remote's path, which only a local directory has.
pub open spec fn trigger_problem(remotes: Seq<Remote>, s: Sync) -> Option<Seq<char>> {
    let i = remote_index(remotes, s.remote@);
    if s.trigger == Trigger::WatchBoth && i < remotes.len() && remotes[i].backend
        != RemoteKind::Local {
        Some(
            "sync `"@ + label_of(s)
                + "` uses `trigger = \"watch-both\"`, which requires a `local` backend, but remote `"@
                + s.remote@ + "` is `"@ + remotes[i].backend.name()
                + "`; use `trigger = \"watch\"` (optionally with `pull_interval`) instead"@,
        )
    } else {
        None
    }
}

/// What is wrong with the globs of a group, if anything.
pub open spec fn pattern_problem(s: Sync) -> Option<Seq<char>> {
    let ps = patterns_of(s);
    if first_bad(ps) < ps.len() {
        Some(bad_glob(ps[first_bad(ps)]))
    } else {
        None
    }
}

/// The first of two problems.
pub open spec fn or_else(a: Option<Seq<char>>, b: Option<Seq<char>>) -> Option<Seq<char>> {
    match a {
        Some(_) => a,
        None => b,
    }
}

/// What is wrong with the group at index `i`, if anything.
pub open spec fn sync_problem(remotes: Seq<Remote>, syncs: Seq<Sync>, i: int) -> Option<Seq<char>> {
    or_else(
        naming_problem(remotes, syncs[i]),
        or_else(
            label_problem(syncs.take(i), syncs[i]),
            or_else(trigger_problem(remotes, syncs[i]), pattern_problem(syncs[i])),
        ),
    )
}

/// Whether a glob of a group has a character that its syntax can be wrong about.
pub open spec fn has_special(s: Sync) -> bool {
    exists|k: int| 0 <= k < patterns_of(s).len() && is_special(#[trigger] patterns_of(s)[k])
}

/// Whether something is wrong with the group at index `i`, or may be with its
/// globs.
pub open spec fn is_faulty(remotes: Seq<Remote>, syncs: Seq<Sync>, i: int) -> bool {
    ||| naming_problem(remotes, syncs[i]) is Some
    ||| label_problem(syncs.take(i), syncs[i]) is Some
    ||| trigger_problem(remotes, syncs[i]) is Some
    ||| has_special(syncs[i])
}

/// Whether something is wrong with a configuration, or may be with its globs.
pub open spec fn may_be_faulty(config: Config) -> bool {
    remotes_problem(config.remotes@, config.remotes@.len() as int) is Some || exists|i: int|
        0 <= i < config.syncs@.len() && #[trigger] is_faulty(config.remotes@, config.syncs@, i)
}

/// The first problem among the first `n` remotes.
pub open spec fn remotes_problem(remotes: Seq<Remote>, n: int) -> Option<Seq<char>>
    decreases n,
{
    if n <= 0 {
        None
    } else {
        or_else(remotes_problem(remotes, n - 1), remote_problem(remotes, n - 1))
    }
}

/// The first problem among the first `n` groups.
pub open spec fn syncs_problem(remotes: Seq<Remote>, syncs: Seq<Sync>, n: int) -> Option<Seq<char>>
    decreases n,
{
    if n <= 0 {
        None
    } else {
        or_else(syncs_problem(remotes, syncs, n - 1), sync_problem(remotes, syncs, n - 1))
    }
}

/// The first problem of a configuration: of its remotes, then of its groups.
pub open spec fn problem(config: Config) -> Option<Seq<char>> {
    or_else(
        remotes_problem(config.remotes@, config.remotes@.len() as int),
        syncs_problem(config.remotes@, config.syncs@, config.syncs@.len() as int),
    )
}

pub proof fn lemma_remote_index(remotes: Seq<Remote>, id: Seq<char>)
    ensures
        0 <= remote_index(remotes, id) <= remotes.len(),
        remote_index(remotes, id) < remotes.len() ==> remotes[remote_index(remotes, id)].id@ == id,
        forall|i: int| 0 <= i < remote_index(remotes, id) ==> (#[trigger] remotes[i]).id@ != id,
    decreases remotes.len(),
{
    if remotes.len() > 0 {
        lemma_remote_index(remotes.drop_last(), id);
        let front = remotes.drop_last();
        let n = remote_index(remotes, id);
        assert forall|i: int| 0 <= i < n implies (#[trigger] remotes[i]).id@ != id by {
            if i < front.len() {
                assert(front[i] == remotes[i]);
            }
        }
    }
}

proof fn lemma_remote_index_is(remotes: Seq<Remote>, id: Seq<char>, n: int)
    requires
        0 <= n <= remotes.len(),
        n < remotes.len() ==> remotes[n].id@ == id,
        forall|i: int| 0 <= i < n ==> (#[trigger] remotes[i]).id@ != id,
    ensures
        remote_index(remotes, id) == n,
{
    lemma_remote_index(remotes, id);
    let k = remote_index(remotes, id);
    if k < n {
        assert(remotes[k].id@ != id);
    }
    if n < k {
        assert(remotes[n].id@ != id);
    }
}

/// The index of the first remote with the given id, or the number of remotes.
fn find_remote(remotes: &Vec<Remote>, id: &str) -> (out: usize)
    ensures
        out == remote_index(remotes@, id@),
        out <= remotes@.len(),
        (out < remotes@.len()) == has_remote(remotes@, id@),
{
    let mut i: usize = 0;
    while i < remotes.len() && !same(remotes[i].id.as_str(), id)
        invariant
            i <= remotes@.len(),
            forall|j: int| 0 <= j < i ==> (#[trigger] remotes@[j]).id@ != id@,
        decreases remotes.len() - i,
    {
        i = i + 1;
    }
    proof {
        lemma_remote_index_is(remotes@, id@, i as int);
        if i < remotes@.len() {
            assert(remotes@[i as int].id@ == id@);
        }
    }
    i
}

/// What is wrong with the remote at index `i`, if anything.
fn check_remote(remotes: &Vec<Remote>, i: usize) -> (out: Option<String>)
    requires
        i < remotes@.len(),
    ensures
        text_opt(out) == remote_problem(remotes@, i as int),
{
    let r = &remotes[i];
    let mut j: usize = 0;
    while j < i
        invariant
            j <= i < remotes@.len(),
            r == remotes@[i as int],
            forall|k: int| 0 <= k < j ==> (#[trigger] remotes@.take(i as int)[k]).id@ != r.id@,
        decreases i - j,
    {
        assert(remotes@.take(i as int)[j as int] == remotes@[j as int]);
        if same(remotes[j].id.as_str(), r.id.as_str()) {
            assert(has_remote(remotes@.take(i as int), r.id@));
            return Some(cat3("duplicate remote id `", r.id.as_str(), "`"));
        }
        j = j + 1;
    }
    assert(!has_remote(remotes@.take(i as int), r.id@));
    if r.commit_msg_command.is_some() && r.backend != RemoteKind::Git {
        return Some(
            cat5(
                "remote `",
                r.id.as_str(),
                "` sets `commit_msg_command`, which only applies to a `git` backend, but its backend is `",
                r.backend.as_str(),
                "`",
            ),
        );
    }
    None
}

/// What is wrong with the way a group is called, if anything.
fn check_label(syncs: &Vec<Sync>, i: usize) -> (out: Option<String>)
    requires
        i < syncs@.len(),
    ensures
        text_opt(out) == label_problem(syncs@.take(i as int), syncs@[i as int]),
{
    let s = &syncs[i];
    let label = group_label(s);
    let ghost before = syncs@.take(i as int);
    let mut j: usize = 0;
    while j < i
        invariant
            j <= i < syncs@.len(),
            before == syncs@.take(i as int),
            s == syncs@[i as int],
            label@ == label_of(*s),
            forall|k: int| 0 <= k < j ==> label_of(#[trigger] before[k]) != label@,
        decreases i - j,
    {
        assert(before[j as int] == syncs@[j as int]);
        let other = group_label(&syncs[j]);
        if same(other.as_str(), label.as_str()) {
            assert(has_label(before, label@));
            return Some(
                cat3(
                    "duplicate sync group `",
                    label.as_str(),
                    "` (same remote and remote_path)",
                ),
            );
        }
        j = j + 1;
    }
    assert(!has_label(before, label@));
    match &s.id {
        Some(id) => {
            let mut j: usize = 0;
            while j < i
                invariant
                    j <= i < syncs@.len(),
                    before == syncs@.take(i as int),
                    s == syncs@[i as int],
                    s.id == Some(*id),
                    !has_label(before, label_of(*s)),
                    forall|k: int|
                        0 <= k < j ==> text_opt((#[trigger] before[k]).id) != Some(id@),
                decreases i - j,
            {
                assert(before[j as int] == syncs@[j as int]);
                if let Some(other) = &syncs[j].id {
                    if same(other.as_str(), id.as_str()) {
                        assert(has_sync_id(before, id@));
                        return Some(cat3("duplicate sync id `", id.as_str(), "`"));
                    }
                }
                j = j + 1;
            }
            assert(!has_sync_id(before, id@));
            None
        },
        None => None,
    }
}

/// What is wrong with the way a group is triggered, if anything.
fn check_trigger(remotes: &Vec<Remote>, s: &Sync) -> (out: Option<String>)
    ensures
        text_opt(out) == trigger_problem(remotes@, *s),
{
    if s.trigger == Trigger::WatchBoth {
        let i = find_remote(remotes, s.remote.as_str());
        if i < remotes.len() && remotes[i].backend != RemoteKind::Local {
            let label = group_label(s);
            let start = cat5(
                "sync `",
                label.as_str(),
                "` uses `trigger = \"watch-both\"`, which requires a `local` backend, but remote `",
                s.remote.as_str(),
                "` is `",
            );
            return Some(
                cat3(
                    start.as_str(),
                    remotes[i].backend.as_str(),
                    "`; use `trigger = \"watch\"` (optionally with `pull_interval`) instead",
                ),
            );
        }
    }
    None
}

/// The first of the patterns that is not a glob, with its complaint.
fn check_patterns(patterns: &Vec<String>, done: Ghost<Seq<Seq<char>>>) -> (out: Option<String>)
    requires
        first_bad(done@) == done@.len(),
    ensures
        ({
            let ps = done@ + texts(patterns@);
            match out {
                Some(e) => first_bad(ps) < ps.len() && e@ == bad_glob(ps[first_bad(ps)]),
                None => first_bad(ps) == ps.len(),
            }
        }),
        out is Some ==> exists|i: int|
            0 <= i < patterns@.len() && is_special(#[trigger] texts(patterns@)[i]),
{
    let ghost all = done@ + texts(patterns@);
    let mut i: usize = 0;
    assert(done@ + texts(patterns@).take(0) =~= done@);
    while i < patterns.len()
        invariant
            i <= patterns@.len(),
            all == done@ + texts(patterns@),
            first_bad(done@ + texts(patterns@).take(i as int)) == done@.len() + i,
        decreases patterns.len() - i,
    {
        let p = &patterns[i];
        let ghost front = done@ + texts(patterns@).take(i as int);
        let ghost next = done@ + texts(patterns@).take(i + 1);
        assert(next.drop_last() =~= front);
        assert(next.last() == p@);
        match glob_complaint(p.as_str()) {
            Some(e) => {
                proof {
                    let more = texts(patterns@).skip(i + 1);
                    assert(all =~= next + more);
                    crate::matcher::lemma_first_bad_more(next, more);
                    assert(is_special(texts(patterns@)[i as int]));
                }
                return Some(cat4("invalid glob `", p.as_str(), "`: ", e.as_str()));
            },
            None => {},
        }
        i = i + 1;
    }
    assert(texts(patterns@).take(patterns@.len() as int) =~= texts(patterns@));
    None
}

/// What is wrong with the globs of a group, if anything.
fn check_globs(s: &Sync) -> (out: Option<String>)
    ensures
        text_opt(out) == pattern_problem(*s),
        out is Some ==> has_special(*s),
{
    let ghost nothing = Seq::<Seq<char>>::empty();
    let ghost first = texts(s.includes@);
    let ghost ps = patterns_of(*s);
    assert(nothing + first =~= first);
    match check_patterns(&s.includes, Ghost(nothing)) {
        Some(e) => {
            proof {
                crate::matcher::lemma_first_bad_more(first, texts(s.exclude@));
                let k = choose|k: int| 0 <= k < first.len() && is_special(#[trigger] first[k]);
                assert(ps[k] == first[k]);
            }
            Some(e)
        },
        None => {
            let out = check_patterns(&s.exclude, Ghost(first));
            proof {
                if out is Some {
                    let rest = texts(s.exclude@);
                    let k = choose|k: int| 0 <= k < rest.len() && is_special(#[trigger] rest[k]);
                    assert(ps[first.len() + k] == rest[k]);
                }
            }
            out
        },
    }
}

/// What is wrong with the group at index `i`, if anything.
fn check_sync(remotes: &Vec<Remote>, syncs: &Vec<Sync>, i: usize) -> (out: Option<String>)
    requires
        i < syncs@.len(),
    ensures
        text_opt(out) == sync_problem(remotes@, syncs@, i as int),
        out is Some ==> is_faulty(remotes@, syncs@, i as int),
{
    let s = &syncs[i];
    if s.remote_fs.is_some() {
        return Some(
            cat3("sync for `", s.local.as_str(), "` sets both `remote` and `remote_fs`"),
        );
    }
    if find_remote(remotes, s.remote.as_str()) == remotes.len() {
        return Some(
            cat5(
                "sync for `",
                s.local.as_str(),
                "` references unknown remote `",
                s.remote.as_str(),
                "`",
            ),
        );
    }
    // Two groups sharing a (remote, remote_path) collide on their state index,
    // and an id is used to target a single group from the CLI, so both must be
    // unambiguous.
    match check_label(syncs, i) {
        Some(e) => {
            return Some(e);
        },
        None => {},
    }
    match check_trigger(remotes, s) {
        Some(e) => {
            return Some(e);
        },
        None => {},
    }
    check_globs(s)
}

impl Config {
    /// Check cross-field invariants. Returns the first problem found. Whether a glob
    /// with brackets, braces or backslashes is one is up to the glob syntax; every
    /// other glob is.
    pub fn validate(&self) -> (out: Result<(), Error>)
        ensures
            match out {
                Ok(_) => problem(*self) is None,
                Err(Error::Validation(e)) => problem(*self) == Some(e@),
                Err(_) => false,
            },
            out is Err ==> may_be_faulty(*self),
    {
        let mut i: usize = 0;
        while i < self.remotes.len()
            invariant
                i <= self.remotes@.len(),
                remotes_problem(self.remotes@, i as int) is None,
            decreases self.remotes.len() - i,
        {
            match check_remote(&self.remotes, i) {
                Some(e) => {
                    proof {
                        lemma_remotes_problem(
                            self.remotes@,
                            i + 1,
                            self.remotes@.len() as int,
                        );
                    }
                    return Err(Error::Validation(e));
                },
                None => {},
            }
            i = i + 1;
        }
        let mut i: usize = 0;
        while i < self.syncs.len()
            invariant
                i <= self.syncs@.len(),
                remotes_problem(self.remotes@, self.remotes@.len() as int) is None,
                syncs_problem(self.remotes@, self.syncs@, i as int) is None,
            decreases self.syncs.len() - i,
        {
            match check_sync(&self.remotes, &self.syncs, i) {
                Some(e) => {
                    proof {
                        lemma_syncs_problem(
                            self.remotes@,
                            self.syncs@,
                            i + 1,
                            self.syncs@.len() as int,
                        );
                    }
                    return Err(Error::Validation(e));
                },
                None => {},
            }
            i = i + 1;
        }
        Ok(())
    }

    /// Look up a remote by its id.
    pub fn remote(&self, id: &str) -> (out: Option<&Remote>)
        ensures
            match out {
                Some(r) => remote_index(self.remotes@, id@) < self.remotes@.len() && *r
                    == self.remotes@[remote_index(self.remotes@, id@)] && r.id@ == id@,
                None => !has_remote(self.remotes@, id@),
            },
    {
        let i = find_remote(&self.remotes, id);
        if i < self.remotes.len() {
            proof {
                lemma_remote_index(self.remotes@, id@);
            }
            Some(&self.remotes[i])
        } else {
            None
        }
    }
}

proof fn lemma_remotes_problem(remotes: Seq<Remote>, i: int, n: int)
    requires
        0 <= i <= n,
        remotes_problem(remotes, i) is Some,
    ensures
        remotes_problem(remotes, n) == remotes_problem(remotes, i),
    decreases n - i,
{
    if i < n {
        lemma_remotes_problem(remotes, i, n - 1);
    }
}

proof fn lemma_syncs_problem(remotes: Seq<Remote>, syncs: Seq<Sync>, i: int, n: int)
    requires
        0 <= i <= n,
        syncs_problem(remotes, syncs, i) is Some,
    ensures
        syncs_problem(remotes, syncs, n) == syncs_problem(remotes, syncs, i),
    decreases n - i,
{
    if i < n {
        lemma_syncs_problem(remotes, syncs, i, n - 1);
    }
}

impl Config {
    /// Normalize the configuration and check it.
    pub fn prepare(&mut self) -> (out: Result<(), Error>)
        ensures
            match out {
                Ok(_) => problem(*final(self)) is None,
                Err(Error::Validation(e)) => problem(*final(self)) == Some(e@),
                Err(_) => false,
            },
            out is Err ==> may_be_faulty(*final(self)),
            normalized_from(*old(self), *final(self)),
    {
        self.normalize();
        self.validate()
    }
}

// ---------------------------------------------------------------------------
// Warnings
// ---------------------------------------------------------------------------

/// Whether a group syncs nothing: it covers what `include` matches, and that is
/// empty.
pub open spec fn is_inert(sync: Sync) -> bool {
    sync.scope == Scope::Include && sync.includes@.len() == 0
}

/// The warning about a group that syncs nothing.
pub open spec fn inert_warning(sync: Sync) -> Seq<char> {
    "sync group `"@ + label_of(sync)
        + "` has scope = \"include\" but an empty `include`, so it syncs nothing; add `include` globs or pick a different `scope`"@
}

/// The warnings about the first `n` groups.
pub open spec fn warnings_about(syncs: Seq<Sync>, n: int) -> Seq<Seq<char>>
    decreases n,
{
    if n <= 0 {
        seq![]
    } else if is_inert(syncs[n - 1]) {
        warnings_about(syncs, n - 1).push(inert_warning(syncs[n - 1]))
    } else {
        warnings_about(syncs, n - 1)
    }
}

impl Config {
    /// Non-fatal configuration lints: conditions that parse and validate fine
    /// but are almost certainly mistakes. Returned as human-readable messages
    /// for the caller to surface (the daemon logs them at startup; `conflux
    /// config validate` prints them).
    pub fn warnings(&self) -> (out: Vec<String>)
        ensures
            texts(out@) == warnings_about(self.syncs@, self.syncs@.len() as int),
    {
        let mut out: Vec<String> = Vec::new();
        let mut i: usize = 0;
        assert(texts(out@) =~= Seq::<Seq<char>>::empty());
        while i < self.syncs.len()
            invariant
                i <= self.syncs@.len(),
                texts(out@) == warnings_about(self.syncs@, i as int),
            decreases self.syncs.len() - i,
        {
            let s = &self.syncs[i];
            let ghost before = out@;
            // `scope = "include"` with no `include` globs matches nothing, so the
            // group is inert: likely an oversight rather than intent.
            if s.scope == Scope::Include && s.includes.len() == 0 {
                let label = group_label(s);
                let warning = cat3(
                    "sync group `",
                    label.as_str(),
                    "` has scope = \"include\" but an empty `include`, so it syncs nothing; add `include` globs or pick a different `scope`",
                );
                let ghost w = warning@;
                out.push(warning);
                assert(texts(out@) =~= texts(before).push(w));
            }
            i = i + 1;
        }
        out
    }
}

// ---------------------------------------------------------------------------
// Laws
// ---------------------------------------------------------------------------

/// In a valid configuration no two remotes have the same id.
pub proof fn law_valid_remotes_are_distinct(config: Config, i: int, j: int)
    requires
        problem(config) is None,
        0 <= i < j < config.remotes@.len(),
    ensures
        config.remotes@[i].id@ != config.remotes@[j].id@,
{
    let rs = config.remotes@;
    lemma_no_remote_problem(rs, rs.len() as int, j);
    if rs[i].id@ == rs[j].id@ {
        assert(rs.take(j)[i] == rs[i]);
        assert(has_remote(rs.take(j), rs[j].id@));
    }
}

/// In a valid configuration every group has a remote, no two groups have the same
/// label, and no two groups have the same id.
pub proof fn law_valid_groups_are_distinct(config: Config, i: int, j: int)
    requires
        problem(config) is None,
        0 <= i < j < config.syncs@.len(),
    ensures
        has_remote(config.remotes@, config.syncs@[i].remote@),
        has_remote(config.remotes@, config.syncs@[j].remote@),
        label_of(config.syncs@[i]) != label_of(config.syncs@[j]),
        config.syncs@[i].id is Some && config.syncs@[j].id is Some
            ==> config.syncs@[i].id.unwrap()@ != config.syncs@[j].id.unwrap()@,
{
    let ss = config.syncs@;
    lemma_no_sync_problem(config.remotes@, ss, ss.len() as int, i);
    lemma_no_sync_problem(config.remotes@, ss, ss.len() as int, j);
    assert(ss.take(j)[i] == ss[i]);
    if label_of(ss[i]) == label_of(ss[j]) {
        assert(has_label(ss.take(j), label_of(ss[j])));
    }
    if ss[i].id is Some && ss[j].id is Some && ss[i].id.unwrap()@ == ss[j].id.unwrap()@ {
        assert(text_opt(ss.take(j)[i].id) == Some(ss[j].id.unwrap()@));
        assert(has_sync_id(ss.take(j), ss[j].id.unwrap()@));
    }
}

/// In a valid configuration a group that watches its remote syncs with a local
/// directory, and every glob of a group is one.
pub proof fn law_valid_groups_can_run(config: Config, i: int, k: int)
    requires
        problem(config) is None,
        0 <= i < config.syncs@.len(),
        0 <= k < patterns_of(config.syncs@[i]).len(),
    ensures
        config.syncs@[i].trigger == Trigger::WatchBoth ==> {
            let r = remote_index(config.remotes@, config.syncs@[i].remote@);
            r < config.remotes@.len() && config.remotes@[r].backend == RemoteKind::Local
        },
        complaint_of(patterns_of(config.syncs@[i])[k]) is None,
{
    let s = config.syncs@[i];
    let rs = config.remotes@;
    lemma_no_sync_problem(rs, config.syncs@, config.syncs@.len() as int, i);
    lemma_remote_index(rs, s.remote@);
    if remote_index(rs, s.remote@) >= rs.len() {
        let j = choose|j: int| 0 <= j < rs.len() && (#[trigger] rs[j]).id@ == s.remote@;
        assert(rs[j].id@ != s.remote@);
    }
    lemma_no_bad(patterns_of(s), k);
}

proof fn lemma_no_bad(ps: Seq<Seq<char>>, k: int)
    requires
        first_bad(ps) >= ps.len(),
        0 <= k < ps.len(),
    ensures
        complaint_of(ps[k]) is None,
    decreases ps.len(),
{
    if k < ps.len() - 1 {
        lemma_no_bad(ps.drop_last(), k);
    }
}

proof fn lemma_no_remote_problem(remotes: Seq<Remote>, n: int, i: int)
    requires
        remotes_problem(remotes, n) is None,
        0 <= i < n,
    ensures
        remote_problem(remotes, i) is None,
    decreases n,
{
    if i < n - 1 {
        lemma_no_remote_problem(remotes, n - 1, i);
    }
}

proof fn lemma_no_sync_problem(remotes: Seq<Remote>, syncs: Seq<Sync>, n: int, i: int)
    requires
        syncs_problem(remotes, syncs, n) is None,
        0 <= i < n,
    ensures
        sync_problem(remotes, syncs, i) is None,
    decreases n,
{
    if i < n - 1 {
        lemma_no_sync_problem(remotes, syncs, n - 1, i);
    }
}

/// The effective excludes hold the conflict glob, the defaults, and the group's
/// own, and nothing else; none of them twice.
pub proof fn law_effective_excludes(sync: Sync, defaults: Seq<Seq<char>>, p: Seq<char>)
    ensures
        excludes_of(sync, defaults).contains(p) <==> p == CONFLICT_GLOB@ || defaults.contains(p)
            || texts(sync.exclude@).contains(p),
        excludes_of(sync, defaults).no_duplicates(),
{
    let both = defaults + texts(sync.exclude@);
    let all = both.push(CONFLICT_GLOB@);
    lemma_deduped(all);
    assert(all.contains(p) <==> p == CONFLICT_GLOB@ || defaults.contains(p) || texts(
        sync.exclude@,
    ).contains(p)) by {
        if defaults.contains(p) {
            let i = defaults.index_of(p);
            assert(0 <= i < defaults.len() && defaults[i] == p);
            assert(all[i] == p);
        }
        if texts(sync.exclude@).contains(p) {
            let i = texts(sync.exclude@).index_of(p);
            assert(0 <= i < texts(sync.exclude@).len() && texts(sync.exclude@)[i] == p);
            assert(all[defaults.len() + i] == p);
        }
        if p == CONFLICT_GLOB@ {
            assert(all[all.len() - 1] == p);
        }
        if all.contains(p) {
            let i = all.index_of(p);
            assert(0 <= i < all.len() && all[i] == p);
            if i < defaults.len() {
                assert(defaults[i] == p);
            } else if i < both.len() {
                assert(texts(sync.exclude@)[i - defaults.len()] == p);
            }
        }
    }
}

proof fn lemma_deduped(v: Seq<Seq<char>>)
    ensures
        deduped(v).no_duplicates(),
        forall|p: Seq<char>| #[trigger] deduped(v).contains(p) <==> v.contains(p),
    decreases v.len(),
{
    if v.len() > 0 {
        let front = v.drop_last();
        lemma_deduped(front);
        let d = deduped(front);
        assert forall|p: Seq<char>| #[trigger] deduped(v).contains(p) <==> v.contains(p) by {
            if v.contains(p) {
                let i = v.index_of(p);
                assert(0 <= i < v.len() && v[i] == p);
                if i < front.len() {
                    assert(front[i] == p);
                    assert(d.contains(p));
                    let k = d.index_of(p);
                    assert(0 <= k < d.len() && d[k] == p);
                    assert(deduped(v)[k] == p);
                } else if !d.contains(p) {
                    assert(deduped(v)[d.len() as int] == p);
                }
            }
            if deduped(v).contains(p) {
                let k = deduped(v).index_of(p);
                assert(0 <= k < deduped(v).len() && deduped(v)[k] == p);
                if k < d.len() {
                    assert(d[k] == p);
                    assert(d.contains(p));
                    let i = front.index_of(p);
                    assert(0 <= i < front.len() && front[i] == p);
                    assert(v[i] == p);
                } else {
                    assert(v[v.len() - 1] == p);
                }
            }
        }
        if !d.contains(v.last()) {
            assert forall|i: int, j: int|
                0 <= i < j < deduped(v).len() implies deduped(v)[i] != deduped(v)[j] by {
                if j == d.len() {
                    assert(d[i] == deduped(v)[i]);
                }
            }
        }
    }
}

/// With the effective excludes of a group, no conflict copy is ever synced.
pub proof fn law_conflict_copies_never_sync(
    sync: Sync,
    defaults: Seq<Seq<char>>,
    path: Seq<char>,
    stamp: Seq<char>,
)
    requires
        crate::relpath::is_rel(path),
        !stamp.contains('/'),
    ensures
        crate::matcher::covers(
            excludes_of(sync, defaults),
            false,
            crate::conflict::copy_path(path, stamp),
        ),
{
    law_effective_excludes(sync, defaults, CONFLICT_GLOB@);
    let all = excludes_of(sync, defaults);
    let i = all.index_of(CONFLICT_GLOB@);
    assert(0 <= i < all.len() && all[i] == CONFLICT_GLOB@);
    crate::conflict::law_conflict_copies_are_excluded(all, i, path, stamp);
}

/// The label of a group is its remote, followed by its remote path where it has one.
pub proof fn law_labels_name_remote_and_path(sync: Sync)
    ensures
        sync.remote_path@.len() == 0 ==> label_of(sync) == sync.remote@,
        sync.remote_path@.len() > 0 ==> label_of(sync) == sync.remote@ + seq![':']
            + sync.remote_path@,
{
    reveal_strlit(":");
    assert(":"@ =~= seq![':']);
}

/// There is a warning about a group exactly where its scope is `include` and it includes
/// nothing, and each says which group it is about.
pub proof fn law_inert_groups_are_warned_about(syncs: Seq<Sync>, n: int, i: int)
    requires
        0 <= i < n <= syncs.len(),
    ensures
        syncs[i].scope == Scope::Include && syncs[i].includes@.len() == 0 ==> exists|k: int|
            0 <= k < warnings_about(syncs, n).len() && #[trigger] warnings_about(syncs, n)[k]
                == inert_warning(syncs[i]),
        forall|k: int|
            0 <= k < warnings_about(syncs, n).len() ==> exists|j: int|
                0 <= j < n && (#[trigger] syncs[j]).scope == Scope::Include
                    && syncs[j].includes@.len() == 0 && #[trigger] warnings_about(syncs, n)[k]
                    == inert_warning(syncs[j]),
        warnings_about(syncs, n).len() <= n,
    decreases n,
{
    let all = warnings_about(syncs, n);
    let front = warnings_about(syncs, n - 1);
    if n > 1 {
        law_inert_groups_are_warned_about(
            syncs,
            n - 1,
            if i < n - 1 {
                i
            } else {
                0
            },
        );
    } else {
        assert(front.len() == 0);
    }
    if syncs[i].scope == Scope::Include && syncs[i].includes@.len() == 0 {
        if i < n - 1 {
            let k = choose|k: int|
                0 <= k < front.len() && #[trigger] front[k] == inert_warning(syncs[i]);
            assert(all[k] == front[k]);
        } else {
            assert(all[front.len() as int] == inert_warning(syncs[i]));
        }
    }
    assert forall|k: int| 0 <= k < all.len() implies exists|j: int|
        0 <= j < n && (#[trigger] syncs[j]).scope == Scope::Include && syncs[j].includes@.len() == 0
            && #[trigger] all[k] == inert_warning(syncs[j]) by {
        if k < front.len() {
            assert(all[k] == front[k]);
            let j = choose|j: int|
                0 <= j < n - 1 && (#[trigger] syncs[j]).scope == Scope::Include
                    && syncs[j].includes@.len() == 0 && front[k] == inert_warning(syncs[j]);
            assert(all[k] == inert_warning(syncs[j]));
        } else {
            assert(all[k] == inert_warning(syncs[n - 1]));
        }
    }
}

/// Whether nothing is wrong with the remotes of a configuration: their ids differ, and
/// only git repositories have a command for commit messages.
pub open spec fn has_sound_remotes(remotes: Seq<Remote>) -> bool {
    &&& forall|i: int, j: int|
        0 <= i < j < remotes.len() ==> (#[trigger] remotes[i]).id@ != (#[trigger] remotes[j]).id@
    &&& forall|i: int|
        0 <= i < remotes.len() && (#[trigger] remotes[i]).commit_msg_command is Some
            ==> remotes[i].backend == RemoteKind::Git
}

/// Whether nothing is wrong with a group by itself: it names a remote that is there and no
/// directory in its place, watches the remote side only where that is a local directory,
/// and all its patterns are globs.
pub open spec fn is_sound_group(remotes: Seq<Remote>, s: Sync) -> bool {
    &&& s.remote_fs is None
    &&& exists|k: int|
        0 <= k < remotes.len() && (#[trigger] remotes[k]).id@ == s.remote@ && (s.trigger
            == Trigger::WatchBoth ==> remotes[k].backend == RemoteKind::Local)
    &&& forall|k: int|
        0 <= k < s.includes@.len() ==> complaint_of((#[trigger] s.includes@[k])@) is None
    &&& forall|k: int|
        0 <= k < s.exclude@.len() ==> complaint_of((#[trigger] s.exclude@[k])@) is None
}

/// Whether the groups of a configuration can be told apart: no two have the same label,
/// and no two the same id.
pub open spec fn has_distinct_groups(syncs: Seq<Sync>) -> bool {
    forall|i: int, j: int|
        0 <= i < j < syncs.len() ==> label_of(#[trigger] syncs[i]) != label_of(
            #[trigger] syncs[j],
        ) && (syncs[i].id is Some && syncs[j].id is Some ==> syncs[i].id.unwrap()@
            != syncs[j].id.unwrap()@)
}

/// A configuration is accepted exactly where nothing is wrong with its remotes, with its
/// groups by themselves, and with its groups side by side.
pub proof fn law_valid_configurations_are_accepted(config: Config)
    ensures
        problem(config) is None <==> has_sound_remotes(config.remotes@) && has_distinct_groups(
            config.syncs@,
        ) && forall|i: int|
            0 <= i < config.syncs@.len() ==> is_sound_group(
                config.remotes@,
                #[trigger] config.syncs@[i],
            ),
{
    let rs = config.remotes@;
    let ss = config.syncs@;
    if problem(config) is None {
        assert forall|i: int, j: int| 0 <= i < j < rs.len() implies (#[trigger] rs[i]).id@ != (
        #[trigger] rs[j]).id@ by {
            law_valid_remotes_are_distinct(config, i, j);
        }
        assert forall|i: int|
            0 <= i < rs.len() && (#[trigger] rs[i]).commit_msg_command is Some implies rs[i].backend
            == RemoteKind::Git by {
            lemma_no_remote_problem(rs, rs.len() as int, i);
        }
        assert forall|i: int, j: int| 0 <= i < j < ss.len() implies label_of(#[trigger] ss[i])
            != label_of(#[trigger] ss[j]) && (ss[i].id is Some && ss[j].id is Some
            ==> ss[i].id.unwrap()@ != ss[j].id.unwrap()@) by {
            law_valid_groups_are_distinct(config, i, j);
        }
        assert forall|i: int| 0 <= i < ss.len() implies is_sound_group(rs, #[trigger] ss[i]) by {
            lemma_no_sync_problem(rs, ss, ss.len() as int, i);
            lemma_sound_group(rs, ss[i]);
        }
    }
    if has_sound_remotes(rs) && has_distinct_groups(ss) && forall|i: int|
        0 <= i < ss.len() ==> is_sound_group(rs, #[trigger] ss[i]) {
        lemma_sound_remotes(rs, rs.len() as int);
        lemma_sound_groups(rs, ss, ss.len() as int);
    }
}

/// A group with nothing wrong is sound.
proof fn lemma_sound_group(rs: Seq<Remote>, s: Sync)
    requires
        naming_problem(rs, s) is None,
        trigger_problem(rs, s) is None,
        pattern_problem(s) is None,
    ensures
        is_sound_group(rs, s),
{
    lemma_remote_index(rs, s.remote@);
    let k = remote_index(rs, s.remote@);
    let j = choose|j: int| 0 <= j < rs.len() && (#[trigger] rs[j]).id@ == s.remote@;
    if k >= rs.len() {
        assert(rs[j].id@ != s.remote@);
    }
    assert(rs[k].id@ == s.remote@);
    let ps = patterns_of(s);
    assert forall|k: int| 0 <= k < s.includes@.len() implies complaint_of(
        (#[trigger] s.includes@[k])@,
    ) is None by {
        lemma_no_bad(ps, k);
        assert(ps[k] == s.includes@[k]@);
    }
    assert forall|k: int| 0 <= k < s.exclude@.len() implies complaint_of(
        (#[trigger] s.exclude@[k])@,
    ) is None by {
        let n = s.includes@.len() as int;
        lemma_no_bad(ps, n + k);
        assert(ps[n + k] == s.exclude@[k]@);
    }
}

proof fn lemma_sound_remotes(rs: Seq<Remote>, n: int)
    requires
        has_sound_remotes(rs),
        0 <= n <= rs.len(),
    ensures
        remotes_problem(rs, n) is None,
    decreases n,
{
    if n > 0 {
        lemma_sound_remotes(rs, n - 1);
        let r = rs[n - 1];
        let before = rs.take(n - 1);
        if has_remote(before, r.id@) {
            let i = choose|i: int| 0 <= i < before.len() && (#[trigger] before[i]).id@ == r.id@;
            assert(before[i] == rs[i]);
        }
    }
}

proof fn lemma_all_globs_good(ps: Seq<Seq<char>>)
    requires
        forall|k: int| 0 <= k < ps.len() ==> complaint_of(#[trigger] ps[k]) is None,
    ensures
        first_bad(ps) == ps.len(),
    decreases ps.len(),
{
    if ps.len() > 0 {
        let less = ps.drop_last();
        assert forall|k: int| 0 <= k < less.len() implies complaint_of(#[trigger] less[k]) is None by {
            assert(less[k] == ps[k]);
        }
        lemma_all_globs_good(less);
        assert(complaint_of(ps[ps.len() - 1]) is None);
    }
}

#[verifier::spinoff_prover]
proof fn lemma_sound_groups(rs: Seq<Remote>, ss: Seq<Sync>, n: int)
    requires
        has_sound_remotes(rs),
        has_distinct_groups(ss),
        forall|i: int| 0 <= i < ss.len() ==> is_sound_group(rs, #[trigger] ss[i]),
        0 <= n <= ss.len(),
    ensures
        syncs_problem(rs, ss, n) is None,
    decreases n,
{
    if n > 0 {
        lemma_sound_groups(rs, ss, n - 1);
        let s = ss[n - 1];
        assert(is_sound_group(rs, s));
        let before = ss.take(n - 1);
        if has_label(before, label_of(s)) {
            let i = choose|i: int|
                0 <= i < before.len() && label_of(#[trigger] before[i]) == label_of(s);
            assert(before[i] == ss[i]);
        }
        if s.id is Some && has_sync_id(before, s.id.unwrap()@) {
            let i = choose|i: int|
                0 <= i < before.len() && text_opt((#[trigger] before[i]).id) == Some(
                    s.id.unwrap()@,
                );
            assert(before[i] == ss[i]);
        }
        let k = choose|k: int|
            0 <= k < rs.len() && (#[trigger] rs[k]).id@ == s.remote@ && (s.trigger
                == Trigger::WatchBoth ==> rs[k].backend == RemoteKind::Local);
        lemma_remote_index(rs, s.remote@);
        let m = remote_index(rs, s.remote@);
        if m < k {
            assert(rs[m].id@ != rs[k].id@);
        }
        if k < m {
            assert(rs[k].id@ != s.remote@);
        }
        let ps = patterns_of(s);
        assert forall|j: int| 0 <= j < ps.len() implies complaint_of(#[trigger] ps[j]) is None by {
            let l = s.includes@.len() as int;
            if j < l {
                assert(ps[j] == s.includes@[j]@);
            } else {
                assert(ps[j] == s.exclude@[j - l]@);
            }
        }
        lemma_all_globs_good(ps);
    }
}

/// The directories that a remote is made up for differ, each is asked for by a group in
/// place of a remote, and none of them has a remote already.
pub proof fn law_remotes_are_made_up_only_if_needed(remotes: Seq<Remote>, syncs: Seq<Sync>, n: int)
    requires
        0 <= n <= syncs.len(),
    ensures
        missing_dirs(remotes, syncs, n).no_duplicates(),
        forall|k: int|
            0 <= k < missing_dirs(remotes, syncs, n).len() ==> !any_stands_for(
                remotes,
                #[trigger] missing_dirs(remotes, syncs, n)[k],
            ),
        forall|k: int|
            0 <= k < missing_dirs(remotes, syncs, n).len() ==> exists|i: int|
                0 <= i < n && (#[trigger] syncs[i]).remote@.len() == 0 && text_opt(
                    syncs[i].remote_fs,
                ) == Some(#[trigger] missing_dirs(remotes, syncs, n)[k]),
    decreases n,
{
    if n > 0 {
        law_remotes_are_made_up_only_if_needed(remotes, syncs, n - 1);
        let all = missing_dirs(remotes, syncs, n);
        let front = missing_dirs(remotes, syncs, n - 1);
        assert forall|k: int| 0 <= k < all.len() implies exists|i: int|
            0 <= i < n && (#[trigger] syncs[i]).remote@.len() == 0 && text_opt(syncs[i].remote_fs)
                == Some(#[trigger] all[k]) by {
            if k < front.len() {
                assert(all[k] == front[k]);
                let i = choose|i: int|
                    0 <= i < n - 1 && (#[trigger] syncs[i]).remote@.len() == 0 && text_opt(
                        syncs[i].remote_fs,
                    ) == Some(front[k]);
                assert(text_opt(syncs[i].remote_fs) == Some(all[k]));
            } else {
                assert(text_opt(syncs[n - 1].remote_fs) == Some(all[k]));
            }
        }
        assert forall|k: int| 0 <= k < all.len() implies !any_stands_for(
            remotes,
            #[trigger] all[k],
        ) by {
            if k < front.len() {
                assert(all[k] == front[k]);
            }
        }
        if all.len() > front.len() {
            assert forall|i: int, j: int| 0 <= i < all.len() && 0 <= j < all.len() && i != j implies all[i]
                != all[j] by {
                if i < front.len() && j < front.len() {
                    assert(front[i] != front[j]);
                } else if i < front.len() {
                    assert(front.contains(front[i]));
                } else if j < front.len() {
                    assert(front.contains(front[j]));
                }
            }
        }
    }
}

/// Excludes keep the order in which they are given, the defaults first: a list without
/// repetitions is left as it is.
pub proof fn law_excludes_keep_their_order(sync: Sync, defaults: Seq<Seq<char>>)
    requires
        (defaults + texts(sync.exclude@)).push(CONFLICT_GLOB@).no_duplicates(),
    ensures
        excludes_of(sync, defaults) == defaults + texts(sync.exclude@) + seq![CONFLICT_GLOB@],
{
    let all = (defaults + texts(sync.exclude@)).push(CONFLICT_GLOB@);
    lemma_deduped_distinct(all);
    assert(all =~= defaults + texts(sync.exclude@) + seq![CONFLICT_GLOB@]);
}

proof fn lemma_deduped_distinct(v: Seq<Seq<char>>)
    requires
        v.no_duplicates(),
    ensures
        deduped(v) == v,
    decreases v.len(),
{
    if v.len() > 0 {
        let front = v.drop_last();
        assert(front.no_duplicates()) by {
            assert forall|i: int, j: int|
                0 <= i < front.len() && 0 <= j < front.len() && i != j implies front[i]
                != front[j] by {
                assert(v[i] != v[j]);
            }
        }
        lemma_deduped_distinct(front);
        if front.contains(v.last()) {
            let i = front.index_of(v.last());
            assert(0 <= i < front.len() && front[i] == v.last());
            assert(v[i] != v[v.len() - 1]);
        }
    }
    assert(deduped(v) =~= v);
}

} // verus!
