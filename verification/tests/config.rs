//! Configuration and the settings that the daemon resolves from it.

use conflux::bytesize::{format_byte_size, parse_byte_size, ByteSize};
use conflux::config::{
    default_debounce, default_exclude, default_interval, default_log_level, default_max_file_size,
    default_profile, default_profiles, expand_path, expanded_or_itself, group_label, Config, DaemonConfig, Remote,
    Sync, CONFLICT_GLOB, DEFAULT_DEBOUNCE, DEFAULT_INTERVAL, DEFAULT_MAX_FILE_SIZE,
};
use conflux::control::validation_lines;
use conflux::daemon::{
    active_labels, after_attempt, bad_request, daemon_log_directive, idle_reason, is_active,
    labels_for_target, outcome_of, plan_outcome_of, plan_triggers, record, reload, resolve, resolve_debounce,
    resolve_deletions, resolve_empty_dirs, resolve_max_file_size, resolve_pull_interval, run_verb,
    settings_for, start_up, status_list, task_for, triggers_for, unwatched_message, with_profile, AfterAttempt,
    DaemonState, Idle, JobQueue, PlanEnd, RunEnd, Task,
};
use conflux::dirs::effective_dir_mode;
use conflux::error::Error;
use conflux::ipc::{Request, Response, SyncTarget};
use conflux::model::{Deletions, EmptyDirMode, RemoteKind, Scope, Trigger};
use conflux::paths::Paths;
use conflux::plan::SyncPlan;
use conflux::report::SyncReport;
use conflux::span::Span;
use conflux::RelPath;

/// The number of bytes that a text stands for, with the product of a fraction and
/// a unit in floating point.
fn bytes_of(text: &str) -> Result<u64, String> {
    match parse_byte_size(text)? {
        ByteSize::Bytes(n) => Ok(n),
        ByteSize::Product { number, factor } => {
            let number: f64 = number
                .parse()
                .map_err(|_| format!("invalid number: {number}"))?;
            Ok((number * factor as f64) as u64)
        }
    }
}

fn text(t: &toml::Table, key: &str) -> Option<String> {
    t.get(key).and_then(|v| v.as_str()).map(|s| s.to_string())
}

fn list(t: &toml::Table, key: &str) -> Option<Vec<String>> {
    let array = t.get(key)?.as_array()?;
    Some(
        array
            .iter()
            .map(|v| v.as_str().unwrap().to_string())
            .collect(),
    )
}

fn span(t: &toml::Table, key: &str) -> Option<Span> {
    text(t, key).map(|s| Span::parse(&s).unwrap())
}

fn bytes(t: &toml::Table, key: &str) -> Option<u64> {
    match t.get(key)? {
        toml::Value::Integer(n) => Some(*n as u64),
        toml::Value::String(s) => Some(bytes_of(s).unwrap()),
        _ => None,
    }
}

fn empty_dirs(t: &toml::Table) -> Option<EmptyDirMode> {
    text(t, "empty_dirs").map(|s| match s.as_str() {
        "ignore" => EmptyDirMode::Ignore,
        "prune" => EmptyDirMode::Prune,
        "mirror" => EmptyDirMode::Mirror,
        _ => panic!("unknown mode {s}"),
    })
}

fn deletions(t: &toml::Table) -> Option<Deletions> {
    text(t, "deletions").map(|s| match s.as_str() {
        "deny" => Deletions::Deny,
        "allow" => Deletions::Allow,
        _ => panic!("unknown policy {s}"),
    })
}

fn daemon_of(t: &toml::Table) -> DaemonConfig {
    DaemonConfig {
        log_level: text(t, "log_level").unwrap_or_else(default_log_level),
        debounce: span(t, "debounce").unwrap_or_else(default_debounce),
        interval: span(t, "interval").unwrap_or_else(default_interval),
        pull_interval: span(t, "pull_interval"),
        empty_dirs: empty_dirs(t).unwrap_or_default(),
        deletions: deletions(t).unwrap_or_default(),
        max_file_size: bytes(t, "max_file_size").unwrap_or_else(default_max_file_size),
        exclude: list(t, "exclude").unwrap_or_else(default_exclude),
        profile: text(t, "profile").or_else(default_profile),
    }
}

fn remote_of(t: &toml::Table) -> Remote {
    Remote {
        id: text(t, "id").unwrap(),
        label: text(t, "label"),
        backend: RemoteKind::from_name(&text(t, "backend").unwrap()).unwrap(),
        url: text(t, "url").unwrap(),
        username: text(t, "username"),
        password: text(t, "password"),
        password_command: text(t, "password_command"),
        identity_file: text(t, "identity_file"),
        identity_file_command: text(t, "identity_file_command"),
        branch: text(t, "branch"),
        commit_msg_command: text(t, "commit_msg_command"),
        pull_interval: span(t, "pull_interval"),
        empty_dirs: empty_dirs(t),
        max_file_size: bytes(t, "max_file_size"),
    }
}

fn sync_of(t: &toml::Table) -> Sync {
    Sync {
        id: text(t, "id"),
        label: text(t, "label"),
        remote: text(t, "remote").unwrap_or_default(),
        remote_fs: text(t, "remote_fs"),
        local: text(t, "local").unwrap(),
        remote_path: text(t, "remote_path").unwrap_or_default(),
        includes: list(t, "include").unwrap_or_default(),
        scope: match text(t, "scope").as_deref() {
            None => Scope::default(),
            Some("include") => Scope::Include,
            Some("remote") => Scope::Remote,
            Some("local") => Scope::Local,
            Some("mirror") => Scope::Mirror,
            Some(s) => panic!("unknown scope {s}"),
        },
        trigger: match text(t, "trigger").as_deref() {
            Some("manual") => Trigger::Manual,
            Some("timer") => Trigger::Timer,
            Some("watch") => Trigger::Watch,
            Some("watch-both") => Trigger::WatchBoth,
            other => panic!("unknown trigger {other:?}"),
        },
        interval: span(t, "interval"),
        debounce: span(t, "debounce"),
        pull_interval: span(t, "pull_interval"),
        empty_dirs: empty_dirs(t),
        deletions: deletions(t),
        max_file_size: bytes(t, "max_file_size"),
        profiles: list(t, "profiles").unwrap_or_else(default_profiles),
        exclude: list(t, "exclude").unwrap_or_default(),
    }
}

/// The tables of an array of tables.
fn tables(t: &toml::Table, key: &str) -> Vec<toml::Table> {
    match t.get(key).and_then(|v| v.as_array()) {
        Some(array) => array
            .iter()
            .map(|v| v.as_table().unwrap().clone())
            .collect(),
        None => Vec::new(),
    }
}

/// Reads a configuration and prepares it.
fn from_toml_str(source: &str) -> Result<Config, Error> {
    let t: toml::Table = toml::from_str(source).map_err(|e| Error::ConfigParse(e.to_string()))?;
    let none = toml::Table::new();
    let daemon = t.get("daemon").and_then(|v| v.as_table()).unwrap_or(&none);
    let mut config = Config {
        daemon: daemon_of(daemon),
        remotes: tables(&t, "remote").iter().map(remote_of).collect(),
        syncs: tables(&t, "sync").iter().map(sync_of).collect(),
    };
    config.prepare()?;
    Ok(config)
}

const GOOD: &str = r#"
        [daemon]
        log_level = "debug"
        debounce = "5s"

        [[remote]]
        id = "nc"
        backend = "webdav"
        url = "https://example.com/dav/"
        username = "me"
        password = "secret"

        [[sync]]
        remote = "nc"
        local = "/tmp/cfg"
        remote_path = "config"
        include = ["nvim", "fish/*"]
        trigger = "watch"
        debounce = "3s"
    "#;

#[test]
fn parses_and_validates_good_config() {
    let cfg = from_toml_str(GOOD).expect("should parse");
    assert_eq!(cfg.daemon.debounce, Span::from_secs(5));
    assert_eq!(cfg.remotes.len(), 1);
    assert_eq!(cfg.remotes[0].backend, RemoteKind::Webdav);
    let sync = &cfg.syncs[0];
    assert_eq!(sync.trigger, Trigger::Watch);
    assert_eq!(sync.debounce, Some(Span::from_secs(3)));
    assert_eq!(sync.scope, Scope::Include); // unset => the safe default
    assert_eq!(sync.includes, vec!["nvim".to_string(), "fish/*".to_string()]);
}

#[test]
fn parses_max_file_size_as_bytes_units_and_zero() {
    // Size strings and bare byte counts both parse; `0` means unlimited.
    assert_eq!(bytes_of("100MB"), Ok(100_000_000));
    assert_eq!(bytes_of("512KiB"), Ok(512 * 1024));
    assert_eq!(bytes_of("2gb"), Ok(2_000_000_000));
    assert_eq!(bytes_of("1048576"), Ok(1_048_576));
    assert!(bytes_of("10QB").is_err());
    // Round-trips through the serializer for `config show`.
    assert_eq!(format_byte_size(100_000_000), "100MB");
    assert_eq!(format_byte_size(0), "0");

    let cfg = from_toml_str(
        r#"
            [daemon]
            max_file_size = "250MB"

            [[remote]]
            id = "r"
            backend = "local"
            url = "/tmp/mirror"
            max_file_size = 0

            [[sync]]
            remote = "r"
            local = "/tmp/cfg"
            remote_path = "x"
            trigger = "timer"
            max_file_size = "10MiB"
        "#,
    )
    .unwrap();
    assert_eq!(cfg.daemon.max_file_size, 250_000_000);
    assert_eq!(cfg.remotes[0].max_file_size, Some(0));
    assert_eq!(cfg.syncs[0].max_file_size, Some(10 * 1024 * 1024));
}

#[test]
fn parses_scope() {
    let cfg = from_toml_str(
        r#"
            [[remote]]
            id = "r"
            backend = "local"
            url = "/tmp/mirror"

            [[sync]]
            remote = "r"
            local = "/tmp/cfg"
            remote_path = "x"
            trigger = "timer"
            scope = "remote"
        "#,
    )
    .unwrap();
    assert_eq!(cfg.syncs[0].scope, Scope::Remote);
}

#[test]
fn parses_optional_sync_id_and_rejects_duplicates() {
    let base = r#"
            [[remote]]
            id = "r"
            backend = "local"
            url = "/tmp/mirror"

            [[sync]]
            id = "docs"
            remote = "r"
            local = "/tmp/a"
            remote_path = "documents"
            trigger = "manual"
        "#;
    let cfg = from_toml_str(base).unwrap();
    assert_eq!(cfg.syncs[0].id.as_deref(), Some("docs"));

    // A second group reusing the same id is rejected.
    let err = from_toml_str(&format!(
        "{base}\n[[sync]]\nid = \"docs\"\nremote = \"r\"\nlocal = \"/tmp/b\"\n\
             remote_path = \"other\"\ntrigger = \"manual\"\n"
    ))
    .unwrap_err();
    assert!(matches!(err, Error::Validation(_)));
}

#[test]
fn warns_when_include_scope_has_empty_include() {
    let base = r#"
            [[remote]]
            id = "r"
            backend = "local"
            url = "/tmp/mirror"

            [[sync]]
            remote = "r"
            local = "/tmp/cfg"
            remote_path = "x"
            trigger = "manual"
        "#;

    // Default scope = "include" with no `include` globs: inert, so warn.
    let cfg = from_toml_str(base).unwrap();
    let warnings = cfg.warnings();
    assert_eq!(warnings.len(), 1);
    assert!(warnings[0].contains("syncs nothing"));

    // Giving it an `include` clears the warning.
    let cfg = from_toml_str(&format!("{base}\ninclude = [\"nvim\"]")).unwrap();
    assert!(cfg.warnings().is_empty());

    // So does a scope that reaches beyond `include`.
    let cfg = from_toml_str(&format!("{base}\nscope = \"mirror\"")).unwrap();
    assert!(cfg.warnings().is_empty());
}

#[test]
fn applies_defaults() {
    let cfg = from_toml_str(
        r#"
            [[remote]]
            id = "r"
            backend = "local"
            url = "/tmp/mirror"

            [[sync]]
            remote = "r"
            local = "/tmp/cfg"
            remote_path = "x"
            trigger = "timer"
        "#,
    )
    .unwrap();
    assert_eq!(cfg.daemon.debounce, Span::from_secs(DEFAULT_DEBOUNCE));
    assert_eq!(cfg.daemon.interval, Span::from_secs(DEFAULT_INTERVAL));
    // `profile` defaults to "default" when the setting is omitted.
    assert_eq!(cfg.daemon.profile.as_deref(), Some("default"));
    // `[daemon] exclude` defaults to the well-known list.
    assert_eq!(cfg.daemon.exclude, default_exclude());
    assert!(cfg.daemon.exclude.iter().any(|e| e == "**/.git/**"));
    let sync = &cfg.syncs[0];
    // Unset `scope`/`include` => the safe default: `include` scope, empty
    // include list (nothing synced until the user opts paths in).
    assert_eq!(sync.scope, Scope::Include);
    assert!(sync.includes.is_empty());
    // No per-sync interval => falls back to the daemon default.
    assert_eq!(sync.interval, None);
    assert_eq!(
        sync.effective_interval(cfg.daemon.interval),
        Span::from_secs(DEFAULT_INTERVAL)
    );
    // effective_excludes merges the daemon defaults, the sync's own, and the
    // forced conflict glob.
    let eff = sync.effective_excludes(&cfg.daemon.exclude);
    assert!(eff.iter().any(|e| e == CONFLICT_GLOB));
    assert!(eff.iter().any(|e| e == "**/.git/**"));
}

#[test]
fn exclude_merges_daemon_defaults_with_sync_and_can_be_overridden() {
    // Sync-level excludes ADD to the daemon defaults; both plus the forced
    // conflict glob show up.
    let defaults = vec!["**/.git/**".to_string()];
    let sync = Sync {
        id: None,
        label: None,
        remote: "r".into(),
        remote_fs: None,
        local: "/tmp/x".into(),
        remote_path: String::new(),
        includes: vec![],
        scope: Scope::default(),
        trigger: Trigger::Manual,
        interval: None,
        debounce: None,
        pull_interval: None,
        empty_dirs: None,
        deletions: None,
        max_file_size: None,
        profiles: default_profiles(),
        exclude: vec!["*.log".to_string()],
    };
    let eff = sync.effective_excludes(&defaults);
    assert!(eff.iter().any(|e| e == "**/.git/**"));
    assert!(eff.iter().any(|e| e == "*.log"));
    assert!(eff.iter().any(|e| e == CONFLICT_GLOB));

    // Empty daemon defaults (user opted out) => only the sync's own + forced.
    let eff = sync.effective_excludes(&[]);
    assert!(!eff.iter().any(|e| e == "**/.git/**"));
    assert!(eff.iter().any(|e| e == CONFLICT_GLOB));
}

#[test]
fn remote_path_is_optional_and_maps_to_remote_root() {
    let cfg = from_toml_str(
        r#"
            [[remote]]
            id = "mirror"
            backend = "local"
            url = "/tmp/mirror"

            [[sync]]
            remote = "mirror"
            local = "/tmp/a"
            trigger = "manual"

            [[sync]]
            remote = "mirror"
            local = "/tmp/b"
            remote_path = "/sub/dir/"
            trigger = "manual"
        "#,
    )
    .unwrap();
    // Omitted => empty (remote root); label is just the remote name.
    assert_eq!(cfg.syncs[0].remote_path, "");
    assert_eq!(group_label(&cfg.syncs[0]), "mirror");
    // Surrounding slashes are trimmed on load.
    assert_eq!(cfg.syncs[1].remote_path, "sub/dir");
    assert_eq!(group_label(&cfg.syncs[1]), "mirror:sub/dir");
}

#[test]
fn rejects_commit_msg_command_on_non_git_backend() {
    let err = from_toml_str(
        r#"
            [[remote]]
            id = "m"
            backend = "local"
            url = "/tmp/mirror"
            commit_msg_command = "printf hi"
        "#,
    )
    .unwrap_err();
    assert!(matches!(err, Error::Validation(_)));
}

#[test]
fn rejects_watch_both_on_non_local_backend() {
    let err = from_toml_str(
        r#"
            [[remote]]
            id = "nc"
            backend = "webdav"
            url = "https://example.com/dav/"

            [[sync]]
            remote = "nc"
            local = "/tmp/x"
            trigger = "watch-both"
        "#,
    )
    .unwrap_err();
    assert!(matches!(err, Error::Validation(_)));

    // A local backend with watch-both is fine.
    from_toml_str(
        r#"
            [[remote]]
            id = "m"
            backend = "local"
            url = "/tmp/mirror"

            [[sync]]
            remote = "m"
            local = "/tmp/x"
            trigger = "watch-both"
        "#,
    )
    .expect("watch-both on a local backend should be valid");
}

#[test]
fn rejects_duplicate_group_labels() {
    // Both default remote_path to the root => same label => index collision.
    let err = from_toml_str(
        r#"
            [[remote]]
            id = "mirror"
            backend = "local"
            url = "/tmp/mirror"

            [[sync]]
            remote = "mirror"
            local = "/tmp/a"
            trigger = "manual"

            [[sync]]
            remote = "mirror"
            local = "/tmp/b"
            trigger = "manual"
        "#,
    )
    .unwrap_err();
    assert!(matches!(err, Error::Validation(_)));
}

#[test]
fn daemon_interval_overrides_default_and_syncs_inherit_it() {
    let cfg = from_toml_str(
        r#"
            [daemon]
            interval = "15m"

            [[remote]]
            id = "r"
            backend = "local"
            url = "/tmp/mirror"

            [[sync]]
            remote = "r"
            local = "/tmp/a"
            remote_path = "a"
            trigger = "timer"

            [[sync]]
            remote = "r"
            local = "/tmp/b"
            remote_path = "b"
            trigger = "timer"
            interval = "5m"
        "#,
    )
    .unwrap();
    assert_eq!(cfg.daemon.interval, Span::from_secs(15 * 60));
    // Sync without its own interval inherits the daemon-level value.
    assert_eq!(
        cfg.syncs[0].effective_interval(cfg.daemon.interval),
        Span::from_secs(15 * 60)
    );
    // Per-sync interval still wins.
    assert_eq!(
        cfg.syncs[1].effective_interval(cfg.daemon.interval),
        Span::from_secs(5 * 60)
    );
}

#[test]
fn profiles_default_to_implicit_default_only_when_omitted() {
    let cfg = from_toml_str(
        r#"
            [[remote]]
            id = "r"
            backend = "local"
            url = "/tmp/mirror"

            [[sync]]
            remote = "r"
            local = "/tmp/a"
            remote_path = "a"
            trigger = "manual"

            [[sync]]
            remote = "r"
            local = "/tmp/b"
            remote_path = "b"
            trigger = "manual"
            profiles = ["desktop"]

            [[sync]]
            remote = "r"
            local = "/tmp/c"
            remote_path = "c"
            trigger = "manual"
            profiles = []
        "#,
    )
    .unwrap();
    // Omitted => implicit ["default"].
    assert_eq!(cfg.syncs[0].profiles, vec!["default".to_string()]);
    // Explicit list => used verbatim, no implicit "default".
    assert_eq!(cfg.syncs[1].profiles, vec!["desktop".to_string()]);
    // Explicit empty => member of no profile.
    assert!(cfg.syncs[2].profiles.is_empty());
}

#[test]
fn rejects_unknown_remote() {
    let err = from_toml_str(
        r#"
            [[sync]]
            remote = "ghost"
            local = "/tmp/cfg"
            remote_path = "x"
            trigger = "manual"
        "#,
    )
    .unwrap_err();
    assert!(matches!(err, Error::Validation(_)));
}

#[test]
fn rejects_duplicate_remote_names() {
    let err = from_toml_str(
        r#"
            [[remote]]
            id = "dup"
            backend = "local"
            url = "/a"
            [[remote]]
            id = "dup"
            backend = "local"
            url = "/b"
        "#,
    )
    .unwrap_err();
    assert!(matches!(err, Error::Validation(_)));
}

fn sync_named(config: &Config, remote_path: &str) -> Sync {
    config
        .syncs
        .iter()
        .find(|s| s.remote_path == remote_path)
        .expect("sync present")
        .clone()
}

fn state_for(config: Config, profile: Option<&str>) -> DaemonState {
    DaemonState::new(
        config,
        Paths {
            config: "/x".into(),
            state: "/x".into(),
            socket: "/x".into(),
        },
        profile.map(|p| p.to_string()),
    )
}

fn state(config: Config) -> DaemonState {
    state_for(config, None)
}

#[test]
fn pull_interval_resolves_sync_then_remote_then_daemon() {
    let config = from_toml_str(
        r#"
            [daemon]
            pull_interval = "1h"

            [[remote]]
            id = "a"
            backend = "filesystem"
            url = "/tmp/a"

            [[remote]]
            id = "b"
            backend = "filesystem"
            url = "/tmp/b"
            pull_interval = "10m"

            [[sync]]
            remote = "a"
            local = "/tmp/la"
            remote_path = "inherit-daemon"
            trigger = "manual"

            [[sync]]
            remote = "b"
            local = "/tmp/lb"
            remote_path = "inherit-remote"
            trigger = "manual"

            [[sync]]
            remote = "b"
            local = "/tmp/lc"
            remote_path = "own"
            trigger = "manual"
            pull_interval = "5m"

            [[sync]]
            remote = "a"
            local = "/tmp/ld"
            remote_path = "opt-out"
            trigger = "manual"
            pull_interval = "0s"
        "#,
    )
    .unwrap();

    // No override anywhere but the daemon default.
    assert_eq!(
        resolve_pull_interval(&config, &sync_named(&config, "inherit-daemon")),
        Some(Span::from_secs(3600))
    );
    // Remote-level default beats the daemon default.
    assert_eq!(
        resolve_pull_interval(&config, &sync_named(&config, "inherit-remote")),
        Some(Span::from_secs(600))
    );
    // Per-sync value wins over everything.
    assert_eq!(
        resolve_pull_interval(&config, &sync_named(&config, "own")),
        Some(Span::from_secs(300))
    );
    // A per-sync zero opts out even though the daemon default is set; the
    // plan of triggers treats a resolved zero as "disabled".
    assert_eq!(
        resolve_pull_interval(&config, &sync_named(&config, "opt-out")),
        Some(Span::from_secs(0))
    );
}

#[test]
fn sync_target_matches_by_id_or_label() {
    let config = from_toml_str(
        r#"
            [[remote]]
            id = "r"
            backend = "filesystem"
            url = "/tmp/r"

            [[sync]]
            id = "docs"
            remote = "r"
            local = "/tmp/a"
            remote_path = "documents"
            trigger = "manual"

            [[sync]]
            remote = "r"
            local = "/tmp/b"
            remote_path = "config"
            trigger = "manual"
        "#,
    )
    .unwrap();
    let st = state(config);

    let target = |s: &str| SyncTarget::Group(s.to_string());
    // A group's `id` resolves to its canonical label.
    assert_eq!(labels_for_target(&st, &target("docs")), vec!["r:documents"]);
    // The `remote:remote_path` label works too, for groups with or without an id.
    assert_eq!(
        labels_for_target(&st, &target("r:documents")),
        vec!["r:documents"]
    );
    assert_eq!(
        labels_for_target(&st, &target("r:config")),
        vec!["r:config"]
    );
    // An unknown name matches nothing; `All` matches every active group.
    assert!(labels_for_target(&st, &target("nope")).is_empty());
    assert_eq!(labels_for_target(&st, &SyncTarget::All).len(), 2);
}

#[test]
fn pull_interval_disabled_when_unset_anywhere() {
    let config = from_toml_str(
        r#"
            [[remote]]
            id = "a"
            backend = "filesystem"
            url = "/tmp/a"

            [[sync]]
            remote = "a"
            local = "/tmp/la"
            remote_path = "x"
            trigger = "watch"
        "#,
    )
    .unwrap();
    assert_eq!(
        resolve_pull_interval(&config, &sync_named(&config, "x")),
        None
    );
}

// ---------------------------------------------------------------------------
// Validation
// ---------------------------------------------------------------------------

/// The message of a configuration that is not valid.
fn complaint(source: &str) -> String {
    from_toml_str(source).unwrap_err().message()
}

#[test]
fn each_problem_has_its_message() {
    assert_eq!(
        complaint("[[remote]]\nid = \"d\"\nbackend = \"local\"\nurl = \"/a\"\n[[remote]]\nid = \"d\"\nbackend = \"local\"\nurl = \"/b\"\n"),
        "invalid config: duplicate remote id `d`"
    );
    assert_eq!(
        complaint("[[remote]]\nid = \"d\"\nbackend = \"local\"\nurl = \"/a\"\ncommit_msg_command = \"x\"\n"),
        "invalid config: remote `d` sets `commit_msg_command`, which only applies to a `git` backend, but its backend is `local`"
    );
    assert!(complaint("[[sync]]\nremote = \"ghost\"\nlocal = \"/a\"\ntrigger = \"manual\"\n")
        .contains("ghost"));
    assert!(matches!(
        from_toml_str("not toml"),
        Err(Error::ConfigParse(_))
    ));
}

#[test]
fn a_glob_that_does_not_parse_is_refused() {
    let err = from_toml_str(
        r#"
            [[remote]]
            id = "r"
            backend = "local"
            url = "/tmp/mirror"

            [[sync]]
            remote = "r"
            local = "/tmp/cfg"
            trigger = "manual"
            include = ["a["]
        "#,
    )
    .unwrap_err();
    assert!(matches!(err, Error::Validation(_)));
}

#[test]
fn a_directory_can_stand_in_for_a_remote() {
    let source = r#"
            [[sync]]
            remote_fs = "/mnt/backup"
            local = "/tmp/a"
            trigger = "watch-both"
        "#;
    let cfg = from_toml_str(source).unwrap();
    assert_eq!(cfg.remotes.len(), 1);
    assert_eq!(cfg.remotes[0].backend, RemoteKind::Local);
    assert_eq!(cfg.remotes[0].url, "/mnt/backup");
    assert_eq!(cfg.syncs[0].remote_id(), "/mnt/backup");
    // It cannot stand beside one.
    let err = from_toml_str(&format!("{source}\nremote = \"r\"")).unwrap_err();
    assert!(matches!(err, Error::Validation(_)));
}

#[test]
fn preparing_twice_changes_nothing_more() {
    let mut once = from_toml_str(GOOD).unwrap();
    let before = format!("{once:?}");
    once.prepare().unwrap();
    assert_eq!(format!("{once:?}"), before);
}

#[test]
fn preparing_keeps_the_rest() {
    let mut cfg = from_toml_str(GOOD).unwrap();
    let before = cfg.clone();
    cfg.syncs[0].remote_path = "//config/".to_string();
    cfg.syncs[0].local = "~/cfg".to_string();
    cfg.prepare().unwrap();
    assert_eq!(cfg.syncs[0].remote_path, "config");
    assert!(cfg.syncs[0].local.ends_with("/cfg"));
    cfg.syncs[0].local = before.syncs[0].local.clone();
    assert_eq!(format!("{cfg:?}"), format!("{before:?}"));
}

#[test]
fn home_and_plain_paths_are_expanded() {
    assert_eq!(expand_path("/plain/path"), "/plain/path");
    assert_ne!(expand_path("~/x"), "~/x");
    assert!(expand_path("~/x").ends_with("/x"));
    // Another user's home directory is not known.
    assert_eq!(expand_path("~other/x"), "~other/x");
    // A variable that is not set leaves the text as it is.
    assert_eq!(
        expand_path("/a/$CONFLUX_NO_SUCH_VARIABLE"),
        "/a/$CONFLUX_NO_SUCH_VARIABLE"
    );
    // A dollar sign is escaped by another, and needs it only before a name.
    assert_eq!(expand_path("/a/$$b"), "/a/$b");
    assert_eq!(expand_path("$${b}/$$"), "${b}/$");
    assert_eq!(expand_path("/a/$/$.b$"), "/a/$/$.b$");
    assert_eq!(expand_path("~$$x"), "~$x");
    assert!(expand_path("~/$$x").ends_with("/$x"));
    assert_eq!(
        expand_path("/a/${CONFLUX_NO_SUCH_VARIABLE:-b}/c"),
        "/a/b/c"
    );
    assert_eq!(expanded_or_itself("$B/x", Some("/b/x".to_string())), "/b/x");
    assert_eq!(expanded_or_itself("$B/x", None), "$B/x");
}

#[test]
fn roots_are_expanded_and_the_rest_is_kept() {
    let mut cfg = from_toml_str(GOOD).unwrap();
    cfg.syncs[0].local = "/data/$$here".to_string();
    cfg.syncs[0].remote_fs = Some("/mirror/$$there".to_string());
    let path = cfg.syncs[0].remote_path.clone();
    cfg.expand();
    assert_eq!(cfg.syncs[0].local, "/data/$here");
    assert_eq!(cfg.syncs[0].remote_fs.as_deref(), Some("/mirror/$there"));
    assert_eq!(cfg.syncs[0].remote_path, path);
}

#[test]
fn excludes_are_not_repeated() {
    let mut cfg = from_toml_str(GOOD).unwrap();
    cfg.syncs[0].exclude = vec!["**/.git/**".to_string(), "a".to_string(), "a".to_string()];
    let eff = cfg.syncs[0].effective_excludes(&cfg.daemon.exclude);
    assert_eq!(eff.iter().filter(|e| *e == "**/.git/**").count(), 1);
    assert_eq!(eff.iter().filter(|e| *e == "a").count(), 1);
    assert_eq!(eff.iter().filter(|e| *e == CONFLICT_GLOB).count(), 1);
}

#[test]
fn lengths_of_time_read_back() {
    assert_eq!(Span::parse("1h 30m"), Ok(Span { secs: 5400, nanos: 0 }));
    assert_eq!(
        Span::parse("1500ms"),
        Ok(Span {
            secs: 1,
            nanos: 500_000_000
        })
    );
    assert!(Span::parse("soon").is_err());
    let d = Span {
        secs: 3723,
        nanos: 5_000_000,
    };
    assert_eq!(d.format(), "1h 2m 3s 5ms");
    assert_eq!(Span::parse(&d.format()), Ok(d));
    assert!(Span::from_secs(0).is_zero());
    assert_eq!(Span::parse_checked("2min"), Some(Ok(Span::from_secs(120))));
    assert!(matches!(Span::parse_checked("2 parsecs"), Some(Err(_))));
    // A number of more than 64 bits is refused.
    assert!(matches!(
        Span::parse_checked("1000000000000000000000s"),
        Some(Err(_))
    ));
    assert_eq!(
        Span::parse_checked("86400000000000000ns"),
        Some(Ok(Span::from_secs(86_400_000)))
    );
    assert!(matches!(
        Span::parse_checked("3000000000000000000millis"),
        Some(Err(_))
    ));
    assert_eq!(
        Span::parse_checked("1.5h 2.25min"),
        Some(Ok(Span::from_secs(5535)))
    );
    let longest = Span {
        secs: u64::MAX,
        nanos: 999_999_999,
    };
    assert_eq!(Span::parse_checked(&longest.format()), Some(Ok(longest)));
    assert_eq!(Span::parse_checked("18446744073709551615s 1000ms"), None);
    assert_eq!(
        Span::parse_checked("1000000000000ns"),
        Some(Ok(Span::from_secs(1000)))
    );
    assert_eq!(
        Span::parse_checked("0000000000000002min"),
        Some(Ok(Span::from_secs(120)))
    );
    let long = Span {
        secs: 31_557_600,
        nanos: 123_456_789,
    };
    assert_eq!(Span::parse_checked(&long.format()), Some(Ok(long)));
    assert_eq!(
        Span::parse_checked("18446744073709551615s 999ms 999us 999ns"),
        Some(Ok(longest))
    );
}

#[test]
fn sizes_read_back() {
    for n in [0, 1, 999, 1000, 1024, 1_500_000, 1 << 40, (1 << 53) - 1] {
        assert_eq!(bytes_of(&format_byte_size(n)), Ok(n));
    }
    assert_eq!(bytes_of("1.5KB"), Ok(1500));
    assert_eq!(bytes_of(" 3 MiB "), Ok(3 * 1024 * 1024));
    assert_eq!(bytes_of("7B"), Ok(7));
    assert!(bytes_of("").is_err());
    assert!(bytes_of("MB").is_err());
    assert_eq!(format_byte_size(1024), "1024");
    assert_eq!(format_byte_size(3_000), "3KB");
}

// ---------------------------------------------------------------------------
// Daemon
// ---------------------------------------------------------------------------

const LEVELS: &str = r#"
        [daemon]
        empty_dirs = "prune"
        deletions = "allow"
        max_file_size = 7
        debounce = "9s"

        [[remote]]
        id = "r"
        backend = "local"
        url = "/srv/r"
        empty_dirs = "mirror"
        max_file_size = 5

        [[remote]]
        id = "g"
        backend = "git"
        url = "/srv/g.git"

        [[sync]]
        remote = "r"
        local = "/tmp/a"
        remote_path = "own"
        trigger = "watch"
        empty_dirs = "ignore"
        deletions = "deny"
        max_file_size = 3
        debounce = "1s"

        [[sync]]
        remote = "r"
        local = "/tmp/b"
        remote_path = "remote"
        trigger = "watch-both"
        pull_interval = "1m"

        [[sync]]
        remote = "g"
        local = "/tmp/c"
        remote_path = "daemon"
        trigger = "timer"
        interval = "2m"
        pull_interval = "1m"
        profiles = ["other"]
    "#;

#[test]
fn the_most_specific_level_wins() {
    let cfg = from_toml_str(LEVELS).unwrap();
    let own = sync_named(&cfg, "own");
    let remote = sync_named(&cfg, "remote");
    let daemon = sync_named(&cfg, "daemon");
    assert_eq!(resolve_empty_dirs(&cfg, &own), EmptyDirMode::Ignore);
    assert_eq!(resolve_empty_dirs(&cfg, &remote), EmptyDirMode::Mirror);
    assert_eq!(resolve_empty_dirs(&cfg, &daemon), EmptyDirMode::Prune);
    assert_eq!(resolve_max_file_size(&cfg, &own), 3);
    assert_eq!(resolve_max_file_size(&cfg, &remote), 5);
    assert_eq!(resolve_max_file_size(&cfg, &daemon), 7);
    assert_eq!(resolve_deletions(&cfg, &own), Deletions::Deny);
    assert_eq!(resolve_deletions(&cfg, &remote), Deletions::Allow);
    assert_eq!(resolve_debounce(&cfg, &own), Span::from_secs(1));
    assert_eq!(resolve_debounce(&cfg, &remote), Span::from_secs(9));
    let run = settings_for(&cfg, &remote, true);
    assert!(run.rules.remote_refresh);
    assert_eq!(run.rules.scope, Scope::Include);
    assert_eq!(run.rules.deletions, Deletions::Allow);
    assert_eq!(run.rules.max_file_size, 5);
    assert_eq!(run.empty_dirs, EmptyDirMode::Mirror);
}

#[test]
fn triggers_follow_the_configuration() {
    let cfg = from_toml_str(LEVELS).unwrap();
    let watch = plan_triggers(&cfg, &sync_named(&cfg, "own"));
    assert_eq!(watch.timer, None);
    assert_eq!(watch.watch_local, Some(Span::from_secs(1)));
    assert!(watch.watch_remote.is_none());
    assert_eq!(watch.pull, None);
    assert!(!watch.pull_ignored && !watch.empty_dirs_ignored);

    let both = plan_triggers(&cfg, &sync_named(&cfg, "remote"));
    assert_eq!(both.watch_local, Some(Span::from_secs(9)));
    assert_eq!(
        both.watch_remote,
        Some(("/srv/r/remote".to_string(), Span::from_secs(9)))
    );
    // The remote is watched live, so it is not polled.
    assert_eq!(both.pull, None);
    assert!(both.pull_ignored);

    let timer = plan_triggers(&cfg, &sync_named(&cfg, "daemon"));
    assert_eq!(timer.timer, Some(Span::from_secs(120)));
    assert_eq!(timer.watch_local, None);
    assert_eq!(timer.pull, Some(Span::from_secs(60)));
    // Git cannot store empty directories.
    assert!(timer.empty_dirs_ignored);
}

#[test]
fn only_the_active_profile_runs() {
    let mut st = state(from_toml_str(LEVELS).unwrap());
    assert_eq!(active_labels(&st), vec!["r:own", "r:remote"]);
    assert!(is_active(&st.config.syncs[2], None));
    assert!(!is_active(&st.config.syncs[2], Some("default")));
    assert!(idle_reason(&st).is_none());
    st.config.daemon.profile = Some("nobody".to_string());
    assert!(matches!(idle_reason(&st), Some(Idle::NoneActive(p)) if p == "nobody"));
    st.config.daemon.profile = None;
    assert_eq!(active_labels(&st).len(), 3);
    st.config.syncs.clear();
    assert!(matches!(idle_reason(&st), Some(Idle::NoGroups)));
}

#[test]
fn groups_are_resolved_by_label() {
    let st = state(from_toml_str(LEVELS).unwrap());
    let (sync, remote, dir) = resolve(&st, "g:daemon").unwrap();
    assert_eq!(sync.local, "/tmp/c");
    assert_eq!(remote.url, "/srv/g.git");
    assert_eq!(dir, "/x");
    assert!(resolve(&st, "g:other").is_none());
}

#[test]
fn a_full_sync_supersedes_a_queued_pull() {
    let mut queue = JobQueue::new();
    assert!(queue.submit_pull("a"));
    assert!(queue.submit("b"));
    assert!(!queue.submit("a"));
    assert!(!queue.submit_pull("b"));
    let first = queue.take().unwrap();
    assert_eq!((first.label.as_str(), first.pull_only), ("a", false));
    // A group that is running can be queued again.
    assert!(queue.submit_pull("a"));
    let second = queue.take().unwrap();
    assert_eq!((second.label.as_str(), second.pull_only), ("b", false));
    let third = queue.take().unwrap();
    assert_eq!((third.label.as_str(), third.pull_only), ("a", true));
    assert!(queue.take().is_none());
}

#[test]
fn every_active_group_syncs_at_start() {
    let st = state(from_toml_str(LEVELS).unwrap());
    let mut queue = JobQueue::new();
    queue.submit_pull("r:remote");
    assert_eq!(start_up(&st, &mut queue), 1);
    let first = queue.take().unwrap();
    assert_eq!((first.label.as_str(), first.pull_only), ("r:remote", false));
    let second = queue.take().unwrap();
    assert_eq!((second.label.as_str(), second.pull_only), ("r:own", false));
    assert!(queue.take().is_none());
}

#[test]
fn an_explicit_profile_overrides_the_configured_one() {
    let cfg = with_profile(from_toml_str(LEVELS).unwrap(), Some("other"));
    assert_eq!(cfg.daemon.profile.as_deref(), Some("other"));
    assert_eq!(active_labels(&state(cfg)), vec!["g:daemon"]);
    let cfg = with_profile(from_toml_str(LEVELS).unwrap(), None);
    assert_eq!(cfg.daemon.profile.as_deref(), Some("default"));
}

#[test]
fn a_valid_configuration_is_summed_up() {
    let cfg = from_toml_str(LEVELS).unwrap();
    let lines = validation_lines(&cfg);
    assert_eq!(lines.len(), 4);
    assert_eq!(lines[0], "ok: 2 remote(s), 3 sync group(s)");
    assert_eq!(lines[1], format!("warning: {}", cfg.warnings()[0]));
    assert!(lines[1].starts_with("warning: sync group `r:own` has scope = \"include\""));
}

#[test]
fn directories_that_cannot_be_watched_are_told() {
    assert_eq!(
        unwatched_message("local", "/d", true, "denied"),
        "not watching local directory `/d`: denied"
    );
    assert!(unwatched_message("remote", "/d", false, "x")
        .starts_with("not watching remote directory `/d`: it does not exist. Create it"));
}

#[test]
fn failures_are_retried_twice() {
    assert_eq!(after_attempt(0, false), AfterAttempt::Stop);
    assert_eq!(
        after_attempt(0, true),
        AfterAttempt::RetryIn(Span::from_secs(2))
    );
    assert_eq!(
        after_attempt(1, true),
        AfterAttempt::RetryIn(Span::from_secs(5))
    );
    assert_eq!(after_attempt(2, true), AfterAttempt::GiveUp);
    assert_eq!(after_attempt(2, false), AfterAttempt::Stop);
}

#[test]
fn status_merges_configuration_and_runs() {
    let mut st = state(from_toml_str(LEVELS).unwrap());
    let mut report = SyncReport::new();
    report.record_write(&RelPath::from_relative("f").unwrap(), false);
    let outcome = outcome_of("r:own", &RunEnd::Finished(report));
    record(&mut st, &outcome, 17);
    let failed = outcome_of("r:remote", &RunEnd::Failed(Error::Backend("down".into())));
    assert_eq!(failed.error.as_deref(), Some("backend error: down"));
    record(&mut st, &failed, 18);
    let lost = outcome_of("r:remote", &RunEnd::Lost("panicked".into()));
    assert_eq!(lost.error.as_deref(), Some("sync task failed: panicked"));

    let list = status_list(&st);
    assert_eq!(list.len(), 2);
    assert_eq!(list[0].label, "r:own");
    assert_eq!(list[0].remote, "r");
    assert_eq!(list[0].root, "/tmp/a");
    assert_eq!(list[0].trigger, "watch");
    assert_eq!(list[0].last_run, Some(17));
    assert_eq!(list[0].last_summary.unwrap().render(), "+1 -0 *0 ~0");
    assert!(list[0].last_error.is_none());
    assert_eq!(list[1].trigger, "watchboth");
    assert_eq!(list[1].last_error.as_deref(), Some("backend error: down"));
}

#[test]
fn a_failed_reload_keeps_the_configuration() {
    let mut st = state(from_toml_str(LEVELS).unwrap());
    let mut queue = JobQueue::new();
    let (ok, message, waiting) =
        reload(&mut st, &mut queue, Err(Error::Validation("bad".into())));
    assert!(!ok);
    assert_eq!(waiting, 0);
    assert!(queue.take().is_none());
    assert_eq!(
        message,
        "reload failed, keeping current config: invalid config: bad"
    );
    assert_eq!(st.config.syncs.len(), 3);
    let (ok, message, waiting) = reload(&mut st, &mut queue, from_toml_str(GOOD));
    assert!(ok);
    assert_eq!(waiting, 1);
    assert_eq!(message, "reloaded 1 sync group(s)");
    assert_eq!(st.config.syncs.len(), 1);
}

#[test]
fn a_reload_keeps_the_profile_and_syncs_every_active_group() {
    let mut st = state_for(from_toml_str(LEVELS).unwrap(), Some("other"));
    assert_eq!(active_labels(&st), vec!["g:daemon"]);
    let mut queue = JobQueue::new();
    let (ok, _, waiting) = reload(&mut st, &mut queue, from_toml_str(LEVELS));
    assert!(ok);
    assert_eq!(st.config.daemon.profile.as_deref(), Some("other"));
    assert_eq!(active_labels(&st), vec!["g:daemon"]);
    assert_eq!(waiting, 1);
    let job = queue.take().unwrap();
    assert_eq!(job.label, "g:daemon");
    assert!(!job.pull_only);
    assert!(queue.take().is_none());
    // Without an explicit profile the one of the file counts, and a group that waits
    // already is not queued twice.
    let mut st = state(from_toml_str(LEVELS).unwrap());
    queue.submit_pull("r:own");
    let (_, _, waiting) = reload(&mut st, &mut queue, from_toml_str(LEVELS));
    assert_eq!(waiting, 1);
    let job = queue.take().unwrap();
    assert_eq!((job.label.as_str(), job.pull_only), ("r:own", false));
    assert_eq!(queue.take().unwrap().label, "r:remote");
    assert!(queue.take().is_none());
}

#[test]
fn dry_runs_come_to_a_plan_or_an_error() {
    let plan = SyncPlan { changes: Vec::new() };
    let made = plan_outcome_of("g", PlanEnd::Finished(plan));
    assert_eq!(made.label, "g");
    assert!(made.plan.is_some() && made.error.is_none());
    let failed = plan_outcome_of("g", PlanEnd::Failed(Error::Backend("down".to_string())));
    assert!(failed.plan.is_none());
    assert_eq!(failed.error.as_deref(), Some("backend error: down"));
    let lost = plan_outcome_of("g", PlanEnd::Lost("gone".to_string()));
    assert!(lost.plan.is_none());
    assert_eq!(lost.error.as_deref(), Some("plan task failed: gone"));
    assert_eq!(effective_dir_mode(true, EmptyDirMode::Prune), EmptyDirMode::Prune);
    assert_eq!(effective_dir_mode(false, EmptyDirMode::Prune), EmptyDirMode::Ignore);
}

#[test]
fn every_active_group_has_triggers() {
    let st = state(from_toml_str(LEVELS).unwrap());
    let triggers = triggers_for(&st);
    let labels: Vec<&str> = triggers.iter().map(|t| t.label.as_str()).collect();
    assert_eq!(labels, vec!["r:own", "r:remote"]);
    assert_eq!(triggers[0].root, st.config.syncs[0].local);
    assert!(triggers[0].plan.watch_local.is_some());
    assert!(triggers_for(&state_for(from_toml_str(LEVELS).unwrap(), Some("none"))).is_empty());
}

#[test]
fn whole_sizes_are_exact() {
    assert_eq!(bytes_of("9007199254740993").unwrap(), 9_007_199_254_740_993);
    assert_eq!(bytes_of("18446744073709551615").unwrap(), u64::MAX);
    assert_eq!(bytes_of("9007199254740993KB").unwrap(), 9_007_199_254_740_993_000);
    assert_eq!(
        bytes_of(&format_byte_size(18_446_744_073_709_551_614)).unwrap(),
        18_446_744_073_709_551_614
    );
    assert!(matches!(
        parse_byte_size("18446744073709551616"),
        Ok(ByteSize::Product { .. })
    ));
}

#[test]
fn requests_become_tasks() {
    let st = state(from_toml_str(LEVELS).unwrap());
    match task_for(&st, &Request::Sync(SyncTarget::All)) {
        Task::Run(labels) => assert_eq!(labels, vec!["r:own", "r:remote"]),
        other => panic!("{other:?}"),
    }
    match task_for(&st, &Request::Plan(SyncTarget::Group("r:own".into()))) {
        Task::Plan(labels) => assert_eq!(labels, vec!["r:own"]),
        other => panic!("{other:?}"),
    }
    // Another profile's group is not reached.
    match task_for(&st, &Request::Sync(SyncTarget::Group("g:daemon".into()))) {
        Task::Answer(Response::Error(e)) => assert_eq!(e, "no matching sync groups"),
        other => panic!("{other:?}"),
    }
    assert!(matches!(task_for(&st, &Request::Reload), Task::Reload));
    assert!(matches!(
        task_for(&st, &Request::Status),
        Task::Answer(Response::Status(_))
    ));
    assert!(matches!(bad_request("eof"), Response::Error(e) if e == "bad request: eof"));
}

#[test]
fn log_levels_become_directives() {
    assert_eq!(daemon_log_directive("debug"), "debug,globset=info");
    assert_eq!(daemon_log_directive("TRACE"), "TRACE");
    assert_eq!(run_verb(true), "pulled");
    assert_eq!(run_verb(false), "synced");
}

#[test]
fn defaults_are_the_documented_ones() {
    assert_eq!(default_log_level(), "info");
    assert_eq!(default_max_file_size(), DEFAULT_MAX_FILE_SIZE);
    assert_eq!(EmptyDirMode::default(), EmptyDirMode::Ignore);
    assert_eq!(Deletions::default(), Deletions::Deny);
    assert_eq!(Scope::default(), Scope::Include);
}
