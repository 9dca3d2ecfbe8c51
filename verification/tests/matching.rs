//! Paths, globs, hashes, timestamps and texts.

use conflux::backend::{
    command_not_run, command_text, content_meta, is_git_metadata, path_under,
    snapshot_path, CommandOutput,
};
use conflux::config::Remote;
use conflux::conflict::conflict_copy;
use conflux::control::{
    op_label, op_symbol, path_lines, plan_sizes, render_outcome, render_status, show_response,
    shown_time, status_times, winner_side,
};
use conflux::decide::Winner;
use conflux::engine::scan_path;
use conflux::error::Error;
use conflux::hash::hash_bytes;
use conflux::ipc::{GroupOutcome, GroupPlan, GroupStatus, Response};
use conflux::matcher::{glob_complaint, patterns_fit, Matcher, MAX_NESTING};
use conflux::model::{RemoteKind, Trigger};
use conflux::paths::{chosen_config, resolve_in, HomeDirs, Paths, RunMode};
use conflux::plan::{PlanOp, PlannedChange, SyncPlan};
use conflux::relpath::join_path;
use conflux::report::SyncSummary;
use conflux::table::Table;
use conflux::timefmt::{local, stamp, MAX_SECONDS};
use conflux::RelPath;

fn rel(s: &str) -> RelPath {
    RelPath::from_relative(s).unwrap()
}

#[test]
fn directory_pattern_matches_subtree() {
    let m = Matcher::new(&["nvim".to_string()], true).unwrap();
    assert!(m.is_match(&rel("nvim")));
    assert!(m.is_match(&rel("nvim/init.lua")));
    assert!(!m.is_match(&rel("fish/config.fish")));
}

#[test]
fn empty_include_matches_all_but_empty_exclude_matches_none() {
    let includes = Matcher::new(&[], true).unwrap();
    let exclude = Matcher::new(&[], false).unwrap();
    assert!(includes.is_match(&rel("anything")));
    assert!(!exclude.is_match(&rel("anything")));
}

#[test]
fn single_star_matches_one_segment_only() {
    let m = Matcher::new(&["fish/*".to_string()], true).unwrap();
    assert!(m.is_match(&rel("fish/config.fish")));
    // `*` does not cross a separator, so nested files are not matched.
    assert!(!m.is_match(&rel("fish/functions/greet.fish")));
}

#[test]
fn double_star_matches_across_segments() {
    let m = Matcher::new(&["fish/**".to_string()], true).unwrap();
    assert!(m.is_match(&rel("fish/config.fish")));
    assert!(m.is_match(&rel("fish/functions/greet.fish")));
}

#[test]
fn leading_double_star_matches_any_depth() {
    let m = Matcher::new(&["**/*.conf".to_string()], true).unwrap();
    assert!(m.is_match(&rel("kitty.conf")));
    assert!(m.is_match(&rel("kitty/kitty.conf")));
    assert!(m.is_match(&rel("a/b/c.conf")));
    assert!(!m.is_match(&rel("kitty/theme.toml")));
}

#[test]
fn bare_star_matches_top_level_only() {
    let m = Matcher::new(&["*.conf".to_string()], true).unwrap();
    assert!(m.is_match(&rel("kitty.conf")));
    assert!(!m.is_match(&rel("kitty/kitty.conf")));
}

#[test]
fn conflict_glob_is_excluded_at_any_depth() {
    let m = Matcher::new(&["**/*.conflux-conflict-*".to_string()], false).unwrap();
    assert!(m.is_match(&rel("init.lua.conflux-conflict-1700000000")));
    assert!(m.is_match(&rel("nvim/init.lua.conflux-conflict-1700000000")));
    assert!(!m.is_match(&rel("init.lua")));
}

#[test]
fn strips_root_and_normalizes() {
    let root = "/home/me/.config";
    let full = "/home/me/.config/nvim/init.lua";
    let rel = RelPath::from_base(root, full).unwrap();
    assert_eq!(rel.as_str(), "nvim/init.lua");
    assert_eq!(rel.to_local(root), full);
}

#[test]
fn rejects_paths_outside_root() {
    assert!(RelPath::from_relative("../escape").is_none());
    assert!(RelPath::from_base("/a", "/b/c").is_none());
}

#[test]
fn stamp_has_expected_shape() {
    // Exact value depends on the host time zone; check the shape.
    let s = stamp(1_700_000_001);
    assert!(s.starts_with("2023-11-1")); // same day-ish regardless of offset
    assert_eq!(s.len(), "YYYY-MM-DD_HH-MM-SS".len());
    assert!(s.contains('_'));
}

#[test]
fn is_filesystem_safe() {
    let s = stamp(1_700_000_001);
    assert!(!s.contains(':'));
    assert!(!s.contains('/'));
    assert!(!s.contains(' '));
}

#[test]
fn local_is_human_readable_with_offset() {
    // Can't assert the exact string (depends on the host time zone), but it
    // should carry a date, a colon-separated time, and a `+`/`-` offset.
    let s = local(1_700_000_001);
    assert!(s.starts_with("20"));
    assert!(s.contains(':'));
    assert!(s.contains('+') || s.contains('-'));
}

#[test]
fn shown_times_are_the_instants_they_stand_for() {
    for seconds in [0, 951_782_400, 1_700_000_001, 1_709_164_799, 253_402_200_000] {
        let shown = local(seconds);
        let read = chrono::DateTime::parse_from_str(&shown, "%Y-%m-%d %H:%M:%S %:z").unwrap();
        assert_eq!(read.timestamp(), seconds as i64, "{shown}");
        // The stamp is the same date and time of day.
        assert_eq!(stamp(seconds), shown[..19].replace(' ', "_").replace(':', "-"));
    }
    assert!(stamp(300_000_000_000).starts_with("+11476-"));
    // The last day of the calendar, or the next one in the east.
    let last = stamp(MAX_SECONDS);
    assert!(last.starts_with("+262142-12-31_") || last.starts_with("+262143-01-01_"));
}

// System mode uses fixed paths, so it is deterministic to assert on.
#[test]
fn default_profile_uses_base_paths() {
    for profile in [None, Some("default")] {
        let p = Paths::resolve(RunMode::System, profile, None).unwrap();
        assert_eq!(p.state, "/var/lib/conflux");
        assert_eq!(p.socket, "/run/conflux/conflux.sock");
    }
}

#[test]
fn named_profile_namespaces_state_and_socket_but_not_config() {
    let base = Paths::resolve(RunMode::System, None, None).unwrap();
    let desktop = Paths::resolve(RunMode::System, Some("desktop"), None).unwrap();
    assert_eq!(desktop.state, "/var/lib/conflux/desktop");
    assert_eq!(desktop.socket, "/run/conflux/conflux-desktop.sock");
    // Config stays shared across profiles.
    assert_eq!(desktop.config, base.config);
}

#[test]
fn distinct_profiles_get_distinct_sockets() {
    let a = Paths::resolve(RunMode::System, Some("laptop"), None).unwrap();
    let b = Paths::resolve(RunMode::System, Some("desktop"), None).unwrap();
    assert_ne!(a.socket, b.socket);
    assert_ne!(a.state, b.state);
}

#[test]
fn user_paths_follow_the_base_directories() {
    let dirs = |runtime: Option<&str>| {
        Some(HomeDirs {
            config: Some("/h/.config".to_string()),
            state: Some(Some("/h/.local/state".to_string())),
            runtime: runtime.map(|s| Some(s.to_string())),
        })
    };
    let p = resolve_in(dirs(Some("/run/user/1")), None, None).unwrap();
    assert_eq!(p.config, "/h/.config/conflux/config.toml");
    assert_eq!(p.state, "/h/.local/state/conflux");
    assert_eq!(p.socket, "/run/user/1/conflux.sock");
    // Without a runtime directory the socket lives with the state.
    let p = resolve_in(dirs(None), Some("x"), Some("/my.toml")).unwrap();
    assert_eq!(p.config, "/my.toml");
    assert_eq!(p.state, "/h/.local/state/conflux/x");
    assert_eq!(p.socket, "/h/.local/state/conflux/conflux-x.sock");
    assert!(matches!(
        resolve_in(None, None, None),
        Err(Error::MissingDir(d)) if d == "home"
    ));
    let stateless = Some(HomeDirs {
        config: Some("/h/.config".to_string()),
        state: None,
        runtime: None,
    });
    assert!(matches!(
        resolve_in(stateless, None, None),
        Err(Error::MissingDir(d)) if d == "state"
    ));
    // A directory whose path is no text is named, where it is needed.
    let odd = |config: bool, state: bool, runtime: bool| {
        let text = |known: bool| known.then_some("/d".to_string());
        Some(HomeDirs {
            config: text(config),
            state: Some(text(state)),
            runtime: Some(text(runtime)),
        })
    };
    assert!(matches!(
        resolve_in(odd(true, false, true), None, None),
        Err(Error::MissingDir(d)) if d == "Unicode state"
    ));
    assert!(matches!(
        resolve_in(odd(false, true, true), None, None),
        Err(Error::MissingDir(d)) if d == "Unicode config"
    ));
    assert!(resolve_in(odd(false, true, true), None, Some("/c.toml")).is_ok());
    assert!(matches!(
        resolve_in(odd(true, true, false), None, None),
        Err(Error::MissingDir(d)) if d == "Unicode runtime"
    ));
    // The directories of this machine, if it has any.
    match Paths::resolve(RunMode::User, None, Some("/c.toml")) {
        Ok(p) => assert_eq!(p.config, "/c.toml"),
        Err(e) => assert!(matches!(e, Error::MissingDir(_))),
    }
}

#[test]
fn the_command_line_overrides_the_environment() {
    assert_eq!(chosen_config(Some("/a"), Some("/b")), Some("/a"));
    assert_eq!(chosen_config(None, Some("/b")), Some("/b"));
    assert_eq!(chosen_config(None, None), None);
    let p = Paths::resolve(RunMode::System, None, None).unwrap();
    assert_eq!(
        path_lines(&p),
        [
            "config: /etc/conflux/config.toml",
            "state:  /var/lib/conflux",
            "socket: /run/conflux/conflux.sock"
        ]
    );
}

#[test]
fn run_mode_is_detected() {
    assert_eq!(RunMode::detect(true, false), RunMode::System);
    assert_eq!(RunMode::detect(false, true), RunMode::System);
    assert_eq!(RunMode::detect(false, false), RunMode::User);
}

#[test]
fn relative_paths_are_normalized() {
    assert_eq!(rel("./a//b/./c/").as_str(), "a/b/c");
    assert!(RelPath::from_relative("").is_none());
    assert!(RelPath::from_relative(".").is_none());
    assert!(RelPath::from_relative("/abs").is_none());
    assert!(RelPath::from_relative("a/../b").is_none());
    assert!(RelPath::from_base("/a", "/a").is_none());
    assert_eq!(RelPath::from_base("/a/", "/a//b").unwrap().as_str(), "b");
    assert!(RelPath::from_base("/a", "/ab/c").is_none());
    // Normalizing twice changes nothing more.
    let once = rel("x/./y");
    assert_eq!(rel(once.as_str()).as_str(), once.as_str());
    assert_eq!(once.name(), "y");
    assert_eq!(once.sibling("z").as_str(), "x/z");
    assert_eq!(join_path("/a", "b"), "/a/b");
    assert_eq!(join_path("/a/", "b"), "/a/b");
    assert_eq!(join_path("/a", "/b"), "/b");
}

#[test]
fn local_paths_lead_back() {
    for text in ["a", "a/b.c", "deep/er/still"] {
        let path = rel(text);
        let full = path.to_local("/root/dir");
        assert_eq!(RelPath::from_base("/root/dir", &full).unwrap(), path);
    }
    assert_ne!(rel("a").to_local("/r"), rel("b").to_local("/r"));
}

#[test]
fn globs_that_do_not_parse_are_told() {
    assert!(glob_complaint("a[").is_some());
    assert!(glob_complaint("a*").is_none());
    match Matcher::new(&["ok".to_string(), "a[".to_string()], false) {
        Err(Error::Validation(e)) => assert!(e.starts_with("invalid glob `a[`: "), "{e}"),
        _ => panic!("should be refused"),
    }
    assert!(patterns_fit(&["a".to_string(), "b".to_string()]));
}

#[test]
fn braces_nest_only_so_deep() {
    let nested = |n: usize| format!("{}a{}", "{".repeat(n), "}".repeat(n));
    assert!(glob_complaint(&nested(MAX_NESTING)).is_none());
    assert!(patterns_fit(&[nested(MAX_NESTING)]));
    for n in [MAX_NESTING + 1, 300_000] {
        assert_eq!(glob_complaint(&nested(n)).as_deref(), Some("braces nest too deeply"));
        assert!(!patterns_fit(&["a".to_string(), nested(n)]));
    }
    // Braces that are closed again do not add up, unless a bracket or a backslash may
    // have taken their meaning.
    assert!(patterns_fit(&["{a,b}".repeat(MAX_NESTING + 1)]));
    assert!(!patterns_fit(&["{[}]".repeat(MAX_NESTING + 1)]));
    let m = Matcher::new(&["{a,{b,c}}/d".to_string()], false).unwrap();
    assert!(m.is_match(&rel("c/d")) && !m.is_match(&rel("e/d")));
}

#[test]
fn a_star_stays_in_one_segment() {
    let covers = |pattern: &str, path: &str| {
        Matcher::new(&[pattern.to_string()], false)
            .unwrap()
            .is_match(&rel(path))
    };
    assert!(covers("*.conf", "a.conf") && covers("*.conf", ".conf"));
    assert!(!covers("*.conf", "d/a.conf") && !covers("*.conf", "a.conf.d"));
    assert!(covers("fish/*", "fish/a") && !covers("fish/*", "fish/a/b"));
    assert!(!covers("fish/*", "fish"));
    assert!(covers("a*b/c.d", "axxb/c.d") && covers("a*b/c.d", "ab/c.d"));
    assert!(!covers("a*b/c.d", "ax/xb/c.d") && !covers("ab*bc", "abc"));
    assert!(covers("**/*.conf", "a.conf") && covers("**/*.conf", "d/e/a.conf"));
    assert!(!covers("**/*.conf", "a.conf/x") && covers("**/*f", "d/leaf"));
    // An empty pattern matches nothing that is there.
    assert!(!covers("", "a"));
}

#[test]
fn literal_patterns_cover_their_subtree_only() {
    let m = Matcher::new(&["a/b".to_string(), "c".to_string()], false).unwrap();
    for inside in ["a/b", "a/b/x", "a/b/x/y", "c", "c/d"] {
        assert!(m.is_match(&rel(inside)), "{inside}");
    }
    for outside in ["a", "a/bc", "x/a/b", "cc", "d/c"] {
        assert!(!m.is_match(&rel(outside)), "{outside}");
    }
    let all = Matcher::new(&["**".to_string()], false).unwrap();
    assert!(all.is_match(&rel("any/thing")));
}

#[test]
fn hashes_are_of_the_content() {
    assert_eq!(
        hash_bytes(b""),
        "af1349b9f5f9a1a6a0404dea36dcc9499bcb25c9adc112b7cc9a93cae41f3262"
    );
    assert_ne!(hash_bytes(b"a"), hash_bytes(b"b"));
    let meta = content_meta(b"abc", Some(7));
    assert_eq!(meta.id, hash_bytes(b"abc"));
    assert_eq!((meta.mtime, meta.size), (Some(7), 3));
}

#[test]
fn conflict_copies_stand_beside_the_file() {
    assert_eq!(
        conflict_copy(&rel("d/init.lua"), "T").as_str(),
        "d/init.conflux-conflict-T.lua"
    );
    assert_eq!(
        conflict_copy(&rel("Makefile"), "T").as_str(),
        "Makefile.conflux-conflict-T"
    );
    assert_eq!(
        conflict_copy(&rel(".bashrc"), "T").as_str(),
        ".bashrc.conflux-conflict-T"
    );
    assert_eq!(
        conflict_copy(&rel("a.tar.gz"), "T").as_str(),
        "a.tar.conflux-conflict-T.gz"
    );
    let glob = Matcher::new(&["**/*.conflux-conflict-*".to_string()], false).unwrap();
    let copy = conflict_copy(&rel("a/b.c"), &stamp(1_700_000_001));
    assert!(glob.is_match(&copy));
}

#[test]
fn walked_files_are_sorted_out() {
    let exclude = Matcher::new(&["skip".to_string()], false).unwrap();
    assert_eq!(
        scan_path("/r", "/r/a/b", &exclude).unwrap().as_str(),
        "a/b"
    );
    assert!(scan_path("/r", "/r/skip/b", &exclude).is_none());
    assert!(scan_path("/r", "/q/b", &exclude).is_none());
    assert_eq!(snapshot_path("/r", "/r/a").unwrap().as_str(), "a");
    assert!(snapshot_path("/r", "/r/.git/HEAD").is_none());
    assert!(is_git_metadata("/x/.git/HEAD"));
    assert!(!is_git_metadata("/x/.gitignore"));
}

fn remote(url: &str) -> Remote {
    Remote {
        id: "r".to_string(),
        label: None,
        backend: RemoteKind::Local,
        url: url.to_string(),
        username: None,
        password: Some("plain".to_string()),
        password_command: None,
        identity_file: None,
        identity_file_command: None,
        branch: None,
        commit_msg_command: None,
        pull_interval: None,
        empty_dirs: None,
        max_file_size: None,
    }
}

#[test]
fn remote_paths_are_appended_by_segments() {
    assert_eq!(path_under("/srv", "a//b/"), "/srv/a/b");
    assert_eq!(path_under("/srv", ""), "/srv");
}

#[test]
fn passwords_come_from_the_configuration_or_a_command() {
    let mut r = remote("/srv");
    assert_eq!(r.resolve_password(None).unwrap().as_deref(), Some("plain"));
    r.password_command = Some("pass".to_string());
    let ok = CommandOutput {
        success: true,
        status: "exit status: 0".to_string(),
        stdout: "from command\n".to_string(),
        stderr: String::new(),
    };
    let failed = CommandOutput {
        success: false,
        status: "exit status: 1".to_string(),
        stdout: String::new(),
        stderr: " denied \n".to_string(),
    };
    r.password = None;
    assert_eq!(
        r.resolve_password(Some(&ok)).unwrap().as_deref(),
        Some("from command")
    );
    assert!(r.resolve_password(Some(&failed)).is_err());
    assert!(matches!(
        command_text("commit_msg_command", &failed),
        Err(Error::Backend(e)) if e == "commit_msg_command exited with exit status: 1: denied"
    ));
    assert_eq!(command_text("x", &ok).unwrap(), "from command");
    assert!(matches!(
        command_not_run("x", "no sh"),
        Error::Backend(e) if e == "x failed to run: no sh"
    ));
    r.password_command = None;
    assert_eq!(r.resolve_password(None).unwrap(), None);
}

#[test]
fn kinds_and_triggers_have_names() {
    for kind in [RemoteKind::Webdav, RemoteKind::Git, RemoteKind::Local] {
        assert_eq!(RemoteKind::from_name(kind.as_str()), Some(kind));
    }
    assert_eq!(RemoteKind::from_name("filesystem"), Some(RemoteKind::Local));
    assert_eq!(RemoteKind::from_name("ftp"), None);
    assert_eq!(Trigger::WatchBoth.as_label(), "watchboth");
}

#[test]
fn errors_have_messages() {
    let text = |s: &str| s.to_string();
    let cases = [
        (
            Error::ConfigRead {
                path: text("/c"),
                source: text("gone"),
            },
            "failed to read config at /c: gone",
        ),
        (Error::ConfigParse(text("x")), "failed to parse config: x"),
        (Error::Validation(text("x")), "invalid config: x"),
        (
            Error::MissingDir(text("home")),
            "could not determine home directory",
        ),
        (Error::Backend(text("x")), "backend error: x"),
        (Error::Index(text("x")), "index error: x"),
        (Error::Io(text("x")), "x"),
    ];
    for (error, message) in cases {
        assert_eq!(error.message(), message);
    }
}

#[test]
fn tables_are_sorted_maps() {
    let mut t: Table<u8> = Table::new();
    for (key, value) in [("b", 1), ("a", 2), ("é", 3), ("b", 4), ("B", 5)] {
        t.insert(key.to_string(), value);
    }
    assert_eq!(t.len(), 4);
    let keys: Vec<&String> = (0..t.len()).map(|i| t.key(i)).collect();
    assert_eq!(keys, ["B", "a", "b", "é"]);
    assert_eq!(t.get("b"), Some(&4));
    assert_eq!(t.get("c"), None);
    t.remove("a");
    assert!(!t.contains("a"));
    t.remove("zz");
    assert_eq!(t.len(), 3);
}

// ---------------------------------------------------------------------------
// Answers of the daemon
// ---------------------------------------------------------------------------

#[test]
fn planned_changes_have_symbols_and_labels() {
    assert_eq!(op_symbol(&PlanOp::Push { update: true }), '↑');
    assert_eq!(op_symbol(&PlanOp::CreateLocalDir), '↓');
    assert_eq!(op_symbol(&PlanOp::DeleteRemoteDir), '✗');
    assert_eq!(op_symbol(&PlanOp::OversizeSkip { size: 1 }), '·');
    let conflict = PlanOp::Conflict {
        winner: Winner::Remote,
    };
    assert_eq!(op_symbol(&conflict), '!');
    assert_eq!(op_label(&conflict, ""), "conflict (keep remote)");
    assert_eq!(op_label(&PlanOp::Pull { update: false }, ""), "download (new)");
    assert_eq!(
        op_label(&PlanOp::OversizeSkip { size: 1 }, "1.5MB"),
        "skip (1.5MB over max_file_size)"
    );
    assert_eq!(winner_side(Winner::Local), "local");
}

fn plans(error: Option<&str>, changes: Vec<PlannedChange>) -> Response {
    Response::Planned(vec![GroupPlan {
        label: "r:x".to_string(),
        plan: Some(SyncPlan { changes }),
        error: error.map(|e| e.to_string()),
    }])
}

#[test]
fn dry_runs_are_shown() {
    let none = Vec::new();
    let shown = show_response(&plans(None, Vec::new()), &none, &vec![Vec::new()]);
    assert_eq!(shown.lines, ["r:x (dry run): no changes"]);
    assert!(shown.ok);
    let shown = show_response(&plans(Some("down"), Vec::new()), &none, &vec![Vec::new()]);
    assert_eq!(shown.lines, ["r:x (dry run): ERROR: down"]);
    assert!(!shown.ok);
    let one = PlannedChange {
        path: rel("a.txt"),
        op: PlanOp::Push { update: false },
    };
    let shown = show_response(&plans(None, vec![one]), &none, &vec![vec![String::new()]]);
    assert_eq!(
        shown.lines,
        [
            "r:x (dry run): 1 change".to_string(),
            format!("  ↑ {:<38} a.txt", "upload (new)"),
        ]
    );
    let two = vec![
        PlannedChange {
            path: rel("a"),
            op: PlanOp::PullPreserveLocal,
        },
        PlannedChange {
            path: rel("b"),
            op: PlanOp::OversizeSkip { size: 9 },
        },
    ];
    let sizes = vec![vec![String::new(), "9B".to_string()]];
    let shown = show_response(&plans(None, two), &none, &sizes);
    assert_eq!(
        shown.lines,
        [
            "r:x (dry run): 2 changes".to_string(),
            format!("  ↓ {:<38} a", "download (local kept as conflict copy)"),
            format!("  · {:<38} b", "skip (9B over max_file_size)"),
        ]
    );
}

fn outcome(summary: Option<SyncSummary>, error: Option<&str>) -> GroupOutcome {
    GroupOutcome {
        label: "g".to_string(),
        summary,
        error: error.map(|e| e.to_string()),
    }
}

const SUMMARY: SyncSummary = SyncSummary {
    added: 1,
    removed: 2,
    modified: 30,
    conflicted: 4,
};

#[test]
fn outcomes_are_shown() {
    assert_eq!(
        render_outcome(&outcome(Some(SUMMARY), None)),
        "g: +1 -2 *30 ~4"
    );
    assert_eq!(render_outcome(&outcome(None, Some("x"))), "g: ERROR: x");
    assert_eq!(render_outcome(&outcome(None, None)), "g: done");
    let (times, sizes) = (Vec::new(), Vec::new());
    let good = Response::Synced(vec![outcome(Some(SUMMARY), None), outcome(None, None)]);
    assert!(show_response(&good, &times, &sizes).ok);
    let bad = Response::Synced(vec![outcome(Some(SUMMARY), None), outcome(None, Some("x"))]);
    let shown = show_response(&bad, &times, &sizes);
    assert!(!shown.ok);
    assert_eq!(shown.lines, ["g: +1 -2 *30 ~4", "g: ERROR: x"]);
    let reloaded = Response::Reloaded {
        ok: false,
        message: "m".to_string(),
    };
    let shown = show_response(&reloaded, &times, &sizes);
    assert_eq!((shown.ok, shown.is_error), (false, false));
    assert_eq!(shown.lines, ["m"]);
    let shown = show_response(&Response::Error("e".to_string()), &times, &sizes);
    assert_eq!((shown.ok, shown.is_error), (false, true));
    assert_eq!(shown.lines, ["error: e"]);
}

#[test]
fn status_is_shown() {
    let mut g = GroupStatus {
        label: "g".to_string(),
        remote: "r".to_string(),
        root: "/l".to_string(),
        trigger: "timer".to_string(),
        last_run: None,
        last_summary: None,
        last_error: None,
    };
    assert_eq!(shown_time(None), "never");
    assert!(shown_time(Some(1_700_000_001)).starts_with("2023-11-1"));
    let (first, second) = render_status(&g, "never");
    assert_eq!(first, "g [timer] root=/l");
    assert_eq!(second, "  last run: never");
    g.last_summary = Some(SUMMARY);
    assert_eq!(render_status(&g, "T").1, "  last run: T — +1 -2 *30 ~4");
    g.last_error = Some("x".to_string());
    assert_eq!(render_status(&g, "T").1, "  last run: ERROR (T): x");
    let shown = show_response(&Response::Status(vec![g]), &vec!["T".to_string()], &Vec::new());
    assert_eq!(shown.lines, ["g [timer] root=/l", "  last run: ERROR (T): x"]);
    assert!(shown.ok);
    let none = show_response(&Response::Status(Vec::new()), &Vec::new(), &Vec::new());
    assert_eq!(none.lines, ["no active sync groups"]);
}

#[test]
fn times_and_sizes_belong_to_their_entries() {
    let group = |last_run: Option<u64>| GroupStatus {
        label: "g".to_string(),
        remote: "r".to_string(),
        root: "/l".to_string(),
        trigger: "timer".to_string(),
        last_run,
        last_summary: None,
        last_error: None,
    };
    let status = Response::Status(vec![group(Some(1_700_000_001)), group(None)]);
    let times = status_times(&status).unwrap();
    assert_eq!(times, [local(1_700_000_001), "never".to_string()]);
    assert!(status_times(&Response::Status(vec![group(Some(u64::MAX))])).is_none());
    assert_eq!(status_times(&Response::Error("e".to_string())), Some(Vec::new()));
    let plan = GroupPlan {
        label: "g".to_string(),
        plan: Some(SyncPlan {
            changes: vec![
                PlannedChange {
                    path: rel("a"),
                    op: PlanOp::DeleteLocal,
                },
                PlannedChange {
                    path: rel("b"),
                    op: PlanOp::OversizeSkip { size: 9 },
                },
            ],
        }),
        error: None,
    };
    let broken = GroupPlan {
        label: "h".to_string(),
        plan: None,
        error: Some("e".to_string()),
    };
    let sizes = plan_sizes(&Response::Planned(vec![plan, broken]));
    assert_eq!(sizes, vec![vec![0, 9], vec![]]);
    assert!(plan_sizes(&status).is_empty());
}
