//! SSH and git: hosts, `ssh_config`, credentials, clones and commit messages.

use conflux::backend::{command_text, CommandOutput};
use conflux::config::{default_profiles, Remote, Sync};
use conflux::error::Error;
use conflux::git::{
    branch_name, commit_message, commit_mtime, default_commit_message, fetched_ref, git_error,
    group_dir, missing_identity, name_bytes, needs_commit, offer, push_refspec, repo_dir, Accepted, GitBackend,
    Offer,
};
use conflux::model::{RemoteKind, Scope, Trigger};
use conflux::ssh::{
    config_identity_files, default_identity_files, glob_match, home_path, host_matches,
    parse_identity_files, ssh_credentials, ssh_host_from_url, SshCred,
};
use conflux::RelPath;

#[test]
fn extracts_ssh_host_from_url_forms() {
    assert_eq!(
        ssh_host_from_url("ssh://git@git.aperte.dev:222/SelfRef/test.git").as_deref(),
        Some("git.aperte.dev")
    );
    assert_eq!(
        ssh_host_from_url("ssh://git.example.com/repo.git").as_deref(),
        Some("git.example.com")
    );
    // scp-like syntax.
    assert_eq!(
        ssh_host_from_url("git@github.com:me/dots.git").as_deref(),
        Some("github.com")
    );
    // Bracketed IPv6 with a port.
    assert_eq!(
        ssh_host_from_url("ssh://git@[2001:db8::1]:2222/repo.git").as_deref(),
        Some("2001:db8::1")
    );
}

#[test]
fn non_ssh_urls_have_no_host() {
    assert_eq!(ssh_host_from_url("https://github.com/me/dots.git"), None);
    assert_eq!(ssh_host_from_url("http://example.com/repo.git"), None);
    assert_eq!(ssh_host_from_url("git://example.com/repo.git"), None);
    assert_eq!(ssh_host_from_url("file:///srv/repo.git"), None);
    // A bare local path is not an scp target.
    assert_eq!(ssh_host_from_url("/srv/git/repo.git"), None);
}

#[test]
fn glob_matches_wildcards() {
    assert!(glob_match("git.aperte.dev", "git.aperte.dev"));
    assert!(glob_match("*.aperte.dev", "git.aperte.dev"));
    assert!(glob_match("git.*", "git.aperte.dev"));
    assert!(glob_match("*", "anything.at.all"));
    assert!(glob_match("git?.example.com", "git1.example.com"));
    assert!(!glob_match("git?.example.com", "git.example.com"));
    assert!(!glob_match("*.aperte.dev", "git.example.com"));
    // Case-insensitive, like OpenSSH.
    assert!(glob_match("Git.Aperte.Dev", "git.aperte.dev"));
}

#[test]
fn host_line_negation_excludes() {
    assert!(host_matches("git.aperte.dev", "*.aperte.dev"));
    assert!(!host_matches(
        "secret.aperte.dev",
        "*.aperte.dev !secret.aperte.dev"
    ));
    assert!(host_matches(
        "public.aperte.dev",
        "*.aperte.dev !secret.aperte.dev"
    ));
}

#[test]
fn parses_identity_file_for_matching_host() {
    let config = "\
# a comment
Host github.com
    IdentityFile ~/.ssh/github_key

Host git.aperte.dev
    User git
    IdentityFile ~/.ssh/gitea_selfref
";
    assert_eq!(
        parse_identity_files(config, "git.aperte.dev"),
        vec!["~/.ssh/gitea_selfref"]
    );
    assert_eq!(
        parse_identity_files(config, "github.com"),
        vec!["~/.ssh/github_key"]
    );
    // A host with no matching block gets nothing.
    assert!(parse_identity_files(config, "unknown.example.com").is_empty());
}

#[test]
fn parses_wildcard_and_multiple_identity_files() {
    let config = "\
Host *.aperte.dev
    IdentityFile ~/.ssh/aperte_a
    IdentityFile ~/.ssh/aperte_b
";
    assert_eq!(
        parse_identity_files(config, "git.aperte.dev"),
        vec!["~/.ssh/aperte_a", "~/.ssh/aperte_b"]
    );
}

#[test]
fn parses_equals_separator_and_global_options() {
    // Options before the first `Host` apply to every host; `=` is a valid
    // separator.
    let config = "\
IdentityFile=~/.ssh/global_key

Host git.aperte.dev
    IdentityFile = ~/.ssh/host_key
";
    assert_eq!(
        parse_identity_files(config, "git.aperte.dev"),
        vec!["~/.ssh/global_key", "~/.ssh/host_key"]
    );
    assert_eq!(
        parse_identity_files(config, "other.example.com"),
        vec!["~/.ssh/global_key"]
    );
}

#[test]
fn keyword_matching_is_case_insensitive() {
    let config = "\
host git.aperte.dev
    identityfile ~/.ssh/gitea_selfref
";
    assert_eq!(
        parse_identity_files(config, "git.aperte.dev"),
        vec!["~/.ssh/gitea_selfref"]
    );
}

#[test]
fn stars_backtrack() {
    assert!(glob_match("*a*b", "xaxaxb"));
    assert!(!glob_match("*a*b", "xaxax"));
    assert!(glob_match("**", ""));
    assert!(!glob_match("?", ""));
    assert!(glob_match("a*", "a*b"));
    // A `*` in the text is an ordinary character.
    assert!(glob_match("*x", "*yx"));
}

#[test]
fn ports_and_users_are_stripped_from_hosts() {
    assert_eq!(ssh_host_from_url("host:repo").as_deref(), Some("host"));
    assert_eq!(ssh_host_from_url(":repo"), None);
    assert_eq!(ssh_host_from_url("./a:b"), None);
    assert_eq!(
        ssh_host_from_url("ssh://a@b@host:22/x").as_deref(),
        Some("host")
    );
    assert_eq!(
        ssh_host_from_url("ssh://fe80::1/x").as_deref(),
        Some("fe80:")
    );
    assert_eq!(
        ssh_host_from_url("ssh://host:name/x").as_deref(),
        Some("host:name")
    );
}

#[test]
fn a_negated_pattern_wins_wherever_it_stands() {
    assert!(!host_matches("a", "!a a"));
    assert!(!host_matches("a", "a !a *"));
    assert!(!host_matches("a", ""));
    assert!(host_matches("A", "a"));
}

#[test]
fn keys_are_found_under_the_home_directory() {
    assert_eq!(home_path("/abs/key"), "/abs/key");
    assert_ne!(home_path("~/.ssh/key"), "~/.ssh/key");
    let files = config_identity_files("IdentityFile /k1 /k2\nHost b\nIdentityFile /k3\n", "a");
    assert_eq!(files, vec!["/k1", "/k2"]);
    let defaults = default_identity_files();
    assert_eq!(defaults.len(), 6);
    assert!(defaults[0].ends_with("/.ssh/id_ed25519"));
    assert!(defaults[5].ends_with("/.ssh/id_dsa"));
    assert!(!defaults[0].starts_with('~'));
}

#[test]
fn credentials_are_ordered_and_not_repeated() {
    let configured = vec!["/a".to_string(), "/b".to_string(), "/a".to_string()];
    let defaults = vec!["/b".to_string(), "/c".to_string()];
    let creds = ssh_credentials(
        Some("/a".to_string()),
        Some("KEY".to_string()),
        true,
        &configured,
        &defaults,
    );
    assert_eq!(
        format!("{creds:?}"),
        r#"[KeyFile("/a"), KeyInline("KEY"), KeyFile("/b"), Agent, KeyFile("/c")]"#
    );
    // Only explicit keys count where the URL is not SSH.
    let creds = ssh_credentials(Some("/a".to_string()), None, false, &configured, &defaults);
    assert_eq!(format!("{creds:?}"), r#"[KeyFile("/a")]"#);
}

#[test]
fn every_candidate_gets_one_turn() {
    let keys = Accepted {
        username: false,
        ssh_key: true,
        user_pass: true,
    };
    let creds = vec![
        SshCred::KeyFile("/k".to_string()),
        SshCred::KeyInline("K".to_string()),
        SshCred::Agent,
    ];
    let (first, tried) = offer(keys, Some("me"), &creds, 0, None, Some("pw"));
    assert!(matches!(first, Offer::KeyFile(u, p) if u == "me" && p == "/k"));
    let (second, tried) = offer(keys, None, &creds, tried, None, None);
    assert!(matches!(second, Offer::KeyInline(u, k) if u == "git" && k == "K"));
    let (third, tried) = offer(keys, None, &creds, tried, None, None);
    assert!(matches!(third, Offer::Agent(_)));
    let (last, tried) = offer(keys, None, &creds, tried, None, None);
    assert!(matches!(last, Offer::Exhausted));
    assert_eq!(tried, 3);
    // Without candidates the agent is asked.
    let none: Vec<SshCred> = Vec::new();
    assert!(matches!(offer(keys, None, &none, 0, None, None).0, Offer::Agent(_)));
}

#[test]
fn names_and_passwords_are_offered_where_they_are_asked_for() {
    let none: Vec<SshCred> = Vec::new();
    let name = Accepted {
        username: true,
        ssh_key: true,
        user_pass: true,
    };
    assert!(matches!(offer(name, None, &none, 0, Some("u"), Some("p")).0, Offer::Username(u) if u == "git"));
    let password = Accepted {
        username: false,
        ssh_key: false,
        user_pass: true,
    };
    assert!(matches!(offer(password, None, &none, 0, Some("u"), Some("p")).0, Offer::UserPass(u, p) if u == "u" && p == "p"));
    assert!(matches!(offer(password, None, &none, 0, None, Some("p")).0, Offer::UserPass(u, _) if u.is_empty()));
    assert!(matches!(offer(password, None, &none, 0, Some("u"), None).0, Offer::Default));
}

#[test]
fn clones_live_in_the_state_directory() {
    assert_eq!(repo_dir("/state", "my repo/1"), "/state/git/my_repo_1");
    assert_eq!(group_dir("/state", "r", "a//b"), "/state/git/r/a/b");
    let remote = Remote {
        id: "r".to_string(),
        label: None,
        backend: RemoteKind::Git,
        url: "git@host:x".to_string(),
        username: Some("me".to_string()),
        password: None,
        password_command: None,
        identity_file: None,
        identity_file_command: None,
        branch: Some("dev".to_string()),
        commit_msg_command: Some("date".to_string()),
        pull_interval: None,
        empty_dirs: None,
        max_file_size: None,
    };
    let sync = Sync {
        id: None,
        label: None,
        remote: "r".to_string(),
        remote_fs: None,
        local: "/l".to_string(),
        remote_path: "cfg".to_string(),
        includes: vec![],
        scope: Scope::Mirror,
        trigger: Trigger::Manual,
        interval: None,
        debounce: None,
        pull_interval: None,
        empty_dirs: None,
        deletions: None,
        max_file_size: None,
        profiles: default_profiles(),
        exclude: vec![],
    };
    let git = GitBackend::new(&remote, &sync, "/state", Some("pw".to_string()), Vec::new());
    assert_eq!(git.repo_dir, "/state/git/r");
    assert_eq!(git.url, "git@host:x");
    assert_eq!(git.branch.as_deref(), Some("dev"));
    assert_eq!(git.username.as_deref(), Some("me"));
    assert_eq!(git.password.as_deref(), Some("pw"));
    assert_eq!(git.commit_msg_command.as_deref(), Some("date"));
    let file = RelPath::from_relative("d/f").unwrap();
    assert_eq!(git.full(&file), "/state/git/r/cfg/d/f");
}

#[test]
fn branches_and_refs() {
    assert_eq!(branch_name(Some("dev"), Some("trunk")), "dev");
    assert_eq!(branch_name(None, Some("trunk")), "trunk");
    assert_eq!(branch_name(None, None), "main");
    assert_eq!(fetched_ref("main"), "refs/remotes/origin/main");
    assert_eq!(push_refspec("main"), "refs/heads/main:refs/heads/main");
    assert!(needs_commit(None, "t"));
    assert!(needs_commit(Some("s"), "t"));
    assert!(!needs_commit(Some("t"), "t"));
    assert_eq!(commit_mtime(3), Some(3_000_000_000));
    assert_eq!(commit_mtime(-1), None);
}

#[test]
fn commits_have_a_message() {
    assert_eq!(default_commit_message(Some("box")), "conflux sync from box");
    assert_eq!(default_commit_message(None), "conflux sync");
    assert_eq!(commit_message(None, Some("box")), "conflux sync from box");
    assert_eq!(commit_message(Some("custom: hello"), Some("box")), "custom: hello");
    // A git commit message must not be empty.
    assert_eq!(commit_message(Some(""), Some("box")), "conflux sync from box");
    let output = CommandOutput {
        success: true,
        status: "exit status: 0".to_string(),
        stdout: "custom: hello\r\n\n".to_string(),
        stderr: String::new(),
    };
    let text = command_text("commit_msg_command", &output).unwrap();
    assert_eq!(commit_message(Some(&text), Some("box")), "custom: hello");
    assert_eq!(name_bytes(b"box\0junk"), b"box".to_vec());
    assert_eq!(name_bytes(b"box"), b"box".to_vec());
}

#[test]
fn git_failures_name_the_operation() {
    assert!(matches!(git_error("fetch", "no route"), Error::Backend(e) if e == "git fetch failed: no route"));
    assert!(matches!(missing_identity("r", "/k"), Error::Validation(e) if e == "remote 'r': identity_file not found: /k"));
}
