//! Filesystem path resolution for user vs system deployment modes.

use crate::decide::str_opt;
use crate::error::Error;
use crate::relpath::{join_path, joined};
use crate::text::{cat3, chars_of, same, text_opt};
use vstd::prelude::*;

verus! {

/// Whether conflux runs per-user or system-wide.
#[derive(Debug, Clone, Copy, PartialEq, Eq, Structural)]
pub enum RunMode {
    /// Per-user (`systemd --user`), rooted in `$XDG_*` / `$HOME`.
    User,
    /// System-wide, rooted in `/etc`, `/var/lib`, `/run`.
    System,
}

impl RunMode {
    /// Pick a mode: `--system` forces system; otherwise root (uid 0) implies system.
    pub fn detect(force_system: bool, is_root: bool) -> (out: Self)
        ensures
            out == (if force_system || is_root {
                RunMode::System
            } else {
                RunMode::User
            }),
    {
        if force_system || is_root {
            RunMode::System
        } else {
            RunMode::User
        }
    }
}

/// Resolved locations for the config file, state dir, and control socket.
#[derive(Debug)]
pub struct Paths {
    /// Path to the TOML config file.
    pub config: String,
    /// Directory holding per-group index/state.
    pub state: String,
    /// Unix domain socket used for CLI <-> daemon IPC.
    pub socket: String,
}

/// What [`Paths`] says.
pub struct PathsView {
    /// Path to the config file.
    pub config: Seq<char>,
    /// Directory holding per-group index/state.
    pub state: Seq<char>,
    /// The control socket.
    pub socket: Seq<char>,
}

impl View for Paths {
    type V = PathsView;

    open spec fn view(&self) -> PathsView {
        PathsView { config: self.config@, state: self.state@, socket: self.socket@ }
    }
}

/// The profile whose instance uses the un-suffixed base paths.
pub const DEFAULT_PROFILE: &'static str = "default";

/// The base directories of a user. A path that is not Unicode cannot be written as a
/// text; it is `None` within.
#[derive(Debug)]
pub struct HomeDirs {
    /// Where config files live.
    pub config: Option<String>,
    /// Where state lives, if the platform has such a place.
    pub state: Option<Option<String>>,
    /// Where sockets live, if the platform has such a place.
    pub runtime: Option<Option<String>>,
}

/// `directories::BaseDirs`: the base directories of the user that runs the
/// process, if there is a home directory. Which they are depends on the machine
/// and the environment.
#[verifier::external_body]
fn base_dirs() -> (out: Option<HomeDirs>) {
    let base = directories::BaseDirs::new()?;
    Some(HomeDirs {
        config: base.config_dir().to_str().map(|t| t.to_string()),
        state: base.state_dir().map(|d| d.to_str().map(|t| t.to_string())),
        runtime: base.runtime_dir().map(|d| d.to_str().map(|t| t.to_string())),
    })
}

/// Whether a profile has locations of its own.
pub open spec fn is_named(profile: Option<Seq<char>>) -> bool {
    profile matches Some(p) && p.len() > 0 && p != DEFAULT_PROFILE@
}

/// The name of the control socket of a profile.
pub open spec fn socket_name(profile: Option<Seq<char>>) -> Seq<char> {
    if is_named(profile) {
        "conflux-"@ + profile.unwrap() + ".sock"@
    } else {
        "conflux.sock"@
    }
}

/// The state directory of a profile.
pub open spec fn state_of(state: Seq<char>, profile: Option<Seq<char>>) -> Seq<char> {
    if is_named(profile) {
        joined(state, profile.unwrap())
    } else {
        state
    }
}

/// The locations for a config file, a state directory and a directory for the
/// socket: state and socket are namespaced by profile, the config file is not.
pub open spec fn namespaced(
    config: Seq<char>,
    state: Seq<char>,
    socket_dir: Seq<char>,
    profile: Option<Seq<char>>,
) -> PathsView {
    PathsView {
        config,
        state: state_of(state, profile),
        socket: joined(socket_dir, socket_name(profile)),
    }
}

/// The config file in a user's config directory.
pub open spec fn user_config(config_dir: Seq<char>) -> Seq<char> {
    joined(joined(config_dir, "conflux"@), "config.toml"@)
}

/// The locations of a system-wide instance; `config` overrides the config file.
pub open spec fn system_paths(profile: Option<Seq<char>>, config: Option<Seq<char>>) -> PathsView {
    namespaced(
        match config {
            Some(c) => c,
            None => "/etc/conflux/config.toml"@,
        },
        "/var/lib/conflux"@,
        "/run/conflux"@,
        profile,
    )
}

/// The locations of a user's instance in the given base directories; `config`
/// overrides the config file. The socket is in the runtime directory, or in the
/// state directory where there is none.
pub open spec fn user_paths(
    config_dir: Seq<char>,
    state_dir: Seq<char>,
    runtime_dir: Option<Seq<char>>,
    profile: Option<Seq<char>>,
    config: Option<Seq<char>>,
) -> PathsView {
    let state = joined(state_dir, "conflux"@);
    namespaced(
        match config {
            Some(c) => c,
            None => user_config(config_dir),
        },
        state,
        match runtime_dir {
            Some(d) => d,
            None => state,
        },
        profile,
    )
}

/// The locations for a config file, a state directory and a directory for the
/// socket.
fn namespace(config: String, state: String, socket_dir: &str, profile: Option<&str>) -> (out: Paths)
    ensures
        out@ == namespaced(config@, state@, socket_dir@, str_opt(profile)),
{
    // State goes in a per-profile subdirectory of the (systemd-owned) state
    // dir; the socket keeps the same directory with a profile-suffixed name.
    if let Some(p) = profile {
        let v = chars_of(p);
        if v.len() > 0 && !same(p, DEFAULT_PROFILE) {
            let name = cat3("conflux-", p, ".sock");
            return Paths {
                config,
                state: join_path(state.as_str(), p),
                socket: join_path(socket_dir, name.as_str()),
            };
        }
    }
    Paths { config, state, socket: join_path(socket_dir, "conflux.sock") }
}

/// The config path that overrides the default one: that of the command line, else
/// that of the environment.
pub fn chosen_config<'a>(argument: Option<&'a str>, variable: Option<&'a str>) -> (out: Option<
    &'a str,
>)
    ensures
        str_opt(out) == (if argument is Some {
            str_opt(argument)
        } else {
            str_opt(variable)
        }),
{
    match argument {
        Some(a) => Some(a),
        None => variable,
    }
}

/// The directory that is missing among the base directories of a user, or that cannot
/// be written as a text. Where the config file is given, no directory is needed for it.
pub open spec fn missing_dir(dirs: Option<HomeDirs>, has_config: bool) -> Option<Seq<char>> {
    match dirs {
        None => Some("home"@),
        Some(d) => match d.state {
            None => Some("state"@),
            Some(None) => Some("Unicode state"@),
            Some(Some(_)) => if d.config is None && !has_config {
                Some("Unicode config"@)
            } else if d.runtime == Some(None::<String>) {
                Some("Unicode runtime"@)
            } else {
                None
            },
        },
    }
}

/// A base directory as a text; empty where it cannot be written as one.
pub open spec fn dir_text(dir: Option<String>) -> Seq<char> {
    match dir {
        Some(d) => d@,
        None => ""@,
    }
}

/// Resolve paths for a user with the given base directories.
pub fn resolve_in(dirs: Option<HomeDirs>, profile: Option<&str>, config: Option<&str>) -> (out: Result<
    Paths,
    Error,
>)
    ensures
        match out {
            Ok(p) => missing_dir(dirs, config is Some) is None && p@ == user_paths(
                dir_text(dirs.unwrap().config),
                dir_text(dirs.unwrap().state.unwrap()),
                match dirs.unwrap().runtime {
                    Some(d) => Some(dir_text(d)),
                    None => None,
                },
                str_opt(profile),
                str_opt(config),
            ),
            Err(Error::MissingDir(d)) => missing_dir(dirs, config is Some) == Some(d@),
            Err(_) => false,
        },
{
    let base = match dirs {
        None => {
            return Err(Error::MissingDir("home".to_string()));
        },
        Some(base) => base,
    };
    let state_dir = match base.state {
        None => {
            return Err(Error::MissingDir("state".to_string()));
        },
        Some(None) => {
            return Err(Error::MissingDir("Unicode state".to_string()));
        },
        Some(Some(dir)) => dir,
    };
    let file = match (config, base.config) {
        (Some(c), _) => c.to_string(),
        (None, Some(config_dir)) => {
            let dir = join_path(config_dir.as_str(), "conflux");
            join_path(dir.as_str(), "config.toml")
        },
        (None, None) => {
            return Err(Error::MissingDir("Unicode config".to_string()));
        },
    };
    let state = join_path(state_dir.as_str(), "conflux");
    let socket_dir = match base.runtime {
        Some(Some(d)) => d,
        Some(None) => {
            return Err(Error::MissingDir("Unicode runtime".to_string()));
        },
        None => state.clone(),
    };
    Ok(namespace(file, state, socket_dir.as_str(), profile))
}

impl Paths {
    /// Resolve paths for the given mode and profile. `config` (from
    /// `$CONFLUX_CONFIG`) overrides the config path, which is always shared across
    /// profiles.
    ///
    /// The config file is never namespaced: one file can drive every profile.
    /// The state directory and control socket *are* namespaced by profile so
    /// several instances (`conflux@desktop`, `conflux@laptop`, …) can run on one
    /// host without colliding. The `"default"` profile keeps the base paths; any
    /// other profile is suffixed.
    ///
    /// For a user the base directories come from the machine, so all that is said
    /// of them is that the locations follow from some base directories.
    pub fn resolve(mode: RunMode, profile: Option<&str>, config: Option<&str>) -> (out: Result<
        Paths,
        Error,
    >)
        ensures
            mode == RunMode::System ==> out is Ok && out->Ok_0@ == system_paths(
                str_opt(profile),
                str_opt(config),
            ),
            mode == RunMode::User ==> match out {
                Ok(p) => exists|c: Seq<char>, s: Seq<char>, r: Option<Seq<char>>|
                    p@ == #[trigger] user_paths(c, s, r, str_opt(profile), str_opt(config)),
                Err(Error::MissingDir(d)) => exists|dirs: Option<HomeDirs>|
                    #[trigger] missing_dir(dirs, config is Some) == Some(d@),
                Err(_) => false,
            },
    {
        match mode {
            RunMode::System => {
                let file = match config {
                    Some(c) => c.to_string(),
                    None => "/etc/conflux/config.toml".to_string(),
                };
                Ok(namespace(file, "/var/lib/conflux".to_string(), "/run/conflux", profile))
            },
            RunMode::User => resolve_in(base_dirs(), profile, config),
        }
    }
}

// ---------------------------------------------------------------------------
// Laws
// ---------------------------------------------------------------------------

/// The default profile, an empty one and none at all share the base locations.
pub proof fn law_default_profile_uses_base_paths(
    config: Seq<char>,
    state: Seq<char>,
    socket_dir: Seq<char>,
)
    ensures
        namespaced(config, state, socket_dir, Some(DEFAULT_PROFILE@)) == namespaced(
            config,
            state,
            socket_dir,
            None,
        ),
        namespaced(config, state, socket_dir, Some(Seq::<char>::empty())) == namespaced(
            config,
            state,
            socket_dir,
            None,
        ),
{
}

/// The config file does not depend on the profile.
pub proof fn law_config_is_shared(
    config: Seq<char>,
    state: Seq<char>,
    socket_dir: Seq<char>,
    a: Option<Seq<char>>,
    b: Option<Seq<char>>,
)
    ensures
        namespaced(config, state, socket_dir, a).config == namespaced(
            config,
            state,
            socket_dir,
            b,
        ).config,
{
}

/// Distinct named profiles have distinct sockets, and distinct state directories
/// where no profile is called like an absolute path.
pub proof fn law_profiles_do_not_collide(
    config: Seq<char>,
    state: Seq<char>,
    socket_dir: Seq<char>,
    a: Seq<char>,
    b: Seq<char>,
)
    requires
        is_named(Some(a)),
        is_named(Some(b)),
        a != b,
        a[0] != '/',
        b[0] != '/',
    ensures
        namespaced(config, state, socket_dir, Some(a)).socket != namespaced(
            config,
            state,
            socket_dir,
            Some(b),
        ).socket,
        namespaced(config, state, socket_dir, Some(a)).state != namespaced(
            config,
            state,
            socket_dir,
            Some(b),
        ).state,
        namespaced(config, state, socket_dir, Some(a)).socket != namespaced(
            config,
            state,
            socket_dir,
            None,
        ).socket,
{
    reveal_strlit("conflux-");
    reveal_strlit(".sock");
    reveal_strlit("conflux.sock");
    let x = "conflux-"@ + a + ".sock"@;
    let y = "conflux-"@ + b + ".sock"@;
    if x == y {
        assert(x.subrange(8, x.len() - 5) =~= a);
        assert(y.subrange(8, y.len() - 5) =~= b);
    }
    assert(x[7] == '-');
    assert("conflux.sock"@[7] == '.');
    lemma_joined_injective(socket_dir, x, y);
    lemma_joined_injective(socket_dir, x, "conflux.sock"@);
    lemma_joined_injective(state, a, b);
}

/// Relative parts appended to a base differ where the parts differ.
proof fn lemma_joined_injective(base: Seq<char>, a: Seq<char>, b: Seq<char>)
    requires
        a != b,
        a.len() > 0,
        b.len() > 0,
        a[0] != '/',
        b[0] != '/',
    ensures
        joined(base, a) != joined(base, b),
{
    let n = if base.len() == 0 || base.last() == '/' {
        base.len() as int
    } else {
        base.len() as int + 1
    };
    assert(joined(base, a).skip(n) =~= a);
    assert(joined(base, b).skip(n) =~= b);
}

/// A config file that is given is the one used, in either mode and for every profile.
pub proof fn law_given_config_is_used(
    config_dir: Seq<char>,
    state_dir: Seq<char>,
    runtime_dir: Option<Seq<char>>,
    profile: Option<Seq<char>>,
    config: Seq<char>,
)
    ensures
        user_paths(config_dir, state_dir, runtime_dir, profile, Some(config)).config == config,
        system_paths(profile, Some(config)).config == config,
        system_paths(profile, None).config == "/etc/conflux/config.toml"@,
        user_paths(config_dir, state_dir, runtime_dir, profile, None).config == joined(
            joined(config_dir, "conflux"@),
            "config.toml"@,
        ),
{
}

/// What a user's daemon keeps lies under that user's state directory, and its socket in
/// the runtime directory, or beside the state where there is none.
pub proof fn law_user_paths_lie_in_the_user_directories(
    config_dir: Seq<char>,
    state_dir: Seq<char>,
    runtime_dir: Option<Seq<char>>,
    profile: Seq<char>,
    config: Option<Seq<char>>,
)
    requires
        profile.len() > 0,
        profile != "default"@,
    ensures
        ({
            let base = user_paths(config_dir, state_dir, runtime_dir, None, config);
            let own = user_paths(config_dir, state_dir, runtime_dir, Some(profile), config);
            let dir = match runtime_dir {
                Some(d) => d,
                None => base.state,
            };
            &&& base.state == joined(state_dir, "conflux"@)
            &&& own.state == joined(base.state, profile)
            &&& base.socket == joined(dir, "conflux.sock"@)
            &&& own.socket == joined(dir, "conflux-"@ + profile + ".sock"@)
            &&& own.config == base.config
        }),
{
}

/// Nothing is missing exactly where there is a home with a state directory, a config
/// directory or a given config file, and no runtime directory that cannot be written.
pub proof fn law_what_a_user_needs(dirs: HomeDirs, has_config: bool)
    ensures
        missing_dir(None, has_config) is Some,
        missing_dir(Some(dirs), has_config) is None <==> (dirs.state matches Some(s) && s is Some)
            && (dirs.config is Some || has_config) && !(dirs.runtime matches Some(r) && r is None),
{
}

/// The system's paths are used by root, and where they are asked for.
pub proof fn law_mode_of_a_run(force_system: bool, is_root: bool, out: RunMode)
    requires
        call_ensures(RunMode::detect, (force_system, is_root), out),
    ensures
        out == RunMode::System <==> force_system || is_root,
{
}

/// A config file of the command line comes before one of the environment.
pub proof fn law_command_line_comes_first(
    argument: Option<&str>,
    variable: Option<&str>,
    out: Option<&str>,
)
    requires
        call_ensures(chosen_config, (argument, variable), out),
    ensures
        argument matches Some(a) ==> (out matches Some(o) && o@ == a@),
        argument is None ==> (variable matches Some(v) ==> (out matches Some(o) && o@ == v@)),
        argument is None && variable is None ==> out is None,
{
}

} // verus!
