//! The git backend's decisions: where the clone lives, which credential to offer,
//! which branch to use, and what to write into a commit.

use crate::backend::{path_under, under};
use crate::config::{Remote, Sync};
use crate::error::Error;
use crate::relpath::{join_path, joined, RelPath};
use crate::ssh::{cred_views, CredView, SshCred};
use crate::text::{cat, cat4, chars_of, safe_name, same, sanitize};
use vstd::prelude::*;

verus! {

/// Where the clone of a remote lives.
pub open spec fn clone_dir(state_dir: Seq<char>, remote_id: Seq<char>) -> Seq<char> {
    joined(joined(state_dir, "git"@), safe_name(remote_id))
}

/// Where the clone of a remote lives: `<state_dir>/git/<remote-name>`.
pub fn repo_dir(state_dir: &str, remote_id: &str) -> (out: String)
    ensures
        out@ == clone_dir(state_dir@, remote_id@),
{
    let dir = join_path(state_dir, "git");
    let name = sanitize(remote_id);
    join_path(dir.as_str(), name.as_str())
}

/// The directory of a group in the clone of its remote.
pub fn group_dir(state_dir: &str, remote_id: &str, remote_path: &str) -> (out: String)
    ensures
        out@ == under(clone_dir(state_dir@, remote_id@), remote_path@),
{
    let dir = repo_dir(state_dir, remote_id);
    path_under(dir.as_str(), remote_path)
}

/// The branch to use: the configured one, else that of the clone's head, else
/// `main`.
pub fn branch_name(configured: Option<&str>, head: Option<&str>) -> (out: String)
    ensures
        out@ == (match (configured, head) {
            (Some(b), _) => b@,
            (None, Some(h)) => h@,
            (None, None) => "main"@,
        }),
{
    match (configured, head) {
        (Some(b), _) => b.to_string(),
        (None, Some(h)) => h.to_string(),
        (None, None) => "main".to_string(),
    }
}

/// The name of a branch as it was fetched.
pub fn fetched_ref(branch: &str) -> (out: String)
    ensures
        out@ == "refs/remotes/origin/"@ + branch@,
{
    cat("refs/remotes/origin/", branch)
}

/// What is pushed: a branch to the branch of the same name.
pub fn push_refspec(branch: &str) -> (out: String)
    ensures
        out@ == "refs/heads/"@ + branch@ + ":refs/heads/"@ + branch@,
{
    cat4("refs/heads/", branch, ":refs/heads/", branch)
}

/// The modification time of every file of a clone, in nanoseconds since the
/// epoch: the time of its head commit, unless that is before the epoch.
pub fn commit_mtime(seconds: i64) -> (out: Option<i128>)
    ensures
        match out {
            Some(t) => seconds >= 0 && t == seconds * 1_000_000_000,
            None => seconds < 0,
        },
{
    if seconds < 0 {
        None
    } else {
        Some(seconds as i128 * 1_000_000_000)
    }
}

/// Whether a batch of writes is to be committed and pushed: the tree differs from
/// that of the head commit, or there is no commit yet.
pub fn needs_commit(head_tree: Option<&str>, tree: &str) -> (out: bool)
    ensures
        out == (match head_tree {
            Some(t) => t@ != tree@,
            None => true,
        }),
{
    match head_tree {
        Some(t) => !same(t, tree),
        None => true,
    }
}

/// The error of a git operation.
pub fn git_error(op: &str, cause: &str) -> (out: Error)
    ensures
        out matches Error::Backend(e) && e@ == "git "@ + op@ + " failed: "@ + cause@,
{
    Error::Backend(cat4("git ", op, " failed: ", cause))
}

/// The error of a remote whose `identity_file` is not there.
pub fn missing_identity(remote_id: &str, path: &str) -> (out: Error)
    ensures
        out matches Error::Validation(e) && e@ == "remote '"@ + remote_id@
            + "': identity_file not found: "@ + path@,
{
    Error::Validation(cat4("remote '", remote_id, "': identity_file not found: ", path))
}

/// A git-backed remote. The clone lives at `<state_dir>/git/<remote-name>`.
#[derive(Debug)]
pub struct GitBackend {
    /// The clone.
    pub repo_dir: String,
    /// The directory of the group in the clone.
    pub base: String,
    /// Where to clone from.
    pub url: String,
    /// The configured branch.
    pub branch: Option<String>,
    /// The configured user.
    pub username: Option<String>,
    /// The password.
    pub password: Option<String>,
    /// The command that yields the commit message.
    pub commit_msg_command: Option<String>,
    /// SSH credentials to try, in order, for this remote's host.
    pub ssh_creds: Vec<SshCred>,
}

fn clone_text(s: &Option<String>) -> (out: Option<String>)
    ensures
        out == *s,
{
    match s {
        Some(t) => Some(t.clone()),
        None => None,
    }
}

impl GitBackend {
    /// Build the backend with the credentials that were resolved for it.
    pub fn new(
        remote: &Remote,
        sync: &Sync,
        state_dir: &str,
        password: Option<String>,
        ssh_creds: Vec<SshCred>,
    ) -> (out: GitBackend)
        ensures
            out.repo_dir@ == clone_dir(state_dir@, remote.id@),
            out.base@ == under(clone_dir(state_dir@, remote.id@), sync.remote_path@),
            out.url == remote.url,
            out.branch == remote.branch,
            out.username == remote.username,
            out.password == password,
            out.commit_msg_command == remote.commit_msg_command,
            out.ssh_creds == ssh_creds,
    {
        GitBackend {
            repo_dir: repo_dir(state_dir, remote.id.as_str()),
            base: group_dir(state_dir, remote.id.as_str(), sync.remote_path.as_str()),
            url: remote.url.clone(),
            branch: clone_text(&remote.branch),
            username: clone_text(&remote.username),
            password,
            commit_msg_command: clone_text(&remote.commit_msg_command),
            ssh_creds,
        }
    }

    /// Where a file of the group is.
    pub fn full(&self, path: &RelPath) -> (out: String)
        ensures
            out@ == joined(self.base@, path@),
    {
        path.to_local(self.base.as_str())
    }
}

// ---------------------------------------------------------------------------
// Commit messages
// ---------------------------------------------------------------------------

/// The part of a buffer before its first zero byte.
pub open spec fn before_nul(bytes: Seq<u8>) -> Seq<u8>
    decreases bytes.len(),
{
    if bytes.len() == 0 || bytes[0] == 0 {
        seq![]
    } else {
        seq![bytes[0]] + before_nul(bytes.skip(1))
    }
}

/// The part of a buffer before its first zero byte: the host name in what the
/// system call filled in.
pub fn name_bytes(bytes: &[u8]) -> (out: Vec<u8>)
    ensures
        out@ == before_nul(bytes@),
{
    let mut out: Vec<u8> = Vec::new();
    let mut i: usize = 0;
    assert(bytes@.skip(0) =~= bytes@);
    assert(out@ + before_nul(bytes@) =~= before_nul(bytes@));
    while i < bytes.len() && bytes[i] != 0
        invariant
            i <= bytes@.len(),
            out@ + before_nul(bytes@.skip(i as int)) == before_nul(bytes@),
        decreases bytes.len() - i,
    {
        let ghost rest = bytes@.skip(i as int);
        assert(rest[0] == bytes@[i as int]);
        assert(rest.skip(1) =~= bytes@.skip(i + 1));
        assert(out@ + before_nul(rest) =~= out@.push(rest[0]) + before_nul(rest.skip(1)));
        out.push(bytes[i]);
        i = i + 1;
    }
    assert(before_nul(bytes@.skip(i as int)) =~= Seq::<u8>::empty());
    assert(out@ + Seq::<u8>::empty() =~= out@);
    out
}

/// The default commit message, tagged with this host so a shared repo shows which
/// machine pushed.
pub open spec fn default_message(host: Option<Seq<char>>) -> Seq<char> {
    match host {
        Some(h) => if h.len() > 0 {
            "conflux sync from "@ + h
        } else {
            "conflux sync"@
        },
        None => "conflux sync"@,
    }
}

/// Default commit message, tagged with this host so a shared repo shows which
/// machine pushed. Falls back to a plain message if the hostname is unavailable.
pub fn default_commit_message(host: Option<&str>) -> (out: String)
    ensures
        out@ == default_message(crate::decide::str_opt(host)),
{
    match host {
        Some(h) => {
            let v = chars_of(h);
            if v.len() > 0 {
                cat("conflux sync from ", h)
            } else {
                "conflux sync".to_string()
            }
        },
        None => "conflux sync".to_string(),
    }
}

/// The commit message: what `commit_msg_command` yielded (without line ends at the
/// end), else the default. A commit message must not be empty, so the default
/// also stands in for an empty one.
pub fn commit_message(yielded: Option<&str>, host: Option<&str>) -> (out: String)
    ensures
        out@ == (match yielded {
            Some(text) => if text@.len() > 0 {
                text@
            } else {
                default_message(crate::decide::str_opt(host))
            },
            None => default_message(crate::decide::str_opt(host)),
        }),
{
    match yielded {
        Some(text) => {
            let v = chars_of(text);
            if v.len() > 0 {
                text.to_string()
            } else {
                default_commit_message(host)
            }
        },
        None => default_commit_message(host),
    }
}

// ---------------------------------------------------------------------------
// Credentials
// ---------------------------------------------------------------------------

/// The kinds of credential that the server accepts.
#[derive(Debug, Clone, Copy, PartialEq, Eq, Structural)]
pub struct Accepted {
    /// A user name alone.
    pub username: bool,
    /// An SSH key.
    pub ssh_key: bool,
    /// A user name and a password.
    pub user_pass: bool,
}

/// The credential to offer.
#[derive(Debug)]
pub enum Offer {
    /// The user name alone.
    Username(String),
    /// A key of the agent, for the given user.
    Agent(String),
    /// A key file, for the given user.
    KeyFile(String, String),
    /// A key in memory, for the given user.
    KeyInline(String, String),
    /// A user name and a password.
    UserPass(String, String),
    /// The default credential.
    Default,
    /// Every candidate has been tried.
    Exhausted,
}

/// What [`Offer`] says.
pub enum OfferView {
    /// The user name alone.
    Username(Seq<char>),
    /// A key of the agent, for the given user.
    Agent(Seq<char>),
    /// A key file, for the given user.
    KeyFile(Seq<char>, Seq<char>),
    /// A key in memory, for the given user.
    KeyInline(Seq<char>, Seq<char>),
    /// A user name and a password.
    UserPass(Seq<char>, Seq<char>),
    /// The default credential.
    Default,
    /// Every candidate has been tried.
    Exhausted,
}

impl View for Offer {
    type V = OfferView;

    open spec fn view(&self) -> OfferView {
        match self {
            Offer::Username(u) => OfferView::Username(u@),
            Offer::Agent(u) => OfferView::Agent(u@),
            Offer::KeyFile(u, p) => OfferView::KeyFile(u@, p@),
            Offer::KeyInline(u, k) => OfferView::KeyInline(u@, k@),
            Offer::UserPass(u, p) => OfferView::UserPass(u@, p@),
            Offer::Default => OfferView::Default,
            Offer::Exhausted => OfferView::Exhausted,
        }
    }
}

/// The user of an SSH remote: the one in its URL, else `git`.
pub open spec fn ssh_user(in_url: Option<Seq<char>>) -> Seq<char> {
    match in_url {
        Some(u) => u,
        None => "git"@,
    }
}

/// The candidates that are walked: the agent alone where there are none.
pub open spec fn walked(creds: Seq<CredView>) -> Seq<CredView> {
    if creds.len() == 0 {
        seq![CredView::Agent]
    } else {
        creds
    }
}

/// The credential to offer, and how many SSH candidates have been tried then. A
/// server that asks for the user name gets it; one that takes SSH keys gets the
/// next candidate; one that takes passwords gets the password, if there is one.
pub open spec fn offered(
    accepted: Accepted,
    in_url: Option<Seq<char>>,
    creds: Seq<CredView>,
    tried: int,
    username: Option<Seq<char>>,
    password: Option<Seq<char>>,
) -> (OfferView, int) {
    let user = ssh_user(in_url);
    if accepted.username {
        (OfferView::Username(user), tried)
    } else if accepted.ssh_key {
        let offer = if tried < walked(creds).len() {
            match walked(creds)[tried] {
                CredView::Agent => OfferView::Agent(user),
                CredView::KeyFile(p) => OfferView::KeyFile(user, p),
                CredView::KeyInline(k) => OfferView::KeyInline(user, k),
            }
        } else {
            OfferView::Exhausted
        };
        (offer, if tried < walked(creds).len() {
            tried + 1
        } else {
            tried
        })
    } else if accepted.user_pass && password is Some {
        (
            OfferView::UserPass(
                match username {
                    Some(u) => u,
                    None => ""@,
                },
                password.unwrap(),
            ),
            tried,
        )
    } else {
        (OfferView::Default, tried)
    }
}

/// Decides which credential to offer. The transport asks again until one is
/// accepted, so the SSH candidates are walked one per call instead of retrying
/// the same one forever.
pub fn offer(
    accepted: Accepted,
    in_url: Option<&str>,
    creds: &Vec<SshCred>,
    tried: usize,
    username: Option<&str>,
    password: Option<&str>,
) -> (out: (Offer, usize))
    ensures
        ({
            let expected = offered(
                accepted,
                crate::decide::str_opt(in_url),
                cred_views(creds@),
                tried as int,
                crate::decide::str_opt(username),
                crate::decide::str_opt(password),
            );
            out.0@ == expected.0 && out.1 == expected.1
        }),
{
    let user = match in_url {
        Some(u) => u.to_string(),
        None => "git".to_string(),
    };
    let ghost views = cred_views(creds@);
    assert(views.len() == creds@.len());
    if accepted.username {
        return (Offer::Username(user), tried);
    }
    if accepted.ssh_key {
        if creds.len() == 0 {
            if tried == 0 {
                return (Offer::Agent(user), 1);
            }
            return (Offer::Exhausted, tried);
        }
        if tried >= creds.len() {
            return (Offer::Exhausted, tried);
        }
        let next: usize = tried + 1;
        assert(views[tried as int] == creds@[tried as int]@);
        return match &creds[tried] {
            SshCred::Agent => (Offer::Agent(user), next),
            SshCred::KeyFile(p) => (Offer::KeyFile(user, p.clone()), next),
            SshCred::KeyInline(k) => (Offer::KeyInline(user, k.clone()), next),
        };
    }
    if accepted.user_pass {
        if let Some(p) = password {
            let name = match username {
                Some(u) => u.to_string(),
                None => "".to_string(),
            };
            return (Offer::UserPass(name, p.to_string()), tried);
        }
    }
    (Offer::Default, tried)
}

/// A server that only takes SSH keys is offered every candidate once, in order,
/// and then no more.
pub proof fn law_every_candidate_is_offered_once(
    in_url: Option<Seq<char>>,
    creds: Seq<CredView>,
    tried: int,
    username: Option<Seq<char>>,
    password: Option<Seq<char>>,
)
    requires
        0 <= tried,
    ensures
        ({
            let keys = Accepted { username: false, ssh_key: true, user_pass: false };
            let (offer, then) = offered(keys, in_url, creds, tried, username, password);
            &&& (offer == OfferView::Exhausted) == (tried >= walked(creds).len())
            &&& tried < walked(creds).len() ==> then == tried + 1
            &&& tried >= walked(creds).len() ==> then == tried
        }),
{
}

/// What is offered is what the server accepts. A key is the candidate whose turn it is; a
/// password is offered with the configured user name, and only if there is one; the user
/// of a key is the one of the URL, else `git`.
pub proof fn law_offers_are_accepted(
    accepted: Accepted,
    in_url: Option<Seq<char>>,
    creds: Seq<CredView>,
    tried: int,
    username: Option<Seq<char>>,
    password: Option<Seq<char>>,
)
    requires
        0 <= tried,
        creds.len() > 0,
    ensures
        ({
            let (offer, then) = offered(accepted, in_url, creds, tried, username, password);
            let user = match in_url {
                Some(u) => u,
                None => "git"@,
            };
            &&& accepted.username ==> offer == OfferView::Username(user) && then == tried
            &&& !accepted.username && accepted.ssh_key ==> {
                &&& tried >= creds.len() ==> offer == OfferView::Exhausted && then == tried
                &&& tried < creds.len() ==> then == tried + 1
                &&& tried < creds.len() && creds[tried] == CredView::Agent ==> offer
                    == OfferView::Agent(user)
                &&& tried < creds.len() ==> (creds[tried] matches CredView::KeyFile(p) ==> offer
                    == OfferView::KeyFile(user, p))
                &&& tried < creds.len() ==> (creds[tried] matches CredView::KeyInline(k) ==> offer
                    == OfferView::KeyInline(user, k))
            }
            &&& !accepted.username && !accepted.ssh_key ==> {
                &&& then == tried
                &&& accepted.user_pass && password is Some && username is Some ==> offer
                    == OfferView::UserPass(username.unwrap(), password.unwrap())
                &&& !accepted.user_pass || password is None ==> offer == OfferView::Default
                &&& offer is UserPass <==> accepted.user_pass && password is Some
            }
        }),
{
}

/// Without candidates the agent is asked, once.
pub proof fn law_agent_is_the_last_resort(in_url: Option<Seq<char>>, tried: int)
    requires
        0 <= tried,
    ensures
        ({
            let keys = Accepted { username: false, ssh_key: true, user_pass: false };
            let (offer, then) = offered(keys, in_url, seq![], tried, None, None);
            &&& tried == 0 ==> offer is Agent && then == 1
            &&& tried > 0 ==> offer is Exhausted && then == tried
        }),
{
}

/// A name ends at its first zero byte, and is whole without one.
pub proof fn law_names_end_at_the_zero_byte(name: Seq<u8>, rest: Seq<u8>)
    requires
        forall|i: int| 0 <= i < name.len() ==> #[trigger] name[i] != 0,
    ensures
        before_nul(name) == name,
        before_nul(name + seq![0u8] + rest) == name,
    decreases name.len(),
{
    let all = name + seq![0u8] + rest;
    if name.len() > 0 {
        assert(name[0] != 0);
        assert(all[0] == name[0]);
        let less = name.skip(1);
        assert forall|i: int| 0 <= i < less.len() implies #[trigger] less[i] != 0 by {
            assert(name[i + 1] != 0);
        }
        law_names_end_at_the_zero_byte(less, rest);
        assert(all.skip(1) =~= less + seq![0u8] + rest);
        assert(seq![name[0]] + less =~= name);
    } else {
        assert(all[0] == 0);
        assert(name =~= Seq::<u8>::empty());
    }
}

/// The clone of a remote lies in the state directory, apart from those of other remotes
/// whose ids differ in a letter or digit.
pub proof fn law_clones_lie_in_the_state_directory(state: Seq<char>, id: Seq<char>)
    requires
        state.len() > 0,
        state.last() != '/',
        id.len() > 0,
    ensures
        clone_dir(state, id) == state + seq!['/', 'g', 'i', 't', '/'] + safe_name(id),
{
    reveal_strlit("git");
    let safe = safe_name(id);
    assert(safe[0] != '/');
    assert(joined(state, "git"@) =~= state + seq!['/', 'g', 'i', 't']);
    assert(clone_dir(state, id) =~= state + seq!['/', 'g', 'i', 't', '/'] + safe);
}

/// The message of a commit without a command for it names the host, where it is known.
pub proof fn law_default_message_names_the_host(host: Seq<char>)
    ensures
        host.len() > 0 ==> default_message(Some(host)) == "conflux sync from "@ + host,
        host.len() == 0 ==> default_message(Some(host)) == default_message(None),
{
}

/// The branch is the one that is configured, else the one that the remote has checked out,
/// else `main`.
pub proof fn law_branch_to_sync(configured: Option<&str>, head: Option<&str>, out: String)
    requires
        call_ensures(branch_name, (configured, head), out),
    ensures
        configured matches Some(b) ==> out@ == b@,
        configured is None ==> (head matches Some(h) ==> out@ == h@),
        configured is None && head is None ==> out@ == "main"@,
{
}

/// Nothing is committed where the tree is that of the last commit; anything else is.
pub proof fn law_changes_are_committed(head: Option<&str>, tree: &str, out: bool)
    requires
        call_ensures(needs_commit, (head, tree), out),
    ensures
        !out <==> (head matches Some(t) && t@ == tree@),
{
}

/// The message of a commit is what the command for it yields, unless that is nothing.
pub proof fn law_message_of_a_commit(
    yielded: Option<&str>,
    host: Option<&str>,
    out: String,
    none: String,
)
    requires
        call_ensures(commit_message, (yielded, host), out),
        call_ensures(default_commit_message, (host,), none),
    ensures
        yielded matches Some(t) ==> (t@.len() > 0 ==> out@ == t@) && (t@.len() == 0 ==> out@
            == none@),
        yielded is None ==> out@ == none@,
{
}

/// The modification time of a file in a commit is the time of the commit, in nanoseconds;
/// the order of commits is kept.
pub proof fn law_times_of_commits(a: i64, b: i64, x: Option<i128>, y: Option<i128>)
    requires
        call_ensures(commit_mtime, (a,), x),
        call_ensures(commit_mtime, (b,), y),
        0 <= a < b,
    ensures
        x is Some && y is Some,
        y.unwrap() - x.unwrap() == (b - a) * 1_000_000_000,
        a == 0 ==> x == Some(0i128),
{
}

} // verus!
