//! What the backends share: where a group lives under its remote, which files of
//! a tree are never synced, and how the output of a configured command is read.

use crate::config::{Remote, Sync};
use crate::error::Error;
use crate::hash::{blake3_hex, hash_bytes};
use crate::model::{RemoteMeta, RemoteView};
use crate::relpath::{components, components_of, is_name, is_rel, join_path, joined, path_opt, pieces, relative_to,
    RelPath};
use crate::text::{cat5, chars_of, same, split, split_at_char, string_of, text_opt, trim,
    trim_end, trimmed, trimmed_end, Class};
use vstd::prelude::*;

verus! {

/// A path with the non-empty segments of a list appended.
pub open spec fn with_segments(base: Seq<char>, parts: Seq<Seq<char>>) -> Seq<char>
    decreases parts.len(),
{
    if parts.len() == 0 {
        base
    } else {
        let front = with_segments(base, parts.drop_last());
        if parts.last().len() == 0 {
            front
        } else {
            joined(front, parts.last())
        }
    }
}

/// The directory of a remote path under a root.
pub open spec fn under(root: Seq<char>, remote_path: Seq<char>) -> Seq<char> {
    with_segments(root, split(remote_path, '/'))
}

/// The directory of a remote path under a root.
pub fn path_under(root: &str, remote_path: &str) -> (out: String)
    ensures
        out@ == under(root@, remote_path@),
{
    let v = chars_of(remote_path);
    let parts = split_at_char(v.as_slice(), '/');
    let ghost ps = pieces(parts@);
    let mut base = root.to_string();
    let mut i: usize = 0;
    assert(ps.take(0) =~= Seq::<Seq<char>>::empty());
    while i < parts.len()
        invariant
            i <= parts@.len(),
            ps == pieces(parts@),
            base@ == with_segments(root@, ps.take(i as int)),
        decreases parts.len() - i,
    {
        proof {
            assert(ps[i as int] == parts@[i as int]@);
            assert(ps.take(i + 1).drop_last() =~= ps.take(i as int));
            assert(ps.take(i + 1).last() == ps[i as int]);
        }
        if parts[i].len() > 0 {
            let part = string_of(parts[i].as_slice());
            base = join_path(base.as_str(), part.as_str());
        }
        i = i + 1;
    }
    assert(ps.take(ps.len() as int) =~= ps);
    base
}

/// The on-disk directory a local-backed group mirrors into:
/// `<remote.url>/<sync.remote_path>`. Also what the daemon watches for the
/// `watch-both` trigger.
pub fn base_path(remote: &Remote, sync: &Sync) -> (out: String)
    ensures
        out@ == under(remote.url@, sync.remote_path@),
{
    path_under(remote.url.as_str(), sync.remote_path.as_str())
}

/// Whether a path leads through a directory called `.git`, whose files are never
/// synced.
pub fn is_git_metadata(path: &str) -> (out: bool)
    ensures
        out == components(path@).contains(".git"@),
{
    let v = chars_of(path);
    let parts = components_of(v.as_slice());
    let ghost ps = pieces(parts@);
    let mut i: usize = 0;
    while i < parts.len()
        invariant
            i <= parts@.len(),
            ps == pieces(parts@),
            ps == components(path@),
            forall|j: int| 0 <= j < i ==> #[trigger] ps[j] != ".git"@,
        decreases parts.len() - i,
    {
        assert(ps[i as int] == parts@[i as int]@);
        let part = string_of(parts[i].as_slice());
        if same(part.as_str(), ".git") {
            return true;
        }
        i = i + 1;
    }
    assert(!ps.contains(".git"@)) by {
        if ps.contains(".git"@) {
            let j = ps.index_of(".git"@);
            assert(0 <= j < ps.len() && ps[j] == ".git"@);
        }
    }
    false
}

/// The path under which a file of a walked tree enters a snapshot, if it does: it
/// lies under `base`, and not in a git metadata directory.
pub fn snapshot_path(base: &str, path: &str) -> (out: Option<RelPath>)
    ensures
        path_opt(out) == (if components(path@).contains(".git"@) {
            None
        } else {
            relative_to(base@, path@)
        }),
{
    if is_git_metadata(path) {
        None
    } else {
        RelPath::from_base(base, path)
    }
}

/// What is known of a remote file with the given content: its change id is the
/// hash of its content.
pub fn content_meta(data: &[u8], mtime: Option<i128>) -> (out: RemoteMeta)
    ensures
        out@ == (RemoteView {
            id: blake3_hex(data@),
            mtime,
            size: data@.len() as int,
        }),
{
    let total: usize = data.len();
    RemoteMeta { id: hash_bytes(data), mtime, size: total as u64 }
}

/// Mirrors a group to `<remote.url>/<sync.remote_path>`.
#[derive(Debug)]
pub struct LocalBackend {
    /// The directory that the group is mirrored into.
    pub base: String,
}

impl LocalBackend {
    /// Build the backend; the base directory is the remote url joined with the
    /// group's remote path.
    pub fn new(remote: &Remote, sync: &Sync) -> (out: LocalBackend)
        ensures
            out.base@ == under(remote.url@, sync.remote_path@),
    {
        LocalBackend { base: base_path(remote, sync) }
    }

    /// Where a file of the group is.
    pub fn full(&self, path: &RelPath) -> (out: String)
        ensures
            out@ == joined(self.base@, path@),
    {
        path.to_local(self.base.as_str())
    }
}

/// What came of running a command.
#[derive(Debug)]
pub struct CommandOutput {
    /// Whether the command succeeded.
    pub success: bool,
    /// How the command ended.
    pub status: String,
    /// What it wrote to its standard output.
    pub stdout: String,
    /// What it wrote to its standard error.
    pub stderr: String,
}

/// What a command called `name` in the configuration yields: its output without
/// line ends at the end, or an error if it failed.
pub fn command_text(name: &str, output: &CommandOutput) -> (out: Result<String, Error>)
    ensures
        match out {
            Ok(text) => output.success && text@ == trim_end(output.stdout@, Class::LineEnd),
            Err(Error::Backend(e)) => !output.success && e@ == name@ + " exited with "@
                + output.status@ + ": "@ + trim(output.stderr@, Class::Space),
            Err(_) => false,
        },
{
    if !output.success {
        let err = chars_of(output.stderr.as_str());
        let err = string_of(trimmed(err.as_slice(), Class::Space).as_slice());
        return Err(
            Error::Backend(
                cat5(name, " exited with ", output.status.as_str(), ": ", err.as_str()),
            ),
        );
    }
    let text = chars_of(output.stdout.as_str());
    Ok(string_of(trimmed_end(text.as_slice(), Class::LineEnd).as_slice()))
}

/// The error of a command called `name` that could not be run.
pub fn command_not_run(name: &str, cause: &str) -> (out: Error)
    ensures
        out matches Error::Backend(e) && e@ == name@ + " failed to run: "@ + cause@,
{
    Error::Backend(crate::text::cat3(name, " failed to run: ", cause))
}

impl Remote {
    /// Resolve the password: what `password_command` yields if it is set (its
    /// output is given), else `password`.
    pub fn resolve_password(&self, output: Option<&CommandOutput>) -> (out: Result<
        Option<String>,
        Error,
    >)
        ensures
            match output {
                Some(o) => match out {
                    Ok(text) => o.success && text_opt(text) == Some(
                        trim_end(o.stdout@, Class::LineEnd),
                    ),
                    Err(Error::Backend(e)) => !o.success && e@ == "password_command"@
                        + " exited with "@ + o.status@ + ": "@ + trim(o.stderr@, Class::Space),
                    Err(_) => false,
                },
                None => out is Ok && text_opt(out->Ok_0) == text_opt(self.password),
            },
    {
        match output {
            Some(o) => match command_text("password_command", o) {
                Ok(text) => Ok(Some(text)),
                Err(e) => Err(e),
            },
            None => match &self.password {
                Some(p) => Ok(Some(p.clone())),
                None => Ok(None),
            },
        }
    }
}

/// A group lives under its remote at the remote path, and at the remote itself where that
/// path is empty. Slashes around the path make no difference.
pub proof fn law_group_lives_at_the_remote_path(root: Seq<char>, path: Seq<char>)
    requires
        root.len() > 0,
        root.last() != '/',
        is_rel(path),
    ensures
        under(root, path) == root + seq!['/'] + path,
        under(root, Seq::<char>::empty()) == root,
        under(root, path.push('/')) == under(root, path),
        under(root, seq!['/'] + path) == under(root, path),
{
    let parts = split(path, '/');
    let none = Seq::<char>::empty();
    crate::text::lemma_split(path, '/');
    lemma_segments(root, parts, parts.len() as int);
    assert(parts.take(parts.len() as int) =~= parts);
    crate::text::lemma_first_index(none, '/');
    assert(split(none, '/') =~= seq![none]);
    assert(seq![none].drop_last() =~= Seq::<Seq<char>>::empty());
    assert(with_segments(root, seq![none].drop_last()) == root);
    assert forall|i: int| 0 <= i < parts.len() implies !(#[trigger] parts[i]).contains('/') by {}
    let longer = parts.push(none);
    crate::text::lemma_join_push(parts, none, '/');
    assert(crate::text::join(longer, '/') =~= path.push('/'));
    assert forall|i: int| 0 <= i < longer.len() implies !(#[trigger] longer[i]).contains('/') by {
        if i < parts.len() {
            assert(longer[i] == parts[i]);
        }
    }
    crate::text::lemma_split_join(longer, '/');
    assert(longer.drop_last() =~= parts);
    let later = seq![none] + parts;
    crate::text::lemma_first_index_is(seq!['/'] + path, '/', 0);
    assert((seq!['/'] + path).take(0) =~= none);
    assert((seq!['/'] + path).skip(1) =~= path);
    assert(split(seq!['/'] + path, '/') =~= later);
    lemma_leading_empty(root, parts);
}

proof fn lemma_segments(root: Seq<char>, parts: Seq<Seq<char>>, n: int)
    requires
        root.len() > 0,
        root.last() != '/',
        0 < n <= parts.len(),
        forall|i: int| 0 <= i < parts.len() ==> is_name(#[trigger] parts[i]),
    ensures
        with_segments(root, parts.take(n)) == root + seq!['/'] + crate::text::join(
            parts.take(n),
            '/',
        ),
    decreases n,
{
    let some = parts.take(n);
    let less = parts.take(n - 1);
    let last = parts[n - 1];
    assert(some.drop_last() =~= less);
    assert(some =~= less.push(last));
    crate::text::lemma_join_push(less, last, '/');
    assert(is_name(last));
    assert(!last.contains('/'));
    assert(last[0] != '/') by {
        if last[0] == '/' {
            assert(last.contains('/'));
        }
    }
    if n > 1 {
        lemma_segments(root, parts, n - 1);
        let front = with_segments(root, less);
        let before = parts[n - 2];
        assert(is_name(before));
        let shorter = parts.take(n - 2);
        assert(less =~= shorter.push(before));
        crate::text::lemma_join_push(shorter, before, '/');
        assert(front.last() == before.last());
        assert(before.last() != '/') by {
            if before.last() == '/' {
                assert(before.contains('/'));
            }
        }
        assert(joined(front, last) =~= front + seq!['/'] + last);
        assert(with_segments(root, some) =~= root + seq!['/'] + crate::text::join(some, '/'));
    } else {
        assert(less =~= Seq::<Seq<char>>::empty());
        assert(with_segments(root, less) == root);
        assert(with_segments(root, some) =~= root + seq!['/'] + crate::text::join(some, '/'));
    }
}

proof fn lemma_leading_empty(root: Seq<char>, parts: Seq<Seq<char>>)
    ensures
        with_segments(root, seq![Seq::<char>::empty()] + parts) == with_segments(root, parts),
    decreases parts.len(),
{
    let all = seq![Seq::<char>::empty()] + parts;
    if parts.len() > 0 {
        assert(all.drop_last() =~= seq![Seq::<char>::empty()] + parts.drop_last());
        lemma_leading_empty(root, parts.drop_last());
    } else {
        assert(all.drop_last() =~= Seq::<Seq<char>>::empty());
        assert(with_segments(root, all.drop_last()) == root);
    }
}

/// A snapshot is complete: every file under the base enters it under its path, whatever
/// its names are, unless one of them is `.git`; and such a file never does.
pub proof fn law_snapshot_is_complete(
    base: &str,
    file: &str,
    path: Seq<char>,
    out: Option<RelPath>,
)
    requires
        call_ensures(snapshot_path, (base, file), out),
        is_rel(path),
        base@.len() > 0,
        base@.last() != '/',
        file@ == base@ + seq!['/'] + path,
        forall|i: int| 0 <= i < components(base@).len() ==> #[trigger] components(base@)[i] != seq![
            '.',
            'g',
            'i',
            't',
        ],
    ensures
        (forall|i: int|
            0 <= i < split(path, '/').len() ==> #[trigger] split(path, '/')[i] != seq![
                '.',
                'g',
                'i',
                't',
            ]) ==> path_opt(out) == Some(path),
        (exists|i: int|
            0 <= i < split(path, '/').len() && #[trigger] split(path, '/')[i] == seq![
                '.',
                'g',
                'i',
                't',
            ]) ==> out is None,
{
    reveal_strlit(".git");
    let git = seq!['.', 'g', 'i', 't'];
    assert(".git"@ =~= git);
    crate::relpath::law_joining_appends(base@, path);
    crate::relpath::law_components_of_a_joined_path(base@, path);
    let all = components(file@);
    let n = components(base@).len() as int;
    let parts = split(path, '/');
    if all.contains(git) {
        let i = all.index_of(git);
        assert(0 <= i < all.len() && all[i] == git);
        if i < n {
            assert(components(base@)[i] == git);
        } else {
            assert(parts[i - n] == git);
        }
    }
    if exists|i: int| 0 <= i < parts.len() && #[trigger] parts[i] == git {
        let i = choose|i: int| 0 <= i < parts.len() && #[trigger] parts[i] == git;
        assert(all[n + i] == git);
        assert(all.contains(git));
    }
}

/// What a command yields is its output without the line ends behind it, where it
/// succeeded; where it failed there is an error.
pub proof fn law_output_of_a_command(
    name: &str,
    output: &CommandOutput,
    text: Seq<char>,
    ends: Seq<char>,
    out: Result<String, Error>,
)
    requires
        call_ensures(command_text, (name, output), out),
        output.stdout@ == text + ends,
        forall|i: int| 0 <= i < ends.len() ==> #[trigger] ends[i] == '\n' || ends[i] == '\r',
        text.len() > 0,
        text[0] != '\n' && text[0] != '\r',
        text.last() != '\n' && text.last() != '\r',
    ensures
        output.success ==> (out matches Ok(t) && t@ == text),
        !output.success ==> out is Err,
{
    assert forall|i: int| 0 <= i < ends.len() implies crate::text::in_class(
        Class::LineEnd,
        #[trigger] ends[i],
    ) by {
        assert(ends[i] == '\n' || ends[i] == '\r');
    }
    crate::text::law_trim_takes_off_the_ends(Seq::empty(), text, ends, Class::LineEnd);
}

/// A password is what its command yields, else the one that is configured, else none.
pub proof fn law_password_of_a_remote(
    remote: &Remote,
    output: Option<&CommandOutput>,
    out: Result<Option<String>, Error>,
)
    requires
        call_ensures(Remote::resolve_password, (remote, output), out),
    ensures
        output is None ==> (out matches Ok(p) && text_opt(p) == text_opt(remote.password)),
        output matches Some(o) ==> (o.success <==> out is Ok) && (out matches Ok(p) ==> p is Some),
{
}

/// Two files of a mirrored directory have the same change id where their content is the
/// same, whatever their times.
pub proof fn law_content_is_the_change_id(
    data: &[u8],
    a: Option<i128>,
    b: Option<i128>,
    x: RemoteMeta,
    y: RemoteMeta,
)
    requires
        call_ensures(content_meta, (data, a), x),
        call_ensures(content_meta, (data, b), y),
    ensures
        x.id@ == y.id@,
        x.id@ == blake3_hex(data@),
        x.size == data@.len(),
        x.mtime == a,
{
    assert(x@.id == y@.id);
}

} // verus!
