//! Conflict copies: where the losing version of a conflicted file is kept.

use crate::matcher::{covers, is_meta, is_naming, is_plain, is_subtree, names_literally};
use crate::relpath::{folder, is_name, is_rel, last_name, lemma_renamed, RelPath};
use crate::text::{cat3, cat5, chars_of, has_text, occurs_at, piece_of, string_of};
use vstd::prelude::*;

verus! {

/// What marks the name of a conflict copy.
pub open spec fn mark() -> Seq<char> {
    ".conflux-conflict-"@
}

/// The index of the last dot of a name, or -1.
pub open spec fn last_dot(name: Seq<char>) -> int
    decreases name.len(),
{
    if name.len() == 0 {
        -1
    } else if name.last() == '.' {
        name.len() - 1
    } else {
        last_dot(name.drop_last())
    }
}

/// The name of a conflict copy of the file `name`:
/// `<stem>.conflux-conflict-<stamp><.ext>`. A name that only begins with a dot
/// has no extension.
pub open spec fn copy_name(name: Seq<char>, stamp: Seq<char>) -> Seq<char> {
    let dot = last_dot(name);
    if dot <= 0 {
        name + mark() + stamp
    } else {
        name.take(dot) + mark() + stamp + "."@ + name.skip(dot + 1)
    }
}

/// The path of a conflict copy: next to the file that it is a copy of.
pub open spec fn copy_path(path: Seq<char>, stamp: Seq<char>) -> Seq<char> {
    folder(path) + copy_name(last_name(path), stamp)
}

proof fn lemma_last_dot(name: Seq<char>)
    ensures
        -1 <= last_dot(name) < name.len(),
        last_dot(name) >= 0 ==> name[last_dot(name)] == '.',
    decreases name.len(),
{
    if name.len() > 0 && name.last() != '.' {
        lemma_last_dot(name.drop_last());
    }
}

proof fn lemma_last_dot_is(name: Seq<char>, i: int)
    requires
        0 <= i <= name.len(),
        i > 0 ==> name[i - 1] == '.',
        forall|j: int| i <= j < name.len() ==> name[j] != '.',
    ensures
        last_dot(name) == i - 1,
    decreases name.len(),
{
    if name.len() > i {
        assert(name[name.len() - 1] != '.');
        lemma_last_dot_is(name.drop_last(), i);
    }
}

/// The mark, spelled out.
proof fn lemma_mark()
    ensures
        mark().len() == 18,
        !mark().contains('/'),
        is_plain(mark()),
        mark()[1] == 'c',
{
    reveal_strlit(".conflux-conflict-");
    assert(mark().len() == 18);
}

/// The name of a conflict copy carries the mark.
proof fn lemma_copy_name(name: Seq<char>, stamp: Seq<char>)
    requires
        is_name(name),
        !stamp.contains('/'),
    ensures
        is_name(copy_name(name, stamp)),
        has_text(copy_name(name, stamp), mark()),
        copy_name(name, stamp).len() > name.len(),
{
    lemma_mark();
    lemma_last_dot(name);
    reveal_strlit(".");
    let dot = last_dot(name);
    let out = copy_name(name, stamp);
    let at = if dot <= 0 {
        name.len() as int
    } else {
        dot
    };
    assert(out.subrange(at, at + mark().len()) =~= mark());
    assert(occurs_at(out, mark(), at));
    assert(!out.contains('/')) by {
        if out.contains('/') {
            let i = choose|i: int| 0 <= i < out.len() && out[i] == '/';
            if i < at {
                assert(name[i] == '/');
            } else if i < at + mark().len() {
                assert(mark()[i - at] == '/');
            } else if i < at + mark().len() + stamp.len() {
                assert(stamp[i - at - mark().len()] == '/');
            } else if i == at + mark().len() + stamp.len() {
                assert("."@[0] == '/');
            } else {
                assert(name[i - mark().len() - stamp.len()] == '/');
            }
        }
    }
}

/// The path of a conflict copy of `path`, next to it, named
/// `<stem>.conflux-conflict-<stamp><.ext>`.
pub fn conflict_copy(path: &RelPath, stamp: &str) -> (out: RelPath)
    requires
        !stamp@.contains('/'),
    ensures
        out@ == copy_path(path@, stamp@),
{
    let text = path.as_str();
    let name = path.name();
    let v = chars_of(name.as_str());
    proof {
        lemma_copy_name(name@, stamp@);
    }
    let mut i: usize = v.len();
    while i > 0 && v[i - 1] != '.'
        invariant
            i <= v.len(),
            forall|j: int| i <= j < v.len() ==> v@[j] != '.',
        decreases i,
    {
        i = i - 1;
    }
    proof {
        lemma_last_dot_is(name@, i as int);
    }
    let copy = if i <= 1 {
        cat3(name.as_str(), ".conflux-conflict-", stamp)
    } else {
        let stem = piece_of(v.as_slice(), 0, i - 1);
        let ext = piece_of(v.as_slice(), i, v.len());
        assert(stem@ =~= name@.take(i - 1));
        assert(ext@ =~= name@.skip(i as int));
        cat5(
            string_of(stem.as_slice()).as_str(),
            ".conflux-conflict-",
            stamp,
            ".",
            string_of(ext.as_slice()).as_str(),
        )
    };
    assert(copy@ == copy_name(name@, stamp@));
    path.sibling(copy.as_str())
}

/// The glob that conflict copies match, at any depth.
pub open spec fn conflict_glob() -> Seq<char> {
    crate::config::CONFLICT_GLOB@
}

/// A conflict copy stands next to its file, and is another one.
pub proof fn law_conflict_copy_is_a_sibling(path: Seq<char>, stamp: Seq<char>)
    requires
        is_rel(path),
        !stamp.contains('/'),
    ensures
        is_rel(copy_path(path, stamp)),
        folder(copy_path(path, stamp)) == folder(path),
        copy_path(path, stamp) != path,
{
    lemma_last(path);
    lemma_copy_name(last_name(path), stamp);
    lemma_renamed(path, copy_name(last_name(path), stamp));
}

proof fn lemma_last(path: Seq<char>)
    requires
        is_rel(path),
    ensures
        is_name(last_name(path)),
{
    crate::text::lemma_split(path, '/');
}

/// An exclude list with the conflict glob excludes every conflict copy, so a
/// copy is never synced itself.
pub proof fn law_conflict_copies_are_excluded(
    excludes: Seq<Seq<char>>,
    i: int,
    path: Seq<char>,
    stamp: Seq<char>,
)
    requires
        0 <= i < excludes.len(),
        excludes[i] == conflict_glob(),
        is_rel(path),
        !stamp.contains('/'),
    ensures
        covers(excludes, false, copy_path(path, stamp)),
{
    let copy = copy_path(path, stamp);
    lemma_last(path);
    lemma_copy_name(last_name(path), stamp);
    lemma_renamed(path, copy_name(last_name(path), stamp));
    lemma_conflict_glob();
    crate::matcher::lemma_covered(excludes, i, copy);
}

/// The conflict glob asks for the mark in the last segment.
proof fn lemma_conflict_glob()
    ensures
        !is_plain(conflict_glob()),
        !names_literally(conflict_glob()),
        !is_subtree(conflict_glob()),
        conflict_glob() != seq!['*', '*'],
        is_naming(conflict_glob()),
        conflict_glob().subrange(4, conflict_glob().len() - 1) == mark(),
{
    reveal_strlit("**/*.conflux-conflict-*");
    reveal_strlit(".conflux-conflict-");
    let g = conflict_glob();
    lemma_mark();
    assert(g.len() == 23);
    assert(is_meta(g[0]));
    assert(g.subrange(4, 22) =~= mark());
    assert(g.take(4) =~= seq!['*', '*', '/', '*']);
    assert(g.skip(20)[0] != '/');
}

/// A conflict copy keeps the extension of its file, so that it opens like it: the mark and
/// the stamp stand before the last dot. A file without an extension gets them at the end,
/// one whose only dot begins its name too.
pub proof fn law_copy_keeps_the_extension(stem: Seq<char>, ext: Seq<char>, stamp: Seq<char>)
    requires
        !ext.contains('.'),
    ensures
        stem.len() > 0 ==> copy_name(stem + seq!['.'] + ext, stamp) == stem
            + ".conflux-conflict-"@ + stamp + seq!['.'] + ext,
        copy_name(ext, stamp) == ext + ".conflux-conflict-"@ + stamp,
        copy_name(seq!['.'] + ext, stamp) == seq!['.'] + ext + ".conflux-conflict-"@ + stamp,
{
    reveal_strlit(".");
    assert("."@ =~= seq!['.']);
    assert forall|j: int| 0 <= j < ext.len() implies ext[j] != '.' by {
        if ext[j] == '.' {
            assert(ext.contains('.'));
        }
    }
    lemma_last_dot_is(ext, 0);
    let hidden = seq!['.'] + ext;
    assert forall|j: int| 1 <= j < hidden.len() implies hidden[j] != '.' by {
        assert(hidden[j] == ext[j - 1]);
    }
    lemma_last_dot_is(hidden, 1);
    if stem.len() > 0 {
        let name = stem + seq!['.'] + ext;
        let at = stem.len() as int;
        assert forall|j: int| at + 1 <= j < name.len() implies name[j] != '.' by {
            assert(name[j] == ext[j - at - 1]);
        }
        lemma_last_dot_is(name, at + 1);
        assert(name.take(at) =~= stem);
        assert(name.skip(at + 1) =~= ext);
    }
}

/// Copies of a file with different stamps have different names.
pub proof fn law_stamps_tell_copies_apart(path: Seq<char>, a: Seq<char>, b: Seq<char>)
    requires
        is_rel(path),
        a.len() == b.len(),
        copy_path(path, a) == copy_path(path, b),
    ensures
        a == b,
{
    let name = last_name(path);
    let x = copy_name(name, a);
    let y = copy_name(name, b);
    let n = folder(path).len() as int;
    assert(copy_path(path, a).skip(n) =~= x);
    assert(copy_path(path, b).skip(n) =~= y);
    lemma_last_dot(name);
    let at = (if last_dot(name) <= 0 {
        name.len() as int
    } else {
        last_dot(name)
    }) + mark().len();
    assert(x.subrange(at, at + a.len()) =~= a);
    assert(y.subrange(at, at + b.len()) =~= b);
}

} // verus!
