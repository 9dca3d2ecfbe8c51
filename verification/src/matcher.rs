//! Glob matching for `include` (what a group syncs) and `exclude` patterns.
//!
//! Patterns are matched with `*` bound to a single path segment and `**`
//! spanning across separators (standard gitignore-style semantics):
//!   * `*.conf`     matches top-level `.conf` files only
//!   * `**/*.conf`  matches `.conf` files at any depth
//!   * `fish/*`     matches the immediate children of `fish`
//!   * `fish/**`    matches the whole `fish` subtree
//!
//! A *literal* directory pattern like `nvim` (no glob metacharacters) is
//! additionally expanded to match everything beneath it (`nvim/**`), so simply
//! listing a directory name includes its whole subtree. Patterns that already
//! contain wildcards are used verbatim, so `*` and `**` mean exactly what they
//! say.

use crate::error::Error;
use crate::relpath::RelPath;
use crate::text::{begins, cat, cat4, chars_of, ends, first_index, has_text, lemma_first_index, split, string_of, text_opt, texts,
    trim_end, trimmed_end, Class};
use globset::{GlobBuilder, GlobSet, GlobSetBuilder};
use vstd::prelude::*;

verus! {

// ---------------------------------------------------------------------------
// The glob engine
// ---------------------------------------------------------------------------

/// `globset::GlobSet`, a compiled set of globs.
#[verifier::external_type_specification]
#[verifier::external_body]
pub struct ExGlobSet(globset::GlobSet);

/// `globset::GlobSetBuilder`, the globs that a set is to be compiled from.
#[verifier::external_type_specification]
#[verifier::external_body]
pub struct ExGlobSetBuilder(globset::GlobSetBuilder);

/// The globs that a builder holds, in the order in which they were added: for
/// each its pattern, and whether its `*` and `?` stop at a `/`.
pub uninterp spec fn builder_globs(b: GlobSetBuilder) -> Seq<(Seq<char>, bool)>;

/// The globs that a set was compiled from.
pub uninterp spec fn set_globs(s: GlobSet) -> Seq<(Seq<char>, bool)>;

/// Why `globset::GlobBuilder::build` refuses a pattern, if it does.
pub uninterp spec fn glob_error(pattern: Seq<char>) -> Option<Seq<char>>;

/// Why `globset::GlobSetBuilder::build` refuses a list of globs, if it does.
pub uninterp spec fn set_error(globs: Seq<(Seq<char>, bool)>) -> Option<Seq<char>>;

/// Whether `globset::GlobSet::is_match` says that the glob made of `pattern` and
/// `separator` matches `path`.
pub uninterp spec fn glob_matches(pattern: Seq<char>, separator: bool, path: Seq<char>) -> bool;

/// Whether a character has a meaning of its own in a glob.
pub open spec fn is_meta(c: char) -> bool {
    c == '*' || c == '?' || c == '[' || c == ']' || c == '{' || c == '}'
}

/// Whether every character of a glob stands for itself.
pub open spec fn is_plain(p: Seq<char>) -> bool {
    forall|i: int| 0 <= i < p.len() ==> !is_meta(#[trigger] p[i]) && p[i] != '\\'
}

/// Whether a pattern has a character that its syntax can be wrong about.
pub open spec fn is_special(p: Seq<char>) -> bool {
    exists|i: int|
        0 <= i < p.len() && (#[trigger] p[i] == '[' || p[i] == '{' || p[i] == '}' || p[i] == '\\')
}

/// The deepest that braces nest in the rest of a pattern, where so many are open.
/// Behind a `[` or a `\\` a closing brace may stand for itself, so from there on none
/// of them counts.
pub open spec fn deepest(rest: Seq<char>, open: nat, unsure: bool) -> nat
    decreases rest.len(),
{
    if rest.len() == 0 {
        open
    } else {
        let c = rest[0];
        let then = if c == '{' {
            open + 1
        } else if c == '}' && !unsure && open > 0 {
            (open - 1) as nat
        } else {
            open
        };
        let more = deepest(rest.skip(1), then, unsure || c == '[' || c == '\\');
        if more > open {
            more
        } else {
            open
        }
    }
}

/// The deepest that braces can nest in a pattern.
pub open spec fn brace_depth(p: Seq<char>) -> nat {
    deepest(p, 0, false)
}

/// The deepest that braces may nest. The glob engine calls itself for each level, and
/// its regular expressions are refused when they nest deeper.
pub const MAX_NESTING: usize = 250;

/// Why a pattern is not a glob, if it is not.
pub open spec fn complaint_of(p: Seq<char>) -> Option<Seq<char>> {
    if brace_depth(p) > MAX_NESTING {
        Some("braces nest too deeply"@)
    } else {
        glob_error(p)
    }
}

/// `/**`, the end of a glob for everything beneath a directory.
pub open spec fn beneath() -> Seq<char> {
    seq!['/', '*', '*']
}

/// Whether `p` is a glob for everything beneath one directory.
pub open spec fn is_subtree(p: Seq<char>) -> bool {
    p.len() >= 3 && p.skip(p.len() - 3) == beneath() && is_plain(p.take(p.len() - 3))
}

/// Whether `p` is matched without a regular expression: it is plain and not empty, or
/// a glob for everything beneath one directory.
pub open spec fn is_direct(p: Seq<char>) -> bool {
    (is_plain(p) && p.len() > 0) || is_subtree(p)
}

/// Whether `p` is a glob of the form `**/*text*`, for the names at any depth
/// that have a text in them.
pub open spec fn is_naming(p: Seq<char>) -> bool {
    p.len() >= 6 && p.take(4) == seq!['*', '*', '/', '*'] && p.last() == '*' && is_plain(
        p.subrange(4, p.len() - 1),
    ) && !p.subrange(4, p.len() - 1).contains('/')
}

/// Whether `p` is a glob of the form `**/*text`, for the names at any depth that end
/// with a text.
pub open spec fn is_ending(p: Seq<char>) -> bool {
    p.len() >= 5 && p.take(4) == seq!['*', '*', '/', '*'] && is_plain(p.skip(4)) && !p.skip(
        4,
    ).contains('/')
}

/// Whether `p` has one `*`, and everything else in it stands for itself.
pub open spec fn is_starred(p: Seq<char>) -> bool {
    let k = first_index(p, '*');
    k < p.len() && is_plain(p.take(k)) && is_plain(p.skip(k + 1))
}

/// Whether a path is `first`, some text without a `/`, and `last`.
pub open spec fn is_between(first: Seq<char>, last: Seq<char>, path: Seq<char>) -> bool {
    &&& first.len() + last.len() <= path.len()
    &&& begins(path, first)
    &&& ends(path, last)
    &&& !path.subrange(first.len() as int, path.len() - last.len()).contains('/')
}

/// Whether the last segment of a path is `..`.
pub open spec fn ends_in_parent(path: Seq<char>) -> bool {
    last_segment(path) == seq!['.', '.']
}

/// The last segment of a path.
pub open spec fn last_segment(path: Seq<char>) -> Seq<char> {
    split(path, '/').last()
}

/// What a glob of one of the simplest forms matches: a plain pattern matches
/// itself, `dir/**` what is beneath `dir`, `**` everything, and `**/*text*` what
/// has the text in its last segment. Where the path does not end in `..`, `**/*text`
/// matches what has the text at the end of its last segment, and a single `*` any
/// text without a `/`.
pub open spec fn simple_match(g: (Seq<char>, bool), path: Seq<char>) -> Option<bool> {
    if !g.1 {
        None
    } else if is_plain(g.0) {
        Some(path == g.0)
    } else if is_subtree(g.0) {
        Some(begins(path, g.0.take(g.0.len() - 2)))
    } else if g.0 == seq!['*', '*'] {
        Some(true)
    } else if is_naming(g.0) {
        Some(has_text(last_segment(path), g.0.subrange(4, g.0.len() - 1)))
    } else if ends_in_parent(path) {
        None
    } else if is_ending(g.0) {
        Some(ends(last_segment(path), g.0.skip(4)))
    } else if is_starred(g.0) {
        let k = first_index(g.0, '*');
        Some(is_between(g.0.take(k), g.0.skip(k + 1), path))
    } else {
        None
    }
}

/// Whether a glob matches a path.
pub open spec fn matched_by(g: (Seq<char>, bool), path: Seq<char>) -> bool {
    simple_match(g, path) == Some(true) || (simple_match(g, path) is None && glob_matches(
        g.0,
        g.1,
        path,
    ))
}

/// How many characters the globs have in all.
pub open spec fn glob_size(globs: Seq<(Seq<char>, bool)>) -> nat
    decreases globs.len(),
{
    if globs.len() == 0 {
        0
    } else {
        glob_size(globs.drop_last()) + globs.last().0.len()
    }
}

/// The most characters that the patterns of one set may have. The automata of the
/// matching engine have 31 bits to number their states, and building one with more
/// states panics; this keeps them well below that.
pub const MAX_GLOB_SIZE: usize = 0x100_0000;

/// `globset::GlobSetBuilder::new`: a builder without globs.
#[verifier::external_body]
fn new_builder() -> (out: GlobSetBuilder)
    ensures
        builder_globs(out) == Seq::<(Seq<char>, bool)>::empty(),
{
    GlobSetBuilder::new()
}

/// `globset::GlobBuilder::build` with the given `literal_separator`, and
/// `GlobSetBuilder::add` of the result. A pattern is refused for its syntax
/// alone, and only where it has a bracket, a brace or a backslash; one that is
/// not refused becomes the last glob of the builder. It calls itself for each level of
/// nested braces, so their depth is bounded.
#[verifier::external_body]
fn add_glob(b: &mut GlobSetBuilder, pattern: &str, separator: bool) -> (out: Result<(), String>)
    requires
        brace_depth(pattern@) <= MAX_NESTING,
    ensures
        match out {
            Ok(_) => glob_error(pattern@) is None && builder_globs(*final(b)) == builder_globs(
                *old(b),
            ).push((pattern@, separator)),
            Err(e) => glob_error(pattern@) == Some(e@) && builder_globs(*final(b)) == builder_globs(
                *old(b),
            ),
        },
        out is Err ==> is_special(pattern@),
{
    match GlobBuilder::new(pattern).literal_separator(separator).build() {
        Ok(glob) => {
            b.add(glob);
            Ok(())
        },
        Err(e) => Err(e.to_string()),
    }
}

/// `globset::GlobSetBuilder::build`: the set of the builder's globs. It needs no
/// regular expression, and does not fail, where every glob is plain and not empty, or
/// stands for what is beneath a directory.
#[verifier::external_body]
fn build_set(b: &GlobSetBuilder) -> (out: Result<GlobSet, String>)
    requires
        glob_size(builder_globs(*b)) <= 2 * MAX_GLOB_SIZE,
    ensures
        match out {
            Ok(s) => set_error(builder_globs(*b)) is None && set_globs(s) == builder_globs(*b),
            Err(e) => set_error(builder_globs(*b)) == Some(e@),
        },
        (forall|i: int|
            0 <= i < builder_globs(*b).len() ==> is_direct((#[trigger] builder_globs(*b)[i]).0))
            ==> out is Ok,
{
    b.build().map_err(|e| e.to_string())
}

/// `globset::GlobSet::is_empty`: whether the set has no glob.
#[verifier::external_body]
fn set_is_empty(s: &GlobSet) -> (out: bool)
    ensures
        out == (set_globs(*s).len() == 0),
{
    s.is_empty()
}

/// `globset::GlobSet::is_match`: whether one of the globs matches. What the
/// simplest forms of globs match is stated; what the others match is named.
#[verifier::external_body]
fn set_matches(s: &GlobSet, path: &str) -> (out: bool)
    ensures
        out == (exists|i: int|
            0 <= i < set_globs(*s).len() && (simple_match(#[trigger] set_globs(*s)[i], path@)
                == Some(true) || (simple_match(set_globs(*s)[i], path@) is None && glob_matches(
                set_globs(*s)[i].0,
                set_globs(*s)[i].1,
                path@,
            )))),
{
    s.is_match(path)
}

// ---------------------------------------------------------------------------
// Matchers
// ---------------------------------------------------------------------------

/// Whether a pattern contains no glob metacharacters (so it names a literal path).
pub open spec fn names_literally(p: Seq<char>) -> bool {
    forall|i: int| 0 <= i < p.len() ==> !is_meta(#[trigger] p[i])
}

/// The glob for what is beneath the directory that a pattern names.
pub open spec fn subtree_glob(p: Seq<char>) -> Seq<char> {
    trim_end(p, Class::Slash) + beneath()
}

/// The patterns of the globs that a pattern stands for.
pub open spec fn globs_of(p: Seq<char>) -> Seq<Seq<char>> {
    if names_literally(p) {
        seq![p, subtree_glob(p)]
    } else {
        seq![p]
    }
}

/// The patterns of the globs that a list of patterns stands for, in order.
pub open spec fn all_globs(ps: Seq<Seq<char>>) -> Seq<Seq<char>>
    decreases ps.len(),
{
    if ps.len() == 0 {
        seq![]
    } else {
        all_globs(ps.drop_last()) + globs_of(ps.last())
    }
}

/// The same as globs whose wildcards stop at a separator.
pub open spec fn with_separator(ps: Seq<Seq<char>>) -> Seq<(Seq<char>, bool)> {
    ps.map_values(|p: Seq<char>| (p, true))
}

/// The index of the first pattern that is not a glob, or the number of patterns.
pub open spec fn first_bad(ps: Seq<Seq<char>>) -> int
    decreases ps.len(),
{
    if ps.len() == 0 {
        0
    } else if first_bad(ps.drop_last()) < ps.len() - 1 {
        first_bad(ps.drop_last())
    } else if complaint_of(ps.last()) is Some {
        ps.len() - 1
    } else {
        ps.len() as int
    }
}

/// The complaint about a pattern that is not a glob.
pub open spec fn bad_glob(p: Seq<char>) -> Seq<char> {
    "invalid glob `"@ + p + "`: "@ + complaint_of(p).unwrap()
}

/// The complaint about a list of patterns: about the first that is not a glob,
/// or about the whole list.
pub open spec fn matcher_error(ps: Seq<Seq<char>>) -> Option<Seq<char>> {
    let globs = all_globs(ps);
    let i = first_bad(globs);
    if i < globs.len() {
        Some(bad_glob(globs[i]))
    } else {
        match set_error(with_separator(globs)) {
            Some(e) => Some("invalid glob set: "@ + e),
            None => None,
        }
    }
}

/// Whether a path is matched by one of the patterns; if there is none, `empty`.
pub open spec fn covers(ps: Seq<Seq<char>>, empty: bool, path: Seq<char>) -> bool {
    if ps.len() == 0 {
        empty
    } else {
        exists|i: int|
            0 <= i < all_globs(ps).len() && matched_by((#[trigger] all_globs(ps)[i], true), path)
    }
}

/// How many characters a list of texts has in all, and three for each text.
pub open spec fn text_size(ps: Seq<Seq<char>>) -> nat
    decreases ps.len(),
{
    if ps.len() == 0 {
        0
    } else {
        text_size(ps.drop_last()) + ps.last().len() + 3
    }
}

/// Whether a list of patterns is short enough to be compiled, and no pattern nests its
/// braces too deeply.
pub open spec fn can_compile(ps: Seq<Seq<char>>) -> bool {
    &&& text_size(ps) <= MAX_GLOB_SIZE
    &&& forall|i: int| 0 <= i < ps.len() ==> brace_depth(#[trigger] ps[i]) <= MAX_NESTING
}

/// The deepest that braces can nest in a pattern.
fn depth_of(v: &[char]) -> (out: usize)
    ensures
        out == brace_depth(v@),
{
    let mut best: usize = 0;
    let mut open: usize = 0;
    let mut unsure = false;
    let mut i: usize = 0;
    assert(v@.skip(0) =~= v@);
    while i < v.len()
        invariant
            i <= v@.len(),
            open <= i,
            best <= i,
            open <= best,
            deepest(v@.skip(i as int), open as nat, unsure) <= best ==> brace_depth(v@) == best,
            deepest(v@.skip(i as int), open as nat, unsure) > best ==> brace_depth(v@) == deepest(
                v@.skip(i as int),
                open as nat,
                unsure,
            ),
        decreases v.len() - i,
    {
        let c = v[i];
        assert(v@.skip(i as int)[0] == c);
        assert(v@.skip(i as int).skip(1) =~= v@.skip(i + 1));
        if c == '{' {
            open = open + 1;
        } else if c == '}' && !unsure && open > 0 {
            open = open - 1;
        }
        if c == '[' || c == '\\' {
            unsure = true;
        }
        if open > best {
            best = open;
        }
        i = i + 1;
        proof {
            lemma_deepest(v@.skip(i as int), open as nat, unsure);
        }
    }
    best
}

proof fn lemma_deepest(rest: Seq<char>, open: nat, unsure: bool)
    ensures
        deepest(rest, open, unsure) >= open,
{
}

/// Braces nest only where there are some.
proof fn lemma_no_braces(rest: Seq<char>, unsure: bool)
    requires
        !rest.contains('{'),
    ensures
        deepest(rest, 0, unsure) == 0,
    decreases rest.len(),
{
    if rest.len() > 0 {
        let more = rest.skip(1);
        assert(rest.contains(rest[0]));
        if more.contains('{') {
            let i = more.index_of('{');
            assert(0 <= i < more.len() && more[i] == '{');
            assert(rest[i + 1] == '{');
        }
        lemma_no_braces(more, unsure || rest[0] == '[' || rest[0] == '\\');
    }
}

/// Whether a list of patterns is short enough to be compiled, and no pattern nests its
/// braces too deeply.
pub fn patterns_fit(patterns: &[String]) -> (out: bool)
    ensures
        out == can_compile(texts(patterns@)),
{
    let ghost ps = texts(patterns@);
    let mut left: usize = MAX_GLOB_SIZE;
    let mut i: usize = 0;
    assert(ps.take(0) =~= Seq::<Seq<char>>::empty());
    while i < patterns.len()
        invariant
            i <= patterns@.len(),
            ps == texts(patterns@),
            left == MAX_GLOB_SIZE - text_size(ps.take(i as int)),
            forall|j: int| 0 <= j < i ==> brace_depth(#[trigger] ps[j]) <= MAX_NESTING,
        decreases patterns.len() - i,
    {
        assert(ps.take(i + 1).drop_last() =~= ps.take(i as int));
        assert(ps.take(i + 1).last() == patterns@[i as int]@);
        assert(ps[i as int] == patterns@[i as int]@);
        let pattern = chars_of(patterns[i].as_str());
        if depth_of(pattern.as_slice()) > MAX_NESTING {
            return false;
        }
        let length: usize = pattern.len();
        if left < 3 || length > left - 3 {
            proof {
                lemma_text_size(ps, i + 1);
            }
            return false;
        }
        left = left - 3 - length;
        i = i + 1;
    }
    assert(ps.take(ps.len() as int) =~= ps);
    true
}

/// The first patterns are no longer than all of them.
proof fn lemma_text_size(ps: Seq<Seq<char>>, n: int)
    requires
        0 <= n <= ps.len(),
    ensures
        text_size(ps.take(n)) <= text_size(ps),
    decreases ps.len(),
{
    if n < ps.len() {
        lemma_text_size(ps.drop_last(), n);
        assert(ps.drop_last().take(n) =~= ps.take(n));
    } else {
        assert(ps.take(n) =~= ps);
    }
}

/// A compiled set of glob patterns.
pub struct Matcher {
    set: GlobSet,
    /// When the pattern list is empty, `is_match` returns this.
    empty_default: bool,
}

/// Whether a pattern contains no glob metacharacters (so it names a literal path).
fn is_literal(pattern: &[char]) -> (out: bool)
    ensures
        out == names_literally(pattern@),
{
    let mut i: usize = 0;
    while i < pattern.len()
        invariant
            i <= pattern.len(),
            forall|j: int| 0 <= j < i ==> !is_meta(#[trigger] pattern@[j]),
        decreases pattern.len() - i,
    {
        let c = pattern[i];
        if c == '*' || c == '?' || c == '[' || c == ']' || c == '{' || c == '}' {
            assert(is_meta(pattern@[i as int]));
            return false;
        }
        i = i + 1;
    }
    true
}

proof fn lemma_first_bad_push(ps: Seq<Seq<char>>, p: Seq<char>)
    requires
        first_bad(ps) == ps.len(),
    ensures
        first_bad(ps.push(p)) == (if complaint_of(p) is Some {
            ps.len() as int
        } else {
            ps.len() as int + 1
        }),
{
    assert(ps.push(p).drop_last() =~= ps);
}

/// Once there is a first bad pattern, more patterns do not change it.
pub proof fn lemma_first_bad_more(ps: Seq<Seq<char>>, more: Seq<Seq<char>>)
    requires
        first_bad(ps) < ps.len(),
    ensures
        first_bad(ps + more) == first_bad(ps),
        (ps + more)[first_bad(ps)] == ps[first_bad(ps)],
    decreases more.len(),
{
    lemma_first_bad_range(ps);
    if more.len() == 0 {
        assert(ps + more =~= ps);
    } else {
        lemma_first_bad_more(ps, more.drop_last());
        assert((ps + more).drop_last() =~= ps + more.drop_last());
    }
}

proof fn lemma_first_bad_range(ps: Seq<Seq<char>>)
    ensures
        0 <= first_bad(ps) <= ps.len(),
    decreases ps.len(),
{
    if ps.len() > 0 {
        lemma_first_bad_range(ps.drop_last());
    }
}

/// The globs of the first patterns are the first globs.
proof fn lemma_all_globs_prefix(ps: Seq<Seq<char>>, n: int) -> (more: Seq<Seq<char>>)
    requires
        0 <= n <= ps.len(),
    ensures
        all_globs(ps) == all_globs(ps.take(n)) + more,
    decreases ps.len() - n,
{
    if n == ps.len() {
        assert(ps.take(n) =~= ps);
        let more = Seq::<Seq<char>>::empty();
        assert(all_globs(ps) =~= all_globs(ps.take(n)) + more);
        more
    } else {
        let rest = lemma_all_globs_prefix(ps, n + 1);
        assert(ps.take(n + 1).drop_last() =~= ps.take(n));
        let more = globs_of(ps[n]) + rest;
        assert(all_globs(ps) =~= all_globs(ps.take(n)) + more);
        more
    }
}

proof fn lemma_trim_shorter(p: Seq<char>, k: Class)
    ensures
        trim_end(p, k).len() <= p.len(),
    decreases p.len(),
{
    if p.len() > 0 {
        lemma_trim_shorter(p.drop_last(), k);
    }
}

proof fn lemma_glob_size_push(gs: Seq<(Seq<char>, bool)>, g: (Seq<char>, bool))
    ensures
        glob_size(gs.push(g)) == glob_size(gs) + g.0.len(),
{
    assert(gs.push(g).drop_last() =~= gs);
}

/// The glob for what is beneath a literal path has no braces.
proof fn lemma_subtree_depth(p: Seq<char>)
    requires
        names_literally(p),
    ensures
        brace_depth(subtree_glob(p)) == 0,
{
    lemma_trim_prefix(p, Class::Slash);
    let g = subtree_glob(p);
    let t = trim_end(p, Class::Slash);
    assert forall|i: int| 0 <= i < g.len() implies #[trigger] g[i] != '{' by {
        if i < t.len() {
            assert(g[i] == p[i]);
            assert(!is_meta(p[i]));
        }
    }
    lemma_no_braces(g, false);
}

/// Adds one glob to the builder, or says why it cannot.
fn compile(b: &mut GlobSetBuilder, pattern: &str) -> (out: Result<(), Error>)
    requires
        brace_depth(pattern@) <= MAX_NESTING,
    ensures
        match out {
            Ok(_) => complaint_of(pattern@) is None && builder_globs(*final(b)) == builder_globs(
                *old(b),
            ).push((pattern@, true)),
            Err(Error::Validation(e)) => complaint_of(pattern@) is Some && e@ == bad_glob(pattern@),
            Err(_) => false,
        },
        is_plain(pattern@) || is_subtree(pattern@) ==> out is Ok,
{
    // A separator binds `*`/`?` to a single path segment so they do not cross
    // `/`; only `**` spans directories.
    match add_glob(b, pattern, true) {
        Ok(_) => Ok(()),
        Err(e) => {
            proof {
                let p = pattern@;
                let i = choose|i: int|
                    0 <= i < p.len() && (#[trigger] p[i] == '[' || p[i] == '{' || p[i] == '}'
                        || p[i] == '\\');
                if is_subtree(p) {
                    if i < p.len() - 3 {
                        assert(p.take(p.len() - 3)[i] == p[i]);
                    } else {
                        assert(p.skip(p.len() - 3)[i - (p.len() - 3)] == p[i]);
                    }
                }
            }
            Err(Error::Validation(cat4("invalid glob `", pattern, "`: ", e.as_str())))
        },
    }
}

/// Why a pattern is not a glob, if it is not. One without brackets, braces and
/// backslashes always is.
pub fn glob_complaint(pattern: &str) -> (out: Option<String>)
    ensures
        text_opt(out) == complaint_of(pattern@),
        out is Some ==> is_special(pattern@),
{
    let v = chars_of(pattern);
    if depth_of(v.as_slice()) > MAX_NESTING {
        proof {
            if !pattern@.contains('{') {
                lemma_no_braces(pattern@, false);
            }
            let i = pattern@.index_of('{');
            assert(0 <= i < pattern@.len() && pattern@[i] == '{');
        }
        return Some("braces nest too deeply".to_string());
    }
    let mut builder = new_builder();
    match add_glob(&mut builder, pattern, false) {
        Ok(_) => None,
        Err(e) => Some(e),
    }
}

impl Matcher {
    /// The globs that the matcher was compiled from.
    pub closed spec fn globs(&self) -> Seq<Seq<char>> {
        set_globs(self.set).map_values(|g: (Seq<char>, bool)| g.0)
    }

    /// Whether a matcher without globs matches.
    pub closed spec fn matches_empty(&self) -> bool {
        self.empty_default
    }

    /// Whether every wildcard of the matcher stops at a separator.
    pub closed spec fn wf(&self) -> bool {
        set_globs(self.set) == with_separator(self.globs())
    }

    /// Whether the matcher matches a path.
    pub open spec fn matches(&self, path: Seq<char>) -> bool {
        if self.globs().len() == 0 {
            self.matches_empty()
        } else {
            exists|i: int|
                0 <= i < self.globs().len() && matched_by((#[trigger] self.globs()[i], true), path)
        }
    }

    /// Build a matcher. When `patterns` is empty, `is_match` returns `empty_default`:
    /// callers pass `false` to match nothing on an empty list (as `include` and
    /// `exclude` both do) or `true` to match everything.
    pub fn new(patterns: &[String], empty_default: bool) -> (out: Result<Matcher, Error>)
        requires
            can_compile(texts(patterns@)),
        ensures
            match out {
                Ok(m) => matcher_error(texts(patterns@)) is None && m.wf() && m.globs()
                    == all_globs(texts(patterns@)) && forall|path: Seq<char>| #[trigger]
                    m.matches(path) == covers(texts(patterns@), empty_default, path),
                Err(Error::Validation(e)) => matcher_error(texts(patterns@)) == Some(e@),
                Err(_) => false,
            },
            (forall|i: int|
                0 <= i < patterns@.len() ==> is_plain(#[trigger] patterns@[i]@) && patterns@[i]@.len()
                    > 0) ==> out is Ok,
    {
        let mut builder = new_builder();
        let ghost ps = texts(patterns@);
        let ghost mut done = Seq::<Seq<char>>::empty();
        let mut i: usize = 0;
        assert(with_separator(done) =~= Seq::empty());
        assert(ps.take(0) =~= Seq::empty());
        while i < patterns.len()
            invariant
                i <= patterns.len(),
                ps == texts(patterns@),
                can_compile(ps),
                done == all_globs(ps.take(i as int)),
                first_bad(done) == done.len(),
                builder_globs(builder) == with_separator(done),
                glob_size(builder_globs(builder)) <= 2 * text_size(ps.take(i as int)),
                (forall|j: int|
                    0 <= j < patterns@.len() ==> is_plain(#[trigger] patterns@[j]@)
                        && patterns@[j]@.len() > 0) ==> forall|k: int|
                    0 <= k < done.len() ==> is_direct(#[trigger] done[k]),
            decreases patterns.len() - i,
        {
            let pattern = &patterns[i];
            let ghost p = pattern@;
            let ghost before = done;
            proof {
                assert(ps[i as int] == p);
                assert(ps.take(i + 1).drop_last() =~= ps.take(i as int));
                assert(ps.take(i + 1).last() == p);
                lemma_first_bad_push(done, p);
                lemma_glob_size_push(with_separator(done), (p, true));
                assert(with_separator(done.push(p)) =~= with_separator(done).push((p, true)));
            }
            match compile(&mut builder, pattern.as_str()) {
                Ok(_) => {},
                Err(e) => {
                    proof {
                        let more = lemma_all_globs_prefix(ps, i as int + 1);
                        assert(globs_of(p)[0] == p);
                        let rest = globs_of(p).skip(1) + more;
                        assert(all_globs(ps) =~= done.push(p) + rest);
                        lemma_first_bad_more(done.push(p), rest);
                    }
                    return Err(e);
                },
            }
            proof {
                done = done.push(p);
            }
            // A literal directory name (no wildcards) also matches its whole
            // subtree, so `nvim` covers `nvim/init.lua`. Wildcard patterns are
            // left as written so `*` stays one segment and `**` stays recursive.
            let chars = chars_of(pattern.as_str());
            assert(is_plain(p) ==> names_literally(p));
            if is_literal(chars.as_slice()) {
                let trimmed = trimmed_end(chars.as_slice(), Class::Slash);
                let name = string_of(trimmed.as_slice());
                let subtree = cat(name.as_str(), "/**");
                proof {
                    reveal_strlit("/**");
                    assert("/**"@ =~= beneath());
                    assert(subtree@ == subtree_glob(p));
                    lemma_first_bad_push(done, subtree@);
                    lemma_glob_size_push(with_separator(done), (subtree@, true));
                    lemma_trim_shorter(p, Class::Slash);
                    assert(with_separator(done.push(subtree@)) =~= with_separator(done).push(
                        (subtree@, true),
                    ));
                    assert(before + globs_of(p) =~= done.push(subtree@));
                    lemma_subtree_depth(p);
                    if is_plain(p) {
                        lemma_subtree_glob(p);
                    }
                }
                match compile(&mut builder, subtree.as_str()) {
                    Ok(_) => {},
                    Err(e) => {
                        proof {
                            let more = lemma_all_globs_prefix(ps, i as int + 1);
                            assert(all_globs(ps) =~= done.push(subtree@) + more);
                            lemma_first_bad_more(done.push(subtree@), more);
                        }
                        return Err(e);
                    },
                }
                proof {
                    done = done.push(subtree@);
                }
            }
            assert(done =~= before + globs_of(p));
            i = i + 1;
        }
        assert(ps.take(ps.len() as int) =~= ps);
        match build_set(&builder) {
            Ok(set) => {
                let m = Matcher { set, empty_default: patterns.len() == 0 && empty_default };
                proof {
                    assert(m.globs() =~= done);
                    lemma_globs_empty(ps);
                    assert forall|path: Seq<char>| #[trigger] m.matches(path) == covers(
                        ps,
                        empty_default,
                        path,
                    ) by {}
                }
                Ok(m)
            },
            Err(e) => Err(Error::Validation(cat("invalid glob set: ", e.as_str()))),
        }
    }

    /// Whether `path` matches any pattern (or the empty-default).
    pub fn is_match(&self, path: &RelPath) -> (out: bool)
        requires
            self.wf(),
        ensures
            out == self.matches(path@),
    {
        if set_is_empty(&self.set) {
            assert(self.globs().len() == 0);
            return self.empty_default;
        }
        let out = set_matches(&self.set, path.as_str());
        proof {
            let globs = set_globs(self.set);
            assert(globs.len() == self.globs().len());
            assert(forall|i: int|
                0 <= i < globs.len() ==> #[trigger] globs[i] == (#[trigger] self.globs()[i], true));
            if out {
                let i = choose|i: int|
                    0 <= i < globs.len() && matched_by(#[trigger] globs[i], path@);
                assert(matched_by((self.globs()[i], true), path@));
            }
            if self.matches(path@) {
                let i = choose|i: int|
                    0 <= i < globs.len() && matched_by((#[trigger] self.globs()[i], true), path@);
                assert(matched_by(globs[i], path@));
            }
        }
        out
    }
}

/// A list of patterns stands for no glob only if it is empty.
proof fn lemma_globs_empty(ps: Seq<Seq<char>>)
    ensures
        (all_globs(ps).len() == 0) == (ps.len() == 0),
{
    if ps.len() > 0 {
        assert(globs_of(ps.last()).len() > 0);
    }
}

// ---------------------------------------------------------------------------
// Laws
// ---------------------------------------------------------------------------

/// The globs of each pattern are among the globs of a list that has it.
proof fn lemma_glob_of(ps: Seq<Seq<char>>, i: int, j: int) -> (k: int)
    requires
        0 <= i < ps.len(),
        0 <= j < globs_of(ps[i]).len(),
    ensures
        0 <= k < all_globs(ps).len(),
        all_globs(ps)[k] == globs_of(ps[i])[j],
{
    let more = lemma_all_globs_prefix(ps, i + 1);
    assert(ps.take(i + 1).drop_last() =~= ps.take(i));
    assert(ps.take(i + 1).last() == ps[i]);
    all_globs(ps.take(i)).len() + j
}

/// The globs of a list of patterns are those of its patterns.
proof fn lemma_glob_from(ps: Seq<Seq<char>>, k: int) -> (out: (int, int))
    requires
        0 <= k < all_globs(ps).len(),
    ensures
        0 <= out.0 < ps.len(),
        0 <= out.1 < globs_of(ps[out.0]).len(),
        all_globs(ps)[k] == globs_of(ps[out.0])[out.1],
    decreases ps.len(),
{
    let front = all_globs(ps.drop_last());
    if k < front.len() {
        lemma_glob_from(ps.drop_last(), k)
    } else {
        (ps.len() - 1, k - front.len())
    }
}

/// A list covers what the first glob of one of its patterns matches.
pub proof fn lemma_covered(ps: Seq<Seq<char>>, i: int, path: Seq<char>)
    requires
        0 <= i < ps.len(),
        matched_by((ps[i], true), path),
    ensures
        covers(ps, false, path),
        covers(ps, true, path),
{
    assert(globs_of(ps[i])[0] == ps[i]);
    let k = lemma_glob_of(ps, i, 0);
    assert(matched_by((all_globs(ps)[k], true), path));
}

/// A literal pattern covers the path that it names and everything beneath it.
pub proof fn law_literal_covers_subtree(ps: Seq<Seq<char>>, i: int, empty: bool, path: Seq<char>)
    requires
        0 <= i < ps.len(),
        is_plain(ps[i]),
        path == ps[i] || begins(path, trim_end(ps[i], Class::Slash).push('/')),
    ensures
        covers(ps, empty, path),
{
    let p = ps[i];
    assert(names_literally(p));
    if path == p {
        let k = lemma_glob_of(ps, i, 0);
        assert(matched_by((all_globs(ps)[k], true), path));
    } else {
        let k = lemma_glob_of(ps, i, 1);
        lemma_subtree_glob(p);
        assert(matched_by((all_globs(ps)[k], true), path));
    }
}

/// A list of literal patterns covers nothing but the paths that they name and
/// what is beneath them.
pub proof fn law_literals_cover_only_subtrees(ps: Seq<Seq<char>>, path: Seq<char>)
    requires
        forall|i: int| 0 <= i < ps.len() ==> is_plain(#[trigger] ps[i]),
        covers(ps, false, path),
    ensures
        exists|i: int|
            0 <= i < ps.len() && (path == #[trigger] ps[i] || begins(
                path,
                trim_end(ps[i], Class::Slash).push('/'),
            )),
{
    let k = choose|k: int|
        0 <= k < all_globs(ps).len() && matched_by((#[trigger] all_globs(ps)[k], true), path);
    let (i, j) = lemma_glob_from(ps, k);
    assert(is_plain(ps[i]));
    assert(names_literally(ps[i]));
    if j == 1 {
        lemma_subtree_glob(ps[i]);
    }
}

proof fn lemma_subtree_glob(p: Seq<char>)
    requires
        is_plain(p),
    ensures
        !is_plain(subtree_glob(p)),
        is_subtree(subtree_glob(p)),
        subtree_glob(p).take(subtree_glob(p).len() - 2) == trim_end(p, Class::Slash).push('/'),
{
    let t = trim_end(p, Class::Slash);
    let g = subtree_glob(p);
    lemma_trim_prefix(p, Class::Slash);
    assert(is_meta(g[g.len() - 1]));
    assert(g.skip(g.len() - 3) =~= beneath());
    assert(g.take(g.len() - 3) =~= t);
    assert(is_plain(t)) by {
        assert forall|i: int| 0 <= i < t.len() implies !is_meta(#[trigger] t[i]) && t[i]
            != '\\' by {
            assert(t[i] == p[i]);
        }
    }
    assert(g.take(g.len() - 2) =~= t.push('/'));
}

proof fn lemma_trim_prefix(p: Seq<char>, k: Class)
    ensures
        trim_end(p, k).len() <= p.len(),
        trim_end(p, k) == p.take(trim_end(p, k).len() as int),
    decreases p.len(),
{
    if p.len() > 0 {
        lemma_trim_prefix(p.drop_last(), k);
    }
    assert(p.take(p.len() as int) =~= p);
    if trim_end(p, k).len() < p.len() {
        assert(p.drop_last().take(trim_end(p, k).len() as int) =~= p.take(
            trim_end(p, k).len() as int,
        ));
    }
}

/// The pattern `**` covers every path.
pub proof fn law_double_star_covers_everything(
    ps: Seq<Seq<char>>,
    i: int,
    empty: bool,
    path: Seq<char>,
)
    requires
        0 <= i < ps.len(),
        ps[i] == seq!['*', '*'],
    ensures
        covers(ps, empty, path),
{
    let p = ps[i];
    assert(is_meta(p[0]));
    assert(!is_plain(p));
    assert(!names_literally(p));
    let k = lemma_glob_of(ps, i, 0);
    assert(!is_subtree(p));
    assert(matched_by((all_globs(ps)[k], true), path));
}

/// A single `*` stays in one segment: a pattern with one covers exactly what is the
/// text before it, some text without a `/`, and the text behind it. So `*.conf`
/// covers files at the top only, and `fish/*` the immediate children of `fish`.
pub proof fn law_star_stays_in_one_segment(p: Seq<char>, path: Seq<char>)
    requires
        is_starred(p),
        !ends_in_parent(path),
    ensures
        covers(seq![p], false, path) == is_between(
            p.take(first_index(p, '*')),
            p.skip(first_index(p, '*') + 1),
            path,
        ),
{
    lemma_first_index(p, '*');
    let k = first_index(p, '*');
    assert(is_meta(p[k]));
    assert forall|i: int| 0 <= i < p.len() && i != k implies #[trigger] p[i] != '*' by {
        if i < k {
            assert(p.take(k)[i] == p[i]);
        } else {
            assert(p.skip(k + 1)[i - k - 1] == p[i]);
        }
    }
    if is_subtree(p) {
        assert(p.skip(p.len() - 3)[1] == p[p.len() - 2]);
        assert(p.skip(p.len() - 3)[2] == p[p.len() - 1]);
    }
    if is_naming(p) || is_ending(p) {
        assert(p.take(4)[0] == p[0] && p.take(4)[1] == p[1]);
    }
    assert(p != seq!['*', '*']);
    lemma_one_pattern(p, path);
}

/// A pattern `**/*text` covers the names that end with the text, at any depth.
pub proof fn law_names_are_covered_at_any_depth(p: Seq<char>, path: Seq<char>)
    requires
        is_ending(p),
        !ends_in_parent(path),
    ensures
        covers(seq![p], false, path) == ends(last_segment(path), p.skip(4)),
{
    assert(p.take(4)[0] == p[0]);
    assert(is_meta(p[0]));
    let t = p.skip(4);
    assert(t[t.len() - 1] == p[p.len() - 1]);
    assert(!is_meta(t[t.len() - 1]));
    if is_subtree(p) {
        assert(p.skip(p.len() - 3)[2] == p[p.len() - 1]);
    }
    lemma_one_pattern(p, path);
}

/// A list of one pattern that is not literal covers what its glob matches.
proof fn lemma_one_pattern(p: Seq<char>, path: Seq<char>)
    requires
        !names_literally(p),
    ensures
        covers(seq![p], false, path) == matched_by((p, true), path),
{
    let ps = seq![p];
    assert(ps.drop_last() =~= Seq::<Seq<char>>::empty());
    assert(all_globs(ps.drop_last()) =~= Seq::<Seq<char>>::empty());
    assert(all_globs(ps) =~= seq![p]);
    assert(all_globs(ps)[0] == p);
}

/// A list covers what one of its patterns covers, each taken on its own, and nothing else;
/// only a list without patterns goes by what holds without any.
pub proof fn law_list_covers_what_its_patterns_cover(
    ps: Seq<Seq<char>>,
    empty: bool,
    path: Seq<char>,
)
    ensures
        ps.len() > 0 ==> (covers(ps, empty, path) <==> exists|i: int|
            0 <= i < ps.len() && covers(seq![#[trigger] ps[i]], false, path)),
        ps.len() == 0 ==> covers(ps, empty, path) == empty,
{
    if ps.len() > 0 {
        if covers(ps, empty, path) {
            let k = choose|k: int|
                0 <= k < all_globs(ps).len() && matched_by(
                    (#[trigger] all_globs(ps)[k], true),
                    path,
                );
            let (i, j) = lemma_glob_from(ps, k);
            lemma_single(ps[i]);
            assert(matched_by((all_globs(seq![ps[i]])[j], true), path));
            assert(covers(seq![ps[i]], false, path));
        }
        if exists|i: int| 0 <= i < ps.len() && covers(seq![#[trigger] ps[i]], false, path) {
            let i = choose|i: int|
                0 <= i < ps.len() && covers(seq![#[trigger] ps[i]], false, path);
            lemma_single(ps[i]);
            let j = choose|j: int|
                0 <= j < all_globs(seq![ps[i]]).len() && matched_by(
                    (#[trigger] all_globs(seq![ps[i]])[j], true),
                    path,
                );
            let k = lemma_glob_of(ps, i, j);
            assert(matched_by((all_globs(ps)[k], true), path));
        }
    }
}

proof fn lemma_single(p: Seq<char>)
    ensures
        all_globs(seq![p]) == globs_of(p),
{
    assert(seq![p].drop_last() =~= Seq::<Seq<char>>::empty());
    assert(all_globs(seq![p].drop_last()) =~= Seq::<Seq<char>>::empty());
    assert(all_globs(seq![p]) =~= globs_of(p));
}

/// A list with a pattern that is not a glob is refused, whatever else is in it.
pub proof fn law_bad_globs_are_refused(ps: Seq<Seq<char>>, i: int)
    requires
        0 <= i < ps.len(),
        complaint_of(ps[i]) is Some,
    ensures
        matcher_error(ps) is Some,
        first_bad(ps) <= i,
{
    assert(globs_of(ps[i])[0] == ps[i]);
    let k = lemma_glob_of(ps, i, 0);
    lemma_first_bad_until(all_globs(ps), k);
    lemma_first_bad_until(ps, i);
}

proof fn lemma_first_bad_until(ps: Seq<Seq<char>>, i: int)
    requires
        0 <= i < ps.len(),
        complaint_of(ps[i]) is Some,
    ensures
        first_bad(ps) <= i,
    decreases ps.len(),
{
    if i < ps.len() - 1 {
        lemma_first_bad_until(ps.drop_last(), i);
    } else {
        lemma_first_bad_range(ps.drop_last());
    }
}

/// A pattern without braces nests none, and so is refused only for its syntax.
pub proof fn law_patterns_without_braces_do_not_nest(p: Seq<char>)
    requires
        !p.contains('{'),
    ensures
        brace_depth(p) == 0,
        complaint_of(p) == glob_error(p),
{
    lemma_no_braces(p, false);
}

} // verus!
