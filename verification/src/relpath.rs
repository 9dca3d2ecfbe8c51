//! A normalized, forward-slash relative path used as the shared key for a file
//! in both the local tree (under the group's root) and the remote tree (under
//! the group's remote path). Paths are Unix paths, held as text.

use crate::text::{cat, chars_of, first_index, join, join_with, lemma_first_index, lemma_first_index_is,
    lemma_split, lemma_split_join, piece_of, push_all, split, split_at_char, string_of};
use vstd::prelude::*;

verus! {

/// A relative path with `/` separators, no leading slash, and no `.`/`..` parts.
#[derive(Debug, PartialEq, Eq, PartialOrd, Ord, Hash)]
pub struct RelPath {
    text: String,
}

impl View for RelPath {
    type V = Seq<char>;

    closed spec fn view(&self) -> Seq<char> {
        self.text@
    }
}

impl RelPath {
    /// Every `RelPath` is a normalized relative path.
    #[verifier::type_invariant]
    spec fn holds(self) -> bool {
        is_rel(self.text@)
    }
}

impl Clone for RelPath {
    fn clone(&self) -> (out: Self)
        ensures
            out@ == self@,
    {
        proof {
            use_type_invariant(self);
        }
        RelPath { text: self.text.clone() }
    }
}

/// The component `.`.
pub open spec fn dot() -> Seq<char> {
    seq!['.']
}

/// The component `..`.
pub open spec fn dot_dot() -> Seq<char> {
    seq!['.', '.']
}

/// The component that stands for the root of an absolute path.
pub open spec fn root_mark() -> Seq<char> {
    seq!['/']
}

/// Whether `p` can be a component of a relative path.
pub open spec fn is_name(p: Seq<char>) -> bool {
    p.len() > 0 && p != dot() && p != dot_dot() && !p.contains('/')
}

/// The pieces that are components: neither empty nor `.`.
pub open spec fn kept(pieces: Seq<Seq<char>>) -> Seq<Seq<char>>
    decreases pieces.len(),
{
    if pieces.len() == 0 {
        seq![]
    } else {
        let front = kept(pieces.drop_last());
        let p = pieces.last();
        if p.len() == 0 || p == dot() {
            front
        } else {
            front.push(p)
        }
    }
}

/// What a path starts with: the root, the current directory, or neither.
pub open spec fn lead(s: Seq<char>) -> Seq<Seq<char>> {
    if s.len() > 0 && s[0] == '/' {
        seq![root_mark()]
    } else if split(s, '/')[0] == dot() {
        seq![dot()]
    } else {
        seq![]
    }
}

/// The components of a Unix path. Repeated separators and inner `.` components
/// do not count; a leading `/` and a leading `.` are components of their own.
pub open spec fn components(s: Seq<char>) -> Seq<Seq<char>> {
    lead(s) + kept(split(s, '/'))
}

/// Whether a component leads out of a directory: the root, or `..`.
pub open spec fn escapes(p: Seq<char>) -> bool {
    p == root_mark() || p == dot_dot()
}

/// The normalized relative path made of the given components, if they stay
/// inside the directory that they are relative to and name something in it.
pub open spec fn from_components(cs: Seq<Seq<char>>) -> Option<Seq<char>> {
    let parts = kept(cs);
    if (exists|i: int| 0 <= i < cs.len() && escapes(#[trigger] cs[i])) || parts.len() == 0 {
        None
    } else {
        Some(join(parts, '/'))
    }
}

/// The normalized form of a relative path.
pub open spec fn normalized(s: Seq<char>) -> Option<Seq<char>> {
    from_components(components(s))
}

/// The normalized path of `full` relative to `root`, when `full` lies under it.
pub open spec fn relative_to(root: Seq<char>, full: Seq<char>) -> Option<Seq<char>> {
    let r = components(root);
    let f = components(full);
    if r.len() <= f.len() && f.take(r.len() as int) == r {
        from_components(f.skip(r.len() as int))
    } else {
        None
    }
}

/// Whether `s` is the text of a normalized relative path.
pub open spec fn is_rel(s: Seq<char>) -> bool {
    forall|i: int| 0 <= i < split(s, '/').len() ==> is_name(#[trigger] split(s, '/')[i])
}

/// `part` appended to the path `base`; an absolute `part` replaces it.
pub open spec fn joined(base: Seq<char>, part: Seq<char>) -> Seq<char> {
    if part.len() > 0 && part[0] == '/' {
        part
    } else if base.len() == 0 || base.last() == '/' {
        base + part
    } else {
        base + seq!['/'] + part
    }
}

/// `part` appended to the path `base`; an absolute `part` replaces it.
pub fn join_path(base: &str, part: &str) -> (out: String)
    ensures
        out@ == joined(base@, part@),
{
    let b = chars_of(base);
    let p = chars_of(part);
    if p.len() > 0 && p[0] == '/' {
        return part.to_string();
    }
    let mut out: Vec<char> = Vec::new();
    push_all(&mut out, b.as_slice());
    if b.len() > 0 && b[b.len() - 1] != '/' {
        out.push('/');
    }
    push_all(&mut out, p.as_slice());
    assert(out@ =~= joined(base@, part@));
    string_of(out.as_slice())
}

fn is_dot(p: &Vec<char>) -> (out: bool)
    ensures
        out == (p@ == dot()),
{
    if p.len() == 1 && p[0] == '.' {
        assert(p@ =~= dot());
        true
    } else {
        false
    }
}

fn is_dot_dot(p: &Vec<char>) -> (out: bool)
    ensures
        out == (p@ == dot_dot()),
{
    if p.len() == 2 && p[0] == '.' && p[1] == '.' {
        assert(p@ =~= dot_dot());
        true
    } else {
        false
    }
}

fn is_root_mark(p: &Vec<char>) -> (out: bool)
    ensures
        out == (p@ == root_mark()),
{
    if p.len() == 1 && p[0] == '/' {
        assert(p@ =~= root_mark());
        true
    } else {
        false
    }
}

/// The texts of a sequence of pieces.
pub open spec fn pieces(v: Seq<Vec<char>>) -> Seq<Seq<char>> {
    v.map_values(|p: Vec<char>| p@)
}

/// The components of a Unix path.
pub fn components_of(s: &[char]) -> (out: Vec<Vec<char>>)
    ensures
        pieces(out@) == components(s@),
{
    let parts = split_at_char(s, '/');
    let ghost all = split(s@, '/');
    proof {
        lemma_split(s@, '/');
        assert(pieces(parts@) == all);
        assert(parts@.len() == all.len());
    }
    let mut out: Vec<Vec<char>> = Vec::new();
    if s.len() > 0 && s[0] == '/' {
        let mut mark: Vec<char> = Vec::new();
        mark.push('/');
        assert(mark@ =~= root_mark());
        out.push(mark);
    } else {
        assert(all[0] == parts@[0]@);
        if is_dot(&parts[0]) {
            let mut mark: Vec<char> = Vec::new();
            mark.push('.');
            assert(mark@ =~= dot());
            out.push(mark);
        }
    }
    assert(pieces(out@) =~= lead(s@));
    let mut i: usize = 0;
    assert(all.take(0) =~= Seq::<Seq<char>>::empty());
    assert(pieces(out@) =~= lead(s@) + kept(all.take(0)));
    while i < parts.len()
        invariant
            i <= parts@.len(),
            all == pieces(parts@),
            pieces(out@) == lead(s@) + kept(all.take(i as int)),
        decreases parts.len() - i,
    {
        let ghost before = pieces(out@);
        proof {
            assert(all.take(i + 1).drop_last() =~= all.take(i as int));
            assert(all.take(i + 1).last() == parts@[i as int]@);
        }
        if parts[i].len() > 0 && !is_dot(&parts[i]) {
            let p = piece_of(parts[i].as_slice(), 0, parts[i].len());
            assert(p@ =~= parts@[i as int]@);
            out.push(p);
            assert(pieces(out@) =~= before.push(p@));
            assert(pieces(out@) =~= lead(s@) + kept(all.take(i + 1)));
        }
        i = i + 1;
    }
    assert(all.take(all.len() as int) =~= all);
    out
}

/// The normalized relative path made of the components of `cs` from `start` on.
fn assemble(cs: &Vec<Vec<char>>, start: usize) -> (out: Option<RelPath>)
    requires
        start <= cs@.len(),
        forall|i: int| 0 <= i < pieces(cs@).len() ==> is_component(#[trigger] pieces(cs@)[i]),
    ensures
        match out {
            Some(r) => from_components(pieces(cs@).skip(start as int)) == Some(r@) && is_rel(r@),
            None => from_components(pieces(cs@).skip(start as int)) is None,
        },
{
    let ghost all = pieces(cs@).skip(start as int);
    proof {
        lemma_from_components(all);
    }
    let mut parts: Vec<Vec<char>> = Vec::new();
    let mut i: usize = start;
    assert(all.take(0) =~= Seq::<Seq<char>>::empty());
    assert(pieces(parts@) =~= kept(all.take(0)));
    while i < cs.len()
        invariant
            start <= i <= cs@.len(),
            all == pieces(cs@).skip(start as int),
            pieces(parts@) == kept(all.take(i - start)),
            forall|k: int| 0 <= k < i - start ==> !escapes(#[trigger] all[k]),
        decreases cs.len() - i,
    {
        let ghost k: int = i - start;
        assert(all[k] == cs@[i as int]@);
        if is_root_mark(&cs[i]) || is_dot_dot(&cs[i]) {
            assert(escapes(all[k]));
            return None;
        }
        let ghost before = pieces(parts@);
        proof {
            assert(all.take(k + 1).drop_last() =~= all.take(k));
            assert(all.take(k + 1).last() == all[k]);
        }
        if cs[i].len() > 0 && !is_dot(&cs[i]) {
            let p = piece_of(cs[i].as_slice(), 0, cs[i].len());
            assert(p@ =~= cs@[i as int]@);
            parts.push(p);
            assert(pieces(parts@) =~= before.push(p@));
        }
        i = i + 1;
    }
    assert(all.take(all.len() as int) =~= all);
    assert(parts@.len() == kept(all).len());
    if parts.len() == 0 {
        return None;
    }
    let text = join_with(&parts, '/');
    Some(RelPath { text: string_of(text.as_slice()) })
}

/// A path that may be missing.
pub open spec fn path_opt(p: Option<RelPath>) -> Option<Seq<char>> {
    match p {
        Some(r) => Some(r@),
        None => None,
    }
}

impl RelPath {
    /// Build a `RelPath` from `full` interpreted as relative to `root`.
    ///
    /// Returns `None` if `full` is not under `root` or escapes it via `..`.
    pub fn from_base(root: &str, full: &str) -> (out: Option<RelPath>)
        ensures
            match out {
                Some(r) => relative_to(root@, full@) == Some(r@) && is_rel(r@),
                None => relative_to(root@, full@) is None,
            },
    {
        let rv = chars_of(root);
        let fv = chars_of(full);
        let r = components_of(rv.as_slice());
        let f = components_of(fv.as_slice());
        let ghost rs = components(root@);
        let ghost fs = components(full@);
        assert(r@.len() == rs.len() && f@.len() == fs.len()) by {
            assert(pieces(r@).len() == r@.len());
            assert(pieces(f@).len() == f@.len());
        }
        if r.len() > f.len() {
            return None;
        }
        let mut i: usize = 0;
        while i < r.len()
            invariant
                i <= r@.len() <= f@.len(),
                pieces(r@) == rs,
                pieces(f@) == fs,
                rs == components(root@),
                fs == components(full@),
                r@.len() == rs.len(),
                f@.len() == fs.len(),
                forall|k: int| 0 <= k < i ==> rs[k] == fs[k],
            decreases r.len() - i,
        {
            assert(rs[i as int] == r@[i as int]@);
            assert(fs[i as int] == f@[i as int]@);
            let a = string_of(r[i].as_slice());
            let b = string_of(f[i].as_slice());
            if !crate::text::same(a.as_str(), b.as_str()) {
                assert(fs.take(rs.len() as int)[i as int] != rs[i as int]);
                return None;
            }
            i = i + 1;
        }
        assert(fs.take(rs.len() as int) =~= rs);
        proof {
            lemma_components(full@);
        }
        assemble(&f, r.len())
    }

    /// Build a `RelPath` from an already-relative path, normalizing separators.
    pub fn from_relative(rel: &str) -> (out: Option<RelPath>)
        ensures
            match out {
                Some(r) => normalized(rel@) == Some(r@) && is_rel(r@),
                None => normalized(rel@) is None,
            },
    {
        let v = chars_of(rel);
        let cs = components_of(v.as_slice());
        proof {
            assert(components(rel@).skip(0) =~= components(rel@));
            lemma_components(rel@);
        }
        assemble(&cs, 0)
    }

    /// The path as a `/`-separated string.
    pub fn as_str(&self) -> (out: &str)
        ensures
            out@ == self@,
            is_rel(self@),
    {
        proof {
            use_type_invariant(self);
        }
        self.text.as_str()
    }

    /// Resolve this path against a local root directory.
    pub fn to_local(&self, root: &str) -> (out: String)
        ensures
            out@ == joined(root@, self@),
    {
        join_path(root, self.text.as_str())
    }

    /// The name of the file: the last segment of the path.
    pub fn name(&self) -> (out: String)
        ensures
            out@ == last_name(self@),
            is_name(out@),
    {
        proof {
            use_type_invariant(self);
            lemma_split(self@, '/');
            lemma_last_name(self@);
        }
        let v = chars_of(self.text.as_str());
        let at = folder_end(v.as_slice());
        let name = piece_of(v.as_slice(), at, v.len());
        assert(name@ =~= last_name(self@));
        string_of(name.as_slice())
    }

    /// The file called `name` in the same directory.
    pub fn sibling(&self, name: &str) -> (out: RelPath)
        requires
            is_name(name@),
        ensures
            out@ == folder(self@) + name@,
            is_rel(out@),
    {
        proof {
            use_type_invariant(self);
            lemma_last_name(self@);
            lemma_renamed(self@, name@);
        }
        let v = chars_of(self.text.as_str());
        let at = folder_end(v.as_slice());
        let front = piece_of(v.as_slice(), 0, at);
        let text = cat(string_of(front.as_slice()).as_str(), name);
        assert(front@ =~= folder(self@));
        RelPath { text }
    }
}

/// The last segment of a path.
pub open spec fn last_name(s: Seq<char>) -> Seq<char> {
    split(s, '/').last()
}

/// What stands before the last segment of a path.
pub open spec fn folder(s: Seq<char>) -> Seq<char> {
    s.take(s.len() - last_name(s).len())
}

/// Where the last segment of a path begins.
fn folder_end(v: &[char]) -> (out: usize)
    ensures
        out == folder(v@).len(),
        out <= v@.len(),
{
    let mut i: usize = v.len();
    while i > 0 && v[i - 1] != '/'
        invariant
            i <= v.len(),
            forall|j: int| i <= j < v.len() ==> v@[j] != '/',
        decreases i,
    {
        i = i - 1;
    }
    proof {
        lemma_last_name_is(v@, i as int);
        lemma_last_name(v@);
    }
    i
}

/// The last segment is what follows the last separator.
proof fn lemma_last_name_is(s: Seq<char>, i: int)
    requires
        0 <= i <= s.len(),
        i > 0 ==> s[i - 1] == '/',
        forall|j: int| i <= j < s.len() ==> s[j] != '/',
    ensures
        last_name(s) == s.skip(i),
{
    let last = s.skip(i);
    assert(!last.contains('/')) by {
        if last.contains('/') {
            let j = choose|j: int| 0 <= j < last.len() && last[j] == '/';
            assert(s[i + j] == '/');
        }
    }
    lemma_first_index(last, '/');
    assert(split(last, '/') =~= seq![last]);
    if i > 0 {
        let a = s.take(i - 1);
        assert(s =~= a + seq!['/'] + last);
        lemma_split_concat(a, last);
    } else {
        assert(last =~= s);
    }
}

/// Where what follows the last separator begins.
proof fn last_begin(s: Seq<char>) -> (i: int)
    ensures
        0 <= i <= s.len(),
        i > 0 ==> s[i - 1] == '/',
        forall|j: int| i <= j < s.len() ==> s[j] != '/',
    decreases s.len(),
{
    if s.len() == 0 || s.last() == '/' {
        s.len() as int
    } else {
        let front = s.drop_last();
        let i = last_begin(front);
        assert forall|j: int| i <= j < s.len() implies s[j] != '/' by {
            if j < front.len() {
                assert(front[j] != '/');
            }
        }
        i
    }
}

/// A path is its folder, then its last segment, which holds no separator.
proof fn lemma_last_name(s: Seq<char>)
    ensures
        last_name(s).len() <= s.len(),
        s == folder(s) + last_name(s),
        folder(s).len() > 0 ==> folder(s).last() == '/',
        !last_name(s).contains('/'),
{
    let i = last_begin(s);
    lemma_last_name_is(s, i);
    assert(folder(s) =~= s.take(i));
    assert(s =~= s.take(i) + s.skip(i));
    lemma_split(s, '/');
}

/// Another name in the folder of a normalized path gives a normalized path.
pub proof fn lemma_renamed(s: Seq<char>, name: Seq<char>)
    requires
        is_rel(s),
        is_name(name),
    ensures
        is_rel(folder(s) + name),
        last_name(folder(s) + name) == name,
        folder(folder(s) + name) == folder(s),
{
    lemma_last_name(s);
    let out = folder(s) + name;
    lemma_first_index(name, '/');
    assert(split(name, '/') =~= seq![name]);
    let n = folder(s).len() as int;
    if n > 0 {
        let a = folder(s).drop_last();
        assert(out =~= a + seq!['/'] + name);
        lemma_split_concat(a, name);
        assert(s =~= a + seq!['/'] + last_name(s));
        lemma_split_concat(a, last_name(s));
        lemma_first_index(last_name(s), '/');
        assert(split(last_name(s), '/') =~= seq![last_name(s)]);
        assert forall|i: int| 0 <= i < split(out, '/').len() implies is_name(
            #[trigger] split(out, '/')[i],
        ) by {
            if i < split(a, '/').len() {
                assert(split(s, '/')[i] == split(a, '/')[i]);
            }
        }
    } else {
        assert(out =~= name);
    }
    assert(folder(out) =~= folder(s));
}

// ---------------------------------------------------------------------------
// Facts about components
// ---------------------------------------------------------------------------

/// What is kept is neither empty nor `.` and comes from the pieces.
proof fn lemma_kept(ps: Seq<Seq<char>>)
    ensures
        forall|i: int|
            0 <= i < kept(ps).len() ==> {
                let p = #[trigger] kept(ps)[i];
                p.len() > 0 && p != dot() && ps.contains(p)
            },
    decreases ps.len(),
{
    if ps.len() > 0 {
        let front = ps.drop_last();
        lemma_kept(front);
        assert forall|i: int| 0 <= i < kept(ps).len() implies {
            let p = #[trigger] kept(ps)[i];
            p.len() > 0 && p != dot() && ps.contains(p)
        } by {
            let p = kept(ps)[i];
            if i < kept(front).len() {
                assert(p == kept(front)[i]);
                let j = choose|j: int| 0 <= j < front.len() && front[j] == p;
                assert(ps[j] == p);
            } else {
                assert(ps[ps.len() - 1] == p);
            }
        }
    }
}

/// Keeping distributes over concatenation.
proof fn lemma_kept_concat(a: Seq<Seq<char>>, b: Seq<Seq<char>>)
    ensures
        kept(a + b) == kept(a) + kept(b),
    decreases b.len(),
{
    if b.len() == 0 {
        assert(a + b =~= a);
        assert(kept(a) + kept(b) =~= kept(a));
    } else {
        lemma_kept_concat(a, b.drop_last());
        assert((a + b).drop_last() =~= a + b.drop_last());
        assert((a + b).last() == b.last());
        assert(kept(a + b) =~= kept(a) + kept(b));
    }
}

/// Names are all kept.
proof fn lemma_kept_names(ps: Seq<Seq<char>>)
    requires
        forall|i: int| 0 <= i < ps.len() ==> is_name(#[trigger] ps[i]),
    ensures
        kept(ps) == ps,
    decreases ps.len(),
{
    if ps.len() > 0 {
        assert(is_name(ps[ps.len() - 1]));
        assert forall|i: int| 0 <= i < ps.drop_last().len() implies is_name(
            #[trigger] ps.drop_last()[i],
        ) by {
            assert(ps[i] == ps.drop_last()[i]);
        }
        lemma_kept_names(ps.drop_last());
        assert(kept(ps) =~= ps);
    } else {
        assert(kept(ps) =~= ps);
    }
}

/// Whether a component is the root mark or holds no separator.
pub open spec fn is_component(c: Seq<char>) -> bool {
    c == root_mark() || !c.contains('/')
}

/// A component of a path is the root mark or holds no separator.
proof fn lemma_components(s: Seq<char>)
    ensures
        forall|i: int| 0 <= i < components(s).len() ==> is_component(#[trigger] components(s)[i]),
{
    let ps = split(s, '/');
    lemma_split(s, '/');
    lemma_kept(ps);
    assert forall|i: int| 0 <= i < components(s).len() implies is_component(
        #[trigger] components(s)[i],
    ) by {
        let c = components(s)[i];
        if i < lead(s).len() {
            assert(c == lead(s)[i]);
            if c == dot() && c.contains('/') {
                let j = choose|j: int| 0 <= j < c.len() && c[j] == '/';
                assert(c[j] == '.');
            }
        } else {
            let k = kept(ps)[i - lead(s).len()];
            assert(c == k);
            let j = choose|j: int| 0 <= j < ps.len() && ps[j] == k;
            assert(!ps[j].contains('/'));
        }
    }
}

/// A path made of components is normalized.
proof fn lemma_from_components(cs: Seq<Seq<char>>)
    requires
        forall|i: int| 0 <= i < cs.len() ==> is_component(#[trigger] cs[i]),
    ensures
        from_components(cs) matches Some(t) ==> is_rel(t),
{
    let parts = kept(cs);
    if from_components(cs) is Some {
        lemma_kept(cs);
        assert forall|i: int| 0 <= i < parts.len() implies is_name(#[trigger] parts[i]) by {
            let p = parts[i];
            let j = choose|j: int| 0 <= j < cs.len() && cs[j] == p;
            assert(is_component(cs[j]) && !escapes(cs[j]));
        }
        lemma_split_join(parts, '/');
    }
}

/// Splitting at a separator splits the text on either side of it.
proof fn lemma_split_concat(a: Seq<char>, b: Seq<char>)
    ensures
        split(a + seq!['/'] + b, '/') == split(a, '/') + split(b, '/'),
    decreases a.len(),
{
    let s = a + seq!['/'] + b;
    let i = first_index(a, '/');
    lemma_first_index(a, '/');
    if i < a.len() {
        assert forall|j: int| 0 <= j < i implies s[j] != '/' by {
            assert(s[j] == a[j]);
        }
        assert(s[i] == a[i]);
        lemma_first_index_is(s, '/', i);
        assert(s.take(i) =~= a.take(i));
        assert(s.skip(i + 1) =~= a.skip(i + 1) + seq!['/'] + b);
        lemma_split_concat(a.skip(i + 1), b);
        assert(split(s, '/') =~= split(a, '/') + split(b, '/'));
    } else {
        let n = a.len() as int;
        assert forall|j: int| 0 <= j < n implies s[j] != '/' by {
            assert(s[j] == a[j]);
        }
        assert(s[n] == '/');
        lemma_first_index_is(s, '/', n);
        assert(s.take(n) =~= a);
        assert(s.skip(n + 1) =~= b);
        assert(split(s, '/') =~= split(a, '/') + split(b, '/'));
    }
}

/// A normalized relative path starts with neither the root nor `.`, and its
/// components are its pieces.
proof fn lemma_rel_components(r: Seq<char>)
    requires
        is_rel(r),
    ensures
        components(r) == split(r, '/'),
        r.len() > 0,
        r[0] != '/',
{
    let ps = split(r, '/');
    lemma_split(r, '/');
    assert(is_name(ps[0]));
    lemma_kept_names(ps);
    let i = first_index(r, '/');
    lemma_first_index(r, '/');
    if i < r.len() {
        assert(ps[0] == r.take(i));
        assert(r.take(i)[0] == r[0]);
    } else {
        assert(ps[0] == r);
        assert(!r.contains('/'));
    }
    assert(lead(r) =~= Seq::<Seq<char>>::empty());
    assert(components(r) =~= ps);
}

/// The components of a joined path are those of the base, then those of the
/// relative path.
proof fn lemma_joined_components(base: Seq<char>, r: Seq<char>)
    requires
        is_rel(r),
    ensures
        components(joined(base, r)) == components(base) + split(r, '/'),
{
    let full = joined(base, r);
    let ps = split(r, '/');
    lemma_rel_components(r);
    lemma_kept_names(ps);
    lemma_split(base, '/');
    if base.len() == 0 {
        assert(full =~= r);
        lemma_first_index(base, '/');
        assert(split(base, '/') =~= seq![base]);
        assert(kept(seq![base]) =~= Seq::<Seq<char>>::empty()) by {
            reveal_with_fuel(kept, 2);
            assert(seq![base].drop_last() =~= Seq::<Seq<char>>::empty());
        }
        assert(components(base) =~= Seq::<Seq<char>>::empty());
        assert(components(full) =~= components(base) + ps);
    } else {
        let a = if base.last() == '/' { base.drop_last() } else { base };
        assert(full =~= a + seq!['/'] + r);
        lemma_split_concat(a, r);
        lemma_kept_concat(split(a, '/'), ps);
        lemma_split(a, '/');
        if base.last() == '/' {
            let empty = Seq::<char>::empty();
            assert(base =~= a + seq!['/'] + empty);
            lemma_split_concat(a, empty);
            lemma_first_index(empty, '/');
            assert(split(empty, '/') =~= seq![empty]);
            lemma_kept_concat(split(a, '/'), seq![empty]);
            assert(kept(seq![empty]) =~= Seq::<Seq<char>>::empty()) by {
                reveal_with_fuel(kept, 2);
                assert(seq![empty].drop_last() =~= Seq::<Seq<char>>::empty());
            }
            assert(kept(split(base, '/')) =~= kept(split(a, '/')));
            assert(split(base, '/')[0] == split(a, '/')[0]);
        }
        assert(split(full, '/')[0] == split(a, '/')[0]);
        assert(full[0] == base[0]);
        assert(lead(full) == lead(base));
        assert(components(full) =~= components(base) + ps);
    }
}

// ---------------------------------------------------------------------------
// Laws
// ---------------------------------------------------------------------------

/// Normalizing a normalized relative path changes nothing.
pub proof fn law_normalized_is_stable(r: Seq<char>)
    requires
        is_rel(r),
    ensures
        normalized(r) == Some(r),
{
    let ps = split(r, '/');
    lemma_rel_components(r);
    lemma_split(r, '/');
    lemma_kept_names(ps);
    assert forall|i: int| 0 <= i < ps.len() implies !escapes(#[trigger] ps[i]) by {
        assert(is_name(ps[i]));
        if ps[i] == root_mark() {
            assert(ps[i][0] == '/');
        }
    }
}

/// Every normalized path is a relative path that stays under its root.
pub proof fn law_normalized_is_relative(s: Seq<char>)
    ensures
        normalized(s) matches Some(r) ==> is_rel(r),
{
    lemma_components(s);
    lemma_from_components(components(s));
}

/// Resolving a relative path against a root and reading it back relative to the
/// same root gives the relative path.
pub proof fn law_local_round_trip(root: Seq<char>, r: Seq<char>)
    requires
        is_rel(r),
    ensures
        relative_to(root, joined(root, r)) == Some(r),
{
    let ps = split(r, '/');
    lemma_joined_components(root, r);
    let f = components(root) + ps;
    let n = components(root).len() as int;
    assert(f.take(n) =~= components(root));
    assert(f.skip(n) =~= ps);
    law_normalized_is_stable(r);
    lemma_rel_components(r);
}

/// A relative path resolves to different places for different keys.
pub proof fn law_local_is_injective(root: Seq<char>, a: Seq<char>, b: Seq<char>)
    requires
        is_rel(a),
        is_rel(b),
        joined(root, a) == joined(root, b),
    ensures
        a == b,
{
    law_local_round_trip(root, a);
    law_local_round_trip(root, b);
}

/// Names with a separator between each two are a normalized path, which normalizing
/// keeps as it is. Any text without a separator is a name, one that starts with a dot
/// too, but for the empty one, `.` and `..`.
pub proof fn law_names_make_a_path(names: Seq<Seq<char>>)
    requires
        names.len() > 0,
        forall|i: int|
            0 <= i < names.len() ==> (#[trigger] names[i]).len() > 0 && names[i] != seq!['.']
                && names[i] != seq!['.', '.'] && !names[i].contains('/'),
    ensures
        is_rel(join(names, '/')),
        split(join(names, '/'), '/') == names,
        normalized(join(names, '/')) == Some(join(names, '/')),
        last_name(join(names, '/')) == names.last(),
{
    assert forall|i: int| 0 <= i < names.len() implies !(#[trigger] names[i]).contains('/') by {
        assert(names[i].len() > 0);
    }
    lemma_split_join(names, '/');
    assert forall|i: int| 0 <= i < names.len() implies is_name(#[trigger] names[i]) by {
        assert(names[i].len() > 0);
    }
    law_normalized_is_stable(join(names, '/'));
}

/// The pieces of a normalized path are names.
pub proof fn law_paths_are_made_of_names(r: Seq<char>, i: int)
    requires
        is_rel(r),
        0 <= i < split(r, '/').len(),
    ensures
        split(r, '/')[i].len() > 0,
        split(r, '/')[i] != seq!['.'],
        split(r, '/')[i] != seq!['.', '.'],
        !split(r, '/')[i].contains('/'),
        r == join(split(r, '/'), '/'),
{
    assert(is_name(split(r, '/')[i]));
    lemma_split(r, '/');
}

/// A path that is absolute, or that has a `..` in it, stands for nothing inside of the
/// directory that it is relative to.
pub proof fn law_leading_out_is_refused(s: Seq<char>, i: int)
    requires
        (s.len() > 0 && s[0] == '/') || (0 <= i < split(s, '/').len() && split(s, '/')[i] == seq![
            '.',
            '.',
        ]),
    ensures
        normalized(s) is None,
{
    let cs = components(s);
    if s.len() > 0 && s[0] == '/' {
        assert(cs[0] == root_mark());
        assert(escapes(cs[0]));
    } else {
        let ps = split(s, '/');
        assert(ps[i].len() == 2 && dot().len() == 1);
        lemma_kept_has(ps, i);
        let k = choose|k: int| 0 <= k < kept(ps).len() && kept(ps)[k] == ps[i];
        assert(cs[lead(s).len() + k] == ps[i]);
        assert(escapes(cs[lead(s).len() + k]));
    }
}

proof fn lemma_kept_has(ps: Seq<Seq<char>>, i: int)
    requires
        0 <= i < ps.len(),
        ps[i].len() > 0,
        ps[i] != dot(),
    ensures
        exists|k: int| 0 <= k < kept(ps).len() && kept(ps)[k] == ps[i],
    decreases ps.len(),
{
    let front = ps.drop_last();
    if i < front.len() {
        lemma_kept_has(front, i);
        let k = choose|k: int| 0 <= k < kept(front).len() && kept(front)[k] == front[i];
        assert(kept(ps)[k] == ps[i]);
    } else {
        assert(kept(ps)[kept(front).len() as int] == ps[i]);
    }
}

/// Normalizing takes out what says nothing: a `.` at the start or between two names, a
/// doubled separator, one at the end. All else stays.
pub proof fn law_normalizing_takes_out_nothing_else(a: Seq<char>, b: Seq<char>)
    requires
        is_rel(a),
        is_rel(b),
    ensures
        normalized(a + seq!['/'] + b) == Some(a + seq!['/'] + b),
        normalized(a + seq!['/', '/'] + b) == Some(a + seq!['/'] + b),
        normalized(a + seq!['/', '.', '/'] + b) == Some(a + seq!['/'] + b),
        normalized(a + seq!['/']) == Some(a),
        normalized(seq!['.', '/'] + a) == Some(a),
{
    let pa = split(a, '/');
    let pb = split(b, '/');
    let ab = a + seq!['/'] + b;
    let empty = Seq::<char>::empty();
    lemma_rel_components(a);
    lemma_rel_components(b);
    lemma_split(a, '/');
    lemma_split(b, '/');
    lemma_split_concat(a, b);
    assert forall|i: int| 0 <= i < split(ab, '/').len() implies is_name(
        #[trigger] split(ab, '/')[i],
    ) by {
        if i < pa.len() {
            assert(is_name(pa[i]));
        } else {
            assert(is_name(pb[i - pa.len()]));
        }
    }
    law_normalized_is_stable(ab);
    lemma_rel_components(ab);
    lemma_kept_names(pa);
    lemma_kept_names(pb);
    lemma_kept_names(pa + pb);
    lemma_first_index(empty, '/');
    assert(split(empty, '/') =~= seq![empty]);
    lemma_first_index(dot(), '/');
    assert(split(dot(), '/') =~= seq![dot()]);
    lemma_kept_nothing(empty);
    lemma_kept_nothing(dot());

    let doubled = a + seq!['/', '/'] + b;
    let ae = a + seq!['/'] + empty;
    lemma_split_concat(a, empty);
    assert(doubled =~= ae + seq!['/'] + b);
    lemma_split_concat(ae, b);
    lemma_kept_concat(pa, seq![empty]);
    lemma_kept_concat(pa + seq![empty], pb);
    assert(kept(split(doubled, '/')) =~= pa + pb);
    assert(doubled[0] == a[0]);
    assert(split(doubled, '/')[0] == pa[0]);
    assert(components(doubled) =~= components(ab));

    let dotted = a + seq!['/', '.', '/'] + b;
    let ad = a + seq!['/'] + dot();
    lemma_split_concat(a, dot());
    assert(dotted =~= ad + seq!['/'] + b);
    lemma_split_concat(ad, b);
    lemma_kept_concat(pa, seq![dot()]);
    lemma_kept_concat(pa + seq![dot()], pb);
    assert(kept(split(dotted, '/')) =~= pa + pb);
    assert(dotted[0] == a[0]);
    assert(split(dotted, '/')[0] == pa[0]);
    assert(components(dotted) =~= components(ab));

    let ended = a + seq!['/'];
    assert(ended =~= ae);
    assert(kept(split(ended, '/')) =~= pa);
    assert(ended[0] == a[0]);
    assert(split(ended, '/')[0] == pa[0]);
    assert(components(ended) =~= components(a));
    law_normalized_is_stable(a);

    let here = seq!['.', '/'] + a;
    assert(here =~= dot() + seq!['/'] + a);
    lemma_split_concat(dot(), a);
    lemma_kept_concat(seq![dot()], pa);
    assert(kept(split(here, '/')) =~= pa);
    assert(split(here, '/')[0] == dot());
    assert(components(here) =~= seq![dot()] + pa);
    let cs = components(here);
    assert(kept(cs) =~= pa);
    assert forall|i: int| 0 <= i < cs.len() implies !escapes(#[trigger] cs[i]) by {
        if i > 0 {
            assert(cs[i] == pa[i - 1]);
            assert(is_name(pa[i - 1]));
            if pa[i - 1] == root_mark() {
                assert(pa[i - 1][0] == '/');
            }
        } else {
            assert(dot()[0] == '.');
            assert(dot().len() == 1);
        }
    }
}

proof fn lemma_kept_nothing(p: Seq<char>)
    requires
        p.len() == 0 || p == dot(),
    ensures
        kept(seq![p]) == Seq::<Seq<char>>::empty(),
{
    reveal_with_fuel(kept, 2);
    assert(seq![p].drop_last() =~= Seq::<Seq<char>>::empty());
}

/// The path of a file relative to a root leads from that root back to the file.
pub proof fn law_relative_path_leads_back(root: Seq<char>, full: Seq<char>, r: Seq<char>)
    requires
        relative_to(root, full) == Some(r),
    ensures
        is_rel(r),
        relative_to(root, joined(root, r)) == Some(r),
        kept(components(joined(root, r)).skip(components(root).len() as int)) == kept(
            components(full).skip(components(root).len() as int),
        ),
        components(full).take(components(root).len() as int) == components(root),
{
    let n = components(root).len() as int;
    let cs = components(full).skip(n);
    lemma_components(full);
    assert forall|i: int| 0 <= i < cs.len() implies is_component(#[trigger] cs[i]) by {
        assert(cs[i] == components(full)[n + i]);
    }
    lemma_from_components(cs);
    law_local_round_trip(root, r);
    lemma_joined_components(root, r);
    assert(components(joined(root, r)).skip(n) =~= split(r, '/'));
    lemma_split(r, '/');
    lemma_kept_names(split(r, '/'));
    lemma_kept(cs);
    assert forall|i: int| 0 <= i < kept(cs).len() implies !(#[trigger] kept(cs)[i]).contains('/') by {
        let j = choose|j: int| 0 <= j < cs.len() && cs[j] == kept(cs)[i];
        assert(is_component(cs[j]) && !escapes(cs[j]));
    }
    lemma_split_join(kept(cs), '/');
}

/// A path under a root is the root, a separator and the path.
pub proof fn law_joining_appends(root: Seq<char>, r: Seq<char>)
    requires
        is_rel(r),
        root.len() > 0,
        root.last() != '/',
    ensures
        joined(root, r) == root + seq!['/'] + r,
        joined(root.push('/'), r) == root + seq!['/'] + r,
        relative_to(root, root + seq!['/'] + r) == Some(r),
{
    lemma_rel_components(r);
    law_local_round_trip(root, r);
    assert(root.push('/') + r =~= root + seq!['/'] + r);
}

/// A file and its sibling lie in the same directory.
pub proof fn law_siblings_share_a_directory(s: Seq<char>, name: Seq<char>)
    requires
        is_rel(s),
        is_name(name),
    ensures
        split(folder(s) + name, '/') == split(s, '/').drop_last().push(name),
        s == folder(s) + split(s, '/').last(),
{
    lemma_last_name(s);
    lemma_first_index(name, '/');
    assert(split(name, '/') =~= seq![name]);
    let last = last_name(s);
    lemma_first_index(last, '/');
    assert(split(last, '/') =~= seq![last]);
    let n = folder(s).len() as int;
    if n > 0 {
        let a = folder(s).drop_last();
        assert(folder(s) + name =~= a + seq!['/'] + name);
        lemma_split_concat(a, name);
        assert(s =~= a + seq!['/'] + last);
        lemma_split_concat(a, last);
        assert((split(a, '/') + seq![last]).drop_last() =~= split(a, '/'));
        assert(split(folder(s) + name, '/') =~= split(s, '/').drop_last().push(name));
    } else {
        assert(folder(s) + name =~= name);
        assert(s =~= last);
        assert(split(folder(s) + name, '/') =~= split(s, '/').drop_last().push(name));
    }
}

/// The components of a path under a root are those of the root and the names of the path.
pub proof fn law_components_of_a_joined_path(root: Seq<char>, r: Seq<char>)
    requires
        is_rel(r),
    ensures
        components(joined(root, r)) == components(root) + split(r, '/'),
{
    lemma_joined_components(root, r);
}

} // verus!
