//! Text as a sequence of characters: the small algorithms that the rest of the
//! crate builds on, each with a mathematical counterpart over `Seq<char>`.

use vstd::prelude::*;
use vstd::slice::slice_subrange;
use vstd::string::*;
use vstd::utf8::*;

verus! {

/// `String::push`: appends the given character to the end of the string.
pub assume_specification[ String::push ](s: &mut String, c: char)
    ensures
        final(s)@ == old(s)@.push(c),
;

// ---------------------------------------------------------------------------
// Conversions and equality
// ---------------------------------------------------------------------------

/// The texts held by a sequence of strings.
pub open spec fn texts(v: Seq<String>) -> Seq<Seq<char>> {
    v.map_values(|s: String| s@)
}

/// The text held by an optional string.
pub open spec fn text_opt(s: Option<String>) -> Option<Seq<char>> {
    match s {
        Some(t) => Some(t@),
        None => None,
    }
}

/// The characters of `s`.
pub fn chars_of(s: &str) -> (out: Vec<char>)
    ensures
        out@ == s@,
{
    let mut out: Vec<char> = Vec::new();
    for c in it: s.chars()
        invariant
            out@ == it.seq().take(it.index() as int),
            it.seq() == s@,
    {
        out.push(c);
    }
    out
}

/// The string made of the characters `v`.
pub fn string_of(v: &[char]) -> (out: String)
    ensures
        out@ == v@,
{
    let mut out = String::new();
    let mut i: usize = 0;
    while i < v.len()
        invariant
            i <= v.len(),
            out@ == v@.take(i as int),
        decreases v.len() - i,
    {
        out.push(v[i]);
        i = i + 1;
    }
    out
}

/// `a` followed by `b`.
pub fn cat(a: &str, b: &str) -> (out: String)
    ensures
        out@ == a@ + b@,
{
    let mut out = a.to_string();
    out.append(b);
    out
}

/// `a` followed by `b` and `c`.
pub fn cat3(a: &str, b: &str, c: &str) -> (out: String)
    ensures
        out@ == a@ + b@ + c@,
{
    let mut out = cat(a, b);
    out.append(c);
    out
}

/// `a` followed by `b`, `c` and `d`.
pub fn cat4(a: &str, b: &str, c: &str, d: &str) -> (out: String)
    ensures
        out@ == a@ + b@ + c@ + d@,
{
    let mut out = cat3(a, b, c);
    out.append(d);
    out
}

/// `a` followed by `b`, `c`, `d` and `e`.
pub fn cat5(a: &str, b: &str, c: &str, d: &str, e: &str) -> (out: String)
    ensures
        out@ == a@ + b@ + c@ + d@ + e@,
{
    let mut out = cat4(a, b, c, d);
    out.append(e);
    out
}

/// Whether two texts are equal.
pub fn same(a: &str, b: &str) -> (out: bool)
    ensures
        out == (a@ == b@),
{
    let x = a.as_bytes();
    let y = b.as_bytes();
    proof {
        encode_utf8_decode_utf8(a@);
        encode_utf8_decode_utf8(b@);
    }
    if x.len() != y.len() {
        return false;
    }
    let mut i: usize = 0;
    while i < x.len()
        invariant
            x@ == encode_utf8(a@),
            y@ == encode_utf8(b@),
            i <= x@.len() == y@.len(),
            forall|k: int| 0 <= k < i ==> x@[k] == y@[k],
        decreases x.len() - i,
    {
        if x[i] != y[i] {
            return false;
        }
        i = i + 1;
    }
    assert(x@ =~= y@);
    true
}

// ---------------------------------------------------------------------------
// Order
// ---------------------------------------------------------------------------

/// Lexicographic order on byte sequences.
pub open spec fn bytes_less(a: Seq<u8>, b: Seq<u8>) -> bool
    decreases a.len(),
{
    if b.len() == 0 {
        false
    } else if a.len() == 0 {
        true
    } else if a[0] != b[0] {
        a[0] < b[0]
    } else {
        bytes_less(a.skip(1), b.skip(1))
    }
}

/// The order of strings: lexicographic on their UTF-8 bytes.
pub open spec fn less(a: Seq<char>, b: Seq<char>) -> bool {
    bytes_less(encode_utf8(a), encode_utf8(b))
}

proof fn lemma_bytes_less_irreflexive(a: Seq<u8>)
    ensures
        !bytes_less(a, a),
    decreases a.len(),
{
    if a.len() > 0 {
        lemma_bytes_less_irreflexive(a.skip(1));
    }
}

proof fn lemma_bytes_less_transitive(a: Seq<u8>, b: Seq<u8>, c: Seq<u8>)
    requires
        bytes_less(a, b),
        bytes_less(b, c),
    ensures
        bytes_less(a, c),
    decreases a.len(),
{
    if a.len() > 0 && a[0] == b[0] && b[0] == c[0] {
        lemma_bytes_less_transitive(a.skip(1), b.skip(1), c.skip(1));
    }
}

proof fn lemma_bytes_less_total(a: Seq<u8>, b: Seq<u8>)
    ensures
        a == b || bytes_less(a, b) || bytes_less(b, a),
    decreases a.len(),
{
    if a.len() == 0 || b.len() == 0 {
        if a.len() == b.len() {
            assert(a =~= b);
        }
    } else if a[0] == b[0] {
        lemma_bytes_less_total(a.skip(1), b.skip(1));
        if a.skip(1) == b.skip(1) {
            assert(a =~= seq![a[0]] + a.skip(1));
            assert(b =~= seq![b[0]] + b.skip(1));
        }
    }
}

/// No text comes before itself.
pub broadcast proof fn less_irreflexive(a: Seq<char>)
    ensures
        !#[trigger] less(a, a),
{
    lemma_bytes_less_irreflexive(encode_utf8(a));
}

/// The order is transitive.
pub broadcast proof fn less_transitive(a: Seq<char>, b: Seq<char>, c: Seq<char>)
    requires
        #[trigger] less(a, b),
        #[trigger] less(b, c),
    ensures
        less(a, c),
{
    lemma_bytes_less_transitive(encode_utf8(a), encode_utf8(b), encode_utf8(c));
}

/// Two different texts are ordered one way or the other.
pub proof fn less_total(a: Seq<char>, b: Seq<char>)
    ensures
        a == b || less(a, b) || less(b, a),
{
    lemma_bytes_less_total(encode_utf8(a), encode_utf8(b));
    encode_utf8_decode_utf8(a);
    encode_utf8_decode_utf8(b);
}

/// Whether `a` comes before `b`.
pub fn is_less(a: &str, b: &str) -> (out: bool)
    ensures
        out == less(a@, b@),
{
    let x = a.as_bytes();
    let y = b.as_bytes();
    let mut i: usize = 0;
    assert(x@.skip(0) =~= x@);
    assert(y@.skip(0) =~= y@);
    while i < x.len() && i < y.len() && x[i] == y[i]
        invariant
            x@ == encode_utf8(a@),
            y@ == encode_utf8(b@),
            i <= x@.len(),
            i <= y@.len(),
            less(a@, b@) == bytes_less(x@.skip(i as int), y@.skip(i as int)),
        decreases x.len() - i,
    {
        proof {
            assert(x@.skip(i as int).skip(1) =~= x@.skip(i + 1));
            assert(y@.skip(i as int).skip(1) =~= y@.skip(i + 1));
        }
        i = i + 1;
    }
    if i < x.len() && i < y.len() {
        x[i] < y[i]
    } else {
        i < y.len()
    }
}

// ---------------------------------------------------------------------------
// Searching
// ---------------------------------------------------------------------------

/// A copy of the characters from `i` up to `j`.
pub fn piece_of(v: &[char], i: usize, j: usize) -> (out: Vec<char>)
    requires
        i <= j <= v@.len(),
    ensures
        out@ == v@.subrange(i as int, j as int),
{
    let mut out: Vec<char> = Vec::new();
    let mut k: usize = i;
    while k < j
        invariant
            i <= k <= j <= v@.len(),
            out@ == v@.subrange(i as int, k as int),
        decreases j - k,
    {
        out.push(v[k]);
        k = k + 1;
        assert(v@.subrange(i as int, k as int) =~= v@.subrange(i as int, k - 1).push(v@[k - 1]));
    }
    out
}

/// The index of the first element equal to `x`, or the length when there is none.
pub open spec fn first_index(s: Seq<char>, x: char) -> int
    decreases s.len(),
{
    if s.len() == 0 || s[0] == x {
        0
    } else {
        1 + first_index(s.skip(1), x)
    }
}

pub proof fn lemma_first_index(s: Seq<char>, x: char)
    ensures
        0 <= first_index(s, x) <= s.len(),
        forall|i: int| 0 <= i < first_index(s, x) ==> s[i] != x,
        first_index(s, x) < s.len() ==> s[first_index(s, x)] == x,
        s.contains(x) <==> first_index(s, x) < s.len(),
    decreases s.len(),
{
    if s.len() == 0 {
    } else if s[0] == x {
        assert(s.contains(x));
    } else {
        let t = s.skip(1);
        lemma_first_index(t, x);
        assert forall|i: int| 0 <= i < first_index(s, x) implies s[i] != x by {
            if i > 0 {
                assert(s[i] == t[i - 1]);
            }
        }
        if s.contains(x) {
            let i = choose|i: int| 0 <= i < s.len() && s[i] == x;
            assert(t[i - 1] == x);
        }
        if t.contains(x) {
            let i = choose|i: int| 0 <= i < t.len() && t[i] == x;
            assert(s[i + 1] == x);
        }
    }
}

/// The one index at which an element is equal to `x` with none before it.
pub proof fn lemma_first_index_is(s: Seq<char>, x: char, i: int)
    requires
        0 <= i <= s.len(),
        forall|j: int| 0 <= j < i ==> s[j] != x,
        i < s.len() ==> s[i] == x,
    ensures
        first_index(s, x) == i,
{
    lemma_first_index(s, x);
    let f = first_index(s, x);
    if f < i {
        assert(s[f] != x);
    }
    if i < f {
        assert(s[i] != x);
    }
}

/// The index of the first `x` in `v` at or after `from`, or the length.
pub fn index_from(v: &[char], from: usize, x: char) -> (out: usize)
    requires
        from <= v@.len(),
    ensures
        from <= out <= v@.len(),
        out - from == first_index(v@.skip(from as int), x),
        forall|i: int| from <= i < out ==> v@[i] != x,
        out < v@.len() ==> v@[out as int] == x,
{
    let mut i: usize = from;
    while i < v.len() && v[i] != x
        invariant
            from <= i <= v@.len(),
            forall|k: int| from <= k < i ==> v@[k] != x,
        decreases v.len() - i,
    {
        i = i + 1;
    }
    proof {
        let s = v@.skip(from as int);
        assert forall|j: int| 0 <= j < i - from implies s[j] != x by {
            assert(s[j] == v@[j + from]);
        }
        lemma_first_index_is(s, x, i - from);
    }
    i
}

/// Whether `x` occurs in `v`.
pub fn has_char(v: &[char], x: char) -> (out: bool)
    ensures
        out == v@.contains(x),
{
    let i = index_from(v, 0, x);
    proof {
        assert(v@.skip(0) =~= v@);
        lemma_first_index(v@, x);
    }
    i < v.len()
}

/// Whether `s` starts with `prefix`.
pub open spec fn begins(s: Seq<char>, prefix: Seq<char>) -> bool {
    prefix.len() <= s.len() && s.take(prefix.len() as int) == prefix
}

/// Whether `s` ends with `suffix`.
pub open spec fn ends(s: Seq<char>, suffix: Seq<char>) -> bool {
    s.len() >= suffix.len() && s.skip(s.len() - suffix.len()) == suffix
}

/// Whether `out` can be `path` with a leading `~` that stands alone or before a
/// separator replaced by some home directory, or kept if there is none.
pub open spec fn home_expanded(path: Seq<char>, out: Seq<char>) -> bool {
    if begins(path, seq!['~']) && (path.len() == 1 || path[1] == '/' || path[1] == '\\') {
        ends(out, path.skip(1))
    } else {
        out == path
    }
}

/// Whether `v` starts with `prefix`.
pub fn starts(v: &[char], prefix: &[char]) -> (out: bool)
    ensures
        out == begins(v@, prefix@),
{
    if prefix.len() > v.len() {
        return false;
    }
    let mut i: usize = 0;
    while i < prefix.len()
        invariant
            i <= prefix@.len() <= v@.len(),
            v@.take(i as int) == prefix@.take(i as int),
        decreases prefix.len() - i,
    {
        if v[i] != prefix[i] {
            assert(v@.take(prefix@.len() as int)[i as int] != prefix@[i as int]);
            return false;
        }
        i = i + 1;
        assert(v@.take(i as int) =~= v@.take(i - 1).push(v@[i - 1]));
        assert(prefix@.take(i as int) =~= prefix@.take(i - 1).push(prefix@[i - 1]));
    }
    assert(prefix@.take(prefix@.len() as int) =~= prefix@);
    true
}

/// Whether `needle` occurs in `s` at index `i`.
pub open spec fn occurs_at(s: Seq<char>, needle: Seq<char>, i: int) -> bool {
    0 <= i && i + needle.len() <= s.len() && s.subrange(i, i + needle.len()) == needle
}

/// Whether `needle` occurs somewhere in `s`.
pub open spec fn has_text(s: Seq<char>, needle: Seq<char>) -> bool {
    exists|i: int| occurs_at(s, needle, i)
}

/// Whether `needle` occurs in `v` at index `i`.
fn found_at(v: &[char], needle: &[char], i: usize) -> (out: bool)
    requires
        i + needle@.len() <= v@.len(),
    ensures
        out == occurs_at(v@, needle@, i as int),
{
    let total: usize = v.len();
    assert(i + needle@.len() <= total);
    let window = slice_subrange(v, i, i + needle.len());
    assert(window@.take(needle@.len() as int) =~= window@);
    starts(window, needle)
}

/// Whether `needle` occurs somewhere in `v`.
pub fn contains_text(v: &[char], needle: &[char]) -> (out: bool)
    ensures
        out == has_text(v@, needle@),
{
    if needle.len() > v.len() {
        return false;
    }
    let last: usize = v.len() - needle.len();
    let mut i: usize = 0;
    while i < last
        invariant
            last == v@.len() - needle@.len(),
            i <= last,
            forall|k: int| 0 <= k < i ==> !occurs_at(v@, needle@, k),
        decreases last - i,
    {
        if found_at(v, needle, i) {
            return true;
        }
        i = i + 1;
    }
    found_at(v, needle, last)
}

// ---------------------------------------------------------------------------
// Splitting and joining
// ---------------------------------------------------------------------------

/// The pieces of `s` between the occurrences of `sep`; always at least one.
pub open spec fn split(s: Seq<char>, sep: char) -> Seq<Seq<char>>
    decreases s.len(),
{
    let i = first_index(s, sep);
    if 0 <= i < s.len() {
        seq![s.take(i)] + split(s.skip(i + 1), sep)
    } else {
        seq![s]
    }
}

/// The pieces put together again, with `sep` between them.
pub open spec fn join(parts: Seq<Seq<char>>, sep: char) -> Seq<char>
    decreases parts.len(),
{
    if parts.len() == 0 {
        seq![]
    } else if parts.len() == 1 {
        parts[0]
    } else {
        parts[0] + seq![sep] + join(parts.skip(1), sep)
    }
}

/// No piece holds the separator, and joining the pieces gives the text back.
pub proof fn lemma_split(s: Seq<char>, sep: char)
    ensures
        split(s, sep).len() >= 1,
        forall|i: int| 0 <= i < split(s, sep).len() ==> !(#[trigger] split(s, sep)[i]).contains(sep),
        join(split(s, sep), sep) == s,
    decreases s.len(),
{
    let i = first_index(s, sep);
    lemma_first_index(s, sep);
    if i < s.len() {
        let rest = split(s.skip(i + 1), sep);
        lemma_split(s.skip(i + 1), sep);
        let all = split(s, sep);
        assert(all =~= seq![s.take(i)] + rest);
        assert(all.skip(1) =~= rest);
        assert forall|k: int| 0 <= k < all.len() implies !(#[trigger] all[k]).contains(sep) by {
            if k == 0 {
                if s.take(i).contains(sep) {
                    let j = choose|j: int| 0 <= j < i && s.take(i)[j] == sep;
                    assert(s[j] == sep);
                }
            } else {
                assert(all[k] == rest[k - 1]);
            }
        }
        assert(s =~= s.take(i) + seq![sep] + s.skip(i + 1));
    } else {
        assert(!s.contains(sep));
    }
}

/// Splitting undoes joining when no piece holds the separator.
pub proof fn lemma_split_join(parts: Seq<Seq<char>>, sep: char)
    requires
        parts.len() >= 1,
        forall|i: int| 0 <= i < parts.len() ==> !(#[trigger] parts[i]).contains(sep),
    ensures
        split(join(parts, sep), sep) == parts,
    decreases parts.len(),
{
    let s = join(parts, sep);
    let p = parts[0];
    assert(!p.contains(sep));
    if parts.len() == 1 {
        lemma_first_index(s, sep);
        assert(parts =~= seq![s]);
    } else {
        let rest = parts.skip(1);
        assert forall|i: int| 0 <= i < rest.len() implies !(#[trigger] rest[i]).contains(sep) by {
            assert(rest[i] == parts[i + 1]);
        }
        lemma_split_join(rest, sep);
        let n = p.len() as int;
        assert(s =~= p + seq![sep] + join(rest, sep));
        assert forall|j: int| 0 <= j < n implies s[j] != sep by {
            assert(s[j] == p[j]);
        }
        assert(s[n] == sep);
        lemma_first_index_is(s, sep, n);
        assert(s.take(n) =~= p);
        assert(s.skip(n + 1) =~= join(rest, sep));
        assert(parts =~= seq![p] + rest);
    }
}

/// The pieces of `v` between the occurrences of `sep`.
pub fn split_at_char(v: &[char], sep: char) -> (out: Vec<Vec<char>>)
    ensures
        out@.map_values(|p: Vec<char>| p@) == split(v@, sep),
{
    let mut out: Vec<Vec<char>> = Vec::new();
    let mut start: usize = 0;
    assert(v@.skip(0) =~= v@);
    assert(out@.map_values(|p: Vec<char>| p@) + split(v@, sep) =~= split(v@, sep));
    loop
        invariant
            start <= v@.len(),
            out@.map_values(|p: Vec<char>| p@) + split(v@.skip(start as int), sep) == split(v@, sep),
        decreases v@.len() - start,
    {
        let ghost rest = v@.skip(start as int);
        let end = index_from(v, start, sep);
        let piece = piece_of(v, start, end);
        let ghost before = out@.map_values(|p: Vec<char>| p@);
        out.push(piece);
        let ghost after = out@.map_values(|p: Vec<char>| p@);
        assert(after =~= before.push(piece@));
        if end == v.len() {
            assert(piece@ =~= rest);
            assert(after =~= before + seq![rest]);
            return out;
        }
        proof {
            assert(piece@ =~= rest.take(end - start));
            assert(rest.skip(end - start + 1) =~= v@.skip(end + 1));
            assert(before + (seq![piece@] + split(v@.skip(end + 1), sep)) =~= after + split(
                v@.skip(end + 1),
                sep,
            ));
        }
        start = end + 1;
    }
}

/// Appends the characters of `more` to `out`.
pub fn push_all(out: &mut Vec<char>, more: &[char])
    ensures
        final(out)@ == old(out)@ + more@,
{
    let mut i: usize = 0;
    assert(out@ =~= old(out)@ + more@.take(0));
    while i < more.len()
        invariant
            i <= more@.len(),
            out@ == old(out)@ + more@.take(i as int),
        decreases more.len() - i,
    {
        out.push(more[i]);
        i = i + 1;
        assert(more@.take(i as int) =~= more@.take(i - 1).push(more@[i - 1]));
        assert(out@ =~= old(out)@ + more@.take(i as int));
    }
    assert(more@.take(more@.len() as int) =~= more@);
}

/// Joining with a last piece added.
pub proof fn lemma_join_push(parts: Seq<Seq<char>>, last: Seq<char>, sep: char)
    ensures
        join(parts.push(last), sep) == (if parts.len() == 0 {
            last
        } else {
            join(parts, sep) + seq![sep] + last
        }),
    decreases parts.len(),
{
    let all = parts.push(last);
    if parts.len() == 0 {
    } else {
        assert(all.skip(1) =~= parts.skip(1).push(last));
        lemma_join_push(parts.skip(1), last, sep);
        if parts.len() == 1 {
            assert(parts.skip(1) =~= Seq::<Seq<char>>::empty());
            assert(join(all, sep) =~= parts[0] + seq![sep] + last);
        } else {
            assert(join(all, sep) =~= join(parts, sep) + seq![sep] + last);
        }
    }
}

/// The pieces put together with `sep` between them.
pub fn join_with(parts: &Vec<Vec<char>>, sep: char) -> (out: Vec<char>)
    ensures
        out@ == join(parts@.map_values(|p: Vec<char>| p@), sep),
{
    let ghost all = parts@.map_values(|p: Vec<char>| p@);
    let mut out: Vec<char> = Vec::new();
    let mut i: usize = 0;
    assert(all.take(0) =~= Seq::<Seq<char>>::empty());
    while i < parts.len()
        invariant
            i <= parts@.len(),
            all == parts@.map_values(|p: Vec<char>| p@),
            out@ == join(all.take(i as int), sep),
        decreases parts.len() - i,
    {
        if i > 0 {
            out.push(sep);
        }
        push_all(&mut out, parts[i].as_slice());
        proof {
            lemma_join_push(all.take(i as int), all[i as int], sep);
            assert(all.take(i + 1) =~= all.take(i as int).push(all[i as int]));
            if i == 0 {
                assert(out@ =~= all[0]);
            } else {
                assert(out@ =~= join(all.take(i as int), sep) + seq![sep] + all[i as int]);
            }
        }
        i = i + 1;
    }
    assert(all.take(all.len() as int) =~= all);
    out
}

// ---------------------------------------------------------------------------
// Trimming, words, case
// ---------------------------------------------------------------------------

/// A class of characters that can be trimmed from the ends of a text.
#[derive(Clone, Copy, PartialEq, Eq, Structural, Debug)]
pub enum Class {
    /// Unicode white space.
    Space,
    /// The path separator `/`.
    Slash,
    /// Line feed and carriage return.
    LineEnd,
    /// The double quote.
    Quote,
}

/// Whether `c` has the Unicode property `White_Space`.
pub open spec fn is_space(c: char) -> bool {
    let u = c as u32;
    ||| 0x9 <= u <= 0xd
    ||| u == 0x20
    ||| u == 0x85
    ||| u == 0xa0
    ||| u == 0x1680
    ||| 0x2000 <= u <= 0x200a
    ||| u == 0x2028
    ||| u == 0x2029
    ||| u == 0x202f
    ||| u == 0x205f
    ||| u == 0x3000
}

/// Whether `c` belongs to the class `k`.
pub open spec fn in_class(k: Class, c: char) -> bool {
    match k {
        Class::Space => is_space(c),
        Class::Slash => c == '/',
        Class::LineEnd => c == '\n' || c == '\r',
        Class::Quote => c == '"',
    }
}

/// Whether `c` belongs to the class `k`.
pub fn is_in(k: Class, c: char) -> (out: bool)
    ensures
        out == in_class(k, c),
{
    match k {
        Class::Space => {
            let u = c as u32;
            (0x9 <= u && u <= 0xd) || u == 0x20 || u == 0x85 || u == 0xa0 || u == 0x1680 || (0x2000
                <= u && u <= 0x200a) || u == 0x2028 || u == 0x2029 || u == 0x202f || u == 0x205f
                || u == 0x3000
        },
        Class::Slash => c == '/',
        Class::LineEnd => c == '\n' || c == '\r',
        Class::Quote => c == '"',
    }
}

/// `s` without the characters of class `k` at its start.
pub open spec fn trim_start(s: Seq<char>, k: Class) -> Seq<char>
    decreases s.len(),
{
    if s.len() > 0 && in_class(k, s[0]) {
        trim_start(s.skip(1), k)
    } else {
        s
    }
}

/// `s` without the characters of class `k` at its end.
pub open spec fn trim_end(s: Seq<char>, k: Class) -> Seq<char>
    decreases s.len(),
{
    if s.len() > 0 && in_class(k, s.last()) {
        trim_end(s.drop_last(), k)
    } else {
        s
    }
}

/// `s` without the characters of class `k` at either end.
pub open spec fn trim(s: Seq<char>, k: Class) -> Seq<char> {
    trim_end(trim_start(s, k), k)
}

/// `v` without the characters of class `k` at its start.
pub fn trimmed_start(v: &[char], k: Class) -> (out: Vec<char>)
    ensures
        out@ == trim_start(v@, k),
{
    let mut i: usize = 0;
    assert(v@.skip(0) =~= v@);
    while i < v.len() && is_in(k, v[i])
        invariant
            i <= v@.len(),
            trim_start(v@, k) == trim_start(v@.skip(i as int), k),
        decreases v.len() - i,
    {
        assert(v@.skip(i as int).skip(1) =~= v@.skip(i + 1));
        i = i + 1;
    }
    assert(v@.skip(i as int) =~= v@.subrange(i as int, v@.len() as int));
    piece_of(v, i, v.len())
}

/// `v` without the characters of class `k` at its end.
pub fn trimmed_end(v: &[char], k: Class) -> (out: Vec<char>)
    ensures
        out@ == trim_end(v@, k),
{
    let mut j: usize = v.len();
    assert(v@.take(j as int) =~= v@);
    while j > 0 && is_in(k, v[j - 1])
        invariant
            j <= v@.len(),
            trim_end(v@, k) == trim_end(v@.take(j as int), k),
        decreases j,
    {
        assert(v@.take(j as int).drop_last() =~= v@.take(j - 1));
        j = j - 1;
    }
    assert(v@.take(j as int) =~= v@.subrange(0, j as int));
    piece_of(v, 0, j)
}

/// `v` without the characters of class `k` at either end.
pub fn trimmed(v: &[char], k: Class) -> (out: Vec<char>)
    ensures
        out@ == trim(v@, k),
{
    let front = trimmed_start(v, k);
    trimmed_end(front.as_slice(), k)
}

/// What is left after trimming neither starts nor ends with the class.
pub proof fn lemma_trim(s: Seq<char>, k: Class)
    ensures
        trim(s, k).len() <= s.len(),
        trim(s, k).len() > 0 ==> !in_class(k, trim(s, k)[0]) && !in_class(k, trim(s, k).last()),
        trim(trim(s, k), k) == trim(s, k),
{
    let t = trim_start(s, k);
    lemma_trim_start(s, k);
    lemma_trim_end(t, k);
    let u = trim_end(t, k);
    lemma_trim_start(u, k);
    lemma_trim_end(u, k);
}

/// A text that neither starts nor ends with the class is left as it is.
pub proof fn lemma_trim_none(s: Seq<char>, k: Class)
    requires
        s.len() > 0 ==> !in_class(k, s[0]) && !in_class(k, s.last()),
    ensures
        trim(s, k) == s,
{
    lemma_trim_start(s, k);
    lemma_trim_end(s, k);
}

proof fn lemma_trim_start(s: Seq<char>, k: Class)
    ensures
        trim_start(s, k).len() <= s.len(),
        trim_start(s, k).len() > 0 ==> !in_class(k, trim_start(s, k)[0]),
        s.len() > 0 && !in_class(k, s[0]) ==> trim_start(s, k) == s,
        s.len() == 0 ==> trim_start(s, k) == s,
    decreases s.len(),
{
    if s.len() > 0 && in_class(k, s[0]) {
        lemma_trim_start(s.skip(1), k);
    }
}

proof fn lemma_trim_end(s: Seq<char>, k: Class)
    ensures
        trim_end(s, k).len() <= s.len(),
        trim_end(s, k) == s.take(trim_end(s, k).len() as int),
        trim_end(s, k).len() > 0 ==> !in_class(k, trim_end(s, k).last()),
        s.len() > 0 && !in_class(k, s.last()) ==> trim_end(s, k) == s,
        s.len() == 0 ==> trim_end(s, k) == s,
    decreases s.len(),
{
    if s.len() > 0 && in_class(k, s.last()) {
        lemma_trim_end(s.drop_last(), k);
        let n = trim_end(s, k).len() as int;
        assert(s.drop_last().take(n) =~= s.take(n));
    } else {
        assert(s.take(s.len() as int) =~= s);
    }
}

/// The number of characters of `s` before the first white space.
pub open spec fn word_len(s: Seq<char>) -> int
    decreases s.len(),
{
    if s.len() == 0 || is_space(s[0]) {
        0
    } else {
        1 + word_len(s.skip(1))
    }
}

proof fn lemma_word_len(s: Seq<char>)
    ensures
        0 <= word_len(s) <= s.len(),
        s.len() > 0 && !is_space(s[0]) ==> word_len(s) > 0,
    decreases s.len(),
{
    if s.len() > 0 {
        lemma_word_len(s.skip(1));
    }
}

/// The words of `s`: its longest pieces without white space.
pub open spec fn words(s: Seq<char>) -> Seq<Seq<char>>
    decreases s.len(),
    via words_decreases
{
    let t = trim_start(s, Class::Space);
    if t.len() == 0 {
        seq![]
    } else {
        seq![t.take(word_len(t))] + words(t.skip(word_len(t)))
    }
}

#[via_fn]
proof fn words_decreases(s: Seq<char>) {
    let t = trim_start(s, Class::Space);
    lemma_trim_start(s, Class::Space);
    lemma_word_len(t);
}

/// The words of `v`.
pub fn words_of(v: &[char]) -> (out: Vec<Vec<char>>)
    ensures
        out@.map_values(|p: Vec<char>| p@) == words(v@),
{
    let mut out: Vec<Vec<char>> = Vec::new();
    let mut rest: Vec<char> = trimmed_start(v, Class::Space);
    proof {
        lemma_trim_start(v@, Class::Space);
        lemma_trim_start(rest@, Class::Space);
        assert(words(v@) == words(rest@)) by {
            assert(trim_start(rest@, Class::Space) == rest@);
        }
        assert(out@.map_values(|p: Vec<char>| p@) + words(rest@) =~= words(v@));
    }
    while rest.len() > 0
        invariant
            trim_start(rest@, Class::Space) == rest@,
            rest@.len() > 0 ==> !is_space(rest@[0]),
            out@.map_values(|p: Vec<char>| p@) + words(rest@) == words(v@),
        decreases rest@.len(),
    {
        let mut n: usize = 0;
        assert(rest@.skip(0) =~= rest@);
        while n < rest.len() && !is_in(Class::Space, rest[n])
            invariant
                n <= rest@.len(),
                word_len(rest@) == n + word_len(rest@.skip(n as int)),
            decreases rest.len() - n,
        {
            assert(rest@.skip(n as int).skip(1) =~= rest@.skip(n + 1));
            n = n + 1;
        }
        assert(word_len(rest@) == n);
        let word = piece_of(rest.as_slice(), 0, n);
        let ghost before = out@.map_values(|p: Vec<char>| p@);
        out.push(word);
        let ghost after = out@.map_values(|p: Vec<char>| p@);
        let tail = piece_of(rest.as_slice(), n, rest.len());
        let next = trimmed_start(tail.as_slice(), Class::Space);
        proof {
            lemma_word_len(rest@);
            assert(after =~= before.push(word@));
            assert(word@ =~= rest@.take(n as int));
            assert(tail@ =~= rest@.skip(n as int));
            lemma_trim_start(tail@, Class::Space);
            lemma_trim_start(next@, Class::Space);
            assert(words(tail@) == words(next@));
            assert(before + (seq![word@] + words(tail@)) =~= after + words(next@));
        }
        rest = next;
    }
    assert(words(rest@) =~= Seq::<Seq<char>>::empty());
    assert(out@.map_values(|p: Vec<char>| p@) + words(rest@) =~= out@.map_values(
        |p: Vec<char>| p@,
    ));
    out
}

/// The lower-case form of an ASCII letter; other characters are unchanged.
pub open spec fn lower_char(c: char) -> char {
    if 'A' <= c && c <= 'Z' {
        ((c as u32) + 32) as char
    } else {
        c
    }
}

/// `s` with its ASCII letters in lower case.
pub open spec fn lower(s: Seq<char>) -> Seq<char> {
    s.map_values(|c: char| lower_char(c))
}

/// The lower-case form of an ASCII letter; other characters are unchanged.
pub fn lowered_char(c: char) -> (out: char)
    ensures
        out == lower_char(c),
{
    if 'A' <= c && c <= 'Z' {
        let u = c as u32;
        (u as u8 + 32) as char
    } else {
        c
    }
}

/// `v` with its ASCII letters in lower case.
pub fn lowered(v: &[char]) -> (out: Vec<char>)
    ensures
        out@ == lower(v@),
{
    let mut out: Vec<char> = Vec::new();
    let mut i: usize = 0;
    while i < v.len()
        invariant
            i <= v@.len(),
            out@ == lower(v@.take(i as int)),
        decreases v.len() - i,
    {
        out.push(lowered_char(v[i]));
        i = i + 1;
        assert(lower(v@.take(i as int)) =~= lower(v@.take(i - 1)).push(lower_char(v@[i - 1])));
    }
    assert(v@.take(v@.len() as int) =~= v@);
    out
}

/// Whether `c` is an ASCII letter or digit.
pub open spec fn is_alnum(c: char) -> bool {
    ('a' <= c && c <= 'z') || ('A' <= c && c <= 'Z') || ('0' <= c && c <= '9')
}

/// `s` with `_` in place of everything but ASCII letters and digits.
pub open spec fn safe_name(s: Seq<char>) -> Seq<char> {
    s.map_values(
        |c: char|
            if is_alnum(c) {
                c
            } else {
                '_'
            },
    )
}

/// `s` with `_` in place of everything but ASCII letters and digits.
pub fn sanitize(s: &str) -> (out: String)
    ensures
        out@ == safe_name(s@),
{
    let v = chars_of(s);
    let mut out = String::new();
    let mut i: usize = 0;
    assert(out@ =~= safe_name(v@.take(0)));
    while i < v.len()
        invariant
            i <= v@.len(),
            out@ == safe_name(v@.take(i as int)),
        decreases v.len() - i,
    {
        let c = v[i];
        let safe: char = if ('a' <= c && c <= 'z') || ('A' <= c && c <= 'Z') || ('0' <= c && c
            <= '9') {
            c
        } else {
            '_'
        };
        out.push(safe);
        i = i + 1;
        assert(safe_name(v@.take(i as int)) =~= safe_name(v@.take(i - 1)).push(safe));
    }
    assert(v@.take(v@.len() as int) =~= v@);
    out
}

// ---------------------------------------------------------------------------
// Numbers
// ---------------------------------------------------------------------------

/// Whether `c` is an ASCII digit.
pub open spec fn is_digit(c: char) -> bool {
    '0' <= c && c <= '9'
}

/// Whether every character of `s` is an ASCII digit.
pub open spec fn all_digits(s: Seq<char>) -> bool {
    forall|i: int| 0 <= i < s.len() ==> is_digit(#[trigger] s[i])
}

/// The value of a digit.
pub open spec fn digit_value(c: char) -> int {
    (c as u32) - ('0' as u32)
}

/// The number that a sequence of digits denotes.
pub open spec fn value(s: Seq<char>) -> int
    decreases s.len(),
{
    if s.len() == 0 {
        0
    } else {
        value(s.drop_last()) * 10 + digit_value(s.last())
    }
}

/// The digit that denotes `d`.
pub open spec fn digit(d: int) -> char {
    (('0' as u32) + d) as char
}

/// The decimal form of `n`.
pub open spec fn decimal(n: nat) -> Seq<char>
    decreases n,
{
    if n < 10 {
        seq![digit(n as int)]
    } else {
        decimal(n / 10).push(digit((n % 10) as int))
    }
}

/// The decimal form of a number consists of digits and denotes that number.
pub proof fn lemma_decimal(n: nat)
    ensures
        decimal(n).len() > 0,
        all_digits(decimal(n)),
        value(decimal(n)) == n,
    decreases n,
{
    let d = (n % 10) as int;
    assert(is_digit(digit(d)) && digit_value(digit(d)) == d);
    if n < 10 {
        assert(decimal(n).drop_last() =~= Seq::<char>::empty());
        assert(value(decimal(n).drop_last()) == 0);
    } else {
        lemma_decimal(n / 10);
        assert(decimal(n).drop_last() =~= decimal(n / 10));
    }
}

/// A longer text of digits denotes no smaller number.
proof fn lemma_value_grows(s: Seq<char>, i: int)
    requires
        all_digits(s),
        0 <= i <= s.len(),
    ensures
        0 <= value(s.take(i)) <= value(s),
    decreases s.len() - i,
{
    if i == s.len() {
        assert(s.take(i) =~= s);
        lemma_value_positive(s);
    } else {
        lemma_value_grows(s, i + 1);
        assert(s.take(i + 1).drop_last() =~= s.take(i));
        assert(is_digit(s[i]));
        assert(all_digits(s.take(i)));
        lemma_value_positive(s.take(i));
    }
}

/// Digits denote no negative number.
pub proof fn lemma_value_positive(s: Seq<char>)
    requires
        all_digits(s),
    ensures
        0 <= value(s),
    decreases s.len(),
{
    if s.len() > 0 {
        assert(all_digits(s.drop_last()));
        lemma_value_positive(s.drop_last());
        assert(is_digit(s.last()));
    }
}

/// The decimal form of `n`.
pub fn number(n: u64) -> (out: Vec<char>)
    ensures
        out@ == decimal(n as nat),
    decreases n,
{
    let d: u8 = (n % 10) as u8;
    let c: char = (48u8 + d) as char;
    assert(c == digit((n % 10) as int));
    if n < 10 {
        let mut out: Vec<char> = Vec::new();
        out.push(c);
        assert(out@ =~= decimal(n as nat));
        out
    } else {
        let mut out = number(n / 10);
        out.push(c);
        out
    }
}

/// The number that `s` denotes, read as an unsigned 64-bit integer: an optional
/// `+`, then one or more digits, within range.
pub open spec fn parse_u64(s: Seq<char>) -> Option<u64> {
    let d = if s.len() > 0 && s[0] == '+' { s.skip(1) } else { s };
    if d.len() > 0 && all_digits(d) && value(d) <= u64::MAX {
        Some(value(d) as u64)
    } else {
        None
    }
}

/// Reads `v` as an unsigned 64-bit integer.
pub fn read_u64(v: &[char]) -> (out: Option<u64>)
    ensures
        out == parse_u64(v@),
{
    let start: usize = if v.len() > 0 && v[0] == '+' { 1 } else { 0 };
    let ghost d = v@.skip(start as int);
    assert(start == 0 ==> d =~= v@);
    if start == v.len() {
        return None;
    }
    let mut n: u64 = 0;
    let mut i: usize = start;
    assert(d.take(0) =~= Seq::<char>::empty());
    while i < v.len()
        invariant
            start <= i <= v@.len(),
            d == v@.skip(start as int),
            d == (if v@.len() > 0 && v@[0] == '+' { v@.skip(1) } else { v@ }),
            d.len() > 0,
            all_digits(d.take(i - start)),
            n == value(d.take(i - start)),
        decreases v.len() - i,
    {
        let c = v[i];
        let ghost k: int = i - start;
        assert(d[k] == c);
        if !('0' <= c && c <= '9') {
            assert(!is_digit(d[k]));
            return None;
        }
        assert(is_digit(c));
        let x: u64 = (c as u32 - '0' as u32) as u64;
        proof {
            assert(d.take(k + 1).drop_last() =~= d.take(k));
            assert(d.take(k + 1).last() == c);
            assert(value(d.take(k + 1)) == n * 10 + x);
            assert forall|j: int| 0 <= j < k + 1 implies is_digit(#[trigger] d.take(k + 1)[j]) by {
                if j < k {
                    assert(d.take(k + 1)[j] == d.take(k)[j]);
                }
            }
        }
        if n > (u64::MAX - x) / 10 {
            proof {
                assert(n * 10 + x > u64::MAX);
                if all_digits(d) {
                    lemma_value_grows(d, k + 1);
                }
            }
            return None;
        }
        n = n * 10 + x;
        i = i + 1;
    }
    assert(d.take(d.len() as int) =~= d);
    Some(n)
}

/// Trimming takes off what belongs to the class at either end, and nothing else.
pub proof fn law_trim_takes_off_the_ends(a: Seq<char>, s: Seq<char>, b: Seq<char>, k: Class)
    requires
        forall|i: int| 0 <= i < a.len() ==> in_class(k, #[trigger] a[i]),
        forall|i: int| 0 <= i < b.len() ==> in_class(k, #[trigger] b[i]),
        s.len() > 0 ==> !in_class(k, s[0]) && !in_class(k, s.last()),
    ensures
        trim(a + s + b, k) == s,
        trim_end(s + b, k) == s,
    decreases a.len() + b.len(),
{
    let t = a + s + b;
    if b.len() > 0 {
        assert((s + b).last() == b.last() && in_class(k, b[b.len() - 1]));
        assert((s + b).drop_last() =~= s + b.drop_last());
        law_trim_takes_off_the_ends(Seq::empty(), s, b.drop_last(), k);
    } else {
        assert(s + b =~= s);
        lemma_trim_end(s, k);
    }
    if a.len() > 0 {
        assert(t[0] == a[0] && in_class(k, a[0]));
        assert(t.skip(1) =~= a.skip(1) + s + b);
        assert forall|i: int| 0 <= i < a.skip(1).len() implies in_class(
            k,
            #[trigger] a.skip(1)[i],
        ) by {
            assert(in_class(k, a[i + 1]));
        }
        law_trim_takes_off_the_ends(a.skip(1), s, b, k);
    } else {
        assert(t =~= s + b);
        if s.len() > 0 {
            assert(t[0] == s[0]);
            lemma_trim_start(t, k);
        } else {
            lemma_all_trimmed(b, k);
            assert(t =~= b);
            assert(s =~= Seq::<char>::empty());
        }
    }
}

proof fn lemma_all_trimmed(b: Seq<char>, k: Class)
    requires
        forall|i: int| 0 <= i < b.len() ==> in_class(k, #[trigger] b[i]),
    ensures
        trim(b, k) == Seq::<char>::empty(),
    decreases b.len(),
{
    if b.len() > 0 {
        assert(in_class(k, b[0]));
        assert forall|i: int| 0 <= i < b.skip(1).len() implies in_class(
            k,
            #[trigger] b.skip(1)[i],
        ) by {
            assert(in_class(k, b[i + 1]));
        }
        lemma_all_trimmed(b.skip(1), k);
    } else {
        assert(b =~= Seq::<char>::empty());
        lemma_trim_none(b, k);
    }
}

/// A name made safe for a file system has as many characters as before, keeps its letters
/// and digits, and holds nothing but those and underscores.
pub proof fn law_safe_names_keep_letters_and_digits(s: Seq<char>, i: int)
    requires
        0 <= i < s.len(),
    ensures
        safe_name(s).len() == s.len(),
        ({
            let c = s[i];
            let plain = 'a' <= c <= 'z' || 'A' <= c <= 'Z' || '0' <= c <= '9';
            safe_name(s)[i] == (if plain {
                c
            } else {
                '_'
            })
        }),
{
}

/// The words of a text are what white space parts: the first word is the text up to the
/// white space behind it, and the others are the words of what follows. A text of nothing
/// but white space has none.
pub proof fn law_words_are_parted_by_space(space: Seq<char>, word: Seq<char>, rest: Seq<char>)
    requires
        forall|i: int| 0 <= i < space.len() ==> is_space(#[trigger] space[i]),
        forall|i: int| 0 <= i < word.len() ==> !is_space(#[trigger] word[i]),
        word.len() > 0,
        rest.len() > 0 ==> is_space(rest[0]),
    ensures
        words(space + word + rest) == seq![word] + words(rest),
        words(space) == Seq::<Seq<char>>::empty(),
{
    let s = space + word + rest;
    let t = word + rest;
    lemma_leading(space, t);
    assert(space + t =~= s);
    assert(t[0] == word[0]);
    lemma_word_len_is(t, word.len() as int);
    assert(t.take(word.len() as int) =~= word);
    assert(t.skip(word.len() as int) =~= rest);
    let none = Seq::<char>::empty();
    lemma_leading(space, none);
    assert(space + none =~= space);
}

proof fn lemma_leading(space: Seq<char>, t: Seq<char>)
    requires
        forall|i: int| 0 <= i < space.len() ==> is_space(#[trigger] space[i]),
        t.len() > 0 ==> !is_space(t[0]),
    ensures
        trim_start(space + t, Class::Space) == t,
    decreases space.len(),
{
    let s = space + t;
    if space.len() > 0 {
        assert(is_space(space[0]) && s[0] == space[0]);
        assert(s.skip(1) =~= space.skip(1) + t);
        assert forall|i: int| 0 <= i < space.skip(1).len() implies is_space(
            #[trigger] space.skip(1)[i],
        ) by {
            assert(is_space(space[i + 1]));
        }
        lemma_leading(space.skip(1), t);
    } else {
        assert(s =~= t);
        lemma_trim_start(t, Class::Space);
    }
}

proof fn lemma_word_len_is(s: Seq<char>, n: int)
    requires
        0 <= n <= s.len(),
        forall|i: int| 0 <= i < n ==> !is_space(#[trigger] s[i]),
        n < s.len() ==> is_space(s[n]),
    ensures
        word_len(s) == n,
    decreases n,
{
    if n > 0 {
        assert(!is_space(s[0]));
        assert forall|i: int| 0 <= i < n - 1 implies !is_space(#[trigger] s.skip(1)[i]) by {
            assert(!is_space(s[i + 1]));
        }
        lemma_word_len_is(s.skip(1), n - 1);
    }
}

/// A number that is written out is read back, and a text with anything but digits in it is
/// no number.
pub proof fn law_numbers_are_read_back(n: u64, s: Seq<char>, i: int)
    requires
        1 <= i < s.len(),
        !('0' <= s[i] <= '9'),
    ensures
        parse_u64(decimal(n as nat)) == Some(n),
        parse_u64(s) is None,
        parse_u64(Seq::<char>::empty()) is None,
{
    lemma_decimal(n as nat);
    assert(is_digit(decimal(n as nat)[0]));
    if s[0] == '+' {
        assert(s.skip(1)[i - 1] == s[i]);
        assert(!is_digit(s.skip(1)[i - 1]));
    } else {
        assert(!is_digit(s[i]));
    }
}

/// Trimming the start takes off the white space there, and nothing else.
pub proof fn law_trim_start_takes_off_the_start(space: Seq<char>, t: Seq<char>)
    requires
        forall|i: int| 0 <= i < space.len() ==> is_space(#[trigger] space[i]),
        t.len() > 0 ==> !is_space(t[0]),
    ensures
        trim_start(space + t, Class::Space) == t,
{
    lemma_leading(space, t);
}

} // verus!
