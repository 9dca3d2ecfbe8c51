//! SSH remotes: which host a URL names, which identity files `~/.ssh/config`
//! configures for it, and which credentials to try.

use crate::relpath::{components, components_of, pieces};
use crate::text::{all_digits, begins, cat, chars_of, contains_text, ends, first_index, has_char, has_text, home_expanded,
    index_from, is_digit, is_in, is_space, lemma_first_index, lemma_first_index_is, lower, lowered,
    piece_of, same, split, split_at_char, starts, string_of, text_opt, texts, trim, trim_start,
    trimmed, trimmed_start, words, words_of, Class};
use vstd::prelude::*;

verus! {

// ---------------------------------------------------------------------------
// Host names
// ---------------------------------------------------------------------------

/// The index of the last `x` in `s`, or -1.
pub open spec fn last_index(s: Seq<char>, x: char) -> int
    decreases s.len(),
{
    if s.len() == 0 {
        -1
    } else if s.last() == x {
        s.len() - 1
    } else {
        last_index(s.drop_last(), x)
    }
}

proof fn lemma_last_index_is(s: Seq<char>, x: char, i: int)
    requires
        0 <= i <= s.len(),
        i > 0 ==> s[i - 1] == x,
        forall|j: int| i <= j < s.len() ==> s[j] != x,
    ensures
        last_index(s, x) == i - 1,
    decreases s.len(),
{
    if s.len() > i {
        assert(s[s.len() - 1] != x);
        assert forall|j: int| i <= j < s.drop_last().len() implies s.drop_last()[j] != x by {
            assert(s[j] == s.drop_last()[j]);
        }
        if i > 0 {
            assert(s.drop_last()[i - 1] == s[i - 1]);
        }
        lemma_last_index_is(s.drop_last(), x, i);
    }
}

/// One past the index of the last `x` in `v`, or 0.
fn after_last(v: &[char], x: char) -> (out: usize)
    ensures
        out == last_index(v@, x) + 1,
        out <= v@.len(),
{
    let mut i: usize = v.len();
    while i > 0 && v[i - 1] != x
        invariant
            i <= v@.len(),
            forall|j: int| i <= j < v@.len() ==> v@[j] != x,
        decreases i,
    {
        i = i - 1;
    }
    proof {
        lemma_last_index_is(v@, x, i as int);
    }
    i
}

/// What follows the last `@` of a URL authority.
pub open spec fn without_user(authority: Seq<char>) -> Seq<char> {
    authority.skip(last_index(authority, '@') + 1)
}

/// Whether a text begins with a bracketed part.
pub open spec fn is_bracketed(s: Seq<char>) -> bool {
    s.len() > 0 && s[0] == '[' && s.skip(1).contains(']')
}

/// The bare host of a URL authority (`[user@]host[:port]`): what is inside the
/// brackets of an IPv6 literal, else what stands before a numeric port.
pub open spec fn bare_host(authority: Seq<char>) -> Seq<char> {
    let host = without_user(authority);
    let colon = last_index(host, ':');
    if is_bracketed(host) {
        host.skip(1).take(first_index(host.skip(1), ']'))
    } else if colon >= 0 && colon + 1 < host.len() && all_digits(host.skip(colon + 1)) {
        host.take(colon)
    } else {
        host
    }
}

/// Whether every character is a digit.
fn digits_only(v: &[char]) -> (out: bool)
    ensures
        out == all_digits(v@),
{
    let mut i: usize = 0;
    while i < v.len()
        invariant
            i <= v@.len(),
            forall|j: int| 0 <= j < i ==> is_digit(#[trigger] v@[j]),
        decreases v.len() - i,
    {
        if !('0' <= v[i] && v[i] <= '9') {
            assert(!is_digit(v@[i as int]));
            return false;
        }
        i = i + 1;
    }
    true
}

/// Reduce a URL authority (`[user@]host[:port]`, incl. `[ipv6]:port`) to the
/// bare host.
pub fn strip_host(authority: &[char]) -> (out: Vec<char>)
    ensures
        out@ == bare_host(authority@),
{
    // Drop any `user@` prefix (from the last `@`, so one in the userinfo can't
    // confuse it).
    let at = after_last(authority, '@');
    let host = piece_of(authority, at, authority.len());
    assert(host@ =~= without_user(authority@));
    // Bracketed IPv6 literal: return what's inside the brackets.
    if host.len() > 0 && host[0] == '[' {
        let inner = piece_of(host.as_slice(), 1, host.len());
        assert(inner@ =~= host@.skip(1));
        proof {
            lemma_first_index(inner@, ']');
        }
        let end = index_from(inner.as_slice(), 0, ']');
        if end < inner.len() {
            let out = piece_of(inner.as_slice(), 0, end);
            assert(inner@.skip(0) =~= inner@);
            assert(out@ =~= inner@.take(end as int));
            return out;
        }
        assert(inner@.skip(0) =~= inner@);
    }
    // Strip a trailing `:port` (only when it's numeric, so a bare IPv6 address
    // that has no brackets is not mangled).
    let colon = after_last(host.as_slice(), ':');
    if colon > 0 && colon < host.len() {
        let port = piece_of(host.as_slice(), colon, host.len());
        assert(port@ =~= host@.skip(colon as int));
        if digits_only(port.as_slice()) {
            let out = piece_of(host.as_slice(), 0, colon - 1);
            assert(out@ =~= host@.take(colon - 1));
            return out;
        }
    }
    host
}

/// The SSH host that a git remote URL names, if it is one: in
/// `ssh://[user@]host[:port]/path`, and in the scp-like `[user@]host:path`.
pub open spec fn ssh_host(url: Seq<char>) -> Option<Seq<char>> {
    let colon = first_index(url, ':');
    if begins(url, "ssh://"@) {
        Some(bare_host(split(url.skip(6), '/')[0]))
    } else if has_text(url, "://"@) {
        None
    } else if 0 < colon < url.len() && !url.take(colon).contains('/') {
        Some(bare_host(url.take(colon)))
    } else {
        None
    }
}

/// Extract the SSH host from a git remote URL, or `None` if it isn't SSH.
/// Handles `ssh://[user@]host[:port]/path` and scp-like `[user@]host:path`.
pub fn ssh_host_from_url(url: &str) -> (out: Option<String>)
    ensures
        text_opt(out) == ssh_host(url@),
{
    let v = chars_of(url);
    let scheme = chars_of("ssh://");
    if starts(v.as_slice(), scheme.as_slice()) {
        proof {
            reveal_strlit("ssh://");
        }
        let rest = piece_of(v.as_slice(), 6, v.len());
        assert(rest@ =~= url@.skip(6));
        let parts = split_at_char(rest.as_slice(), '/');
        proof {
            crate::text::lemma_split(rest@, '/');
        }
        let host = strip_host(parts[0].as_slice());
        return Some(string_of(host.as_slice()));
    }
    // Any other explicit scheme (https://, http://, git://, file://) is not SSH.
    let mark = chars_of("://");
    if contains_text(v.as_slice(), mark.as_slice()) {
        return None;
    }
    // scp-like syntax: user@host:path. The host is everything before the first
    // colon, which must not contain a path separator.
    proof {
        lemma_first_index(v@, ':');
        assert(v@.skip(0) =~= v@);
    }
    let colon = index_from(v.as_slice(), 0, ':');
    if colon > 0 && colon < v.len() {
        let authority = piece_of(v.as_slice(), 0, colon);
        assert(authority@ =~= url@.take(colon as int));
        if !has_char(authority.as_slice(), '/') {
            let host = strip_host(authority.as_slice());
            return Some(string_of(host.as_slice()));
        }
    }
    None
}

// ---------------------------------------------------------------------------
// Host patterns
// ---------------------------------------------------------------------------

/// Whether a text is matched by a pattern in which `*` stands for any run of
/// characters and `?` for any single one.
pub open spec fn wild(p: Seq<char>, t: Seq<char>) -> bool
    decreases p.len() + t.len(),
{
    if p.len() == 0 {
        t.len() == 0
    } else if p[0] == '*' {
        wild(p.skip(1), t) || (t.len() > 0 && wild(p, t.skip(1)))
    } else {
        t.len() > 0 && (p[0] == '?' || p[0] == t[0]) && wild(p.skip(1), t.skip(1))
    }
}

/// A star takes in whatever stands before what it matches already.
proof fn lemma_star_takes(p: Seq<char>, t: Seq<char>, k: int)
    requires
        p.len() > 0,
        p[0] == '*',
        0 <= k <= t.len(),
        wild(p.skip(1), t.skip(k)),
    ensures
        wild(p, t),
    decreases k,
{
    if k == 0 {
        assert(t.skip(0) =~= t);
    } else {
        assert(t.skip(1).skip(k - 1) =~= t.skip(k));
        lemma_star_takes(p, t.skip(1), k - 1);
    }
}

/// What a star takes in.
proof fn lemma_star_took(p: Seq<char>, t: Seq<char>) -> (k: int)
    requires
        p.len() > 0,
        p[0] == '*',
        wild(p, t),
    ensures
        0 <= k <= t.len(),
        wild(p.skip(1), t.skip(k)),
    decreases t.len(),
{
    if wild(p.skip(1), t) {
        assert(t.skip(0) =~= t);
        0
    } else {
        let k = lemma_star_took(p, t.skip(1));
        assert(t.skip(1).skip(k) =~= t.skip(k + 1));
        k + 1
    }
}

/// A part of the pattern without stars matches as many characters as it has.
proof fn lemma_segment(p: Seq<char>, t: Seq<char>, n: int)
    requires
        0 <= n <= p.len(),
        forall|i: int| 0 <= i < n ==> #[trigger] p[i] != '*',
        wild(p, t),
    ensures
        n <= t.len(),
        wild(p.skip(n), t.skip(n)),
    decreases n,
{
    if n == 0 {
        assert(p.skip(0) =~= p);
        assert(t.skip(0) =~= t);
    } else {
        assert(p[0] != '*');
        let q = p.skip(1);
        assert forall|i: int| 0 <= i < n - 1 implies #[trigger] q[i] != '*' by {
            assert(q[i] == p[i + 1]);
        }
        lemma_segment(q, t.skip(1), n - 1);
        assert(q.skip(n - 1) =~= p.skip(n));
        assert(t.skip(1).skip(n - 1) =~= t.skip(n));
    }
}

/// Whether the rest of the pattern after the star at `star` matches from some
/// place beyond `mark`.
pub open spec fn retries(p: Seq<char>, t: Seq<char>, star: int, mark: int) -> bool {
    exists|k: int| mark < k <= t.len() && wild(p.skip(star + 1), #[trigger] t.skip(k))
}

/// Whether the texts match, in lower case: `*` stands for any run of characters
/// and `?` for any single one.
fn wild_match(pat: &[char], txt: &[char]) -> (out: bool)
    ensures
        out == wild(pat@, txt@),
{
    let ghost p_all = pat@;
    let ghost t_all = txt@;
    let m: usize = pat.len();
    let n: usize = txt.len();
    let mut p: usize = 0;
    let mut t: usize = 0;
    let mut starred = false;
    let mut star: usize = 0;
    let mut mark: usize = 0;
    assert(p_all.skip(0) =~= p_all);
    assert(t_all.skip(0) =~= t_all);
    // Iterative wildcard match with backtracking on `*`.
    while t < n
        invariant
            p_all == pat@,
            t_all == txt@,
            m == p_all.len(),
            n == t_all.len(),
            p <= m,
            t <= n,
            starred ==> star < p && p_all[star as int] == '*' && mark <= t && p - (star + 1) == t
                - mark && forall|i: int| star < i < p ==> #[trigger] p_all[i] != '*',
            wild(p_all, t_all) == (wild(p_all.skip(p as int), t_all.skip(t as int)) || (starred
                && retries(p_all, t_all, star as int, mark as int))),
        decreases
            (if starred {
                n - mark
            } else {
                n + 1
            }),
            n - t,
            m - p,
    {
        let ghost ps = p_all.skip(p as int);
        let ghost ts = t_all.skip(t as int);
        assert(p < m ==> ps[0] == p_all[p as int] && ps.skip(1) =~= p_all.skip(p + 1));
        assert(ts[0] == t_all[t as int] && ts.skip(1) =~= t_all.skip(t + 1));
        if p < m && pat[p] == '*' {
            proof {
                if starred && retries(p_all, t_all, star as int, mark as int) {
                    let k = choose|k: int|
                        mark < k <= t_all.len() && wild(
                            p_all.skip(star + 1),
                            #[trigger] t_all.skip(k),
                        );
                    let seg = p - (star + 1);
                    let q = p_all.skip(star + 1);
                    assert forall|i: int| 0 <= i < seg implies #[trigger] q[i] != '*' by {
                        assert(q[i] == p_all[star + 1 + i]);
                    }
                    lemma_segment(q, t_all.skip(k), seg);
                    assert(q.skip(seg) =~= ps);
                    assert(t_all.skip(k).skip(seg) =~= t_all.skip(k + seg));
                    let j = lemma_star_took(ps, t_all.skip(k + seg));
                    assert(t_all.skip(k + seg).skip(j) =~= ts.skip(k + seg + j - t));
                    lemma_star_takes(ps, ts, k + seg + j - t);
                }
                if wild(ps, ts) {
                    let j = lemma_star_took(ps, ts);
                    assert(ts.skip(j) =~= t_all.skip(t + j));
                    if j > 0 {
                        assert(retries(p_all, t_all, p as int, t as int));
                    }
                }
                if wild(p_all.skip(p + 1), ts) {
                    assert(ts.skip(0) =~= ts);
                    lemma_star_takes(ps, ts, 0);
                }
                if retries(p_all, t_all, p as int, t as int) {
                    let k = choose|k: int|
                        t < k <= t_all.len() && wild(
                            p_all.skip(p + 1),
                            #[trigger] t_all.skip(k),
                        );
                    assert(ts.skip(k - t) =~= t_all.skip(k));
                    lemma_star_takes(ps, ts, k - t);
                }
            }
            starred = true;
            star = p;
            mark = t;
            p = p + 1;
        } else if p < m && (pat[p] == '?' || pat[p] == txt[t]) {
            p = p + 1;
            t = t + 1;
        } else if starred {
            proof {
                assert(!wild(ps, ts));
                if retries(p_all, t_all, star as int, mark as int) {
                    let k = choose|k: int|
                        mark < k <= t_all.len() && wild(
                            p_all.skip(star + 1),
                            #[trigger] t_all.skip(k),
                        );
                    if k > mark + 1 {
                        assert(retries(p_all, t_all, star as int, mark + 1));
                    }
                }
                if wild(p_all.skip(star + 1), t_all.skip(mark + 1)) {
                    assert(retries(p_all, t_all, star as int, mark as int));
                }
                if retries(p_all, t_all, star as int, mark + 1) {
                    let k = choose|k: int|
                        mark + 1 < k <= t_all.len() && wild(
                            p_all.skip(star + 1),
                            #[trigger] t_all.skip(k),
                        );
                    assert(wild(p_all.skip(star + 1), t_all.skip(k)));
                    assert(retries(p_all, t_all, star as int, mark as int));
                }
            }
            p = star + 1;
            mark = mark + 1;
            t = mark;
        } else {
            assert(!wild(ps, ts));
            return false;
        }
    }
    proof {
        if starred && retries(p_all, t_all, star as int, mark as int) {
            let k = choose|k: int|
                mark < k <= t_all.len() && wild(p_all.skip(star + 1), #[trigger] t_all.skip(k));
            let seg = p - (star + 1);
            let q = p_all.skip(star + 1);
            assert forall|i: int| 0 <= i < seg implies #[trigger] q[i] != '*' by {
                assert(q[i] == p_all[star + 1 + i]);
            }
            lemma_segment(q, t_all.skip(k), seg);
        }
    }
    let ghost rest = t_all.skip(t as int);
    while p < m && pat[p] == '*'
        invariant
            p_all == pat@,
            m == p_all.len(),
            p <= m,
            rest.len() == 0,
            wild(p_all, t_all) == wild(p_all.skip(p as int), rest),
        decreases m - p,
    {
        assert(p_all.skip(p as int).skip(1) =~= p_all.skip(p + 1));
        p = p + 1;
    }
    p == m
}

/// Whether a host name is matched by a pattern, whatever the case of letters.
pub open spec fn host_glob(pattern: Seq<char>, text: Seq<char>) -> bool {
    wild(lower(pattern), lower(text))
}

fn glob_chars(pattern: &[char], text: &[char]) -> (out: bool)
    ensures
        out == host_glob(pattern@, text@),
{
    let pat = lowered(pattern);
    let txt = lowered(text);
    wild_match(pat.as_slice(), txt.as_slice())
}

/// Match `text` against an ssh_config host `pattern` supporting `*` (any run)
/// and `?` (single char). Case-insensitive, like OpenSSH.
pub fn glob_match(pattern: &str, text: &str) -> (out: bool)
    ensures
        out == host_glob(pattern@, text@),
{
    let pat = chars_of(pattern);
    let txt = chars_of(text);
    glob_chars(pat.as_slice(), txt.as_slice())
}

/// Whether a pattern of a `Host` line is negated.
pub open spec fn is_negated(p: Seq<char>) -> bool {
    p.len() > 0 && p[0] == '!'
}

/// Whether a host matches a list of patterns: one of them, and no negated one.
pub open spec fn applies(host: Seq<char>, pats: Seq<Seq<char>>) -> bool {
    &&& exists|i: int| 0 <= i < pats.len() && !is_negated(#[trigger] pats[i]) && host_glob(pats[i], host)
    &&& forall|i: int|
        0 <= i < pats.len() && is_negated(#[trigger] pats[i]) ==> !host_glob(
            pats[i].skip(1),
            host,
        )
}

fn host_applies(host: &[char], patterns: &[char]) -> (out: bool)
    ensures
        out == applies(host@, words(patterns@)),
{
    let pats = words_of(patterns);
    let ghost ps = pieces(pats@);
    assert(ps == words(patterns@));
    let mut matched = false;
    let mut i: usize = 0;
    while i < pats.len()
        invariant
            i <= pats@.len(),
            ps == pieces(pats@),
            ps == words(patterns@),
            matched == exists|j: int|
                0 <= j < i && !is_negated(#[trigger] ps[j]) && host_glob(ps[j], host@),
            forall|j: int|
                0 <= j < i && is_negated(#[trigger] ps[j]) ==> !host_glob(ps[j].skip(1), host@),
        decreases pats.len() - i,
    {
        let pat = &pats[i];
        assert(ps[i as int] == pat@);
        if pat.len() > 0 && pat[0] == '!' {
            let neg = piece_of(pat.as_slice(), 1, pat.len());
            assert(neg@ =~= pat@.skip(1));
            if glob_chars(neg.as_slice(), host) {
                assert(is_negated(ps[i as int]));
                return false;
            }
        } else if glob_chars(pat.as_slice(), host) {
            matched = true;
        }
        i = i + 1;
    }
    matched
}

/// Whether `host` matches any positive pattern in a `Host` line's `patterns`
/// while matching no negated (`!`) pattern.
pub fn host_matches(host: &str, patterns: &str) -> (out: bool)
    ensures
        out == applies(host@, words(patterns@)),
{
    let h = chars_of(host);
    let p = chars_of(patterns);
    host_applies(h.as_slice(), p.as_slice())
}

// ---------------------------------------------------------------------------
// The configuration file
// ---------------------------------------------------------------------------

/// Whether a character ends the keyword of a line.
pub open spec fn ends_keyword(c: char) -> bool {
    is_space(c) || c == '='
}

/// The length of the keyword of a line.
pub open spec fn keyword_len(line: Seq<char>) -> int
    decreases line.len(),
{
    if line.len() == 0 || ends_keyword(line[0]) {
        0
    } else {
        1 + keyword_len(line.skip(1))
    }
}

/// The keyword of a line.
pub open spec fn keyword(line: Seq<char>) -> Seq<char> {
    line.take(keyword_len(line))
}

/// What follows the keyword of a line and its separator: white space, or a `=`
/// with white space around it.
pub open spec fn argument(line: Seq<char>) -> Seq<char> {
    let rest = trim_start(line.skip(keyword_len(line)), Class::Space);
    if rest.len() > 0 && rest[0] == '=' {
        trim_start(rest.skip(1), Class::Space)
    } else {
        rest
    }
}

proof fn lemma_keyword_len_is(line: Seq<char>, n: int)
    requires
        0 <= n <= line.len(),
        forall|i: int| 0 <= i < n ==> !ends_keyword(#[trigger] line[i]),
        n < line.len() ==> ends_keyword(line[n]),
    ensures
        keyword_len(line) == n,
    decreases line.len(),
{
    if n > 0 {
        assert(!ends_keyword(line[0]));
        let rest = line.skip(1);
        assert forall|i: int| 0 <= i < n - 1 implies !ends_keyword(#[trigger] rest[i]) by {
            assert(rest[i] == line[i + 1]);
        }
        lemma_keyword_len_is(rest, n - 1);
    }
}

/// Split an ssh_config line into `(keyword, rest)`, allowing either whitespace
/// or `=` (optionally surrounded by spaces) as the separator.
pub fn split_config_line(line: &[char]) -> (out: (Vec<char>, Vec<char>))
    ensures
        out.0@ == keyword(line@),
        out.1@ == argument(line@),
{
    let mut end: usize = 0;
    while end < line.len() && !(is_in(Class::Space, line[end]) || line[end] == '=')
        invariant
            end <= line@.len(),
            forall|i: int| 0 <= i < end ==> !ends_keyword(#[trigger] line@[i]),
        decreases line.len() - end,
    {
        end = end + 1;
    }
    proof {
        lemma_keyword_len_is(line@, end as int);
    }
    let word = piece_of(line, 0, end);
    let after = piece_of(line, end, line.len());
    assert(word@ =~= keyword(line@));
    assert(after@ =~= line@.skip(end as int));
    let rest = trimmed_start(after.as_slice(), Class::Space);
    if rest.len() > 0 && rest[0] == '=' {
        let value = piece_of(rest.as_slice(), 1, rest.len());
        assert(value@ =~= rest@.skip(1));
        return (word, trimmed_start(value.as_slice(), Class::Space));
    }
    (word, rest)
}

/// Whether a line says something: it is neither empty nor a comment.
pub open spec fn says_something(line: Seq<char>) -> bool {
    line.len() > 0 && line[0] != '#'
}

/// The keyword of a line, in lower case.
pub open spec fn directive(line: Seq<char>) -> Seq<char> {
    lower(keyword(line))
}

/// Whether the options after a line apply to `host`, given whether those before it
/// did: a `Host` line decides anew.
pub open spec fn effect_of(line: Seq<char>, host: Seq<char>, before: bool) -> bool {
    let said = trim(line, Class::Space);
    if says_something(said) && directive(said) == "host"@ {
        applies(host, words(argument(said)))
    } else {
        before
    }
}

/// The `IdentityFile` tokens of a line.
pub open spec fn tokens_of(line: Seq<char>) -> Seq<Seq<char>> {
    let said = trim(line, Class::Space);
    if says_something(said) && directive(said) == "identityfile"@ {
        words(argument(said))
    } else {
        seq![]
    }
}

/// Whether the options after these lines apply to `host`: those before the first
/// `Host` line apply to every host.
pub open spec fn in_effect(lines: Seq<Seq<char>>, host: Seq<char>) -> bool
    decreases lines.len(),
{
    if lines.len() == 0 {
        true
    } else {
        effect_of(lines.last(), host, in_effect(lines.drop_last(), host))
    }
}

/// The `IdentityFile` tokens of these lines that apply to `host`.
pub open spec fn identity_tokens(lines: Seq<Seq<char>>, host: Seq<char>) -> Seq<Seq<char>>
    decreases lines.len(),
{
    if lines.len() == 0 {
        seq![]
    } else {
        let front = identity_tokens(lines.drop_last(), host);
        if in_effect(lines.drop_last(), host) {
            front + tokens_of(lines.last())
        } else {
            front
        }
    }
}

/// Adds a list of words to a list of texts.
fn push_words(out: &mut Vec<String>, more: &Vec<Vec<char>>)
    ensures
        texts(final(out)@) == texts(old(out)@) + pieces(more@),
{
    let ghost start = texts(out@);
    let mut i: usize = 0;
    assert(texts(out@) =~= start + pieces(more@).take(0));
    while i < more.len()
        invariant
            i <= more@.len(),
            texts(out@) == start + pieces(more@).take(i as int),
        decreases more.len() - i,
    {
        let ghost before = out@;
        let word = string_of(more[i].as_slice());
        let ghost w = word@;
        out.push(word);
        assert(texts(out@) =~= texts(before).push(w));
        assert(pieces(more@).take(i + 1) =~= pieces(more@).take(i as int).push(w));
        assert(texts(out@) =~= start + pieces(more@).take(i + 1));
        i = i + 1;
    }
    assert(pieces(more@).take(more@.len() as int) =~= pieces(more@));
}

/// Reads one line: adds its `IdentityFile` tokens if `matching`, and says whether
/// the options after it apply to `host`.
fn read_line(files: &mut Vec<String>, line: &[char], host: &[char], matching: bool) -> (out: bool)
    ensures
        out == effect_of(line@, host@, matching),
        texts(final(files)@) == (if matching {
            texts(old(files)@) + tokens_of(line@)
        } else {
            texts(old(files)@)
        }),
{
    let said = trimmed(line, Class::Space);
    let ghost start = texts(files@);
    assert(start + Seq::<Seq<char>>::empty() =~= start);
    if said.len() == 0 || said[0] == '#' {
        return matching;
    }
    let (word, rest) = split_config_line(said.as_slice());
    let low = string_of(lowered(word.as_slice()).as_slice());
    proof {
        lemma_directives_differ();
    }
    if same(low.as_str(), "host") {
        return host_applies(host, rest.as_slice());
    }
    if matching && same(low.as_str(), "identityfile") {
        let names = words_of(rest.as_slice());
        assert(pieces(names@) == words(rest@));
        push_words(files, &names);
    }
    matching
}

/// Parse an ssh_config `text` and return the raw (un-expanded) `IdentityFile`
/// tokens that apply to `host`.
///
/// Supports `Host` blocks with `*`/`?` wildcards and `!` negation, and options
/// before the first `Host` (which apply to every host). Other keywords
/// (`Match`, `Include`, `Hostname`, etc.) are ignored.
pub fn parse_identity_files(text: &str, host: &str) -> (out: Vec<String>)
    ensures
        texts(out@) == identity_tokens(split(text@, '\n'), host@),
{
    let all = chars_of(text);
    let h = chars_of(host);
    let lines = split_at_char(all.as_slice(), '\n');
    let ghost ls = pieces(lines@);
    assert(ls == split(text@, '\n'));
    let mut files: Vec<String> = Vec::new();
    // Options before the first `Host` line apply to all hosts.
    let mut matching = true;
    let mut i: usize = 0;
    assert(ls.take(0) =~= Seq::<Seq<char>>::empty());
    assert(texts(files@) =~= Seq::<Seq<char>>::empty());
    while i < lines.len()
        invariant
            i <= lines@.len(),
            ls == pieces(lines@),
            h@ == host@,
            matching == in_effect(ls.take(i as int), host@),
            texts(files@) == identity_tokens(ls.take(i as int), host@),
        decreases lines.len() - i,
    {
        proof {
            assert(ls[i as int] == lines@[i as int]@);
            assert(ls.take(i + 1).drop_last() =~= ls.take(i as int));
            assert(ls.take(i + 1).last() == ls[i as int]);
        }
        matching = read_line(&mut files, lines[i].as_slice(), h.as_slice(), matching);
        i = i + 1;
    }
    assert(ls.take(ls.len() as int) =~= ls);
    files
}

proof fn lemma_directives_differ()
    ensures
        "host"@ != "identityfile"@,
{
    reveal_strlit("host");
    reveal_strlit("identityfile");
    assert("host"@.len() == 4);
    assert("identityfile"@.len() == 12);
}

// ---------------------------------------------------------------------------
// Credentials
// ---------------------------------------------------------------------------

/// One SSH credential candidate.
#[derive(Debug)]
pub enum SshCred {
    /// Ask a running ssh-agent for a key.
    Agent,
    /// A private key file on disk (from `identity_file`, `~/.ssh/config`, or a
    /// default location).
    KeyFile(String),
    /// Raw private key material held in memory (from `identity_file_command`).
    KeyInline(String),
}

/// What [`SshCred`] says.
pub enum CredView {
    /// Ask a running ssh-agent for a key.
    Agent,
    /// A private key file on disk.
    KeyFile(Seq<char>),
    /// Raw private key material.
    KeyInline(Seq<char>),
}

impl View for SshCred {
    type V = CredView;

    open spec fn view(&self) -> CredView {
        match self {
            SshCred::Agent => CredView::Agent,
            SshCred::KeyFile(p) => CredView::KeyFile(p@),
            SshCred::KeyInline(k) => CredView::KeyInline(k@),
        }
    }
}

/// The views of a sequence of candidates.
pub open spec fn cred_views(v: Seq<SshCred>) -> Seq<CredView> {
    v.map_values(|c: SshCred| c@)
}

/// Whether two texts name the same path.
pub open spec fn same_path(a: Seq<char>, b: Seq<char>) -> bool {
    components(a) == components(b)
}

/// Whether a candidate is the key file at the path `p`.
pub open spec fn is_key_file(c: CredView, p: Seq<char>) -> bool {
    c matches CredView::KeyFile(q) && same_path(q, p)
}

/// Whether a key file is among the candidates.
pub open spec fn has_key_file(creds: Seq<CredView>, p: Seq<char>) -> bool {
    exists|i: int| 0 <= i < creds.len() && is_key_file(#[trigger] creds[i], p)
}

/// The candidates with the key files of a list added, each path once.
pub open spec fn with_key_files(creds: Seq<CredView>, files: Seq<Seq<char>>) -> Seq<CredView>
    decreases files.len(),
{
    if files.len() == 0 {
        creds
    } else {
        let front = with_key_files(creds, files.drop_last());
        if has_key_file(front, files.last()) {
            front
        } else {
            front.push(CredView::KeyFile(files.last()))
        }
    }
}

/// The credentials to try, in order: the key file and the key of the remote's own
/// configuration, then for an SSH remote the key files configured for its host,
/// the agent, and the default key files.
pub open spec fn candidates(
    explicit: Option<Seq<char>>,
    inline: Option<Seq<char>>,
    is_ssh: bool,
    configured: Seq<Seq<char>>,
    defaults: Seq<Seq<char>>,
) -> Seq<CredView> {
    let own = own_keys(explicit, inline);
    if is_ssh {
        with_key_files(with_key_files(own, configured).push(CredView::Agent), defaults)
    } else {
        own
    }
}

/// Whether two texts name the same path.
fn paths_equal(a: &str, b: &str) -> (out: bool)
    ensures
        out == same_path(a@, b@),
{
    let av = chars_of(a);
    let bv = chars_of(b);
    let ac = components_of(av.as_slice());
    let bc = components_of(bv.as_slice());
    let ghost x = components(a@);
    let ghost y = components(b@);
    assert(pieces(ac@).len() == ac@.len() && pieces(bc@).len() == bc@.len());
    if ac.len() != bc.len() {
        return false;
    }
    let mut i: usize = 0;
    while i < ac.len()
        invariant
            i <= ac@.len(),
            ac@.len() == bc@.len(),
            x == pieces(ac@),
            y == pieces(bc@),
            x == components(a@),
            y == components(b@),
            forall|j: int| 0 <= j < i ==> x[j] == y[j],
        decreases ac.len() - i,
    {
        assert(x[i as int] == ac@[i as int]@);
        assert(y[i as int] == bc@[i as int]@);
        let s = string_of(ac[i].as_slice());
        let t = string_of(bc[i].as_slice());
        if !same(s.as_str(), t.as_str()) {
            return false;
        }
        i = i + 1;
    }
    assert(x =~= y);
    true
}

/// Adds the key files of a list to the candidates, each path once.
fn add_key_files(creds: &mut Vec<SshCred>, files: &Vec<String>)
    ensures
        cred_views(final(creds)@) == with_key_files(cred_views(old(creds)@), texts(files@)),
{
    let ghost start = cred_views(creds@);
    let ghost names = texts(files@);
    let mut i: usize = 0;
    assert(names.take(0) =~= Seq::<Seq<char>>::empty());
    while i < files.len()
        invariant
            i <= files@.len(),
            names == texts(files@),
            cred_views(creds@) == with_key_files(start, names.take(i as int)),
        decreases files.len() - i,
    {
        let file = &files[i];
        let ghost before = creds@;
        proof {
            assert(names[i as int] == file@);
            assert(names.take(i + 1).drop_last() =~= names.take(i as int));
            assert(names.take(i + 1).last() == file@);
        }
        if !knows_file(creds, file.as_str()) {
            creds.push(SshCred::KeyFile(file.clone()));
            assert(cred_views(creds@) =~= cred_views(before).push(CredView::KeyFile(file@)));
        }
        i = i + 1;
    }
    assert(names.take(names.len() as int) =~= names);
}

/// Whether a key file is among the candidates.
fn knows_file(creds: &Vec<SshCred>, file: &str) -> (out: bool)
    ensures
        out == has_key_file(cred_views(creds@), file@),
{
    let ghost views = cred_views(creds@);
    let mut i: usize = 0;
    while i < creds.len()
        invariant
            i <= creds@.len(),
            views == cred_views(creds@),
            forall|j: int| 0 <= j < i ==> !is_key_file(#[trigger] views[j], file@),
        decreases creds.len() - i,
    {
        assert(views[i as int] == creds@[i as int]@);
        if let SshCred::KeyFile(p) = &creds[i] {
            if paths_equal(p.as_str(), file) {
                assert(is_key_file(views[i as int], file@));
                return true;
            }
        }
        i = i + 1;
    }
    false
}

/// Build the ordered list of SSH credentials to try for a remote.
///
/// Order (most to least specific):
///   1. `identity_file` / `identity_file_command` from the remote's config
///   2. `IdentityFile`s configured for the host in `~/.ssh/config`
///   3. ssh-agent
///   4. default key locations (`~/.ssh/id_ed25519`, `id_rsa`, ...)
///
/// The config-derived entries (2 to 4) are only added for SSH URLs; explicit
/// deploy keys (1) are honoured regardless. All files are ones that exist.
pub fn ssh_credentials(
    explicit: Option<String>,
    inline: Option<String>,
    is_ssh: bool,
    configured: &Vec<String>,
    defaults: &Vec<String>,
) -> (out: Vec<SshCred>)
    ensures
        cred_views(out@) == candidates(
            text_opt(explicit),
            text_opt(inline),
            is_ssh,
            texts(configured@),
            texts(defaults@),
        ),
{
    let mut creds: Vec<SshCred> = Vec::new();
    let ghost none = Seq::<CredView>::empty();
    assert(cred_views(creds@) =~= none);
    let ghost e = text_opt(explicit);
    let ghost k = text_opt(inline);
    match explicit {
        Some(path) => {
            creds.push(SshCred::KeyFile(path));
            assert(cred_views(creds@) =~= seq![CredView::KeyFile(e.unwrap())]);
        },
        None => {},
    }
    let ghost first = cred_views(creds@);
    match inline {
        Some(key) => {
            let ghost before = creds@;
            creds.push(SshCred::KeyInline(key));
            assert(cred_views(creds@) =~= cred_views(before).push(
                CredView::KeyInline(k.unwrap()),
            ));
            assert(cred_views(creds@) =~= first + seq![CredView::KeyInline(k.unwrap())]);
        },
        None => {
            assert(first + none =~= first);
        },
    }
    if is_ssh {
        add_key_files(&mut creds, configured);
        let ghost before = creds@;
        creds.push(SshCred::Agent);
        assert(cred_views(creds@) =~= cred_views(before).push(CredView::Agent));
        add_key_files(&mut creds, defaults);
    }
    creds
}

/// `shellexpand::tilde`: a leading `~` that stands alone or before a `/` replaced
/// by the home directory, if there is one. What is claimed holds on every
/// machine: another text comes back as it is, and what follows the `~` is kept.
/// Which directory it is depends on the machine.
#[verifier::external_body]
fn expand_tilde(path: &str) -> (out: String)
    ensures
        home_expanded(path@, out@),
{
    shellexpand::tilde(path).into_owned()
}

/// The path with a leading `~` expanded.
pub fn home_path(path: &str) -> (out: String)
    ensures
        home_expanded(path@, out@),
{
    expand_tilde(path)
}

/// The `IdentityFile` paths that apply to `host` in an ssh_config `text`, with a
/// leading `~` expanded.
pub fn config_identity_files(text: &str, host: &str) -> (out: Vec<String>)
    ensures
        out@.len() == identity_tokens(split(text@, '\n'), host@).len(),
        forall|i: int|
            0 <= i < out@.len() ==> home_expanded(
                identity_tokens(split(text@, '\n'), host@)[i],
                (#[trigger] out@[i])@,
            ),
{
    let tokens = parse_identity_files(text, host);
    let ghost all = identity_tokens(split(text@, '\n'), host@);
    let mut out: Vec<String> = Vec::new();
    let mut i: usize = 0;
    assert(texts(tokens@).len() == tokens@.len());
    while i < tokens.len()
        invariant
            i <= tokens@.len(),
            out@.len() == i,
            texts(tokens@) == all,
            all.len() == tokens@.len(),
            forall|j: int|
                0 <= j < i ==> home_expanded(all[j], (#[trigger] out@[j])@),
        decreases tokens.len() - i,
    {
        assert(all[i as int] == tokens@[i as int]@);
        let path = home_path(tokens[i].as_str());
        out.push(path);
        i = i + 1;
    }
    out
}

/// The names of the private keys that OpenSSH would try, in preference order.
pub open spec fn default_key_names() -> Seq<Seq<char>> {
    seq![
        "id_ed25519"@,
        "id_ecdsa"@,
        "id_ecdsa_sk"@,
        "id_ed25519_sk"@,
        "id_rsa"@,
        "id_dsa"@,
    ]
}

/// The path of a key in the user's `.ssh` directory.
fn key_path(name: &str) -> (out: String)
    ensures
        ends(out@, "/.ssh/"@ + name@),
{
    let text = cat("~/.ssh/", name);
    proof {
        reveal_strlit("~/.ssh/");
        reveal_strlit("/.ssh/");
        assert(text@[0] == '~');
        assert(text@.take(1) =~= seq!['~']);
        assert(text@.skip(1) =~= "/.ssh/"@ + name@);
    }
    home_path(text.as_str())
}

/// Default private-key locations OpenSSH would try, in preference order.
pub fn default_identity_files() -> (out: Vec<String>)
    ensures
        out@.len() == default_key_names().len(),
        forall|i: int|
            0 <= i < out@.len() ==> ends((#[trigger] out@[i])@, "/.ssh/"@ + default_key_names()[i]),
{
    let mut out: Vec<String> = Vec::new();
    out.push(key_path("id_ed25519"));
    out.push(key_path("id_ecdsa"));
    out.push(key_path("id_ecdsa_sk"));
    out.push(key_path("id_ed25519_sk"));
    out.push(key_path("id_rsa"));
    out.push(key_path("id_dsa"));
    out
}

// ---------------------------------------------------------------------------
// Laws
// ---------------------------------------------------------------------------

/// The pattern `*` matches every host.
pub proof fn law_star_matches_every_host(host: Seq<char>)
    ensures
        host_glob(seq!['*'], host),
{
    let p = lower(seq!['*']);
    let t = lower(host);
    assert(p =~= seq!['*']);
    assert(p.skip(1) =~= Seq::<char>::empty());
    assert(t.skip(t.len() as int) =~= Seq::<char>::empty());
    assert(wild(p.skip(1), t.skip(t.len() as int)));
    lemma_star_takes(p, t, t.len() as int);
}

/// Matching hosts does not look at the case of letters.
pub proof fn law_host_match_ignores_case(pattern: Seq<char>, host: Seq<char>)
    ensures
        host_glob(lower(pattern), host) == host_glob(pattern, host),
        host_glob(pattern, lower(host)) == host_glob(pattern, host),
{
    lemma_lower_twice(pattern);
    lemma_lower_twice(host);
}

proof fn lemma_lower_twice(s: Seq<char>)
    ensures
        lower(lower(s)) == lower(s),
{
    assert forall|i: int| 0 <= i < s.len() implies #[trigger] lower(lower(s))[i] == lower(s)[i] by {
        assert(lower(s)[i] == crate::text::lower_char(s[i]));
    }
    assert(lower(lower(s)) =~= lower(s));
}

/// A host name without wildcards matches itself.
pub proof fn law_host_matches_itself(host: Seq<char>)
    requires
        !host.contains('*'),
    ensures
        host_glob(host, host),
{
    let t = lower(host);
    assert forall|i: int| 0 <= i < t.len() implies #[trigger] t[i] != '*' by {
        assert(t[i] == crate::text::lower_char(host[i]));
        assert(host.contains(host[i]));
    }
    lemma_matches_itself(t);
}

proof fn lemma_matches_itself(t: Seq<char>)
    requires
        forall|i: int| 0 <= i < t.len() ==> #[trigger] t[i] != '*',
    ensures
        wild(t, t),
    decreases t.len(),
{
    if t.len() > 0 {
        assert(t[0] != '*');
        let r = t.skip(1);
        assert forall|i: int| 0 <= i < r.len() implies #[trigger] r[i] != '*' by {
            assert(r[i] == t[i + 1]);
        }
        lemma_matches_itself(r);
    }
}

/// A host that a negated pattern matches is not matched by the line.
pub proof fn law_negation_wins(host: Seq<char>, pats: Seq<Seq<char>>, i: int)
    requires
        0 <= i < pats.len(),
        is_negated(pats[i]),
        host_glob(pats[i].skip(1), host),
    ensures
        !applies(host, pats),
{
}

/// The credentials of the remote's own configuration.
pub open spec fn own_keys(explicit: Option<Seq<char>>, inline: Option<Seq<char>>) -> Seq<CredView> {
    (match explicit {
        Some(p) => seq![CredView::KeyFile(p)],
        None => seq![],
    }) + (match inline {
        Some(k) => seq![CredView::KeyInline(k)],
        None => seq![],
    })
}

/// Whether no key file is among the candidates twice.
pub open spec fn tried_once(creds: Seq<CredView>) -> bool {
    forall|i: int, j: int, p: Seq<char>|
        0 <= i < j < creds.len() && #[trigger] is_key_file(creds[i], p)
            ==> !#[trigger] is_key_file(creds[j], p)
}

/// Whether `agent` is the place of the agent among the candidates of an SSH
/// remote: behind the remote's own keys and those configured for the host, all of
/// which come before it, and before the default keys.
pub open spec fn is_agent_place(
    all: Seq<CredView>,
    agent: int,
    own: Seq<CredView>,
    configured: Seq<Seq<char>>,
    defaults: Seq<Seq<char>>,
) -> bool {
    &&& own.len() <= agent < all.len()
    &&& all[agent] == CredView::Agent
    &&& forall|i: int|
        own.len() <= i < agent ==> (#[trigger] all[i] matches CredView::KeyFile(f)
            && configured.contains(f))
    &&& forall|i: int|
        agent < i < all.len() ==> (#[trigger] all[i] matches CredView::KeyFile(f)
            && defaults.contains(f))
    &&& forall|f: Seq<char>| #[trigger] configured.contains(f) ==> has_key_file(all.take(agent), f)
    &&& forall|f: Seq<char>| #[trigger] defaults.contains(f) ==> has_key_file(all, f)
}

/// The remote's own keys are tried first. For an SSH remote they are followed by
/// every key configured for the host, the agent, and every default key; for
/// another one by nothing. No key file is tried twice.
pub proof fn law_credential_order(
    explicit: Option<Seq<char>>,
    inline: Option<Seq<char>>,
    is_ssh: bool,
    configured: Seq<Seq<char>>,
    defaults: Seq<Seq<char>>,
)
    ensures
        ({
            let all = candidates(explicit, inline, is_ssh, configured, defaults);
            let own = own_keys(explicit, inline);
            &&& own.len() <= all.len() && all.take(own.len() as int) == own
            &&& is_ssh ==> exists|agent: int| #[trigger]
                is_agent_place(all, agent, own, configured, defaults)
            &&& !is_ssh ==> all == own
            &&& tried_once(all)
        }),
{
    let own = own_keys(explicit, inline);
    let all = candidates(explicit, inline, is_ssh, configured, defaults);
    if is_ssh {
        let first = with_key_files(own, configured);
        lemma_key_files(own, configured);
        let second = first.push(CredView::Agent);
        lemma_key_files(second, defaults);
        let agent = first.len() as int;
        assert(all[agent] == second[agent]);
        assert(all.take(agent) =~= first);
        assert(all.take(own.len() as int) =~= own);
        assert forall|i: int| own.len() <= i < agent implies (#[trigger] all[i]
            matches CredView::KeyFile(f) && configured.contains(f)) by {
            assert(all[i] == second[i]);
            assert(second[i] == first[i]);
        }
        assert(tried_once(second)) by {
            assert forall|i: int, j: int, p: Seq<char>|
                0 <= i < j < second.len() && #[trigger] is_key_file(
                    second[i],
                    p,
                ) implies !#[trigger] is_key_file(second[j], p) by {
                assert(second[i] == first[i]);
                if j < first.len() {
                    assert(second[j] == first[j]);
                }
            }
        }
        assert(is_agent_place(all, agent, own, configured, defaults));
    } else {
        assert(all.take(own.len() as int) =~= own);
    }
}

/// What adding key files does: the candidates stay in their places, what is added
/// is in the list, everything in the list is among the candidates then, and no key
/// file comes twice.
proof fn lemma_key_files(creds: Seq<CredView>, files: Seq<Seq<char>>)
    requires
        tried_once(creds),
    ensures
        ({
            let all = with_key_files(creds, files);
            &&& all.len() >= creds.len()
            &&& forall|i: int| 0 <= i < creds.len() ==> #[trigger] all[i] == creds[i]
            &&& forall|i: int|
                creds.len() <= i < all.len() ==> (#[trigger] all[i] matches CredView::KeyFile(f)
                    && files.contains(f))
            &&& forall|f: Seq<char>| #[trigger] files.contains(f) ==> has_key_file(all, f)
            &&& tried_once(all)
        }),
    decreases files.len(),
{
    if files.len() > 0 {
        let less = files.drop_last();
        let last = files.last();
        lemma_key_files(creds, less);
        let front = with_key_files(creds, less);
        let all = with_key_files(creds, files);
        assert(files[files.len() - 1] == last);
        assert forall|i: int| creds.len() <= i < all.len() implies (#[trigger] all[i]
            matches CredView::KeyFile(f) && files.contains(f)) by {
            if i < front.len() {
                assert(all[i] == front[i]);
                let f = front[i]->KeyFile_0;
                let k = less.index_of(f);
                assert(0 <= k < less.len() && less[k] == f);
                assert(files[k] == f);
            }
        }
        assert forall|f: Seq<char>| #[trigger] files.contains(f) implies has_key_file(all, f) by {
            let k = files.index_of(f);
            assert(0 <= k < files.len() && files[k] == f);
            if k < less.len() {
                assert(less[k] == f);
                assert(less.contains(f));
                assert(has_key_file(front, f));
                let i = choose|i: int| 0 <= i < front.len() && is_key_file(#[trigger] front[i], f);
                assert(is_key_file(all[i], f));
            } else if !has_key_file(front, last) {
                assert(is_key_file(all[front.len() as int], f));
            }
        }
        assert(tried_once(all)) by {
            assert forall|i: int, j: int, p: Seq<char>|
                0 <= i < j < all.len() && #[trigger] is_key_file(
                    all[i],
                    p,
                ) implies !#[trigger] is_key_file(all[j], p) by {
                if j < front.len() {
                    assert(all[i] == front[i] && all[j] == front[j]);
                } else {
                    assert(all[i] == front[i]);
                    if is_key_file(all[j], p) {
                        assert(is_key_file(front[i], last));
                    }
                }
            }
        }
    }
}

/// The host of a server is what is left of its address without the user and the port,
/// and without the brackets that an address with colons stands in.
pub proof fn law_host_is_without_user_and_port(user: Seq<char>, host: Seq<char>, port: Seq<char>)
    requires
        !host.contains('@'),
        !host.contains(']'),
        port.len() > 0,
        all_digits(port),
    ensures
        !host.contains(':') && !host.contains('[') ==> {
            &&& bare_host(host) == host
            &&& bare_host(user + seq!['@'] + host) == host
            &&& bare_host(host + seq![':'] + port) == host
            &&& bare_host(user + seq!['@'] + host + seq![':'] + port) == host
        },
        bare_host(seq!['['] + host + seq![']']) == host,
        bare_host(user + seq!['@', '['] + host + seq![']', ':'] + port) == host,
{
    let boxed = seq!['['] + host + seq![']'];
    let boxed_port = seq!['['] + host + seq![']', ':'] + port;
    let with_port = host + seq![':'] + port;
    lemma_no_char(port, '@');
    assert(!boxed.contains('@')) by {
        if boxed.contains('@') {
            let i = boxed.index_of('@');
            assert(0 <= i < boxed.len() && boxed[i] == '@');
            assert(host[i - 1] == '@');
        }
    }
    assert(!boxed_port.contains('@')) by {
        if boxed_port.contains('@') {
            let i = boxed_port.index_of('@');
            assert(0 <= i < boxed_port.len() && boxed_port[i] == '@');
            if i < host.len() + 1 {
                assert(host[i - 1] == '@');
            } else {
                assert(port[i - host.len() - 3] == '@');
            }
        }
    }
    lemma_without_user(user, boxed);
    lemma_without_user(user, boxed_port);
    assert(boxed.subrange(1, host.len() as int + 1) =~= host);
    lemma_boxed(boxed, host);
    assert(boxed_port.subrange(1, host.len() as int + 1) =~= host);
    lemma_boxed(boxed_port, host);
    assert(user + seq!['@', '['] + host + seq![']', ':'] + port =~= user + seq!['@'] + boxed_port);
    if !host.contains(':') && !host.contains('[') {
        lemma_without_user(user, host);
        lemma_port(host, port);
        lemma_without_user(user, with_port);
        assert(user + seq!['@'] + host + seq![':'] + port =~= user + seq!['@'] + with_port);
    }
}

proof fn lemma_no_char(port: Seq<char>, x: char)
    requires
        all_digits(port),
        !is_digit(x),
    ensures
        !port.contains(x),
{
    if port.contains(x) {
        let i = port.index_of(x);
        assert(0 <= i < port.len() && port[i] == x);
        assert(is_digit(port[i]));
    }
}

proof fn lemma_without_user(user: Seq<char>, rest: Seq<char>)
    requires
        !rest.contains('@'),
    ensures
        without_user(rest) == rest,
        without_user(user + seq!['@'] + rest) == rest,
{
    let all = user + seq!['@'] + rest;
    let u = user.len() as int + 1;
    assert forall|j: int| 0 <= j < rest.len() implies rest[j] != '@' by {
        if rest[j] == '@' {
            assert(rest.contains('@'));
        }
    }
    lemma_last_index_is(rest, '@', 0);
    assert(rest.skip(0) =~= rest);
    assert forall|j: int| u <= j < all.len() implies all[j] != '@' by {
        assert(all[j] == rest[j - u]);
    }
    lemma_last_index_is(all, '@', u);
    assert(all.skip(u) =~= rest);
}

proof fn lemma_port(host: Seq<char>, port: Seq<char>)
    requires
        !host.contains(':'),
        !host.contains('['),
        !host.contains('@'),
        port.len() > 0,
        all_digits(port),
    ensures
        !is_bracketed(host),
        last_index(host, ':') == -1,
        ({
            let with_port = host + seq![':'] + port;
            &&& !with_port.contains('@')
            &&& !is_bracketed(with_port)
            &&& last_index(with_port, ':') == host.len()
            &&& with_port.skip(host.len() as int + 1) == port
            &&& with_port.take(host.len() as int) == host
        }),
{
    let with_port = host + seq![':'] + port;
    let h = host.len() as int + 1;
    assert forall|j: int| 0 <= j < host.len() implies host[j] != ':' && host[j] != '[' && host[j]
        != '@' by {
        assert(host.contains(host[j]));
    }
    assert forall|j: int| 0 <= j < port.len() implies port[j] != ':' && port[j] != '@' by {
        assert(is_digit(port[j]));
    }
    lemma_last_index_is(host, ':', 0);
    assert forall|j: int| h <= j < with_port.len() implies with_port[j] != ':' by {
        assert(with_port[j] == port[j - h]);
    }
    lemma_last_index_is(with_port, ':', h);
    assert(with_port.skip(h) =~= port);
    assert(with_port.take(host.len() as int) =~= host);
    if with_port.contains('@') {
        let i = with_port.index_of('@');
        assert(0 <= i < with_port.len() && with_port[i] == '@');
        if i >= h {
            assert(port[i - h] == '@');
        }
    }
    if is_bracketed(with_port) && host.len() > 0 {
        assert(host[0] == '[');
    }
}

proof fn lemma_boxed(s: Seq<char>, host: Seq<char>)
    requires
        s.len() >= host.len() + 2,
        s[0] == '[',
        s.subrange(1, host.len() as int + 1) == host,
        s[host.len() as int + 1] == ']',
        !host.contains(']'),
    ensures
        is_bracketed(s),
        s.skip(1).take(first_index(s.skip(1), ']')) == host,
{
    let t = s.skip(1);
    let n = host.len() as int;
    assert(t[n] == ']');
    assert(t.contains(']'));
    assert forall|j: int| 0 <= j < n implies t[j] != ']' by {
        assert(t[j] == s.subrange(1, n + 1)[j]);
        if t[j] == ']' {
            assert(host[j] == ']');
            assert(host.contains(']'));
        }
    }
    lemma_first_index_is(t, ']', n);
    assert(t.take(n) =~= host);
}

/// The host of a repository is that of its `ssh` URL, or what stands before the first
/// colon of the short form; no other URL has one.
pub proof fn law_host_of_a_repository(authority: Seq<char>, path: Seq<char>, url: Seq<char>)
    requires
        !authority.contains('/'),
    ensures
        ssh_host("ssh://"@ + authority + seq!['/'] + path) == Some(bare_host(authority)),
        ssh_host("ssh://"@ + authority) == Some(bare_host(authority)),
        authority.len() > 0 && !authority.contains(':') && !begins(
            authority + seq![':'] + path,
            "ssh://"@,
        ) && !has_text(authority + seq![':'] + path, "://"@) ==> ssh_host(
            authority + seq![':'] + path,
        ) == Some(bare_host(authority)),
        !begins(url, "ssh://"@) && has_text(url, "://"@) ==> ssh_host(url) is None,
        !url.contains(':') ==> ssh_host(url) is None,
{
    reveal_strlit("ssh://");
    reveal_strlit("://");
    let head = "ssh://"@;
    assert(head.len() == 6);
    let long = head + authority + seq!['/'] + path;
    assert(long.take(6) =~= head);
    assert(long.skip(6) =~= authority + seq!['/'] + path);
    let rest = authority + seq!['/'] + path;
    assert forall|j: int| 0 <= j < authority.len() implies rest[j] != '/' by {
        if authority[j] == '/' {
            assert(authority.contains('/'));
        }
    }
    lemma_first_index_is(rest, '/', authority.len() as int);
    assert(rest.take(authority.len() as int) =~= authority);
    let short = head + authority;
    assert(short.take(6) =~= head);
    assert(short.skip(6) =~= authority);
    lemma_first_index(authority, '/');
    let scp = authority + seq![':'] + path;
    if !authority.contains(':') {
        assert forall|j: int| 0 <= j < authority.len() implies scp[j] != ':' by {
            if authority[j] == ':' {
                assert(authority.contains(':'));
            }
        }
        lemma_first_index_is(scp, ':', authority.len() as int);
        assert(scp.take(authority.len() as int) =~= authority);
    }
    if !url.contains(':') {
        lemma_first_index(url, ':');
        if begins(url, head) {
            assert(url.take(6)[3] == ':');
            assert(url.contains(url[3]));
        }
    }
}

/// A pattern without `*` matches a text of its length that has, place by place, the same
/// character where the pattern has no `?`.
pub proof fn law_pattern_without_star(p: Seq<char>, t: Seq<char>)
    requires
        !p.contains('*'),
    ensures
        wild(p, t) <==> p.len() == t.len() && forall|i: int|
            0 <= i < p.len() ==> #[trigger] p[i] == '?' || p[i] == t[i],
    decreases p.len(),
{
    if p.len() > 0 {
        assert(p.contains(p[0]));
        let q = p.skip(1);
        if q.contains('*') {
            let i = q.index_of('*');
            assert(0 <= i < q.len() && q[i] == '*');
            assert(p[i + 1] == '*');
        }
        if t.len() > 0 {
            let u = t.skip(1);
            law_pattern_without_star(q, u);
            if wild(p, t) {
                assert forall|i: int| 0 <= i < p.len() implies #[trigger] p[i] == '?' || p[i]
                    == t[i] by {
                    if i > 0 {
                        assert(q[i - 1] == p[i] && u[i - 1] == t[i]);
                    }
                }
            }
            if p.len() == t.len() && forall|i: int|
                0 <= i < p.len() ==> #[trigger] p[i] == '?' || p[i] == t[i] {
                assert(p[0] == '?' || p[0] == t[0]);
                assert forall|i: int| 0 <= i < q.len() implies #[trigger] q[i] == '?' || q[i]
                    == u[i] by {
                    assert(p[i + 1] == q[i] && t[i + 1] == u[i]);
                }
            }
        }
    }
}

/// A leading `*` matches any text, none included: the pattern matches where the rest of it
/// matches some end of the text.
pub proof fn law_star_takes_any_text(p: Seq<char>, t: Seq<char>)
    requires
        p.len() > 0,
        p[0] == '*',
    ensures
        wild(p, t) <==> exists|k: int| 0 <= k <= t.len() && wild(p.skip(1), #[trigger] t.skip(k)),
{
    if wild(p, t) {
        let k = lemma_star_took(p, t);
        assert(wild(p.skip(1), t.skip(k)));
    }
    if exists|k: int| 0 <= k <= t.len() && wild(p.skip(1), #[trigger] t.skip(k)) {
        let k = choose|k: int| 0 <= k <= t.len() && wild(p.skip(1), #[trigger] t.skip(k));
        lemma_star_takes(p, t, k);
    }
}

/// A block is for a host where one of its patterns matches it, unless a negated one does:
/// patterns that match nothing change nothing, and without a match there is no effect.
pub proof fn law_host_needs_a_match(host: Seq<char>, pats: Seq<Seq<char>>, more: Seq<char>)
    ensures
        applies(host, seq![more]) <==> !(more.len() > 0 && more[0] == '!') && wild(
            lower(more),
            lower(host),
        ),
        !applies(host, Seq::<Seq<char>>::empty()),
        more.len() > 0 && more[0] == '!' && !wild(lower(more.skip(1)), lower(host)) ==> applies(
            host,
            pats.push(more),
        ) == applies(host, pats),
        applies(host, pats) && !(more.len() > 0 && more[0] == '!') ==> applies(
            host,
            pats.push(more),
        ),
{
    let one = seq![more];
    if !is_negated(more) && host_glob(more, host) {
        assert(one[0] == more);
        assert(!is_negated(one[0]) && host_glob(one[0], host));
    }
    let all = pats.push(more);
    let n = pats.len() as int;
    assert(all[n] == more);
    if applies(host, pats) {
        let i = choose|i: int|
            0 <= i < pats.len() && !is_negated(#[trigger] pats[i]) && host_glob(pats[i], host);
        assert(all[i] == pats[i]);
        assert forall|j: int|
            0 <= j < all.len() && is_negated(#[trigger] all[j]) && (!is_negated(more) || !host_glob(
                more.skip(1),
                host,
            )) implies !host_glob(all[j].skip(1), host) by {
            if j < n {
                assert(pats[j] == all[j]);
            }
        }
    }
    if applies(host, all) && is_negated(more) {
        let i = choose|i: int|
            0 <= i < all.len() && !is_negated(#[trigger] all[i]) && host_glob(all[i], host);
        assert(i < n && pats[i] == all[i]);
        assert forall|j: int| 0 <= j < pats.len() && is_negated(#[trigger] pats[j]) implies !host_glob(
            pats[j].skip(1),
            host,
        ) by {
            assert(all[j] == pats[j]);
        }
    }
}

/// A line is a keyword and its argument, with white space or an equals sign between them.
pub proof fn law_lines_are_keyword_and_argument(key: Seq<char>, space: Seq<char>, arg: Seq<char>)
    requires
        forall|i: int| 0 <= i < key.len() ==> !is_space(#[trigger] key[i]) && key[i] != '=',
        forall|i: int| 0 <= i < space.len() ==> is_space(#[trigger] space[i]),
        space.len() > 0,
        arg.len() > 0 ==> !is_space(arg[0]) && arg[0] != '=',
    ensures
        keyword(key + space + arg) == key,
        argument(key + space + arg) == arg,
        keyword(key + seq!['='] + arg) == key,
        argument(key + seq!['='] + arg) == arg,
        keyword(key + space + seq!['='] + space + arg) == key,
        argument(key + space + seq!['='] + space + arg) == arg,
        keyword(key) == key,
        argument(key).len() == 0,
{
    let n = key.len() as int;
    let none = Seq::<char>::empty();
    assert forall|i: int| 0 <= i < n implies !ends_keyword(#[trigger] key[i]) by {}
    assert(is_space(space[0]));
    let a = key + space + arg;
    lemma_keyword(key, space + arg);
    assert(a =~= key + (space + arg));
    crate::text::law_trim_start_takes_off_the_start(space, arg);
    let b = key + seq!['='] + arg;
    assert(b =~= key + (seq!['='] + arg));
    lemma_keyword(key, seq!['='] + arg);
    crate::text::law_trim_start_takes_off_the_start(none, seq!['='] + arg);
    assert(none + (seq!['='] + arg) =~= seq!['='] + arg);
    assert((seq!['='] + arg).skip(1) =~= arg);
    crate::text::law_trim_start_takes_off_the_start(none, arg);
    assert(none + arg =~= arg);
    let tail = seq!['='] + space + arg;
    let c = key + space + seq!['='] + space + arg;
    assert(c =~= key + (space + tail));
    lemma_keyword(key, space + tail);
    crate::text::law_trim_start_takes_off_the_start(space, tail);
    assert(tail.skip(1) =~= space + arg);
    assert(key + none =~= key);
    lemma_keyword(key, none);
    crate::text::law_trim_start_takes_off_the_start(none, none);
    assert(none + none =~= none);
}

proof fn lemma_keyword(key: Seq<char>, rest: Seq<char>)
    requires
        forall|i: int| 0 <= i < key.len() ==> !ends_keyword(#[trigger] key[i]),
        rest.len() > 0 ==> ends_keyword(rest[0]),
    ensures
        keyword_len(key + rest) == key.len(),
        keyword(key + rest) == key,
        (key + rest).skip(key.len() as int) == rest,
{
    let line = key + rest;
    assert forall|i: int| 0 <= i < key.len() implies !ends_keyword(#[trigger] line[i]) by {
        assert(line[i] == key[i]);
    }
    lemma_keyword_len_is(line, key.len() as int);
    assert(line.take(key.len() as int) =~= key);
    assert(line.skip(key.len() as int) =~= rest);
}

/// Lines that are blank or comments say nothing: they change neither what is in effect
/// nor what keys are named.
pub proof fn law_comments_say_nothing(
    lines: Seq<Seq<char>>,
    line: Seq<char>,
    host: Seq<char>,
)
    requires
        trim(line, Class::Space).len() == 0 || trim(line, Class::Space)[0] == '#',
    ensures
        in_effect(lines.push(line), host) == in_effect(lines, host),
        identity_tokens(lines.push(line), host) == identity_tokens(lines, host),
{
    assert(lines.push(line).drop_last() =~= lines);
    assert(identity_tokens(lines.push(line), host) =~= identity_tokens(lines, host));
}

/// The last `Host` line decides what is in effect; before the first one, everything is.
/// Keys are named by the `IdentityFile` lines that are in effect, in their order, and by
/// no other line.
pub proof fn law_keys_are_those_of_the_host(
    lines: Seq<Seq<char>>,
    key: Seq<char>,
    arg: Seq<char>,
    host: Seq<char>,
)
    requires
        key.len() > 0,
        key[0] != '#',
        forall|i: int| 0 <= i < key.len() ==> !is_space(#[trigger] key[i]) && key[i] != '=',
        arg.len() > 0,
        !is_space(arg[0]),
        arg[0] != '=',
        !is_space(arg.last()),
    ensures
        ({
            let then = lines.push(key + seq![' '] + arg);
            &&& lower(key) == "host"@ ==> in_effect(then, host) == applies(host, words(arg))
                && identity_tokens(then, host) == identity_tokens(lines, host)
            &&& lower(key) == "identityfile"@ ==> in_effect(then, host) == in_effect(lines, host)
                && identity_tokens(then, host) == identity_tokens(lines, host) + (if in_effect(
                lines,
                host,
            ) {
                words(arg)
            } else {
                seq![]
            })
            &&& lower(key) != "host"@ && lower(key) != "identityfile"@ ==> in_effect(then, host)
                == in_effect(lines, host) && identity_tokens(then, host) == identity_tokens(
                lines,
                host,
            )
        }),
        in_effect(Seq::<Seq<char>>::empty(), host),
{
    lemma_directives_differ();
    let line = key + seq![' '] + arg;
    let then = lines.push(line);
    assert(then.drop_last() =~= lines);
    assert(line[0] == key[0] && line.last() == arg.last());
    assert(!is_space(key[0]));
    crate::text::lemma_trim_none(line, Class::Space);
    law_lines_are_keyword_and_argument(key, seq![' '], arg);
    assert(identity_tokens(lines, host) + Seq::<Seq<char>>::empty() =~= identity_tokens(
        lines,
        host,
    ));
}

} // verus!
