//! Lengths of time, as they are written in the configuration.

use crate::text::{chars_of, digit_value, is_digit};
use vstd::prelude::*;

verus! {

/// A length of time.
#[derive(Debug, Clone, Copy, PartialEq, Eq, Structural)]
pub struct Span {
    /// Whole seconds.
    pub secs: u64,
    /// The rest, in nanoseconds; less than a second.
    pub nanos: u32,
}

/// What `humantime::parse_duration` makes of a text: the seconds and nanoseconds,
/// or its complaint.
pub uninterp spec fn humantime_parse(text: Seq<char>) -> Result<(u64, u32), Seq<char>>;

/// The text that `humantime::format_duration` gives for seconds and nanoseconds.
pub uninterp spec fn humantime_format(secs: u64, nanos: u32) -> Seq<char>;

/// Whether a character belongs to a unit.
pub open spec fn is_letter(c: char) -> bool {
    ('a' <= c && c <= 'z') || ('A' <= c && c <= 'Z') || c == 'µ'
}

/// How many nanoseconds the unit that a text starts with has at most; a year where it
/// starts with no unit.
pub open spec fn unit_nanos(rest: Seq<char>) -> nat {
    let c = rest[0];
    if c == 'n' {
        1
    } else if c == 'u' || c == 'µ' {
        1_000
    } else if c == 'm' && rest.len() >= 2 && rest[1] == 's' {
        1_000_000
    } else if c == 'm' && rest.len() >= 3 && rest[1] == 'i' && rest[2] == 'l' {
        1_000_000
    } else if c == 's' {
        1_000_000_000
    } else if c == 'm' && (rest.len() < 2 || rest[1] != 'o') {
        60_000_000_000
    } else if c == 'h' {
        3_600_000_000_000
    } else if c == 'd' {
        86_400_000_000_000
    } else if c == 'w' {
        604_800_000_000_000
    } else if c == 'm' || c == 'M' {
        2_630_016_000_000_000
    } else {
        31_557_600_000_000_000
    }
}

/// The longest time, in nanoseconds, that the rest of a text can stand for, where
/// `number` was read before it. A fraction counts as a whole unit. A number of more than
/// 64 bits is refused, and what follows it is not read.
pub open spec fn most_nanos(rest: Seq<char>, number: nat, in_fraction: bool) -> nat
    decreases rest.len(),
{
    if rest.len() == 0 {
        0
    } else {
        let c = rest[0];
        let more = rest.skip(1);
        if is_digit(c) {
            if in_fraction {
                most_nanos(more, number, true)
            } else if 10 * number + digit_value(c) > u64::MAX {
                0
            } else {
                most_nanos(more, (10 * number + digit_value(c)) as nat, false)
            }
        } else if c == '.' {
            most_nanos(more, number, true)
        } else if is_letter(c) {
            (number + if in_fraction {
                1nat
            } else {
                0nat
            }) * unit_nanos(rest) + most_nanos(more, 0, false)
        } else {
            most_nanos(more, number, in_fraction)
        }
    }
}

/// One second more than the longest length of time has, in nanoseconds.
pub const TOO_LONG: u128 = 18_446_744_073_709_551_616_000_000_000;

/// Whether a text stands for no more than the longest length of time that there is.
pub open spec fn is_moderate(text: Seq<char>) -> bool {
    most_nanos(text, 0, false) < TOO_LONG
}

/// `humantime::parse_duration`: the length of time that a text like `1h 30m`
/// stands for, in seconds and nanoseconds, or why it stands for none. It can
/// only panic where the parts of the text come to a full second more than the largest
/// number of seconds.
#[verifier::external_body]
fn parse_text(text: &str) -> (out: Result<(u64, u32), String>)
    requires
        is_moderate(text@),
    ensures
        match out {
            Ok(d) => humantime_parse(text@) is Ok && humantime_parse(text@)->Ok_0 == d && d.1
                < 1_000_000_000,
            Err(e) => humantime_parse(text@) is Err && humantime_parse(text@)->Err_0 == e@,
        },
{
    match humantime::parse_duration(text) {
        Ok(d) => Ok((d.as_secs(), d.subsec_nanos())),
        Err(e) => Err(e.to_string()),
    }
}

/// `humantime::format_duration`: a text for a length of time. Its documentation
/// guarantees that `parse_duration` gives the same length back.
#[verifier::external_body]
fn format_text(secs: u64, nanos: u32) -> (out: String)
    requires
        nanos < 1_000_000_000,
    ensures
        out@ == humantime_format(secs, nanos),
        humantime_parse(out@) is Ok && humantime_parse(out@)->Ok_0 == (secs, nanos),
{
    humantime::format_duration(std::time::Duration::new(secs, nanos)).to_string()
}

/// How many nanoseconds the unit at index `i` has at most.
fn nanos_of_unit(v: &[char], i: usize) -> (out: u128)
    requires
        i < v@.len(),
    ensures
        out == unit_nanos(v@.skip(i as int)),
        out <= 31_557_600_000_000_000,
{
    let c = v[i];
    let ghost rest = v@.skip(i as int);
    assert(rest[0] == c);
    let second = if v.len() - i >= 2 {
        assert(rest[1] == v@[i + 1]);
        v[i + 1]
    } else {
        ' '
    };
    let third = if v.len() - i >= 3 {
        assert(rest[2] == v@[i + 2]);
        v[i + 2]
    } else {
        ' '
    };
    if c == 'n' {
        1
    } else if c == 'u' || c == 'µ' {
        1_000
    } else if c == 'm' && second == 's' {
        1_000_000
    } else if c == 'm' && second == 'i' && third == 'l' {
        1_000_000
    } else if c == 's' {
        1_000_000_000
    } else if c == 'm' && second != 'o' {
        60_000_000_000
    } else if c == 'h' {
        3_600_000_000_000
    } else if c == 'd' {
        86_400_000_000_000
    } else if c == 'w' {
        604_800_000_000_000
    } else if c == 'm' || c == 'M' {
        2_630_016_000_000_000
    } else {
        31_557_600_000_000_000
    }
}

/// Whether a text stands for no more than the longest length of time that there is.
fn stays_moderate(text: &str) -> (out: bool)
    ensures
        out == is_moderate(text@),
{
    let v = chars_of(text);
    let mut total: u128 = 0;
    let mut number: u64 = 0;
    let mut in_fraction = false;
    let mut i: usize = 0;
    assert(v@.skip(0) =~= v@);
    while i < v.len()
        invariant
            i <= v@.len(),
            v@ == text@,
            total < TOO_LONG,
            most_nanos(text@, 0, false) == total + most_nanos(
                v@.skip(i as int),
                number as nat,
                in_fraction,
            ),
        decreases v.len() - i,
    {
        let c = v[i];
        assert(v@.skip(i as int)[0] == c);
        assert(v@.skip(i as int).skip(1) =~= v@.skip(i + 1));
        if '0' <= c && c <= '9' {
            if !in_fraction {
                let next: u128 = 10 * (number as u128) + (c as u128 - '0' as u128);
                if next > u64::MAX as u128 {
                    return true;
                }
                number = next as u64;
            }
        } else if c == '.' {
            in_fraction = true;
        } else if ('a' <= c && c <= 'z') || ('A' <= c && c <= 'Z') || c == 'µ' {
            let unit = nanos_of_unit(v.as_slice(), i);
            let count: u128 = if in_fraction {
                number as u128 + 1
            } else {
                number as u128
            };
            assert(count * unit <= 0x1_0000_0000_0000_0000u128 * 31_557_600_000_000_000u128)
                by (nonlinear_arith)
                requires
                    count <= 0x1_0000_0000_0000_0000u128,
                    unit <= 31_557_600_000_000_000u128,
            ;
            total = total + count * unit;
            number = 0;
            in_fraction = false;
            if total >= TOO_LONG {
                return false;
            }
        }
        i = i + 1;
    }
    assert(v@.skip(i as int) =~= Seq::<char>::empty());
    true
}

impl Span {
    /// Whether the nanoseconds are less than a second.
    pub open spec fn wf(self) -> bool {
        self.nanos < 1_000_000_000
    }

    /// So many whole seconds.
    pub fn from_secs(secs: u64) -> (out: Span)
        ensures
            out == (Span { secs, nanos: 0 }),
            out.wf(),
    {
        Span { secs, nanos: 0 }
    }

    /// Whether it is no time at all.
    pub fn is_zero(&self) -> (out: bool)
        ensures
            out == (self.secs == 0 && self.nanos == 0),
    {
        self.secs == 0 && self.nanos == 0
    }

    /// The length of time that a text stands for.
    pub open spec fn read(text: Seq<char>) -> Result<Span, Seq<char>> {
        match humantime_parse(text) {
            Ok(d) => Ok(Span { secs: d.0, nanos: d.1 }),
            Err(e) => Err(e),
        }
    }

    /// The length of time that a text like `1h 30m` stands for.
    pub fn parse(text: &str) -> (out: Result<Span, String>)
        requires
            is_moderate(text@),
        ensures
            match out {
                Ok(d) => Span::read(text@) == Ok::<Span, Seq<char>>(d) && d.wf(),
                Err(e) => Span::read(text@) == Err::<Span, Seq<char>>(e@),
            },
    {
        match parse_text(text) {
            Ok(d) => Ok(Span { secs: d.0, nanos: d.1 }),
            Err(e) => Err(e),
        }
    }

    /// The length of time that a text stands for, unless that could be more than the
    /// longest there is.
    pub fn parse_checked(text: &str) -> (out: Option<Result<Span, String>>)
        ensures
            match out {
                Some(Ok(d)) => Span::read(text@) == Ok::<Span, Seq<char>>(d) && d.wf(),
                Some(Err(e)) => Span::read(text@) == Err::<Span, Seq<char>>(e@),
                None => !is_moderate(text@),
            },
            out is None <==> !is_moderate(text@),
    {
        if stays_moderate(text) {
            Some(Span::parse(text))
        } else {
            None
        }
    }

    /// A text that stands for this length of time.
    pub fn format(&self) -> (out: String)
        requires
            self.wf(),
        ensures
            out@ == humantime_format(self.secs, self.nanos),
            Span::read(out@) == Ok::<Span, Seq<char>>(*self),
    {
        format_text(self.secs, self.nanos)
    }
}

} // verus!
