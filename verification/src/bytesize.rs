//! Sizes in bytes, as they are written in the configuration.

use crate::text::{all_digits, cat, cat3, cat5, chars_of, decimal, in_class, is_digit, lemma_decimal,
    lemma_trim_none, lower, lowered, number, piece_of,
    read_u64, same, string_of, trim, trimmed, value, Class};
use vstd::prelude::*;

verus! {

/// What a size text comes to.
#[derive(Debug)]
pub enum ByteSize {
    /// A number of bytes.
    Bytes(u64),
    /// A decimal number of units. The product is left to floating point: the number
    /// is a fraction, or the product has more than 64 bits.
    Product {
        /// The number, in decimal digits with at most one point.
        number: String,
        /// The size of the unit, in bytes.
        factor: u64,
    },
}

/// What [`ByteSize`] says.
pub enum SizeView {
    /// A number of bytes.
    Bytes(int),
    /// A decimal number of units.
    Product(Seq<char>, int),
}

impl View for ByteSize {
    type V = SizeView;

    open spec fn view(&self) -> SizeView {
        match self {
            ByteSize::Bytes(n) => SizeView::Bytes(*n as int),
            ByteSize::Product { number, factor } => SizeView::Product(number@, *factor as int),
        }
    }
}

/// The largest number of bytes.
pub const LARGEST: u64 = 0xffff_ffff_ffff_ffff;

/// Whether a character can be part of the number of a size.
pub open spec fn is_numeric(c: char) -> bool {
    is_digit(c) || c == '.'
}

/// The length of the number at the start of a size.
pub open spec fn number_len(s: Seq<char>) -> int
    decreases s.len(),
{
    if s.len() == 0 || !is_numeric(s[0]) {
        0
    } else {
        1 + number_len(s.skip(1))
    }
}

/// How often `x` occurs in `s`.
pub open spec fn occurrences(s: Seq<char>, x: char) -> nat
    decreases s.len(),
{
    if s.len() == 0 {
        0
    } else {
        occurrences(s.drop_last(), x) + if s.last() == x {
            1nat
        } else {
            0nat
        }
    }
}

/// Whether digits and points make a decimal number: at most one point, and at
/// least one digit.
pub open spec fn is_decimal(num: Seq<char>) -> bool {
    occurrences(num, '.') <= 1 && occurrences(num, '.') < num.len()
}

/// The size of a unit. Decimal units (`KB`, `MB`, `GB`, `TB`) are powers of 1000;
/// binary units (`KiB`, `MiB`, `GiB`, `TiB`) are powers of 1024.
pub open spec fn unit_factor(unit: Seq<char>) -> Option<int> {
    if unit == ""@ || unit == "b"@ {
        Some(1)
    } else if unit == "k"@ || unit == "kb"@ {
        Some(1000)
    } else if unit == "m"@ || unit == "mb"@ {
        Some(1_000_000)
    } else if unit == "g"@ || unit == "gb"@ {
        Some(1_000_000_000)
    } else if unit == "t"@ || unit == "tb"@ {
        Some(1_000_000_000_000)
    } else if unit == "kib"@ {
        Some(0x400)
    } else if unit == "mib"@ {
        Some(0x10_0000)
    } else if unit == "gib"@ {
        Some(0x4000_0000)
    } else if unit == "tib"@ {
        Some(0x100_0000_0000)
    } else {
        None
    }
}

/// The product of a number and a unit.
pub open spec fn size_product(num: Seq<char>, factor: int) -> SizeView {
    if all_digits(num) && value(num) * factor <= LARGEST {
        SizeView::Bytes(value(num) * factor)
    } else {
        SizeView::Product(num, factor)
    }
}

/// What a size text without surrounding white space comes to, or what is wrong
/// with it.
pub open spec fn size_of_text(s: Seq<char>) -> Result<SizeView, Seq<char>> {
    let num = s.take(number_len(s));
    let unit = lower(trim(s.skip(number_len(s)), Class::Space));
    if s.len() == 0 {
        Err("empty size"@)
    } else if !is_decimal(num) {
        Err("invalid size number in `"@ + s + "`"@)
    } else {
        match unit_factor(unit) {
            Some(factor) => Ok(size_product(num, factor)),
            None => Err("unknown size unit `"@ + unit + "` in `"@ + s + "`"@),
        }
    }
}

proof fn lemma_number_len_is(s: Seq<char>, n: int)
    requires
        0 <= n <= s.len(),
        forall|i: int| 0 <= i < n ==> is_numeric(#[trigger] s[i]),
        n < s.len() ==> !is_numeric(s[n]),
    ensures
        number_len(s) == n,
    decreases s.len(),
{
    if n > 0 {
        assert(is_numeric(s[0]));
        assert forall|i: int| 0 <= i < n - 1 implies is_numeric(#[trigger] s.skip(1)[i]) by {
            assert(s.skip(1)[i] == s[i + 1]);
        }
        lemma_number_len_is(s.skip(1), n - 1);
    }
}

/// How often `x` occurs in `v`.
fn count_char(v: &[char], x: char) -> (out: usize)
    ensures
        out == occurrences(v@, x),
        out <= v@.len(),
{
    let mut n: usize = 0;
    let mut i: usize = 0;
    assert(v@.take(0) =~= Seq::<char>::empty());
    while i < v.len()
        invariant
            i <= v@.len(),
            n <= i,
            n == occurrences(v@.take(i as int), x),
        decreases v.len() - i,
    {
        assert(v@.take(i + 1).drop_last() =~= v@.take(i as int));
        if v[i] == x {
            n = n + 1;
        }
        i = i + 1;
    }
    assert(v@.take(v@.len() as int) =~= v@);
    n
}

/// The size of a unit, in lower case.
fn factor_of(unit: &str) -> (out: Option<u64>)
    ensures
        match out {
            Some(f) => unit_factor(unit@) == Some(f as int) && 1 <= f <= 0x100_0000_0000,
            None => unit_factor(unit@) is None,
        },
{
    if same(unit, "") || same(unit, "b") {
        Some(1)
    } else if same(unit, "k") || same(unit, "kb") {
        Some(1000)
    } else if same(unit, "m") || same(unit, "mb") {
        Some(1_000_000)
    } else if same(unit, "g") || same(unit, "gb") {
        Some(1_000_000_000)
    } else if same(unit, "t") || same(unit, "tb") {
        Some(1_000_000_000_000)
    } else if same(unit, "kib") {
        Some(0x400)
    } else if same(unit, "mib") {
        Some(0x10_0000)
    } else if same(unit, "gib") {
        Some(0x4000_0000)
    } else if same(unit, "tib") {
        Some(0x100_0000_0000)
    } else {
        None
    }
}

/// The product of a number and a unit.
fn product_of(num: &[char], factor: u64) -> (out: ByteSize)
    requires
        num@.len() > 0,
        1 <= factor <= 0x100_0000_0000,
        forall|i: int| 0 <= i < num@.len() ==> is_numeric(#[trigger] num@[i]),
    ensures
        out@ == size_product(num@, factor as int),
{
    assert(is_numeric(num@[0]));
    if let Some(n) = read_u64(num) {
        proof {
            crate::text::lemma_value_positive(num@);
            assert(value(num@) == n);
        }
        if n <= LARGEST / factor {
            assert(n * factor <= LARGEST) by (nonlinear_arith)
                requires
                    n <= 0xffff_ffff_ffff_ffffu64 / factor,
                    factor >= 1,
                    LARGEST == 0xffff_ffff_ffff_ffffu64,
            ;
            return ByteSize::Bytes(n * factor);
        }
        assert(n * factor > LARGEST) by (nonlinear_arith)
            requires
                n > 0xffff_ffff_ffff_ffffu64 / factor,
                factor >= 1,
                LARGEST == 0xffff_ffff_ffff_ffffu64,
        ;
    } else {
        proof {
            if all_digits(num@) {
                assert(value(num@) > u64::MAX);
                assert(value(num@) * factor > LARGEST) by (nonlinear_arith)
                    requires
                        value(num@) > 0xffff_ffff_ffff_ffff,
                        factor >= 1,
                        LARGEST == 0xffff_ffff_ffff_ffffu64,
                ;
            }
        }
    }
    ByteSize::Product { number: string_of(num), factor }
}

/// Parse a byte size: a bare number (bytes) or a number with a unit suffix.
/// Decimal units (`KB`, `MB`, `GB`, `TB`) are powers of 1000; binary units
/// (`KiB`, `MiB`, `GiB`, `TiB`) are powers of 1024. Case-insensitive.
pub fn parse_byte_size(text: &str) -> (out: Result<ByteSize, String>)
    ensures
        match out {
            Ok(size) => size_of_text(trim(text@, Class::Space)) == Ok::<SizeView, Seq<char>>(
                size@,
            ),
            Err(e) => size_of_text(trim(text@, Class::Space)) == Err::<SizeView, Seq<char>>(e@),
        },
{
    let all = chars_of(text);
    let s = trimmed(all.as_slice(), Class::Space);
    if s.len() == 0 {
        return Err("empty size".to_string());
    }
    // Split the leading numeric part from an optional unit suffix.
    let mut k: usize = 0;
    while k < s.len() && (('0' <= s[k] && s[k] <= '9') || s[k] == '.')
        invariant
            k <= s@.len(),
            forall|i: int| 0 <= i < k ==> is_numeric(#[trigger] s@[i]),
        decreases s.len() - k,
    {
        k = k + 1;
    }
    proof {
        lemma_number_len_is(s@, k as int);
    }
    let num = piece_of(s.as_slice(), 0, k);
    let rest = piece_of(s.as_slice(), k, s.len());
    assert(num@ =~= s@.take(k as int));
    assert(rest@ =~= s@.skip(k as int));
    let whole = string_of(s.as_slice());
    let points = count_char(num.as_slice(), '.');
    if points > 1 || points >= num.len() {
        return Err(cat3("invalid size number in `", whole.as_str(), "`"));
    }
    let bare = trimmed(rest.as_slice(), Class::Space);
    let unit = string_of(lowered(bare.as_slice()).as_slice());
    match factor_of(unit.as_str()) {
        Some(factor) => Ok(product_of(num.as_slice(), factor)),
        None => Err(cat5("unknown size unit `", unit.as_str(), "` in `", whole.as_str(), "`")),
    }
}

/// The compact form of a byte count: in the largest decimal unit that divides it
/// evenly, else in bytes.
pub open spec fn size_text(n: nat) -> Seq<char> {
    if n >= 1_000_000_000_000 && n % 1_000_000_000_000 == 0 {
        decimal(n / 1_000_000_000_000) + "TB"@
    } else if n >= 1_000_000_000 && n % 1_000_000_000 == 0 {
        decimal(n / 1_000_000_000) + "GB"@
    } else if n >= 1_000_000 && n % 1_000_000 == 0 {
        decimal(n / 1_000_000) + "MB"@
    } else if n >= 1000 && n % 1000 == 0 {
        decimal(n / 1000) + "KB"@
    } else {
        decimal(n)
    }
}

/// A number followed by a unit.
fn with_unit(n: u64, unit: &str) -> (out: String)
    ensures
        out@ == decimal(n as nat) + unit@,
{
    cat(string_of(number(n).as_slice()).as_str(), unit)
}

/// Format a byte count back to a compact decimal size string for `config show`,
/// preferring the largest unit that divides it evenly (e.g. `100000000` is
/// `"100MB"`); falls back to a bare byte count (which also covers `0`).
pub fn format_byte_size(n: u64) -> (out: String)
    ensures
        out@ == size_text(n as nat),
{
    if n >= 1_000_000_000_000 && n % 1_000_000_000_000 == 0 {
        with_unit(n / 1_000_000_000_000, "TB")
    } else if n >= 1_000_000_000 && n % 1_000_000_000 == 0 {
        with_unit(n / 1_000_000_000, "GB")
    } else if n >= 1_000_000 && n % 1_000_000 == 0 {
        with_unit(n / 1_000_000, "MB")
    } else if n >= 1000 && n % 1000 == 0 {
        with_unit(n / 1000, "KB")
    } else {
        string_of(number(n).as_slice())
    }
}

proof fn lemma_no_points(s: Seq<char>)
    requires
        all_digits(s),
    ensures
        occurrences(s, '.') == 0,
    decreases s.len(),
{
    if s.len() > 0 {
        assert(is_digit(s[s.len() - 1]));
        assert(all_digits(s.drop_last()));
        lemma_no_points(s.drop_last());
    }
}

/// A decimal number with a unit is read as the product.
proof fn lemma_read_unit(n: nat, unit: Seq<char>, low: Seq<char>, factor: int)
    requires
        lower(unit) == low,
        unit_factor(low) == Some(factor),
        n * factor <= LARGEST,
        forall|i: int|
            0 <= i < unit.len() ==> !is_numeric(#[trigger] unit[i]) && !in_class(
                Class::Space,
                unit[i],
            ),
    ensures
        trim(decimal(n) + unit, Class::Space) == decimal(n) + unit,
        size_of_text(decimal(n) + unit) == Ok::<SizeView, Seq<char>>(SizeView::Bytes(n * factor)),
{
    lemma_decimal(n);
    let d = decimal(n);
    let s = d + unit;
    assert(is_digit(d[0]));
    assert(s[0] == d[0]);
    if unit.len() > 0 {
        assert(s.last() == unit[unit.len() - 1]);
    } else {
        assert(s.last() == d[d.len() - 1]);
        assert(is_digit(d[d.len() - 1]));
    }
    lemma_trim_none(s, Class::Space);
    assert forall|i: int| 0 <= i < d.len() implies is_numeric(#[trigger] s[i]) by {
        assert(s[i] == d[i]);
        assert(is_digit(d[i]));
    }
    if unit.len() > 0 {
        assert(s[d.len() as int] == unit[0]);
    }
    lemma_number_len_is(s, d.len() as int);
    assert(s.take(d.len() as int) =~= d);
    assert(s.skip(d.len() as int) =~= unit);
    if unit.len() > 0 {
        assert(!in_class(Class::Space, unit[0]));
        assert(!in_class(Class::Space, unit[unit.len() - 1]));
    }
    lemma_trim_none(unit, Class::Space);
    lemma_no_points(d);
}

/// What is formatted is read back, for every count.
pub proof fn law_size_round_trip(n: nat)
    requires
        n <= LARGEST,
    ensures
        size_of_text(trim(size_text(n), Class::Space)) == Ok::<SizeView, Seq<char>>(
            SizeView::Bytes(n as int),
        ),
{
    reveal_strlit("TB");
    reveal_strlit("GB");
    reveal_strlit("MB");
    reveal_strlit("KB");
    reveal_strlit("tb");
    reveal_strlit("gb");
    reveal_strlit("mb");
    reveal_strlit("kb");
    reveal_strlit("");
    reveal_strlit("b");
    reveal_strlit("t");
    reveal_strlit("g");
    reveal_strlit("m");
    reveal_strlit("k");
    assert(lower("TB"@) =~= "tb"@);
    assert(lower("GB"@) =~= "gb"@);
    assert(lower("MB"@) =~= "mb"@);
    assert(lower("KB"@) =~= "kb"@);
    assert("tb"@ != "gb"@ && "tb"@ != "mb"@ && "tb"@ != "kb"@) by {
        assert("tb"@[0] == 't' && "gb"@[0] == 'g' && "mb"@[0] == 'm' && "kb"@[0] == 'k');
    }
    assert("gb"@ != "mb"@ && "gb"@ != "kb"@ && "mb"@ != "kb"@) by {
        assert("gb"@[0] == 'g' && "mb"@[0] == 'm' && "kb"@[0] == 'k');
    }
    assert("tb"@.len() == 2 && "gb"@.len() == 2 && "mb"@.len() == 2 && "kb"@.len() == 2);
    assert(""@.len() == 0 && "b"@.len() == 1 && "t"@.len() == 1 && "g"@.len() == 1 && "m"@.len()
        == 1 && "k"@.len() == 1);
    if n >= 1_000_000_000_000 && n % 1_000_000_000_000 == 0 {
        lemma_read_unit(n / 1_000_000_000_000, "TB"@, "tb"@, 1_000_000_000_000);
    } else if n >= 1_000_000_000 && n % 1_000_000_000 == 0 {
        lemma_read_unit(n / 1_000_000_000, "GB"@, "gb"@, 1_000_000_000);
    } else if n >= 1_000_000 && n % 1_000_000 == 0 {
        lemma_read_unit(n / 1_000_000, "MB"@, "mb"@, 1_000_000);
    } else if n >= 1000 && n % 1000 == 0 {
        lemma_read_unit(n / 1000, "KB"@, "kb"@, 1000);
    } else {
        let empty = Seq::<char>::empty();
        assert(lower(empty) =~= empty);
        assert(""@ =~= empty);
        lemma_read_unit(n, empty, empty, 1);
        assert(decimal(n) + empty =~= decimal(n));
    }
}

/// The units of a thousand and its powers, with or without the letter for bytes, and a
/// number without a unit, which counts bytes.
pub proof fn law_decimal_units(unit: Seq<char>)
    requires
        unit.len() <= 2,
        unit.len() == 2 ==> unit[1] == 'b',
    ensures
        unit.len() == 0 || unit == seq!['b'] ==> unit_factor(unit) == Some(1int),
        unit.len() > 0 && unit[0] == 'k' ==> unit_factor(unit) == Some(1000int),
        unit.len() > 0 && unit[0] == 'm' ==> unit_factor(unit) == Some(1000 * 1000int),
        unit.len() > 0 && unit[0] == 'g' ==> unit_factor(unit) == Some(1000 * 1000 * 1000int),
        unit.len() > 0 && unit[0] == 't' ==> unit_factor(unit) == Some(
            1000 * 1000 * 1000 * 1000int,
        ),
{
    reveal_strlit("");
    reveal_strlit("b");
    reveal_strlit("k");
    reveal_strlit("kb");
    reveal_strlit("m");
    reveal_strlit("mb");
    reveal_strlit("g");
    reveal_strlit("gb");
    reveal_strlit("t");
    reveal_strlit("tb");
    reveal_strlit("kib");
    reveal_strlit("mib");
    reveal_strlit("gib");
    reveal_strlit("tib");
    if unit.len() == 0 {
        assert(unit =~= ""@);
    } else if unit.len() == 1 {
        assert(unit =~= seq![unit[0]]);
        assert("b"@ =~= seq!['b']);
        assert("k"@ =~= seq!['k']);
        assert("m"@ =~= seq!['m']);
        assert("g"@ =~= seq!['g']);
        assert("t"@ =~= seq!['t']);
        lemma_unit_lengths();
    } else {
        assert(unit =~= seq![unit[0], 'b']);
        assert("kb"@ =~= seq!['k', 'b']);
        assert("mb"@ =~= seq!['m', 'b']);
        assert("gb"@ =~= seq!['g', 'b']);
        assert("tb"@ =~= seq!['t', 'b']);
        lemma_unit_lengths();
    }
}

/// The units with an `i` count in steps of 1024.
pub proof fn law_binary_units(unit: Seq<char>)
    requires
        unit.len() == 3,
        unit[1] == 'i',
        unit[2] == 'b',
    ensures
        unit[0] == 'k' ==> unit_factor(unit) == Some(1024int),
        unit[0] == 'm' ==> unit_factor(unit) == Some(1024 * 1024int),
        unit[0] == 'g' ==> unit_factor(unit) == Some(1024 * 1024 * 1024int),
        unit[0] == 't' ==> unit_factor(unit) == Some(1024 * 1024 * 1024 * 1024int),
{
    reveal_strlit("");
    reveal_strlit("b");
    reveal_strlit("k");
    reveal_strlit("kb");
    reveal_strlit("m");
    reveal_strlit("mb");
    reveal_strlit("g");
    reveal_strlit("gb");
    reveal_strlit("t");
    reveal_strlit("tb");
    reveal_strlit("kib");
    reveal_strlit("mib");
    reveal_strlit("gib");
    reveal_strlit("tib");
    lemma_unit_lengths();
    assert(unit =~= seq![unit[0], 'i', 'b']);
    assert("kib"@ =~= seq!['k', 'i', 'b']);
    assert("mib"@ =~= seq!['m', 'i', 'b']);
    assert("gib"@ =~= seq!['g', 'i', 'b']);
    assert("tib"@ =~= seq!['t', 'i', 'b']);
}

/// There are no other units: one has at most three letters, the first of which is one of
/// those for the powers, or stands for bytes.
pub proof fn law_no_other_units(unit: Seq<char>)
    requires
        unit.len() > 3 || (unit.len() > 0 && unit[0] != 'b' && unit[0] != 'k' && unit[0] != 'm'
            && unit[0] != 'g' && unit[0] != 't'),
    ensures
        unit_factor(unit) is None,
{
    reveal_strlit("");
    reveal_strlit("b");
    reveal_strlit("k");
    reveal_strlit("kb");
    reveal_strlit("m");
    reveal_strlit("mb");
    reveal_strlit("g");
    reveal_strlit("gb");
    reveal_strlit("t");
    reveal_strlit("tb");
    reveal_strlit("kib");
    reveal_strlit("mib");
    reveal_strlit("gib");
    reveal_strlit("tib");
    lemma_unit_lengths();
}

proof fn lemma_unit_lengths()
    ensures
        ""@.len() == 0,
        "b"@.len() == 1,
        "k"@.len() == 1,
        "kb"@.len() == 2,
        "m"@.len() == 1,
        "mb"@.len() == 2,
        "g"@.len() == 1,
        "gb"@.len() == 2,
        "t"@.len() == 1,
        "tb"@.len() == 2,
        "kib"@.len() == 3,
        "mib"@.len() == 3,
        "gib"@.len() == 3,
        "tib"@.len() == 3,
{
    reveal_strlit("");
    reveal_strlit("b");
    reveal_strlit("k");
    reveal_strlit("kb");
    reveal_strlit("m");
    reveal_strlit("mb");
    reveal_strlit("g");
    reveal_strlit("gb");
    reveal_strlit("t");
    reveal_strlit("tb");
    reveal_strlit("kib");
    reveal_strlit("mib");
    reveal_strlit("gib");
    reveal_strlit("tib");
    assert(""@.len() == 0);
    assert("b"@.len() == 1);
    assert("k"@.len() == 1);
    assert("kb"@.len() == 2);
    assert("m"@.len() == 1);
    assert("mb"@.len() == 2);
    assert("g"@.len() == 1);
    assert("gb"@.len() == 2);
    assert("t"@.len() == 1);
    assert("tb"@.len() == 2);
    assert("kib"@.len() == 3);
    assert("mib"@.len() == 3);
    assert("gib"@.len() == 3);
    assert("tib"@.len() == 3);
}

/// A whole number with a unit is that many times the unit, in whatever case the unit is
/// written and with or without a space before it, as long as it fits.
pub proof fn law_size_is_number_times_unit(n: nat, space: Seq<char>, unit: Seq<char>, factor: int)
    requires
        unit_factor(lower(unit)) == Some(factor),
        n * factor <= LARGEST,
        forall|i: int| 0 <= i < space.len() ==> #[trigger] space[i] == ' ',
        forall|i: int|
            0 <= i < unit.len() ==> !('0' <= #[trigger] unit[i] <= '9') && unit[i] != '.'
                && !crate::text::is_space(unit[i]),
    ensures
        size_of_text(decimal(n) + space + unit) == Ok::<SizeView, Seq<char>>(
            SizeView::Bytes(n * factor),
        ),
{
    let num = decimal(n);
    let s = num + space + unit;
    crate::text::lemma_decimal(n);
    let k = num.len() as int;
    assert forall|i: int| 0 <= i < k implies is_numeric(#[trigger] s[i]) by {
        assert(s[i] == num[i]);
        assert(is_digit(num[i]));
    }
    if k < s.len() {
        if space.len() > 0 {
            assert(s[k] == space[0]);
            assert(space[0] == ' ');
        } else {
            assert(s[k] == unit[0]);
            assert(!is_numeric(unit[0]));
        }
    }
    lemma_number_len_is(s, k);
    assert(s.take(k) =~= num);
    assert(s.skip(k) =~= space + unit + Seq::<char>::empty());
    if unit.len() > 0 {
        assert(!crate::text::is_space(unit[0]) && !crate::text::is_space(unit[unit.len() - 1]));
    }
    assert forall|i: int| 0 <= i < space.len() implies in_class(Class::Space, #[trigger] space[i]) by {}
    crate::text::law_trim_takes_off_the_ends(space, unit, Seq::empty(), Class::Space);
    lemma_no_points(num);
}

/// A size needs a number at its start and a unit that is known.
pub proof fn law_bad_sizes_are_refused(s: Seq<char>)
    ensures
        size_of_text(Seq::<char>::empty()) is Err,
        s.len() > 0 && !('0' <= s[0] <= '9') && s[0] != '.' ==> size_of_text(s) is Err,
        unit_factor(lower(trim(s.skip(number_len(s)), Class::Space))) is None ==> size_of_text(s)
            is Err,
{
    if s.len() > 0 && !('0' <= s[0] <= '9') && s[0] != '.' {
        assert(number_len(s) == 0);
        assert(s.take(0) =~= Seq::<char>::empty());
        assert(!is_decimal(Seq::<char>::empty()));
    }
}

} // verus!
