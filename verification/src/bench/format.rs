//! Numbers for people.

use vstd::prelude::*;
use crate::client::input::law_decimals_tell_numbers_apart;
use crate::client::outbox::Nanos;
use crate::text::{decimal, digit_char, push_decimal, push_two_digits, two_digits};

verus! {

/// A number below one thousand in three digits.
pub open spec fn three_digits(n: nat) -> Seq<char> {
    seq![digit_char(n / 100)] + two_digits(n % 100)
}

/// A number in decimal, its digits in groups of three.
pub open spec fn grouped(n: nat) -> Seq<char>
    decreases n,
{
    if n < 1000 {
        decimal(n)
    } else {
        grouped(n / 1000) + ","@ + three_digits(n % 1000)
    }
}

fn push_grouped(s: &mut String, n: u128)
    ensures
        final(s)@ == old(s)@ + grouped(n as nat),
    decreases n,
{
    if n < 1000 {
        push_decimal(s, n);
    } else {
        push_grouped(s, n / 1000);
        s.append(",");
        let low: u128 = n % 1000;
        push_decimal(s, low / 100);
        push_two_digits(s, (low % 100) as u8);
        assert(s@ =~= old(s)@ + grouped(n as nat));
    }
}

/// A number in decimal, its digits in groups of three.
#[must_use]
pub fn thousands(n: u128) -> (r: String)
    ensures
        r@ == grouped(n as nat),
{
    let mut s = String::new();
    push_grouped(&mut s, n);
    assert(s@ =~= grouped(n as nat));
    s
}

/// A whole number and two digits behind the point, with a unit.
pub open spec fn fixed(whole: nat, hundredths: nat, unit: Seq<char>) -> Seq<char> {
    decimal(whole) + "."@ + two_digits(hundredths) + unit
}

fn fixed_text(whole: u128, hundredths: u8, unit: &str) -> (r: String)
    requires
        hundredths < 100,
    ensures
        r@ == fixed(whole as nat, hundredths as nat, unit@),
{
    let mut s = String::new();
    push_decimal(&mut s, whole);
    s.append(".");
    push_two_digits(&mut s, hundredths);
    s.append(unit);
    assert(s@ =~= fixed(whole as nat, hundredths as nat, unit@));
    s
}

fn whole_text(n: u128, unit: &str) -> (r: String)
    ensures
        r@ == decimal(n as nat) + unit@,
{
    let mut s = String::new();
    push_decimal(&mut s, n);
    s.append(unit);
    assert(s@ =~= decimal(n as nat) + unit@);
    s
}

/// Bytes in MiB.
pub open spec fn mib_text(bytes: nat) -> Seq<char> {
    let kib = bytes / 1024;
    fixed(kib / 1024, (kib % 1024) * 100 / 1024, " MiB"@)
}

/// Bytes in MiB.
#[must_use]
pub fn fmt_mib(bytes: u64) -> (r: String)
    ensures
        r@ == mib_text(bytes as nat),
{
    let kib: u64 = bytes / 1024;
    fixed_text((kib / 1024) as u128, ((kib % 1024) * 100 / 1024) as u8, " MiB")
}

/// Bytes in KiB.
pub open spec fn kib_text(bytes: nat) -> Seq<char> {
    fixed(bytes / 1024, (bytes % 1024) * 100 / 1024, " KiB"@)
}

/// Bytes in KiB.
#[must_use]
pub fn fmt_kib(bytes: u64) -> (r: String)
    ensures
        r@ == kib_text(bytes as nat),
{
    fixed_text((bytes / 1024) as u128, ((bytes % 1024) * 100 / 1024) as u8, " KiB")
}

/// Microseconds, in milliseconds from one on.
pub open spec fn us_text(us: nat) -> Seq<char> {
    if us < 1_000 {
        decimal(us) + "µs"@
    } else {
        fixed(us / 1_000, (us % 1_000) / 10, "ms"@)
    }
}

/// Microseconds, in milliseconds from one on.
#[must_use]
pub fn fmt_us(us: u128) -> (r: String)
    ensures
        r@ == us_text(us as nat),
{
    if us < 1_000 {
        whole_text(us, "µs")
    } else {
        fixed_text(us / 1_000, ((us % 1_000) / 10) as u8, "ms")
    }
}

/// A stretch of time in microseconds, milliseconds or seconds.
pub open spec fn span_text(d: nat) -> Seq<char> {
    let us = d / 1_000;
    if us < 1_000_000 {
        us_text(us)
    } else {
        fixed(us / 1_000_000, (us % 1_000_000) / 10_000, "s"@)
    }
}

/// A stretch of time in microseconds, milliseconds or seconds.
#[must_use]
pub fn fmt_secs(d: Nanos) -> (r: String)
    ensures
        r@ == span_text(d as nat),
{
    let us: u128 = d / 1_000;
    if us < 1_000_000 {
        fmt_us(us)
    } else {
        fixed_text(us / 1_000_000, ((us % 1_000_000) / 10_000) as u8, "s")
    }
}

/// The nanoseconds of a long stretch of time, as far as they are printed.
pub open spec fn ns_text(ns: nat) -> Seq<char> {
    if ns < 1_000 {
        decimal(ns) + "ns"@
    } else if ns <= u64::MAX {
        span_text(ns)
    } else {
        span_text(u64::MAX as nat)
    }
}

/// A stretch of time in nanoseconds, microseconds, milliseconds or seconds.
#[must_use]
pub fn fmt_ns(ns: u128) -> (r: String)
    ensures
        r@ == ns_text(ns as nat),
{
    if ns < 1_000 {
        whole_text(ns, "ns")
    } else if ns <= u64::MAX as u128 {
        fmt_secs(ns)
    } else {
        fmt_secs(u64::MAX as u128)
    }
}

// ---------------------------------------------------------------------------
// Laws
// ---------------------------------------------------------------------------

/// A text without its commas.
pub open spec fn without_commas(s: Seq<char>) -> Seq<char>
    decreases s.len(),
{
    if s.len() == 0 {
        Seq::empty()
    } else if s.last() == ',' {
        without_commas(s.drop_last())
    } else {
        without_commas(s.drop_last()).push(s.last())
    }
}

proof fn lemma_without_commas_join(a: Seq<char>, b: Seq<char>)
    ensures
        without_commas(a + b) == without_commas(a) + without_commas(b),
    decreases b.len(),
{
    if b.len() == 0 {
        assert(a + b =~= a);
        assert(without_commas(a) + without_commas(b) =~= without_commas(a));
    } else {
        lemma_without_commas_join(a, b.drop_last());
        assert((a + b).drop_last() =~= a + b.drop_last());
        assert((a + b).last() == b.last());
        assert(without_commas(a + b) =~= without_commas(a) + without_commas(b));
    }
}

proof fn lemma_digit_is_no_comma(d: nat)
    ensures
        digit_char(d) != ',',
{
}

proof fn lemma_decimal_has_no_comma(n: nat)
    ensures
        without_commas(decimal(n)) == decimal(n),
        forall|i: int| 0 <= i < decimal(n).len() ==> #[trigger] decimal(n)[i] != ',',
        n < 10 ==> decimal(n).len() == 1,
        n < 1000 ==> decimal(n).len() <= 3,
    decreases n,
{
    reveal_with_fuel(decimal, 4);
    if n < 10 {
        let d = decimal(n);
        assert(d.drop_last() =~= Seq::<char>::empty());
        assert(without_commas(d.drop_last()) =~= Seq::<char>::empty());
        lemma_digit_is_no_comma(n);
        assert(without_commas(d) =~= d);
    } else {
        let d = decimal(n);
        lemma_decimal_has_no_comma(n / 10);
        lemma_digit_is_no_comma(n % 10);
        assert(d.drop_last() =~= decimal(n / 10));
        assert forall|i: int| 0 <= i < d.len() implies #[trigger] d[i] != ',' by {
            if i < d.len() - 1 {
                assert(d[i] == decimal(n / 10)[i]);
            }
        }
    }
}

proof fn lemma_thousand(n: nat)
    requires
        n >= 1000,
    ensures
        decimal(n) == decimal(n / 1000) + three_digits(n % 1000),
{
    reveal_with_fuel(decimal, 4);
    assert(n / 10 / 10 == n / 100);
    assert(n / 100 / 10 == n / 1000);
    assert(n / 10 % 10 == n % 1000 % 100 / 10);
    assert(n / 100 % 10 == n % 1000 / 100);
    assert(n % 10 == n % 1000 % 100 % 10);
    assert(decimal(n) =~= decimal(n / 1000) + three_digits(n % 1000));
}

/// A number in groups is the number in decimal with a comma in front of every third
/// digit, counted from the end, and nowhere else.
pub proof fn law_groups_of_three(n: nat)
    ensures
        without_commas(grouped(n)) == decimal(n),
        forall|i: int|
            0 <= i < grouped(n).len() ==> (#[trigger] grouped(n)[i] == ',' <==> (grouped(n).len() - i)
                % 4 == 0),
    decreases n,
{
    if n < 1000 {
        lemma_decimal_has_no_comma(n);
    } else {
        reveal_strlit(",");
        law_groups_of_three(n / 1000);
        lemma_thousand(n);
        let g = grouped(n / 1000);
        let t = three_digits(n % 1000);
        let s = grouped(n);
        assert(t.len() == 3);
        lemma_digit_is_no_comma(n % 1000 / 100);
        lemma_digit_is_no_comma(n % 1000 % 100 / 10);
        lemma_digit_is_no_comma(n % 1000 % 100 % 10);
        assert(without_commas(t) == t) by {
            reveal_with_fuel(without_commas, 4);
            assert(t.drop_last().drop_last().drop_last() =~= Seq::<char>::empty());
            assert(without_commas(t) =~= t);
        }
        assert(without_commas(","@) =~= Seq::<char>::empty()) by {
            reveal_with_fuel(without_commas, 2);
            assert(","@.last() == ',');
        }
        lemma_without_commas_join(g + ","@, t);
        lemma_without_commas_join(g, ","@);
        assert(without_commas(s) =~= decimal(n));
        assert forall|i: int| 0 <= i < s.len() implies (#[trigger] s[i] == ',' <==> (s.len() - i) % 4
            == 0) by {
            if i < g.len() {
                assert(s[i] == g[i]);
            } else if i == g.len() {
                assert(s[i] == ',');
            } else {
                assert(s[i] == t[i - g.len() - 1]);
            }
        }
    }
}

/// What is printed of a quantity is its hundredths, rounded down, in the unit that it
/// is printed in: milliseconds and seconds, KiB and MiB.
pub proof fn law_hundredths_are_rounded_down(us: nat, d: nat, bytes: nat)
    ensures
        us < 1_000 ==> us_text(us) == decimal(us) + "µs"@,
        us >= 1_000 ==> us_text(us) == fixed((us / 10) / 100, (us / 10) % 100, "ms"@),
        d < 1_000_000_000 ==> span_text(d) == us_text(d / 1_000),
        d >= 1_000_000_000 ==> span_text(d) == fixed(
            (d / 10_000_000) / 100,
            (d / 10_000_000) % 100,
            "s"@,
        ),
        d >= 1_000 && d <= u64::MAX ==> ns_text(d) == span_text(d),
        d < 1_000 ==> ns_text(d) == decimal(d) + "ns"@,
        kib_text(bytes) == fixed(
            (bytes * 100 / 1024) / 100,
            (bytes * 100 / 1024) % 100,
            " KiB"@,
        ),
        mib_text(bytes) == fixed(
            (bytes / 1024 * 100 / 1024) / 100,
            (bytes / 1024 * 100 / 1024) % 100,
            " MiB"@,
        ),
{
    assert(us / 10 / 100 == us / 1_000);
    assert((us / 10) % 100 == (us % 1_000) / 10);
    let u = d / 1_000;
    assert(d / 10_000_000 == u / 10_000);
    assert(u / 10_000 / 100 == u / 1_000_000);
    assert((u / 10_000) % 100 == (u % 1_000_000) / 10_000);
    lemma_hundredths(bytes);
    lemma_hundredths(bytes / 1024);
}

proof fn lemma_hundredths(n: nat)
    ensures
        (n * 100 / 1024) / 100 == n / 1024,
        (n * 100 / 1024) % 100 == (n % 1024) * 100 / 1024,
{
    let q = n / 1024;
    let r = n % 1024;
    assert(n == 1024 * q + r);
    assert(n * 100 == 1024 * (100 * q) + r * 100);
    assert(n * 100 / 1024 == 100 * q + r * 100 / 1024);
    assert(r * 100 / 1024 < 100);
}

/// What is printed with a point tells the whole and the hundredths.
pub proof fn law_fixed_tells_the_number(
    whole: nat,
    hundredths: nat,
    other: nat,
    others: nat,
    unit: Seq<char>,
)
    requires
        hundredths < 100,
        others < 100,
        fixed(whole, hundredths, unit) == fixed(other, others, unit),
    ensures
        whole == other,
        hundredths == others,
{
    reveal_strlit(".");
    let s = fixed(whole, hundredths, unit);
    let n = s.len() - unit.len();
    let a = decimal(whole);
    let b = decimal(other);
    assert(s.len() == a.len() + 3 + unit.len());
    assert(fixed(other, others, unit).len() == b.len() + 3 + unit.len());
    assert(s.take(n - 3) =~= a);
    assert(s.take(n - 3) =~= b);
    law_decimals_tell_numbers_apart(whole, other);
    assert(s[n - 2] == digit_char(hundredths / 10));
    assert(fixed(other, others, unit)[n - 2] == digit_char(others / 10));
    assert(s[n - 1] == digit_char(hundredths % 10));
    assert(fixed(other, others, unit)[n - 1] == digit_char(others % 10));
}

} // verus!
