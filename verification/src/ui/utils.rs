//! Numbers as text.
//!
//! Sizes and ratios are rounded as double-precision numbers are: first to 53
//! binary digits, then to the decimal digits that are shown, each time to the
//! nearest, and to the even one of two that are equally near.

use crate::rounding::{nearest, round_nearest};
use crate::text::{decimal, decimal_string};
use vstd::prelude::*;
use vstd::string::*;

verus! {

/// Two to the 53.
pub const DOUBLE_LIMIT: u64 = 0x20_0000_0000_0000;

/// The distance of the doubles around a number: the least power of two, from
/// `unit` on, of which the number holds less than 2^53.
pub open spec fn double_unit(n: int, unit: int) -> int
    decreases n - unit,
{
    if unit < 1 || n < DOUBLE_LIMIT * unit {
        unit
    } else {
        double_unit(n, 2 * unit)
    }
}

/// The double nearest to a natural number.
pub open spec fn double_of(n: int) -> int {
    nearest(n, double_unit(n, 1)) * double_unit(n, 1)
}

/// A number of tenths as text.
pub open spec fn tenths(q: nat) -> Seq<char> {
    decimal(q / 10) + "."@ + decimal(q % 10)
}

/// A number below a hundred as two digits.
pub open spec fn two_digits(n: nat) -> Seq<char> {
    if n < 10 {
        "0"@ + decimal(n)
    } else {
        decimal(n)
    }
}

/// A number of hundredths as text.
pub open spec fn hundredths(q: nat) -> Seq<char> {
    decimal(q / 100) + "."@ + two_digits(q % 100)
}

/// A number below a thousand as three digits.
pub open spec fn three_digits(n: nat) -> Seq<char> {
    if n < 10 {
        "00"@ + decimal(n)
    } else if n < 100 {
        "0"@ + decimal(n)
    } else {
        decimal(n)
    }
}

/// A number of thousandths as text.
pub open spec fn thousandths(q: nat) -> Seq<char> {
    decimal(q / 1000) + "."@ + three_digits(q % 1000)
}

/// The unit in which a number of bytes is shown: the greatest of which there
/// is at least one.
pub open spec fn byte_unit(n: int) -> int {
    if n >= 0x100_0000_0000 {
        0x100_0000_0000
    } else if n >= 0x4000_0000 {
        0x4000_0000
    } else if n >= 0x10_0000 {
        0x10_0000
    } else if n >= 0x400 {
        0x400
    } else {
        1
    }
}

/// The name of a unit of bytes.
pub open spec fn unit_name(unit: int) -> Seq<char> {
    if unit == 0x100_0000_0000 {
        "TiB"@
    } else if unit == 0x4000_0000 {
        "GiB"@
    } else if unit == 0x10_0000 {
        "MiB"@
    } else if unit == 0x400 {
        "KiB"@
    } else {
        "B"@
    }
}

/// A power of two up to 2^11.
spec fn is_small_power(u: int) -> bool {
    u == 1 || u == 2 || u == 4 || u == 8 || u == 0x10 || u == 0x20 || u == 0x40 || u == 0x80 || u
        == 0x100 || u == 0x200 || u == 0x400 || u == 0x800
}

/// The double nearest to a number.
fn as_double(n: u64) -> (r: u128)
    ensures
        r == double_of(n as int),
        r <= 0x1_0000_0000_0000_0000,
{
    let mut unit: u128 = 1;
    while n as u128 >= DOUBLE_LIMIT as u128 * unit
        invariant
            is_small_power(unit as int),
            double_unit(n as int, 1) == double_unit(n as int, unit as int),
            unit == 1 || n >= 0x10_0000_0000_0000 * unit,
        decreases 0x1000 - unit,
    {
        unit = unit * 2;
    }
    let q: u128 = round_nearest(n as u128, unit);
    proof {
        assert(n as int / unit as int <= DOUBLE_LIMIT) by (nonlinear_arith)
            requires
                n < DOUBLE_LIMIT * unit,
                unit >= 1,
        ;
        assert(q <= DOUBLE_LIMIT + 1);
        lemma_double_bound(n as int, unit as int, q as int);
    }
    q * unit
}

/// Rounding to a multiple of a power of two does not pass the power of two
/// above.
proof fn lemma_double_bound(n: int, unit: int, q: int)
    requires
        0 <= n < 0x1_0000_0000_0000_0000,
        1 <= unit <= 0x800,
        n < DOUBLE_LIMIT * unit,
        q == nearest(n, unit),
        unit == 1 || n >= 0x10_0000_0000_0000 * unit,
    ensures
        0 <= q <= DOUBLE_LIMIT,
        q * unit <= 0x1_0000_0000_0000_0000,
{
    let k = n / unit;
    let r = n % unit;
    assert(n == k * unit + r && 0 <= r < unit) by (nonlinear_arith)
        requires
            k == n / unit,
            r == n % unit,
            unit >= 1,
    ;
    assert(0 <= k < DOUBLE_LIMIT) by (nonlinear_arith)
        requires
            n == k * unit + r,
            0 <= r < unit,
            0 <= n < DOUBLE_LIMIT * unit,
            unit >= 1,
    ;
    assert(q * unit <= DOUBLE_LIMIT * unit) by (nonlinear_arith)
        requires
            q <= DOUBLE_LIMIT,
            unit >= 1,
    ;
    assert(DOUBLE_LIMIT * unit <= 0x1_0000_0000_0000_0000) by (nonlinear_arith)
        requires
            unit <= 0x800,
    ;
}

fn push_two_digits(out: &mut String, n: u64)
    requires
        n < 100,
    ensures
        final(out)@ == old(out)@ + two_digits(n as nat),
{
    if n < 10 {
        out.append("0");
    }
    out.append(decimal_string(n).as_str());
    assert(out@ =~= old(out)@ + two_digits(n as nat));
}

fn unit_of(n: u128) -> (r: (u128, &'static str))
    ensures
        r.0 == byte_unit(n as int),
        r.1@ == unit_name(r.0 as int),
{
    if n >= 0x100_0000_0000 {
        (0x100_0000_0000, "TiB")
    } else if n >= 0x4000_0000 {
        (0x4000_0000, "GiB")
    } else if n >= 0x10_0000 {
        (0x10_0000, "MiB")
    } else if n >= 0x400 {
        (0x400, "KiB")
    } else {
        (1, "B")
    }
}

/// A fraction of a unit of bytes stays in range.
proof fn lemma_scaled(v: int, unit: int, factor: int)
    requires
        0 <= v <= 0x1_0000_0000_0000_0000,
        unit == byte_unit(v),
        0 <= factor <= 100,
    ensures
        0 <= nearest(v * factor, unit) <= 0x100_0000 * 100 + 1,
        0 <= v * factor <= 0x1_0000_0000_0000_0000 * 100,
{
    assert(v <= 0x100_0000 * unit);
    assert(0 <= v * factor <= 0x1_0000_0000_0000_0000 * 100) by (nonlinear_arith)
        requires
            0 <= v <= 0x1_0000_0000_0000_0000,
            0 <= factor <= 100,
    ;
    assert(0 <= (v * factor) / unit <= 0x100_0000 * 100) by (nonlinear_arith)
        requires
            0 <= v <= 0x100_0000 * unit,
            unit >= 1,
            0 <= factor <= 100,
    ;
}

/// A number of bytes, with one decimal, in the unit that fits.
pub fn human_bytes(n: u64) -> (r: String)
    ensures
        ({
            let v = double_of(n as int);
            let unit = byte_unit(v);
            r@ == tenths(nearest(v * 10, unit) as nat) + " "@ + unit_name(unit)
        }),
{
    let v: u128 = as_double(n);
    let (unit, name): (u128, &str) = unit_of(v);
    proof {
        lemma_scaled(v as int, unit as int, 10);
    }
    let q: u64 = round_nearest(v * 10, unit) as u64;
    let mut out: String = decimal_string(q / 10);
    out.append(".");
    out.append(decimal_string(q % 10).as_str());
    out.append(" ");
    out.append(name);
    assert(out@ =~= tenths(q as nat) + " "@ + unit_name(unit as int));
    out
}

/// The text of a number of bytes: with two decimals in the unit that fits, or
/// the bytes alone.
pub open spec fn bytes_text(bytes: int) -> Seq<char> {
    let unit = byte_unit(bytes);
    if unit == 1 {
        decimal(bytes as nat) + " B"@
    } else {
        hundredths(nearest(double_of(bytes) * 100, unit) as nat) + " "@ + unit_name(unit)
    }
}

/// A number of bytes, with two decimals, in the unit that fits.
pub fn format_bytes(bytes: u64) -> (r: String)
    ensures
        r@ == bytes_text(bytes as int),
{
    let (unit, name): (u128, &str) = unit_of(bytes as u128);
    if unit == 1 {
        let mut out: String = decimal_string(bytes);
        out.append(" B");
        return out;
    }
    let v: u128 = as_double(bytes);
    proof {
        lemma_double_unit_of(bytes as int);
    }
    let q: u64 = round_nearest(v * 100, unit) as u64;
    let mut out: String = decimal_string(q / 100);
    out.append(".");
    push_two_digits(&mut out, q % 100);
    out.append(" ");
    out.append(name);
    assert(out@ =~= hundredths(q as nat) + " "@ + unit_name(unit as int));
    out
}

proof fn lemma_double_unit_of(n: int)
    requires
        0 <= n < 0x1_0000_0000_0000_0000,
        double_of(n) <= 0x1_0000_0000_0000_0000,
        byte_unit(n) > 1,
    ensures
        0 <= double_of(n),
        0 <= double_of(n) * 100 <= 0x1_0000_0000_0000_0000 * 100,
        0 <= nearest(double_of(n) * 100, byte_unit(n)) <= 0x100_0000 * 100 + 1,
{
    let unit = byte_unit(n);
    let v = double_of(n);
    lemma_unit_positive(n, 1);
    let u = double_unit(n, 1);
    assert(0 <= nearest(n, u)) by (nonlinear_arith)
        requires
            n >= 0,
            u >= 1,
    ;
    assert(0 <= nearest(n, u) * u) by (nonlinear_arith)
        requires
            0 <= nearest(n, u),
            u >= 1,
    ;
    if n < DOUBLE_LIMIT {
        assert(u == 1);
        assert(n / 1 == n && n % 1 == 0);
        assert(nearest(n, u) * u == n) by (nonlinear_arith)
            requires
                nearest(n, u) == n,
                u == 1,
        ;
    }
    assert(v <= 0x100_0000 * unit);
    assert(0 <= (v * 100) / unit <= 0x100_0000 * 100) by (nonlinear_arith)
        requires
            0 <= v <= 0x100_0000 * unit,
            unit >= 1,
    ;
}

proof fn lemma_unit_positive(n: int, unit: int)
    requires
        unit >= 1,
    ensures
        double_unit(n, unit) >= 1,
    decreases n - unit,
{
    if n >= DOUBLE_LIMIT * unit {
        assert(n - 2 * unit < n - unit);
        assert(n >= unit) by (nonlinear_arith)
            requires
                n >= DOUBLE_LIMIT * unit,
                unit >= 1,
        ;
        lemma_unit_positive(n, 2 * unit);
    }
}

/// A number of bytes in a second.
pub fn format_speed(bytes_per_sec: u64) -> (r: String)
    ensures
        r@ == bytes_text(bytes_per_sec as int) + "/s"@,
{
    let mut out: String = format_bytes(bytes_per_sec);
    out.append("/s");
    out
}

/// The text of a time in seconds.
pub open spec fn eta_text(seconds: Option<u64>) -> Seq<char> {
    match seconds {
        None => "\u{221e}"@,
        Some(s) => {
            let h = (s / 3600) as nat;
            let m = (s % 3600 / 60) as nat;
            let sec = (s % 60) as nat;
            if s == 0 {
                "done"@
            } else if h > 0 {
                decimal(h) + "h "@ + two_digits(m) + "m "@ + two_digits(sec) + "s"@
            } else if m > 0 {
                decimal(m) + "m "@ + two_digits(sec) + "s"@
            } else {
                decimal(sec) + "s"@
            }
        },
    }
}

/// The time that is left, in hours, minutes and seconds.
pub fn format_eta(seconds: Option<u64>) -> (r: String)
    ensures
        r@ == eta_text(seconds),
{
    let s: u64 = match seconds {
        None => {
            return "\u{221e}".to_string();
        },
        Some(s) => s,
    };
    if s == 0 {
        return "done".to_string();
    }
    let hours: u64 = s / 3600;
    let minutes: u64 = (s % 3600) / 60;
    let secs: u64 = s % 60;
    let mut out: String = String::new();
    if hours > 0 {
        out.append(decimal_string(hours).as_str());
        out.append("h ");
        push_two_digits(&mut out, minutes);
        out.append("m ");
        push_two_digits(&mut out, secs);
    } else if minutes > 0 {
        out.append(decimal_string(minutes).as_str());
        out.append("m ");
        push_two_digits(&mut out, secs);
    } else {
        out.append(decimal_string(secs).as_str());
    }
    out.append("s");
    assert(out@ =~= eta_text(seconds));
    out
}

/// A power of two.
pub open spec fn is_power_of_two(n: int) -> bool
    decreases n,
{
    n == 1 || (n > 1 && n % 2 == 0 && is_power_of_two(n / 2))
}

/// `m * d / p` is the double nearest to `a / b`: `m` has 53 binary digits, and
/// `d` and `p` are powers of two, one of them one.
pub open spec fn double_quotient(a: int, b: int, m: int, p: int, d: int) -> bool {
    &&& is_power_of_two(p)
    &&& is_power_of_two(d)
    &&& p == 1 || d == 1
    &&& b * d * 0x10_0000_0000_0000 <= a * p < b * d * 0x20_0000_0000_0000
    &&& m == nearest(a * p, b * d)
}

/// The text of the ratio of two numbers: with three decimals, as the quotient
/// of the doubles nearest to them.
pub open spec fn ratio_text(uploaded: int, downloaded: int, text: Seq<char>) -> bool {
    let a = double_of(uploaded);
    let b = double_of(downloaded);
    if downloaded == 0 {
        text == if uploaded == 0 {
            "0.000"@
        } else {
            "\u{221e}"@
        }
    } else if uploaded == 0 {
        text == "0.000"@
    } else {
        exists|m: int, p: int, d: int|
            #[trigger] double_quotient(a, b, m, p, d) && text == thousandths(
                nearest(m * d * 1000, p) as nat,
            )
    }
}

/// A number whose last digit is split off.
proof fn lemma_last_digit(n: nat)
    requires
        n >= 10,
    ensures
        decimal(n) == decimal(n / 10) + decimal(n % 10),
{
    reveal_with_fuel(crate::text::decimal_bytes, 2);
    assert(crate::text::decimal_bytes(n) == crate::text::decimal_bytes(n / 10).push(
        crate::text::digit_byte(n),
    ));
    assert(crate::text::digit_byte(n) == crate::text::digit_byte(n % 10));
    assert(decimal(n) =~= decimal(n / 10) + decimal(n % 10));
}

fn push_large(out: &mut String, n: u128)
    requires
        n <= 0xffff_ffff_ffff_ffff * 10,
    ensures
        final(out)@ == old(out)@ + decimal(n as nat),
{
    if n >= 10 {
        proof {
            lemma_last_digit(n as nat);
        }
        out.append(decimal_string((n / 10) as u64).as_str());
    }
    out.append(decimal_string((n % 10) as u64).as_str());
    assert(out@ =~= old(out)@ + decimal(n as nat));
}

/// A double above zero is at least one.
proof fn lemma_double_positive(n: int)
    requires
        1 <= n < 0x1_0000_0000_0000_0000,
    ensures
        double_of(n) >= 1,
{
    lemma_unit_positive(n, 1);
    let u = double_unit(n, 1);
    if n < DOUBLE_LIMIT {
        assert(n / 1 == n && n % 1 == 0);
        assert(nearest(n, u) * u == n) by (nonlinear_arith)
            requires
                nearest(n, u) == n,
                u == 1,
        ;
    } else {
        lemma_unit_small(n, 1);
        assert(n / u >= 1) by (nonlinear_arith)
            requires
                n >= u,
                u >= 1,
        ;
        assert(nearest(n, u) * u >= 1) by (nonlinear_arith)
            requires
                nearest(n, u) >= 1,
                u >= 1,
        ;
    }
}

proof fn lemma_unit_small(n: int, unit: int)
    requires
        1 <= unit <= n,
    ensures
        double_unit(n, unit) <= n,
    decreases n - unit,
{
    if n >= DOUBLE_LIMIT * unit {
        assert(n >= 2 * unit) by (nonlinear_arith)
            requires
                n >= DOUBLE_LIMIT * unit,
                unit >= 1,
        ;
        lemma_unit_small(n, 2 * unit);
    }
}

/// The ratio of two numbers of bytes, with three decimals.
#[verifier::rlimit(40)]
pub fn format_ratio(uploaded: u64, downloaded: u64) -> (r: String)
    ensures
        ratio_text(uploaded as int, downloaded as int, r@),
{
    if downloaded == 0 {
        if uploaded == 0 {
            return "0.000".to_string();
        }
        return "\u{221e}".to_string();
    }
    if uploaded == 0 {
        return "0.000".to_string();
    }
    let a: u128 = as_double(uploaded);
    let b: u128 = as_double(downloaded);
    proof {
        lemma_double_positive(uploaded as int);
        lemma_double_positive(downloaded as int);
    }
    let mut num: u128 = a;
    let mut p: u128 = 1;
    assert(a as int * 1 == a);
    while num < b * 0x10_0000_0000_0000
        invariant
            1 <= a <= 0x1_0000_0000_0000_0000,
            1 <= b <= 0x1_0000_0000_0000_0000,
            num == a * p,
            1 <= p <= num,
            is_power_of_two(p as int),
            p == 1 || num < b * 0x20_0000_0000_0000,
            num <= 0x20_0000_0000_0000 * 0x1_0000_0000_0000_0000,
        decreases b * 0x20_0000_0000_0000 - num,
    {
        proof {
            let n2 = 2 * num;
            let p2 = 2 * p;
            assert(n2 == a * p2) by (nonlinear_arith)
                requires
                    num == a * p,
                    n2 == 2 * num,
                    p2 == 2 * p,
            ;
            assert((2 * p) / 2 == p);
        }
        num = num * 2;
        p = p * 2;
    }
    let mut den: u128 = b;
    let mut d: u128 = 1;
    assert(b as int * 1 == b);
    while num >= den * 0x20_0000_0000_0000
        invariant
            1 <= b <= den <= 0x1_0000_0000_0000_0000,
            den == b * d,
            1 <= d <= den,
            is_power_of_two(d as int),
            p == 1 || d == 1,
            p == 1 || num < den * 0x20_0000_0000_0000,
            p == 1 ==> num <= 0x1_0000_0000_0000_0000,
            den * 0x10_0000_0000_0000 <= num <= 0x20_0000_0000_0000 * 0x1_0000_0000_0000_0000,
        decreases num - den,
    {
        proof {
            let n2 = 2 * den;
            let d2 = 2 * d;
            assert(n2 == b * d2) by (nonlinear_arith)
                requires
                    den == b * d,
                    n2 == 2 * den,
                    d2 == 2 * d,
            ;
            assert((2 * d) / 2 == d);
        }
        den = den * 2;
        d = d * 2;
    }
    let m: u128 = round_nearest(num, den);
    proof {
        assert(double_quotient(a as int, b as int, m as int, p as int, d as int));
        assert(num as int / den as int <= 0x20_0000_0000_0000) by (nonlinear_arith)
            requires
                num < den * 0x20_0000_0000_0000,
                den >= 1,
        ;
        lemma_ratio_bounds(num as int, den as int, b as int, d as int, m as int, p as int);
    }
    let q: u128 = round_nearest(m * d * 1000, p);
    let mut out: String = String::new();
    push_large(&mut out, q / 1000);
    out.append(".");
    let rest: u64 = (q % 1000) as u64;
    if rest < 10 {
        out.append("00");
    } else if rest < 100 {
        out.append("0");
    }
    out.append(decimal_string(rest).as_str());
    assert(out@ =~= thousandths(q as nat));
    out
}

proof fn lemma_ratio_bounds(num: int, den: int, b: int, d: int, m: int, p: int)
    requires
        1 <= b,
        1 <= d,
        1 <= p,
        den == b * d,
        den * 0x10_0000_0000_0000 <= num < den * 0x20_0000_0000_0000,
        p == 1 ==> num <= 0x1_0000_0000_0000_0000,
        p == 1 || d == 1,
        m == nearest(num, den),
    ensures
        0 <= m <= 0x20_0000_0000_0000 + 1,
        m * d <= 0x1_0000_0000_0000_0000 * 4,
        0 <= m * d * 1000 <= 0x1_0000_0000_0000_0000 * 4000,
        0 <= nearest(m * d * 1000, p) <= 0x1_0000_0000_0000_0000 * 4000 + 1,
{
    let k = num / den;
    assert(0 <= k < 0x20_0000_0000_0000 && k * den <= num) by (nonlinear_arith)
        requires
            k == num / den,
            0 <= num < den * 0x20_0000_0000_0000,
            den >= 1,
    ;
    if p == 1 {
        assert(k * d <= num) by (nonlinear_arith)
            requires
                k * den <= num,
                den == b * d,
                b >= 1,
                d >= 1,
                k >= 0,
        ;
        assert(d <= num) by (nonlinear_arith)
            requires
                den * 0x10_0000_0000_0000 <= num,
                den == b * d,
                b >= 1,
                d >= 1,
        ;
        assert(m * d <= k * d + d) by (nonlinear_arith)
            requires
                m <= k + 1,
                d >= 1,
        ;
    } else {
        assert(m * d == m);
    }
    assert(0 <= m * d) by (nonlinear_arith)
        requires
            m >= 0,
            d >= 1,
    ;
    let x = m * d * 1000;
    assert(0 <= x / p <= x) by (nonlinear_arith)
        requires
            x >= 0,
            p >= 1,
    ;
}

} // verus!
