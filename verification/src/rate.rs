//! Transfer rates, as double-precision arithmetic gives them.
//!
//! A rate is the number of bytes divided by 1024 times the number of seconds.
//! Both numbers and the quotient are rounded as IEEE 754 binary64 rounds them,
//! to 53 significant bits with ties to the even one, and the result is printed
//! with three decimals, again with ties to the even one. Everything is done in
//! integers. An interval of no length counts as one second.

use vstd::arithmetic::power2::pow2;
use vstd::prelude::*;

use crate::text::{
    decimal, digits_value, lemma_decimal_reads_back, lemma_padded, lemma_padded_reads_back, padded,
    push_decimal, push_padded, ten_to,
};

verus! {

/// Two to the power 52: the least number of 53 bits.
pub const TWO_52: u128 = 0x10_0000_0000_0000;

/// Two to the power 53: the least number of 54 bits.
pub const TWO_53: u128 = 0x20_0000_0000_0000;

/// The integer nearest to `a / b`, the even one of two that are equally near.
pub open spec fn nearest_even(a: nat, b: nat) -> nat {
    let q = a / b;
    let r = a % b;
    if 2 * r < b || (2 * r == b && q % 2 == 0) {
        q
    } else {
        q + 1
    }
}

/// How often `a` must be doubled for `a / b` to have at least 53 bits before the
/// point.
pub open spec fn doublings(a: nat, b: nat) -> nat
    decreases
            if a >= b * TWO_52 {
                0
            } else {
                b * TWO_52 - a
            },
{
    if a == 0 || a >= b * TWO_52 {
        0
    } else {
        1 + doublings(2 * a, b)
    }
}

/// How often `b` must be doubled for `a / b` to have at most 53 bits before the
/// point.
pub open spec fn halvings(a: nat, b: nat) -> nat
    decreases
            if a < b * TWO_53 {
                0
            } else {
                1 + a - b * TWO_53
            },
{
    if b == 0 || a < b * TWO_53 {
        0
    } else {
        1 + halvings(a, 2 * b)
    }
}

/// The significand of the double nearest to `a / b`, as an integer of 53 bits
/// (or the next power of two).
pub open spec fn significand(a: nat, b: nat) -> nat {
    nearest_even(a * pow2(doublings(a, b)), b * pow2(halvings(a, b)))
}

/// The double nearest to the integer `n`, which is an integer again.
pub open spec fn double_of(n: nat) -> nat {
    nearest_even(n, pow2(halvings(n, 1))) * pow2(halvings(n, 1))
}

/// The double nearest to `a / b`, in thousandths and rounded to an integer.
pub open spec fn quotient_thousandths(a: nat, b: nat) -> nat {
    nearest_even(
        significand(a, b) * 1000 * pow2(halvings(a, b)),
        pow2(doublings(a, b)),
    )
}

/// The rate of `bytes` in `secs` seconds, in thousandths of a kilobyte per
/// second.
pub open spec fn rate_thousandths(bytes: nat, secs: nat) -> nat
    recommends
        secs > 0,
{
    quotient_thousandths(double_of(bytes), 1024 * double_of(secs))
}

fn round_half_even(a: u128, b: u128) -> (n: u128)
    requires
        0 < b <= 0x8000_0000_0000_0000_0000_0000_0000_0000,
        a < u128::MAX,
    ensures
        n == nearest_even(a as nat, b as nat),
{
    let q: u128 = a / b;
    let r: u128 = a % b;
    if r < b - r || (r == b - r && q % 2 == 0) {
        q
    } else {
        assert(q <= a) by (nonlinear_arith)
            requires
                q == a / b,
                b > 0,
        ;
        q + 1
    }
}

/// The powers of two that bring `a / b` to 53 bits: what `a` and what `b` must be
/// multiplied by.
fn scale(a: u128, b: u128) -> (factors: (u128, u128))
    requires
        a <= 0x1_0000_0000_0000_0000,
        0 < b <= 0x400_0000_0000_0000_0000,
    ensures
        factors.0 == pow2(doublings(a as nat, b as nat)),
        factors.1 == pow2(halvings(a as nat, b as nat)),
        a * factors.0 <= 0x8000_0000_0000_0000_0000_0000_0000_0000,
        b * factors.1 <= 0x400_0000_0000_0000_0000,
        0 < factors.0 <= 0x8000_0000_0000_0000_0000_0000_0000_0000,
        0 < factors.1,
        a * factors.0 < b * factors.1 * TWO_53,
        a < b * factors.1 * TWO_53,
        factors.1 == 1 || a * 2 >= b * factors.1 * TWO_53,
{
    let ghost up = doublings(a as nat, b as nat);
    let ghost down = halvings(a as nat, b as nat);
    let ghost mut done: nat = 0;
    let mut top: u128 = a;
    let mut f: u128 = 1;
    proof {
        lemma_pow2_small();
    }
    while top != 0 && top < b * TWO_52
        invariant
            a <= 0x1_0000_0000_0000_0000,
            0 < b <= 0x400_0000_0000_0000_0000,
            top == a * f,
            f > 0,
            f <= top || top == 0 && f == 1,
            f == pow2(done),
            up == done + doublings(top as nat, b as nat),
            top == a || top < b * TWO_53,
        decreases b * TWO_53 - top,
    {
        proof {
            lemma_pow2_step(done);
            assert(a * (2 * f) == 2 * (a * f)) by (nonlinear_arith);
            done = done + 1;
        }
        top = 2 * top;
        f = 2 * f;
    }
    let ghost mut done: nat = 0;
    let mut bottom: u128 = b;
    let mut g: u128 = 1;
    while a >= bottom * TWO_53
        invariant
            a <= 0x1_0000_0000_0000_0000,
            0 < b <= 0x400_0000_0000_0000_0000,
            bottom == b * g,
            0 < g <= bottom <= 0x400_0000_0000_0000_0000,
            g == pow2(done),
            down == done + halvings(a as nat, bottom as nat),
            g == 1 || a * 2 >= bottom * TWO_53,
        decreases 0x400_0000_0000_0000_0000 - bottom,
    {
        proof {
            lemma_pow2_step(done);
            assert(b * (2 * g) == 2 * (b * g)) by (nonlinear_arith);
            done = done + 1;
        }
        bottom = 2 * bottom;
        g = 2 * g;
    }
    (f, g)
}

/// The double nearest to an integer.
fn to_double(n: u64) -> (d: u128)
    ensures
        d == double_of(n as nat),
        d <= 0x1_0000_0000_0000_0000,
        n > 0 ==> d > 0,
{
    let (_, g) = scale(n as u128, 1);
    let m = round_half_even(n as u128, g);
    proof {
        assert(1 * g * TWO_53 == g * TWO_53) by (nonlinear_arith);
        assert(g < 0x1000) by (nonlinear_arith)
            requires
                g == 1 || n * 2 >= g * TWO_53,
                n <= 0xffff_ffff_ffff_ffff,
                TWO_53 == 0x20_0000_0000_0000,
        ;
        lemma_pow2_below(halvings(n as nat, 1));
        lemma_nearest_even_bound(n as nat, g as nat, TWO_53 as nat);
        if n > 0 {
            lemma_nearest_even_at_least(n as nat, g as nat, 1);
        }
        assert(m * g <= 0x1_0000_0000_0000_0000) by (nonlinear_arith)
            requires
                m <= TWO_53,
                g <= 0x800,
        ;
        assert(n > 0 ==> m * g > 0) by (nonlinear_arith)
            requires
                n > 0 ==> m >= 1,
                g > 0,
        ;
    }
    m * g
}

/// Rounding stays at or below a bound that the quotient stays below.
proof fn lemma_nearest_even_bound(a: nat, b: nat, bound: nat)
    requires
        b > 0,
        a < b * bound,
    ensures
        nearest_even(a, b) <= bound,
{
    assert(a / b < bound) by (nonlinear_arith)
        requires
            b > 0,
            a < b * bound,
    ;
}

/// Rounding stays at or above an integer that the quotient reaches.
proof fn lemma_nearest_even_at_least(a: nat, b: nat, bound: nat)
    requires
        b > 0,
        a >= b * bound,
    ensures
        nearest_even(a, b) >= bound,
{
    assert(a / b >= bound) by (nonlinear_arith)
        requires
            b > 0,
            a >= b * bound,
    ;
}

/// The rate of `bytes` in `secs` seconds, in thousandths.
fn thousandths(bytes: u64, secs: u64) -> (n: u128)
    requires
        secs > 0,
    ensures
        n == rate_thousandths(bytes as nat, secs as nat),
        n / 1000 <= u64::MAX,
{
    let a = to_double(bytes);
    let b = 1024 * to_double(secs);
    let (f, g) = scale(a, b);
    let m = round_half_even(a * f, b * g);
    proof {
        lemma_nearest_even_bound((a * f) as nat, (b * g) as nat, TWO_53 as nat);
        assert(g < 8) by (nonlinear_arith)
            requires
                g == 1 || a * 2 >= b * g * TWO_53,
                a <= 0x1_0000_0000_0000_0000,
                b >= 1024,
                TWO_53 == 0x20_0000_0000_0000,
        ;
        assert(m * 1000 * g <= 0x20_0000_0000_0000 * 8000) by (nonlinear_arith)
            requires
                m <= 0x20_0000_0000_0000,
                g < 8,
        ;
    }
    let n = round_half_even(m * 1000 * g, f);
    proof {
        assert(m * 1000 * g < f * (0x20_0000_0000_0000int * 8000 + 1)) by (nonlinear_arith)
            requires
                m * 1000 * g <= 0x20_0000_0000_0000 * 8000,
                f >= 1,
        ;
        lemma_nearest_even_bound(
            (m * 1000 * g) as nat,
            f as nat,
            (0x20_0000_0000_0000int * 8000 + 1) as nat,
        );
    }
    n
}

/// A number of thousandths, printed with three decimals.
pub open spec fn thousandths_text(n: nat) -> Seq<char> {
    decimal(n / 1000) + seq!['.'] + padded(n % 1000, 3)
}

/// The seconds that a rate is taken over: those of the interval, but an interval
/// of no length counts as one second, so that every rate is a number.
pub open spec fn rated_secs(secs: nat) -> nat {
    if secs == 0 {
        1
    } else {
        secs
    }
}

/// The rate of `bytes` in an interval of `secs` seconds, in kilobytes per second
/// with three decimals.
pub open spec fn rate_text(bytes: nat, secs: nat) -> Seq<char> {
    thousandths_text(rate_thousandths(bytes, rated_secs(secs)))
}

/// Appends the rate of `bytes` in an interval of `secs` seconds, in kilobytes per
/// second. An interval of no length counts as one second.
pub fn push_rate(out: &mut String, bytes: u64, secs: u64)
    ensures
        final(out)@ == old(out)@ + rate_text(bytes as nat, secs as nat),
{
    let rated: u64 = if secs == 0 {
        1
    } else {
        secs
    };
    let n = thousandths(bytes, rated);
    push_decimal(out, (n / 1000) as u64);
    out.push('.');
    push_padded(out, (n % 1000) as u64, 3);
    assert(out@ =~= old(out)@ + rate_text(bytes as nat, secs as nat));
}

/// The rate of `bytes` in an interval of `secs` seconds, in kilobytes per second.
/// An interval of no length counts as one second.
pub fn kbps(bytes: u64, secs: u64) -> (text: String)
    ensures
        text@ == rate_text(bytes as nat, secs as nat),
{
    let mut text: String = String::new();
    push_rate(&mut text, bytes, secs);
    assert(text@ =~= rate_text(bytes as nat, secs as nat));
    text
}

proof fn lemma_pow2_small()
    ensures
        pow2(0) == 1,
{
    vstd::arithmetic::power2::lemma2_to64();
}

proof fn lemma_pow2_below(e: nat)
    requires
        pow2(e) < 0x1000,
    ensures
        pow2(e) <= 0x800,
{
    vstd::arithmetic::power2::lemma2_to64();
    if e > 11 {
        if e > 12 {
            vstd::arithmetic::power2::lemma_pow2_strictly_increases(12, e);
        }
    } else if e < 11 {
        vstd::arithmetic::power2::lemma_pow2_strictly_increases(e, 11);
    }
}

proof fn lemma_pow2_step(e: nat)
    ensures
        pow2(e + 1) == 2 * pow2(e),
{
    vstd::arithmetic::power2::lemma_pow2_unfold(e + 1);
}

/// Rounding moves a quotient by at most one half.
pub proof fn lemma_nearest_even_is_near(a: nat, b: nat)
    requires
        b > 0,
    ensures
        -b <= 2 * (nearest_even(a, b) * b - a) <= b,
{
    let q = a / b;
    let r = a % b;
    assert(a == q * b + r && r < b) by (nonlinear_arith)
        requires
            q == a / b,
            r == a % b,
            b > 0,
    ;
    assert((q + 1) * b == q * b + b) by (nonlinear_arith);
}

/// An integer of at most 53 bits is a double.
pub proof fn lemma_double_of_small(n: nat)
    requires
        n < TWO_53,
    ensures
        double_of(n) == n,
{
    lemma_pow2_small();
    assert(halvings(n, 1) == 0);
    assert(n / 1 == n && n % 1 == 0);
}

proof fn lemma_doublings_reach(a: nat, b: nat)
    requires
        0 < a < b * TWO_53,
    ensures
        b * TWO_52 <= a * pow2(doublings(a, b)),
    decreases
            if a >= b * TWO_52 {
                0
            } else {
                b * TWO_52 - a
            },
{
    lemma_pow2_small();
    if a >= b * TWO_52 {
        assert(a * pow2(0) == a) by (nonlinear_arith)
            requires
                pow2(0) == 1,
        ;
    } else {
        lemma_doublings_reach(2 * a, b);
        let k = doublings(2 * a, b);
        lemma_pow2_step(k);
        assert(a * (2 * pow2(k)) == (2 * a) * pow2(k)) by (nonlinear_arith);
    }
}

/// A rate below 2^42 kilobytes per second is off by less than a thousandth, where
/// the two numbers have at most 53 bits.
pub proof fn lemma_rate_is_close(bytes: nat, secs: nat)
    requires
        bytes < TWO_53,
        0 < secs < TWO_53,
        bytes < 1024 * secs * 0x400_0000_0000,
    ensures
        -(1024 * secs) < rate_thousandths(bytes, secs) * (1024 * secs) - 1000 * bytes < 1024 * secs,
{
    let b = 1024 * secs;
    lemma_double_of_small(bytes);
    lemma_double_of_small(secs);
    lemma_pow2_small();
    let f = pow2(doublings(bytes, b));
    let m = significand(bytes, b);
    let n = rate_thousandths(bytes, secs);
    assert(halvings(bytes, b) == 0);
    assert(b * pow2(0) == b) by (nonlinear_arith)
        requires
            pow2(0) == 1,
    ;
    assert(m * 1000 * pow2(0) == m * 1000) by (nonlinear_arith)
        requires
            pow2(0) == 1,
    ;
    vstd::arithmetic::power2::lemma_pow2_pos(doublings(bytes, b));
    lemma_nearest_even_is_near(bytes * f, b);
    lemma_nearest_even_is_near(m * 1000, f);
    if bytes == 0 {
        assert(0 * f == 0) by (nonlinear_arith);
        assert(0nat / b == 0 && 0nat % b == 0) by (nonlinear_arith)
            requires
                b > 0,
        ;
        assert(f == 1);
        assert(m == 0);
        assert(n == 0);
        assert(n * b == 0) by (nonlinear_arith)
            requires
                n == 0,
        ;
    } else {
        lemma_doublings_reach(bytes, b);
        assert(f > 1024) by (nonlinear_arith)
            requires
                bytes < b * 0x400_0000_0000,
                b * 0x10_0000_0000_0000 <= bytes * f,
                b > 0,
        ;
        assert(-b < n * b - 1000 * bytes < b) by (nonlinear_arith)
            requires
                f > 1024,
                b > 0,
                -b <= 2 * (m * b - bytes * f) <= b,
                -f <= 2 * (n * f - m * 1000) <= f,
        ;
    }
}

/// A rate that has no more than three decimals is printed as it is.
pub proof fn lemma_short_rate_is_exact(bytes: nat, secs: nat, n: nat)
    requires
        bytes < TWO_53,
        0 < secs < TWO_53,
        bytes < 1024 * secs * 0x400_0000_0000,
        1000 * bytes == n * (1024 * secs),
    ensures
        rate_thousandths(bytes, secs) == n,
{
    lemma_rate_is_close(bytes, secs);
    let b = 1024 * secs;
    let r = rate_thousandths(bytes, secs);
    assert(r == n) by (nonlinear_arith)
        requires
            b > 0,
            -b < r * b - n * b < b,
    ;
}

// ---------------------------------------------------------------------------
// What a printed rate says
// ---------------------------------------------------------------------------

/// A rate is printed as digits, a point and three more digits, without a needless
/// zero in front.
pub proof fn lemma_rate_form(bytes: nat, secs: nat)
    ensures
        ({
            let text = rate_text(bytes, secs);
            let p = text.len() - 4;
            &&& p >= 1
            &&& text[p] == '.'
            &&& forall|i: int|
                0 <= i < text.len() && i != p ==> '0' <= #[trigger] text[i] <= '9'
            &&& p > 1 ==> text[0] != '0'
        }),
{
    lemma_thousandths_read_back(rate_thousandths(bytes, rated_secs(secs)));
}

proof fn lemma_thousandths_read_back(n: nat)
    ensures
        ({
            let text = thousandths_text(n);
            let p = text.len() - 4;
            &&& p >= 1
            &&& text[p] == '.'
            &&& forall|i: int|
                0 <= i < text.len() && i != p ==> '0' <= #[trigger] text[i] <= '9'
            &&& p > 1 ==> text[0] != '0'
            &&& digits_value(text.take(p)) * 1000 + digits_value(text.skip(p + 1)) == n
        }),
{
    let text = thousandths_text(n);
    let whole = decimal(n / 1000);
    let rest = padded(n % 1000, 3);
    let p = text.len() - 4;
    lemma_decimal_reads_back(n / 1000);
    lemma_padded_reads_back(n % 1000, 3);
    reveal_with_fuel(ten_to, 4);
    lemma_padded(n % 1000, 3);
    assert(whole.len() == p);
    assert(text.take(p) =~= whole);
    assert(text.skip(p + 1) =~= rest);
    assert forall|i: int| 0 <= i < text.len() && i != p implies '0' <= #[trigger] text[i] <= '9' by {
        if i < p {
            assert(text[i] == whole[i]);
        } else {
            assert(text[i] == rest[i - p - 1]);
        }
    }
}

/// What is printed for an interval of `secs` seconds is the bytes divided by 1024
/// times these seconds, off by less than a thousandth, where the two numbers have at
/// most 53 bits and the rate is below 2^42 kilobytes per second.
pub proof fn lemma_printed_rate_is_close(bytes: nat, secs: nat)
    requires
        bytes < 0x20_0000_0000_0000,
        0 < secs < 0x20_0000_0000_0000,
        bytes < 1024 * secs * 0x400_0000_0000,
    ensures
        ({
            let text = rate_text(bytes, secs);
            let p = text.len() - 4;
            let n = digits_value(text.take(p)) * 1000 + digits_value(text.skip(p + 1));
            -(1024 * secs) < n * (1024 * secs) - 1000 * bytes < 1024 * secs
        }),
{
    lemma_rate_is_close(bytes, secs);
    lemma_thousandths_read_back(rate_thousandths(bytes, secs));
}

/// Where the rate has no more than three decimals, exactly these are printed.
pub proof fn lemma_printed_rate_is_exact(bytes: nat, secs: nat, n: nat)
    requires
        bytes < 0x20_0000_0000_0000,
        0 < secs < 0x20_0000_0000_0000,
        bytes < 1024 * secs * 0x400_0000_0000,
        1000 * bytes == n * (1024 * secs),
    ensures
        ({
            let text = rate_text(bytes, secs);
            let p = text.len() - 4;
            digits_value(text.take(p)) * 1000 + digits_value(text.skip(p + 1)) == n
        }),
{
    lemma_short_rate_is_exact(bytes, secs, n);
    lemma_thousandths_read_back(rate_thousandths(bytes, secs));
}

/// An interval of no length has the rates of one second.
pub proof fn lemma_no_length_is_one_second(bytes: nat)
    ensures
        rate_text(bytes, 0) == rate_text(bytes, 1),
{
}

/// What is near enough to a quotient, and even where another integer is as near, is
/// what rounding gives.
pub proof fn lemma_nearest_even_unique(a: nat, b: nat, n: nat)
    requires
        b > 0,
        -b <= 2 * (n * b - a) <= b,
        2 * (n * b - a) == b || 2 * (n * b - a) == -b ==> n % 2 == 0,
    ensures
        nearest_even(a, b) == n,
{
    let q = a / b;
    let r = a % b;
    assert(a == q * b + r && r < b) by (nonlinear_arith)
        requires
            q == a / b,
            r == a % b,
            b > 0,
    ;
    assert(n == q || n == q + 1) by (nonlinear_arith)
        requires
            a == q * b + r,
            0 <= r < b,
            b > 0,
            -b <= 2 * (n * b - a) <= b,
    ;
    assert((q + 1) * b == q * b + b) by (nonlinear_arith);
}

proof fn lemma_double_of_positive(n: nat)
    requires
        n > 0,
    ensures
        double_of(n) > 0,
{
    let g = pow2(halvings(n, 1));
    lemma_halvings_reach(n, 1);
    vstd::arithmetic::power2::lemma_pow2_pos(halvings(n, 1));
    lemma_pow2_small();
    assert(g <= n) by (nonlinear_arith)
        requires
            halvings(n, 1) == 0 && g == 1 || (1 * g) * 0x10_0000_0000_0000 <= n,
            n > 0,
            g > 0,
    ;
    lemma_nearest_even_at_least(n, g, 1);
    assert(nearest_even(n, g) * g > 0) by (nonlinear_arith)
        requires
            nearest_even(n, g) >= 1,
            g > 0,
    ;
}

proof fn lemma_halvings_reach(a: nat, b: nat)
    requires
        b > 0,
    ensures
        halvings(a, b) == 0 || (b * pow2(halvings(a, b))) * TWO_52 <= a,
    decreases
            if a < b * TWO_53 {
                0
            } else {
                1 + a - b * TWO_53
            },
{
    if a >= b * TWO_53 {
        let k = halvings(a, 2 * b);
        lemma_halvings_reach(a, 2 * b);
        lemma_pow2_step(k);
        lemma_pow2_small();
        assert((2 * b) * pow2(k) == b * (2 * pow2(k))) by (nonlinear_arith);
        if k == 0 {
            assert(b * (2 * pow2(0)) == 2 * b) by (nonlinear_arith)
                requires
                    pow2(0) == 1,
            ;
        }
    }
}

proof fn lemma_halvings_are(a: nat, b: nat, k: nat)
    requires
        b > 0,
        a < (b * pow2(k)) * TWO_53,
        k == 0 || a >= (b * pow2(k)) * TWO_52,
    ensures
        halvings(a, b) == k,
    decreases k,
{
    lemma_pow2_small();
    if k == 0 {
        assert(b * pow2(0) == b) by (nonlinear_arith)
            requires
                pow2(0) == 1,
        ;
    } else {
        let e = (k - 1) as nat;
        lemma_pow2_step(e);
        vstd::arithmetic::power2::lemma_pow2_pos(e);
        assert(b * pow2(k) == (2 * b) * pow2(e)) by (nonlinear_arith)
            requires
                pow2(k) == 2 * pow2(e),
        ;
        assert((2 * b) * pow2(e) >= 2 * b) by (nonlinear_arith)
            requires
                pow2(e) >= 1,
        ;
        lemma_halvings_are(a, 2 * b, e);
    }
}

proof fn lemma_doublings_are(a: nat, b: nat, k: nat)
    requires
        a > 0,
        b > 0,
        a * pow2(k) >= b * TWO_52,
        k == 0 || a * pow2(k) < b * TWO_53,
    ensures
        doublings(a, b) == k,
    decreases k,
{
    lemma_pow2_small();
    if k == 0 {
        assert(a * pow2(0) == a) by (nonlinear_arith)
            requires
                pow2(0) == 1,
        ;
    } else {
        let e = (k - 1) as nat;
        lemma_pow2_step(e);
        vstd::arithmetic::power2::lemma_pow2_pos(e);
        assert(a * pow2(k) == (2 * a) * pow2(e)) by (nonlinear_arith)
            requires
                pow2(k) == 2 * pow2(e),
        ;
        assert((2 * a) * pow2(e) >= 2 * a) by (nonlinear_arith)
            requires
                pow2(e) >= 1,
        ;
        lemma_doublings_are(2 * a, b, e);
    }
}

/// The double of an integer is the multiple nearest to it of the power of two that
/// leaves 53 bits, the one with the even factor of two that are equally near.
/// Integers of at most 53 bits stay as they are.
pub proof fn lemma_double_of_is_nearest(n: nat, e: nat, m: nat)
    requires
        n < pow2(e) * 0x20_0000_0000_0000,
        e == 0 || n >= pow2(e) * 0x10_0000_0000_0000,
        -pow2(e) <= 2 * (m * pow2(e) - n) <= pow2(e),
        2 * (m * pow2(e) - n) == pow2(e) || 2 * (m * pow2(e) - n) == -pow2(e) ==> m % 2 == 0,
    ensures
        double_of(n) == m * pow2(e),
{
    vstd::arithmetic::power2::lemma_pow2_pos(e);
    assert(1 * pow2(e) == pow2(e)) by (nonlinear_arith);
    lemma_halvings_are(n, 1, e);
    lemma_nearest_even_unique(n, pow2(e), m);
}

/// The rate that is printed, for all numbers of bytes and seconds. The doubles of the
/// two numbers are divided: `m` times the power of two that `down` and `up` give is
/// the quotient of 53 bits nearest to theirs. What is printed is the number of
/// thousandths nearest to that double. Of two that are equally near the even one is
/// taken, both times.
pub proof fn lemma_printed_rate_is_nearest(bytes: nat, secs: nat, up: nat, down: nat, m: nat)
    requires
        secs > 0,
        up == 0 || down == 0,
        bytes == 0 ==> up == 0 && down == 0,
        ({
            let top = double_of(bytes) * pow2(up);
            let bottom = (1024 * double_of(secs)) * pow2(down);
            &&& top < bottom * 0x20_0000_0000_0000
            &&& bytes > 0 ==> top >= bottom * 0x10_0000_0000_0000
            &&& -bottom <= 2 * (m * bottom - top) <= bottom
            &&& 2 * (m * bottom - top) == bottom || 2 * (m * bottom - top) == -bottom ==> m % 2 == 0
        }),
    ensures
        ({
            let text = rate_text(bytes, secs);
            let p = text.len() - 4;
            let n = digits_value(text.take(p)) * 1000 + digits_value(text.skip(p + 1));
            let exact = m * 1000 * pow2(down);
            &&& -pow2(up) <= 2 * (n * pow2(up) - exact) <= pow2(up)
            &&& 2 * (n * pow2(up) - exact) == pow2(up) || 2 * (n * pow2(up) - exact) == -pow2(up)
                ==> n % 2 == 0
        }),
{
    let a = double_of(bytes);
    let b = 1024 * double_of(secs);
    let n = rate_thousandths(bytes, secs);
    lemma_double_of_positive(secs);
    lemma_pow2_small();
    vstd::arithmetic::power2::lemma_pow2_pos(up);
    vstd::arithmetic::power2::lemma_pow2_pos(down);
    assert(b * pow2(down) >= b) by (nonlinear_arith)
        requires
            pow2(down) >= 1,
            b > 0,
    ;
    assert(a * pow2(up) >= a) by (nonlinear_arith)
        requires
            pow2(up) >= 1,
    ;
    assert(b * pow2(0) == b) by (nonlinear_arith)
        requires
            pow2(0) == 1,
    ;
    assert(a * pow2(0) == a) by (nonlinear_arith)
        requires
            pow2(0) == 1,
    ;
    if bytes == 0 {
        lemma_double_of_small(0);
        lemma_halvings_are(a, b, 0);
    } else {
        lemma_double_of_positive(bytes);
        if down == 0 {
            lemma_halvings_are(a, b, 0);
            lemma_doublings_are(a, b, up);
        } else {
            lemma_halvings_are(a, b, down);
            lemma_doublings_are(a, b, 0);
        }
    }
    lemma_nearest_even_unique(a * pow2(up), b * pow2(down), m);
    lemma_nearest_even_is_near(m * 1000 * pow2(down), pow2(up));
    lemma_nearest_even_tie(m * 1000 * pow2(down), pow2(up));
    lemma_thousandths_read_back(n);
}

proof fn lemma_halvings_stop(a: nat, b: nat)
    requires
        b > 0,
    ensures
        a < (b * pow2(halvings(a, b))) * TWO_53,
    decreases
            if a < b * TWO_53 {
                0
            } else {
                1 + a - b * TWO_53
            },
{
    lemma_pow2_small();
    if a < b * TWO_53 {
        assert(b * pow2(0) == b) by (nonlinear_arith)
            requires
                pow2(0) == 1,
        ;
    } else {
        let k = halvings(a, 2 * b);
        lemma_halvings_stop(a, 2 * b);
        lemma_pow2_step(k);
        assert((2 * b) * pow2(k) == b * (2 * pow2(k))) by (nonlinear_arith);
    }
}

proof fn lemma_doublings_stop(a: nat, b: nat)
    requires
        b > 0,
        a < b * TWO_53,
    ensures
        a * pow2(doublings(a, b)) < b * TWO_53,
    decreases
            if a >= b * TWO_52 {
                0
            } else {
                b * TWO_52 - a
            },
{
    lemma_pow2_small();
    if a == 0 || a >= b * TWO_52 {
        assert(a * pow2(0) == a) by (nonlinear_arith)
            requires
                pow2(0) == 1,
        ;
    } else {
        let k = doublings(2 * a, b);
        lemma_doublings_stop(2 * a, b);
        lemma_pow2_step(k);
        assert((2 * a) * pow2(k) == a * (2 * pow2(k))) by (nonlinear_arith);
    }
}

/// Every quotient of bytes and seconds has a double: there are always `up`, `down`
/// and `m` as [`lemma_printed_rate_is_nearest`] asks for.
pub proof fn lemma_every_rate_has_its_double(bytes: nat, secs: nat) -> (scale: (nat, nat, nat))
    requires
        secs > 0,
    ensures
        ({
            let (up, down, m) = scale;
            let top = double_of(bytes) * pow2(up);
            let bottom = (1024 * double_of(secs)) * pow2(down);
            &&& up == 0 || down == 0
            &&& bytes == 0 ==> up == 0 && down == 0
            &&& top < bottom * 0x20_0000_0000_0000
            &&& bytes > 0 ==> top >= bottom * 0x10_0000_0000_0000
            &&& -bottom <= 2 * (m * bottom - top) <= bottom
            &&& 2 * (m * bottom - top) == bottom || 2 * (m * bottom - top) == -bottom ==> m % 2 == 0
        }),
{
    let a = double_of(bytes);
    let b = 1024 * double_of(secs);
    let up = doublings(a, b);
    let down = halvings(a, b);
    let m = significand(a, b);
    lemma_double_of_positive(secs);
    lemma_pow2_small();
    vstd::arithmetic::power2::lemma_pow2_pos(down);
    lemma_halvings_stop(a, b);
    lemma_halvings_reach(a, b);
    assert(b * pow2(0) == b) by (nonlinear_arith)
        requires
            pow2(0) == 1,
    ;
    assert(a * pow2(0) == a) by (nonlinear_arith)
        requires
            pow2(0) == 1,
    ;
    assert(b * pow2(down) > 0) by (nonlinear_arith)
        requires
            b > 0,
            pow2(down) > 0,
    ;
    if bytes == 0 {
        lemma_double_of_small(0);
    } else {
        lemma_double_of_positive(bytes);
        if a < b * TWO_53 {
            lemma_doublings_stop(a, b);
            lemma_doublings_reach(a, b);
        }
    }
    lemma_nearest_even_is_near(a * pow2(up), b * pow2(down));
    lemma_nearest_even_tie(a * pow2(up), b * pow2(down));
    (up, down, m)
}

/// Where two integers are equally near to a quotient, the even one is taken.
pub proof fn lemma_nearest_even_tie(a: nat, b: nat)
    requires
        b > 0,
    ensures
        2 * (nearest_even(a, b) * b - a) == b || 2 * (nearest_even(a, b) * b - a) == -b
            ==> nearest_even(a, b) % 2 == 0,
{
    let q = a / b;
    let r = a % b;
    assert(a == q * b + r && r < b) by (nonlinear_arith)
        requires
            q == a / b,
            r == a % b,
            b > 0,
    ;
    assert((q + 1) * b == q * b + b) by (nonlinear_arith);
}

} // verus!
