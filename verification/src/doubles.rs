//! Quotients as a double holds them, said to so many decimals.

use vstd::arithmetic::div_mod::{lemma_fundamental_div_mod, lemma_fundamental_div_mod_converse};
use vstd::prelude::*;
use vstd::string::*;

use crate::bytes::{lemma_unit, nearest, unit, HALF};
use crate::text::{decimal_text, digit_char, say_number};

verus! {

/// A whole number in 53 significant bits, halves to the even one.
pub open spec fn rounded(n: nat) -> nat {
    nearest(n, unit(n)) * unit(n)
}

/// The least power of two that takes `n` to `2^52 * m` or past it.
pub open spec fn scale(n: nat, m: nat) -> nat
    decreases HALF * m - n,
{
    if n == 0 || 2 * n >= HALF * m {
        1
    } else {
        2 * scale(2 * n, m)
    }
}

/// `n / m` in the nearest number of 53 significant bits, that times
/// `places` to the nearest whole number, halves to the even one both times.
pub open spec fn quotient(n: nat, m: nat, places: nat) -> nat {
    let s = scale(n, m);
    nearest(places * nearest(n * s, m), s)
}

/// `f` in just `d` digits.
pub open spec fn padded(f: nat, d: nat) -> Seq<char>
    decreases d,
{
    if d == 0 {
        Seq::empty()
    } else {
        padded(f / 10, (d - 1) as nat).push(digit_char(f % 10))
    }
}

/// `10^d`.
pub open spec fn tens(d: nat) -> nat
    decreases d,
{
    if d == 0 {
        1
    } else {
        10 * tens((d - 1) as nat)
    }
}

/// `n / m` said to `d` decimals.
pub open spec fn quotient_text(n: nat, m: nat, d: nat) -> Seq<char> {
    let q = quotient(n, m, tens(d));
    decimal_text(q / tens(d)) + "."@ + padded(q % tens(d), d)
}

pub const MIB: u64 = 0x10_0000;

pub const GIB: u64 = 0x4000_0000;

/// Nanoseconds in a millisecond.
pub const MS: u64 = 1_000_000;

/// So many bytes, or nanoseconds, in units of `of`, to `d` decimals.
pub open spec fn amount_text(n: u64, of: u64, d: nat) -> Seq<char> {
    quotient_text(rounded(n as nat), of as nat, d)
}

/// Nanoseconds in a second.
pub const SEC: u64 = 1_000_000_000;

/// A span of so many nanoseconds in milliseconds, to `d` decimals, reckoned
/// by way of seconds: what is left over the whole ones as a double, added to
/// them, a thousand times that, each step in the nearest double. `s` of what
/// is added make a second.
pub open spec fn span_text(n: u64, d: nat) -> Seq<char> {
    let rest = (n % SEC) as nat;
    let s = scale(rest, SEC as nat);
    let sum = (n / SEC) as nat * s + nearest(rest * s, SEC as nat);
    let u = unit(sum);
    let q = nearest(tens(d) * rounded(1000 * nearest(sum, u)) * u, s);
    decimal_text(q / tens(d)) + "."@ + padded(q % tens(d), d)
}

/// How many in a hundred `part` of `whole` are, to one decimal.
pub open spec fn percent_text(part: u64, whole: u64) -> Seq<char> {
    if whole == 0 {
        "0.0"@
    } else {
        quotient_text(rounded(100 * rounded(part as nat)), rounded(whole as nat), 1)
    }
}

/// `n / m` to the nearest whole number, and to the even one halfway.
fn nearest_of(n: u128, m: u128) -> (q: u128)
    requires
        0 < m <= 0x8000_0000_0000_0000_0000_0000_0000_0000,
    ensures
        q == nearest(n as nat, m as nat),
{
    let q: u128 = n / m;
    let r: u128 = n % m;
    assert(r < m);
    if m - r < r || (m - r == r && q % 2 == 1) {
        assert(q < n || n == 1) by (nonlinear_arith)
            requires
                q == n / m,
                r == n % m,
                r > 0,
                m > 0,
        ;
        if m == 1 {
            assert(false);
        }
        assert(2 * q <= n) by (nonlinear_arith)
            requires
                q == n / m,
                m >= 2,
        ;
        q + 1
    } else {
        q
    }
}

/// What 53 bits make of a number lies within one unit of it.
proof fn lemma_rounded(n: nat)
    ensures
        rounded(n) <= 2 * n + 1,
        n > 0 ==> rounded(n) > 0,
        rounded(0) == 0,
{
    lemma_unit(n);
    let u = unit(n);
    assert(nearest(n, u) * u <= n + u) by (nonlinear_arith)
        requires
            nearest(n, u) <= n / u + 1,
            u >= 1,
            n >= 0,
    ;
    if n > 0 {
        assert(nearest(n, u) * u > 0) by (nonlinear_arith)
            requires
                nearest(n, u) >= n / u,
                1 <= u <= n,
        ;
    }
    assert(unit(0) == 1);
    assert(nearest(0, 1) == 0);
}

/// A whole number in 53 significant bits.
fn round(n: u128) -> (r: u128)
    requires
        n < 0x10_0000_0000_0000_0000_0000,
    ensures
        r == rounded(n as nat),
        r <= 2 * n + 1,
{
    let mut f: u128 = n;
    let mut u: u128 = 1;
    while f >= HALF
        invariant
            u >= 1,
            u * unit(f as nat) == unit(n as nat),
            u == 1 || u * f <= n,
            u == 1 ==> f == n,
            n < 0x10_0000_0000_0000_0000_0000,
        decreases f,
    {
        proof {
            assert(unit(f as nat) == 2 * unit((f / 2) as nat));
            assert((2 * u) * unit((f / 2) as nat) == u * (2 * unit((f / 2) as nat))) by (nonlinear_arith);
            assert((2 * u) * (f / 2) <= u * f) by (nonlinear_arith)
                requires
                    u >= 1,
                    f >= 0,
            ;
            assert(u <= u * f) by (nonlinear_arith)
                requires
                    u >= 1,
                    f >= 1,
            ;
        }
        f = f / 2;
        u = 2 * u;
    }
    proof {
        assert(unit(f as nat) == 1);
        assert(u * 1 == u);
        lemma_unit(n as nat);
        lemma_rounded(n as nat);
    }
    nearest_of(n, u) * u
}

/// The power of two that takes `n` to 53 bits over `m`, and `n` so scaled.
fn scaled(n: u128, m: u128) -> (scaled: (u128, u128))
    requires
        0 < m < 0x40_0000_0000_0000_0000,
        n < HALF * m,
    ensures
        scaled.0 == scale(n as nat, m as nat),
        scaled.1 == n * scaled.0,
        scaled.1 < HALF * m,
        0 < scaled.0 < 0x8000_0000_0000_0000_0000_0000_0000_0000,
        n > 0 ==> scaled.0 <= scaled.1,
        n == 0 ==> scaled.0 == 1,
{
    assert(HALF * m < 0x8000_0000_0000_0000_0000_0000_0000_0000) by (nonlinear_arith)
        requires
            m < 0x40_0000_0000_0000_0000,
            HALF == 0x20_0000_0000_0000,
    ;
    let top: u128 = HALF * m;
    let mut x: u128 = n;
    let mut s: u128 = 1;
    while x > 0 && 2 * x < top
        invariant
            top == HALF * m,
            top < 0x8000_0000_0000_0000_0000_0000_0000_0000,
            x < top,
            x == n * s,
            s >= 1,
            s * scale(x as nat, m as nat) == scale(n as nat, m as nat),
            n == 0 ==> s == 1,
        decreases top - x,
    {
        proof {
            assert(scale(x as nat, m as nat) == 2 * scale((2 * x) as nat, m as nat));
            assert((2 * s) * scale((2 * x) as nat, m as nat) == s * (2 * scale((2 * x) as nat, m as nat)))
                by (nonlinear_arith);
            assert(n * (2 * s) == 2 * (n * s)) by (nonlinear_arith);
            assert(s <= n * s) by (nonlinear_arith)
                requires
                    n * s > 0,
                    s >= 1,
            ;
        }
        x = 2 * x;
        s = 2 * s;
    }
    proof {
        assert(scale(x as nat, m as nat) == 1);
        assert(s * 1 == s);
        if n > 0 {
            assert(s <= n * s) by (nonlinear_arith)
                requires
                    n >= 1,
                    s >= 1,
            ;
        }
    }
    (s, x)
}

/// `n / m` as a double holds it, times `places`, to the nearest whole
/// number.
fn quotient_of(n: u128, m: u128, places: u128) -> (q: u128)
    requires
        0 < m < 0x40_0000_0000_0000_0000,
        n < HALF * m,
        1 <= places <= 1000,
    ensures
        q == quotient(n as nat, m as nat, places as nat),
        q <= places * HALF,
{
    let (s, x): (u128, u128) = scaled(n, m);
    let near: u128 = nearest_of(x, m);
    proof {
        assert(n * s == x);
        assert(near <= HALF) by {
            assert(x / m < HALF) by (nonlinear_arith)
                requires
                    x < HALF * m,
                    m > 0,
            ;
        }
        assert(places * near <= places * HALF && places * near <= 1000 * HALF && places * near >= 0)
            by (nonlinear_arith)
            requires
                near <= HALF,
                1 <= places <= 1000,
                near >= 0,
        ;
    }
    let q: u128 = nearest_of(places * near, s);
    proof {
        lemma_nearest_at_most((places * near) as nat, s as nat);
    }
    q
}

proof fn lemma_nearest_at_most(n: nat, m: nat)
    requires
        m > 0,
    ensures
        nearest(n, m) <= n,
{
    let q = n / m;
    let r = n % m;
    if nearest(n, m) == q + 1 {
        assert(q + 1 <= n) by (nonlinear_arith)
            requires
                q == n / m,
                r == n % m,
                r > 0,
                m > 0,
        ;
    } else {
        assert(q <= n) by (nonlinear_arith)
            requires
                q == n / m,
                m > 0,
        ;
    }
}

/// Say `f` in just `d` digits.
fn say_padded(into: &mut String, f: u64, d: u32)
    ensures
        final(into)@ == old(into)@ + padded(f as nat, d as nat),
    decreases d,
{
    if d == 0 {
        assert(into@ =~= old(into)@ + padded(f as nat, 0));
        return ;
    }
    say_padded(into, f / 10, d - 1);
    let ghost before = into@;
    say_number(into, f % 10);
    assert(into@ =~= old(into)@ + padded(f as nat, d as nat));
}

/// Say `n / m` to `d` decimals.
fn say_quotient(into: &mut String, n: u128, m: u128, d: u32)
    requires
        0 < m < 0x40_0000_0000_0000_0000,
        n < HALF * m,
        1 <= d <= 3,
    ensures
        final(into)@ == old(into)@ + quotient_text(n as nat, m as nat, d as nat),
{
    let places: u128 = if d == 1 {
        10
    } else if d == 2 {
        100
    } else {
        1000
    };
    proof {
        reveal_with_fuel(tens, 4);
        assert(places == tens(d as nat));
    }
    let q: u128 = quotient_of(n, m, places);
    let whole: u128 = q / places;
    assert(whole <= HALF) by (nonlinear_arith)
        requires
            whole == q / places,
            q <= places * HALF,
            places > 0,
    ;
    let rest: u128 = q % places;
    say_number(into, whole as u64);
    into.append(".");
    say_padded(into, rest as u64, d);
    assert(into@ =~= old(into)@ + quotient_text(n as nat, m as nat, d as nat));
}

/// Say so many bytes, or nanoseconds, in units of `of`, to `d` decimals.
pub fn say_amount(into: &mut String, n: u64, of: u64, d: u32)
    requires
        of >= 0x1_0000,
        1 <= d <= 3,
    ensures
        final(into)@ == old(into)@ + amount_text(n, of, d as nat),
{
    let r: u128 = round(n as u128);
    assert(r < HALF * of) by (nonlinear_arith)
        requires
            r <= 2 * n + 1,
            n <= 0xffff_ffff_ffff_ffff,
            of >= 0x1_0000,
            HALF == 0x20_0000_0000_0000,
    ;
    say_quotient(into, r, of as u128, d);
}

/// A power of two.
spec fn doubled(n: nat) -> bool
    decreases n,
{
    n == 1 || n > 1 && n % 2 == 0 && doubled(n / 2)
}

proof fn lemma_scale_doubles(n: nat, m: nat)
    ensures
        doubled(scale(n, m)),
    decreases HALF * m - n,
{
    if !(n == 0 || 2 * n >= HALF * m) {
        lemma_scale_doubles(2 * n, m);
        let s = scale(2 * n, m);
        assert((2 * s) / 2 == s && (2 * s) % 2 == 0);
    }
}

/// Twice, four times, eight times as much of both rounds as before.
proof fn lemma_nearest_of_both(n: nat, m: nat, u: nat)
    requires
        m > 0,
        u > 0,
    ensures
        nearest(n * u, m * u) == nearest(n, m),
{
    let q = n / m;
    let r = n % m;
    lemma_fundamental_div_mod(n as int, m as int);
    assert(n * u == q * (m * u) + r * u && 0 <= r * u < m * u) by (nonlinear_arith)
        requires
            n == m * q + r,
            0 <= r < m,
            u > 0,
    ;
    lemma_fundamental_div_mod_converse((n * u) as int, (m * u) as int, q as int, (r * u) as int);
    assert(2 * (r * u) > m * u <==> 2 * r > m) by (nonlinear_arith)
        requires
            u > 0,
    ;
    assert(2 * (r * u) == m * u <==> 2 * r == m) by (nonlinear_arith)
        requires
            u > 0,
    ;
}

/// The unit of `n`, and how many of it make `s`.
fn unit_in(n: u128, s: u128) -> (of: (u128, u128))
    requires
        doubled(s as nat),
        n < 0x10_0000_0000 * s,
        s < 0x10_0000_0000_0000_0000_0000,
    ensures
        of.0 == unit(n as nat),
        1 <= of.0 <= s,
        1 <= of.1 <= s,
        of.0 * of.1 == s,
{
    let mut f: u128 = n;
    let mut u: u128 = 1;
    let mut t: u128 = s;
    while f >= HALF
        invariant
            u >= 1,
            t >= 1,
            u * t == s,
            doubled(t as nat),
            u * unit(f as nat) == unit(n as nat),
            u * f <= n,
            n < 0x10_0000_0000 * s,
            s < 0x10_0000_0000_0000_0000_0000,
        decreases f,
    {
        proof {
            assert(t > 1) by (nonlinear_arith)
                requires
                    u * f <= n,
                    f >= HALF,
                    HALF == 0x20_0000_0000_0000,
                    n < 0x10_0000_0000 * s,
                    u * t == s,
                    u >= 1,
                    t >= 1,
            ;
            assert(unit(f as nat) == 2 * unit((f / 2) as nat));
            assert((2 * u) * unit((f / 2) as nat) == u * (2 * unit((f / 2) as nat))) by (nonlinear_arith);
            assert((2 * u) * (f / 2) <= u * f) by (nonlinear_arith)
                requires
                    u >= 1,
                    f >= 0,
            ;
            assert((2 * u) * (t / 2) == u * t) by (nonlinear_arith)
                requires
                    t % 2 == 0,
            ;
            assert(u <= s) by (nonlinear_arith)
                requires
                    u * t == s,
                    t >= 1,
                    u >= 1,
            ;
        }
        f = f / 2;
        u = 2 * u;
        t = t / 2;
    }
    proof {
        assert(unit(f as nat) == 1);
        assert(u * 1 == u);
        assert(u <= s && t <= s) by (nonlinear_arith)
            requires
                u * t == s,
                t >= 1,
                u >= 1,
        ;
    }
    (u, t)
}

/// Say a span of so many nanoseconds in milliseconds, to `d` decimals.
pub fn say_span(into: &mut String, n: u64, d: u32)
    requires
        1 <= d <= 3,
    ensures
        final(into)@ == old(into)@ + span_text(n, d as nat),
{
    let places: u128 = if d == 1 {
        10
    } else if d == 2 {
        100
    } else {
        1000
    };
    proof {
        reveal_with_fuel(tens, 4);
        assert(places == tens(d as nat));
    }
    let whole: u128 = (n / SEC) as u128;
    let rest: u128 = (n % SEC) as u128;
    let (s, x): (u128, u128) = scaled(rest, SEC as u128);
    let part: u128 = nearest_of(x, SEC as u128);
    proof {
        lemma_scale_doubles(rest as nat, SEC as nat);
        assert(s < 0x10_0000_0000_0000_0000_0000) by {
            if rest > 0 {
                assert(x < HALF * SEC);
            }
        }
        assert(rest * s == x);
        assert(part <= s) by {
            assert(x / SEC as u128 <= s && (x / SEC as u128 == s ==> x % SEC as u128 == 0))
                by (nonlinear_arith)
                requires
                    x == rest * s,
                    rest < 1_000_000_000,
                    s >= 1,
                    SEC == 1_000_000_000,
            ;
        }
        assert(whole * s <= 18_446_744_073 * s) by (nonlinear_arith)
            requires
                whole <= 18_446_744_073,
                s >= 0,
        ;
        assert(whole * s >= 0) by (nonlinear_arith)
            requires
                whole >= 0,
                s >= 0,
        ;
    }
    let sum: u128 = whole * s + part;
    let (u, t): (u128, u128) = unit_in(sum, s);
    let k: u128 = nearest_of(sum, u);
    proof {
        lemma_unit(sum as nat);
        assert(k <= HALF);
    }
    let r: u128 = round(1000 * k);
    let q: u128 = nearest_of(places * r, t);
    proof {
        lemma_nearest_of_both((places * r) as nat, t as nat, u as nat);
        assert((places * r) as nat * u as nat == tens(d as nat) * rounded((1000 * k) as nat) * u as nat);
        lemma_nearest_at_most((places * r) as nat, t as nat);
    }
    say_number(into, (q / places) as u64);
    into.append(".");
    say_padded(into, (q % places) as u64, d);
    assert(into@ =~= old(into)@ + span_text(n, d as nat));
}

/// Say how many in a hundred `part` of `whole` are, to one decimal.
pub fn say_percent(into: &mut String, part: u64, whole: u64)
    requires
        part <= whole,
    ensures
        final(into)@ == old(into)@ + percent_text(part, whole),
{
    if whole == 0 {
        into.append("0.0");
        return ;
    }
    let a: u128 = round(part as u128);
    let n: u128 = round(100 * a);
    let m: u128 = round(whole as u128);
    proof {
        lemma_rounded(part as nat);
        lemma_rounded(whole as nat);
        lemma_at_least_half(whole as nat);
        assert(n < HALF * m) by (nonlinear_arith)
            requires
                n <= 2 * (100 * a) + 1,
                a <= 2 * part + 1,
                part <= whole,
                2 * m >= whole,
                m >= 1,
                HALF == 0x20_0000_0000_0000,
        ;
    }
    say_quotient(into, n, m, 1);
}

/// What 53 bits make of a number is more than half of it.
proof fn lemma_at_least_half(n: nat)
    ensures
        2 * rounded(n) >= n,
{
    lemma_unit(n);
    let u = unit(n);
    assert(2 * (nearest(n, u) * u) >= n) by (nonlinear_arith)
        requires
            nearest(n, u) >= n / u,
            1 <= u <= n || u == 1,
            n >= 0,
    ;
}

} // verus!
