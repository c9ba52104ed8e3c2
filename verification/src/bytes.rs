//! Byte counts as people write them.

use vstd::arithmetic::div_mod::{
    lemma_div_denominator, lemma_fundamental_div_mod, lemma_fundamental_div_mod_converse,
};
use vstd::arithmetic::power::{lemma_pow_positive, pow};
use vstd::arithmetic::power2::{lemma2_to64_rest, lemma_pow2_adds, lemma_pow2_pos, lemma_pow2_unfold, pow2};
use vstd::prelude::*;

use crate::text::{
    chars_of, decimal, digit, digits, is_digit, lower_case, lowered, part, trim, trimmed,
};

verus! {

/// How many characters of a word are its number: digits and points.
pub open spec fn lead(s: Seq<char>) -> nat
    decreases s.len(),
{
    if s.len() > 0 && (is_digit(s[0]) || s[0] == '.') {
        1 + lead(s.drop_first())
    } else {
        0
    }
}

/// How many characters of a number stand before its first point.
pub open spec fn before_point(s: Seq<char>) -> nat
    decreases s.len(),
{
    if s.len() > 0 && s[0] != '.' {
        1 + before_point(s.drop_first())
    } else {
        0
    }
}

/// The digits before the point, and after it.
pub open spec fn whole_part(s: Seq<char>) -> Seq<char> {
    s.take(before_point(s) as int)
}

pub open spec fn fraction_part(s: Seq<char>) -> Seq<char> {
    if before_point(s) < s.len() {
        s.skip((before_point(s) + 1) as int)
    } else {
        Seq::empty()
    }
}

/// A number: digits with at most one point among them, and at least one
/// digit.
pub open spec fn well_said(s: Seq<char>) -> bool {
    &&& digits(whole_part(s))
    &&& digits(fraction_part(s))
    &&& whole_part(s).len() + fraction_part(s).len() > 0
}

/// How many times a unit doubles a byte.
pub open spec fn shift(unit: Seq<char>) -> Option<nat> {
    if unit.len() == 0 {
        Some(0)
    } else if unit.len() == 1 && unit[0] == 'b' {
        Some(0)
    } else if unit.len() == 1 || (unit.len() == 2 && unit[1] == 'b') || (unit.len() == 3 && unit[1]
        == 'i' && unit[2] == 'b') {
        if unit[0] == 'k' {
            Some(10)
        } else if unit[0] == 'm' {
            Some(20)
        } else if unit[0] == 'g' {
            Some(30)
        } else if unit[0] == 't' {
            Some(40)
        } else {
            None
        }
    } else {
        None
    }
}

/// `n / m` to the nearest whole number, and to the even one halfway.
pub open spec fn nearest(n: nat, m: nat) -> nat {
    let q = n / m;
    let r = n % m;
    if 2 * r > m || (2 * r == m && q % 2 == 1) {
        q + 1
    } else {
        q
    }
}

/// Fifty-four binary places: `2^54`, and half of that.
pub const FINE: u128 = 0x40_0000_0000_0000;

pub const HALF: u128 = 0x20_0000_0000_0000;

/// The power of two in which `f` counts fewer than 54 bits.
pub open spec fn unit(f: nat) -> nat
    decreases f,
{
    if f < HALF {
        1
    } else {
        2 * unit(f / 2)
    }
}

/// `n / m` in the nearest number of 53 significant bits, halves to the even
/// one, cut to a whole number. Fifty-four binary places settle that: a
/// number too small to have that many is cut to nothing.
pub open spec fn in_double(n: nat, m: nat) -> nat {
    let fine = n * FINE as nat;
    let u = unit(fine / m);
    nearest(fine, m * u) * u / FINE as nat
}

/// The byte count a word says: a decimal number and a unit, read the way a
/// double is, and no more than can be counted.
pub open spec fn byte_count(word: Seq<char>) -> Option<u64> {
    let w = trimmed(word);
    let number = w.take(lead(w) as int);
    match shift(lowered(trimmed(w.skip(lead(w) as int)))) {
        Some(s) => if well_said(number) {
            let n = decimal(whole_part(number) + fraction_part(number)) * pow2(s);
            let said = in_double(n, pow(10, fraction_part(number).len()) as nat);
            if said > u64::MAX {
                Some(u64::MAX)
            } else {
                Some(said as u64)
            }
        } else {
            None
        },
        None => None,
    }
}

/// What the digits of a fraction come to, as a whole number.
pub open spec fn places(d: Seq<u8>) -> nat
    decreases d.len(),
{
    if d.len() == 0 {
        0
    } else {
        d[0] as nat * pow(10, (d.len() - 1) as nat) as nat + places(d.drop_first())
    }
}

pub open spec fn tens(d: Seq<u8>) -> bool {
    forall|i: int| 0 <= i < d.len() ==> #[trigger] d[i] < 10
}

proof fn lemma_ten(e: nat)
    ensures
        pow(10, e) > 0,
        pow(10, (e + 1) as nat) == 10 * pow(10, e),
{
    lemma_pow_positive(10, e);
    reveal(pow);
}

/// One more digit at the end.
proof fn lemma_places_push(d: Seq<u8>, x: u8)
    ensures
        places(d.push(x)) == 10 * places(d) + x,
    decreases d.len(),
{
    let e = d.push(x);
    lemma_ten(0);
    assert(pow(10, 0) == 1) by {
        reveal(pow);
    }
    if d.len() == 0 {
        assert(e.drop_first() =~= Seq::<u8>::empty());
        assert(places(e.drop_first()) == 0);
        assert(places(e) == x as nat * pow(10, 0) as nat);
    } else {
        lemma_places_push(d.drop_first(), x);
        assert(e.drop_first() =~= d.drop_first().push(x));
        lemma_ten((d.len() - 1) as nat);
        let p = pow(10, (d.len() - 1) as nat);
        assert(d[0] as nat * (10 * p) as nat == 10 * (d[0] as nat * p as nat)) by (nonlinear_arith)
            requires
                p > 0,
        ;
    }
}

/// A fraction of so many places is less than one.
proof fn lemma_places_bound(d: Seq<u8>)
    requires
        tens(d),
    ensures
        places(d) < pow(10, d.len()),
    decreases d.len(),
{
    lemma_ten(d.len());
    if d.len() == 0 {
        assert(pow(10, 0) == 1) by {
            reveal(pow);
        }
    } else {
        let rest = d.drop_first();
        assert forall|i: int| 0 <= i < rest.len() implies #[trigger] rest[i] < 10 by {
            assert(rest[i] == d[i + 1]);
        }
        lemma_places_bound(rest);
        lemma_ten((d.len() - 1) as nat);
        let p = pow(10, (d.len() - 1) as nat);
        assert(d[0] < 10);
        assert(d[0] as nat * p as nat + p <= 10 * p) by (nonlinear_arith)
            requires
                d[0] < 10,
                p > 0,
        ;
    }
}

/// Digits after digits.
pub proof fn lemma_decimal_append(a: Seq<char>, b: Seq<char>)
    requires
        digits(b),
    ensures
        decimal(a + b) == decimal(a) * pow(10, b.len()) + decimal(b),
    decreases b.len(),
{
    if b.len() == 0 {
        assert(a + b =~= a);
        assert(pow(10, 0) == 1) by {
            reveal(pow);
        }
    } else {
        let head = b.drop_last();
        assert forall|i: int| 0 <= i < head.len() implies is_digit(#[trigger] head[i]) by {
            assert(head[i] == b[i]);
        }
        lemma_decimal_append(a, head);
        assert((a + b).drop_last() =~= a + head);
        lemma_ten(head.len());
        let p = pow(10, head.len());
        let d = decimal(a);
        assert(10 * (d * p) == d * (10 * p)) by (nonlinear_arith);
    }
}

/// Twice a fraction: the digits doubled in place, and what it carries past
/// the point.
fn double(d: &mut Vec<u8>) -> (carry: u8)
    requires
        tens(old(d)@),
    ensures
        final(d)@.len() == old(d)@.len(),
        tens(final(d)@),
        carry <= 1,
        carry * pow(10, old(d)@.len()) + places(final(d)@) == 2 * places(old(d)@),
{
    let ghost o = d@;
    let k: usize = d.len();
    let mut carry: u8 = 0;
    let mut i: usize = k;
    proof {
        assert(o.skip(k as int) =~= Seq::<u8>::empty());
        assert(d@.skip(k as int) =~= Seq::<u8>::empty());
        lemma_ten(0);
    }
    while i > 0
        invariant
            k == o.len(),
            i <= k,
            d@.len() == k,
            tens(o),
            tens(d@),
            carry <= 1,
            forall|j: int| 0 <= j < i ==> #[trigger] d@[j] == o[j],
            carry * pow(10, (k - i) as nat) + places(d@.skip(i as int)) == 2 * places(
                o.skip(i as int),
            ),
        decreases i,
    {
        i -= 1;
        assert(o[i as int] < 10);
        let ghost was = d@;
        let ghost had = carry;
        let x: u8 = 2 * d[i] + carry;
        d.set(i, x % 10);
        carry = x / 10;
        proof {
            let p = pow(10, (k - i - 1) as nat);
            lemma_ten((k - i - 1) as nat);
            let now = d@.skip(i as int);
            let then = o.skip(i as int);
            assert(now.drop_first() =~= was.skip(i + 1));
            assert(then.drop_first() =~= o.skip(i + 1));
            assert(now[0] == x % 10 && then[0] == o[i as int]);
            assert(places(now) == (x % 10) as nat * p as nat + places(was.skip(i + 1)));
            assert(places(then) == o[i as int] as nat * p as nat + places(o.skip(i + 1)));
            assert(x == 10 * carry + x % 10);
            assert(carry * (10 * p) + (x % 10) * p == (2 * o[i as int] + had) * p) by (nonlinear_arith)
                requires
                    10 * carry + x % 10 == 2 * o[i as int] + had,
            ;
            assert((2 * o[i as int] + had) * p == 2 * (o[i as int] * p) + had * p) by (nonlinear_arith);
        }
    }
    assert(d@.skip(0) =~= d@);
    assert(o.skip(0) =~= o);
    carry
}

/// The unit of a number is at most the number, and leaves it 53 bits.
pub proof fn lemma_unit(f: nat)
    ensures
        unit(f) > 0,
        unit(f) <= f || unit(f) == 1,
        f / unit(f) < HALF,
    decreases f,
{
    if f >= HALF {
        lemma_unit(f / 2);
        let u = unit(f / 2);
        assert(f as int / (2 * u as int) == (f as int / 2) / (u as int)) by {
            lemma_div_denominator(f as int, 2, u as int);
        }
    } else {
        assert(f / 1 == f);
    }
}

/// A count past so many bits is not rounded below them.
proof fn lemma_unit_keeps(f: nat, j: nat)
    requires
        j >= 52,
        f >= pow2(j),
    ensures
        f / unit(f) * unit(f) >= pow2(j),
    decreases f, (if j == 52 { 1int } else { 0int }),
{
    lemma2_to64_rest();
    lemma_unit(f);
    if f < HALF {
        assert(f / 1 * 1 == f);
    } else if j == 52 {
        vstd::arithmetic::power2::lemma_pow2_strictly_increases(52, 53);
        assert(pow2(53) == HALF);
        lemma_unit_keeps(f, 53);
    } else {
        lemma_pow2_unfold(j);
        let h = f / 2;
        assert(h >= pow2((j - 1) as nat));
        lemma_unit_keeps(h, (j - 1) as nat);
        let u = unit(h);
        lemma_unit(h);
        assert(f as int / (2 * u as int) == (f as int / 2) / (u as int)) by {
            lemma_div_denominator(f as int, 2, u as int);
        }
        let q = h / u;
        assert(q * (2 * u) == 2 * (q * u)) by (nonlinear_arith);
    }
}

/// What fixed point and what was cut off it say of the nearest number.
proof fn lemma_nearest(x: nat, m: nat, f: nat, rest: nat, u: nat)
    requires
        m > 0,
        u > 0,
        rest < m,
        x == m * f + rest,
    ensures
        ({
            let q = f / u;
            let r = f % u;
            let up = 2 * r > u || (2 * r == u && (rest > 0 || q % 2 == 1)) || (2 * r + 1 == u && 2
                * rest > m) || (2 * r + 1 == u && 2 * rest == m && q % 2 == 1);
            nearest(x, m * u) == if up { q + 1 } else { q }
        }),
        x / m == f,
{
    let q = f / u;
    let r = f % u;
    lemma_fundamental_div_mod(f as int, u as int);
    lemma_fundamental_div_mod_converse(x as int, m as int, f as int, rest as int);
    let big = m * u;
    let left = m * r + rest;
    assert(x == big * q + left) by (nonlinear_arith)
        requires
            x == m * f + rest,
            f == u * q + r,
            big == m * u,
            left == m * r + rest,
    ;
    assert(left < big) by (nonlinear_arith)
        requires
            left == m * r + rest,
            rest < m,
            r < u,
            big == m * u,
    ;
    assert(big > 0) by (nonlinear_arith)
        requires
            big == m * u,
            m > 0,
            u > 0,
    ;
    assert(big * q == q * big) by (nonlinear_arith);
    assert(0 <= left < big && x == q * big + left);
    lemma_fundamental_div_mod_converse(x as int, big as int, q as int, left as int);
    assert(x / big == q && x % big == left);
    if 2 * r > u {
        assert(2 * left > big) by (nonlinear_arith)
            requires
                left == m * r + rest,
                2 * r >= u + 1,
                big == m * u,
                m > 0,
                rest >= 0,
        ;
    } else if 2 * r == u {
        assert(2 * left == big + 2 * rest) by (nonlinear_arith)
            requires
                left == m * r + rest,
                2 * r == u,
                big == m * u,
        ;
    } else if 2 * r + 1 == u {
        assert(2 * left == big - m + 2 * rest) by (nonlinear_arith)
            requires
                left == m * r + rest,
                2 * r + 1 == u,
                big == m * u,
        ;
    } else {
        assert(2 * left < big) by (nonlinear_arith)
            requires
                left == m * r + rest,
                2 * r + 2 <= u,
                big == m * u,
                rest < m,
                m > 0,
        ;
    }
}

/// The nearest number of 53 significant bits, cut to a whole one, of a
/// fixed-point number of 54 binary places; `cut` says whether anything was
/// cut off past those.
fn settle(f: u128, cut: bool, Ghost(x): Ghost<nat>, Ghost(m): Ghost<nat>) -> (said: u64)
    requires
        f < 0x80_0000_0000_0000_0000_0000_0000_0000,
        m > 0,
        m * f <= x < m * f + m,
        cut <==> x > m * f,
    ensures
        ({
            let u = unit(x / m);
            let all = nearest(x, m * u) * u / FINE as nat;
            said == if all > u64::MAX { u64::MAX as nat } else { all }
        }),
{
    let ghost rest = (x - m * f) as nat;
    let mut g: u128 = f;
    let mut u: u128 = 1;
    while g >= HALF
        invariant
            f < 0x80_0000_0000_0000_0000_0000_0000_0000,
            u > 0,
            u * unit(g as nat) == unit(f as nat),
            u * g <= f,
            u == 1 ==> g == f,
            u > 1 ==> g >= HALF / 2 && u % 2 == 0,
        decreases g,
    {
        let ghost before = g;
        assert(u * 0x20_0000_0000_0000 <= u * g) by (nonlinear_arith)
            requires
                g >= 0x20_0000_0000_0000,
        ;
        proof {
            let h = unit((g / 2) as nat);
            assert(u * (2 * h) == (2 * u) * h) by (nonlinear_arith);
            assert((2 * u) * (g / 2) <= u * g) by (nonlinear_arith)
                requires
                    2 * (g / 2) <= g,
                    u > 0,
            ;
        }
        g = g / 2;
        u = 2 * u;
    }
    proof {
        lemma_nearest(x, m, f as nat, rest, u as nat);
        assert(u * 1 == u);
        assert(u == unit(f as nat));
        assert(x / m == f);
    }
    if u == 1 {
        proof {
            assert(f as nat / 1 == f);
            assert(nearest(x, m * 1) <= f + 1);
            assert(nearest(x, m * 1) * 1 == nearest(x, m * 1));
            assert(nearest(x, m * 1) / FINE as nat == 0) by (nonlinear_arith)
                requires
                    nearest(x, m * 1) <= HALF,
                    FINE == 2 * HALF,
            ;
        }
        return 0;
    }
    assert(u * 0x10_0000_0000_0000 <= u * g) by (nonlinear_arith)
        requires
            g >= 0x10_0000_0000_0000,
    ;
    proof {
        lemma_unit(f as nat);
    }
    let q: u128 = f / u;
    let r: u128 = f % u;
    let up: bool = 2 * r > u || (2 * r == u && (cut || q % 2 == 1));
    let bits: u128 = if up { q + 1 } else { q };
    assert(bits * u <= 0x20_0000_0000_0000 * u) by (nonlinear_arith)
        requires
            bits <= 0x20_0000_0000_0000,
    ;
    let all: u128 = bits * u / FINE;
    if all > 0xffff_ffff_ffff_ffff {
        0xffff_ffff_ffff_ffff
    } else {
        all as u64
    }
}

/// A number past every byte that can be counted is read as one.
proof fn lemma_too_many(n: nat, m: nat)
    requires
        m > 0,
        n >= 0x1_0000_0000_0000_0000 * m,
    ensures
        in_double(n, m) > u64::MAX,
{
    let fine = n * FINE as nat;
    let f = fine / m;
    assert(fine >= 0x40_0000_0000_0000_0000_0000_0000_0000 * m) by (nonlinear_arith)
        requires
            n >= 0x1_0000_0000_0000_0000 * m,
            fine == n * 0x40_0000_0000_0000,
    ;
    assert(f >= 0x40_0000_0000_0000_0000_0000_0000_0000) by (nonlinear_arith)
        requires
            f == fine / m,
            fine >= 0x40_0000_0000_0000_0000_0000_0000_0000 * m,
            m > 0,
    ;
    assert(pow2(118) == 0x40_0000_0000_0000_0000_0000_0000_0000) by {
        lemma2_to64_rest();
        lemma_pow2_adds(59, 59);
    }
    lemma_unit_keeps(f, 118);
    lemma_unit(f);
    let u = unit(f);
    let rest = fine % m;
    lemma_fundamental_div_mod(fine as int, m as int);
    lemma_nearest(fine, m, f, rest, u);
    let q = nearest(fine, m * u);
    assert(q >= f / u);
    assert(q * u >= f / u * u) by (nonlinear_arith)
        requires
            q >= f / u,
            u > 0,
    ;
}

/// Digits, and what they say as far as it can be counted.
fn count(chars: &Vec<char>) -> (n: Option<u64>)
    requires
        digits(chars@),
    ensures
        match n {
            Some(n) => decimal(chars@) == n,
            None => decimal(chars@) > u64::MAX,
        },
{
    let mut n: u64 = 0;
    let mut i: usize = 0;
    assert(chars@.take(0) =~= Seq::<char>::empty());
    while i < chars.len()
        invariant
            i <= chars@.len(),
            digits(chars@),
            n == decimal(chars@.take(i as int)),
        decreases chars@.len() - i,
    {
        let c: char = chars[i];
        assert(is_digit(chars@[i as int]));
        let d: u64 = (c as u32 - '0' as u32) as u64;
        proof {
            assert(chars@.take(i + 1).drop_last() =~= chars@.take(i as int));
            crate::text::lemma_decimal_prefix(chars@, i + 1);
        }
        match n.checked_mul(10) {
            None => {
                return None;
            },
            Some(tens) => match tens.checked_add(d) {
                None => {
                    return None;
                },
                Some(next) => {
                    n = next;
                },
            },
        }
        i += 1;
    }
    assert(chars@.take(chars@.len() as int) =~= chars@);
    Some(n)
}

/// The digits of a fraction.
fn places_of(chars: &Vec<char>) -> (d: Vec<u8>)
    requires
        digits(chars@),
    ensures
        d@.len() == chars@.len(),
        tens(d@),
        places(d@) == decimal(chars@),
{
    let mut d: Vec<u8> = Vec::new();
    let mut i: usize = 0;
    assert(chars@.take(0) =~= Seq::<char>::empty());
    while i < chars.len()
        invariant
            i <= chars@.len(),
            digits(chars@),
            d@.len() == i,
            tens(d@),
            places(d@) == decimal(chars@.take(i as int)),
        decreases chars@.len() - i,
    {
        let c: char = chars[i];
        assert(is_digit(chars@[i as int]));
        let x: u8 = (c as u32 - '0' as u32) as u8;
        proof {
            assert(chars@.take(i + 1).drop_last() =~= chars@.take(i as int));
            lemma_places_push(d@, x);
        }
        d.push(x);
        i += 1;
    }
    assert(chars@.take(chars@.len() as int) =~= chars@);
    d
}

/// What digits before a point and after it say, `s` times doubled, read the
/// way a double is.
fn read(whole: &Vec<char>, fraction: &Vec<char>, s: u32) -> (said: u64)
    requires
        digits(whole@),
        digits(fraction@),
        s <= 40,
    ensures
        ({
            let n = decimal(whole@ + fraction@) * pow2(s as nat);
            let all = in_double(n, pow(10, fraction@.len()) as nat);
            said == if all > u64::MAX { u64::MAX as nat } else { all }
        }),
{
    let ghost m = pow(10, fraction@.len()) as nat;
    let ghost d = decimal(whole@ + fraction@);
    let ghost n = d * pow2(s as nat);
    proof {
        lemma_ten(fraction@.len());
        lemma_decimal_append(whole@, fraction@);
        lemma_pow2_pos(s as nat);
        assert(d == decimal(whole@) * m + decimal(fraction@));
    }
    let i: u64 = match count(whole) {
        Some(i) => i,
        None => {
            proof {
                assert(n >= 0x1_0000_0000_0000_0000 * m) by (nonlinear_arith)
                    requires
                        n == d * pow2(s as nat),
                        d >= decimal(whole@) * m,
                        decimal(whole@) >= 0x1_0000_0000_0000_0000,
                        pow2(s as nat) >= 1,
                        m > 0,
                ;
                lemma_too_many(n, m);
            }
            return 0xffff_ffff_ffff_ffff;
        },
    };
    let mut left = places_of(fraction);
    let ghost v = places(left@);
    let mut bits: u128 = 0;
    let mut p: u128 = 1;
    let mut j: u32 = 0;
    let t: u32 = s + 54;
    proof {
        assert(pow2(0) == 1) by {
            lemma2_to64_rest();
            vstd::arithmetic::power2::lemma2_to64();
        }
        assert(1 * v == v && 0 * m == 0);
    }
    let ghost len = fraction@.len();
    while j < t
        invariant
            t <= 94,
            j <= t,
            p == pow2(j as nat),
            p <= 0x1_0000_0000_0000_0000_0000_0000,
            bits < p,
            left@.len() == len,
            tens(left@),
            m == pow(10, len),
            bits * m + places(left@) == p * v,
        decreases t - j,
    {
        proof {
            lemma_pow2_unfold((j + 1) as nat);
            vstd::arithmetic::power2::lemma2_to64();
            lemma_pow2_adds(32, 64);
            if j + 1 < 96 {
                vstd::arithmetic::power2::lemma_pow2_strictly_increases((j + 1) as nat, 96);
            }
        }
        let ghost before = places(left@);
        let ghost had = bits;
        let carry: u8 = double(&mut left);
        proof {
            assert((2 * had + carry) * m + places(left@) == 2 * (had * m + before)) by (nonlinear_arith)
                requires
                    carry * m + places(left@) == 2 * before,
            ;
            assert(2 * (p * v) == (2 * p) * v) by (nonlinear_arith);
        }
        bits = 2 * bits + carry as u128;
        p = 2 * p;
        j += 1;
    }
    let cut: bool = !all_zero(&left);
    proof {
        lemma_places_bound(left@);
    }
    // `i * 2^s` bytes at least: past counting, whatever the fraction adds.
    let scale: u128 = p / FINE;
    proof {
        assert(pow2(54) == FINE) by {
            lemma2_to64_rest();
        }
        lemma_pow2_adds(s as nat, 54);
        assert(p == pow2(s as nat) * FINE);
        assert(p as int / FINE as int == pow2(s as nat)) by (nonlinear_arith)
            requires
                p == pow2(s as nat) * FINE,
                FINE > 0,
        ;
        assert(scale == pow2(s as nat));
        assert(scale <= 0x100_0000_0000) by {
            lemma2_to64_rest();
            if s < 40 {
                vstd::arithmetic::power2::lemma_pow2_strictly_increases(s as nat, 40);
            }
        }
        assert(i * scale <= 0xffff_ffff_ffff_ffff * 0x100_0000_0000) by (nonlinear_arith)
            requires
                0 <= i <= 0xffff_ffff_ffff_ffff,
                0 <= scale <= 0x100_0000_0000,
        ;
    }
    if i as u128 * scale >= 0x1_0000_0000_0000_0000 {
        proof {
            assert(n >= 0x1_0000_0000_0000_0000 * m) by (nonlinear_arith)
                requires
                    n == d * scale,
                    d >= i * m,
                    i * scale >= 0x1_0000_0000_0000_0000,
                    scale > 0,
                    m > 0,
            ;
            lemma_too_many(n, m);
        }
        return 0xffff_ffff_ffff_ffff;
    }
    let ghost x = n * FINE as nat;
    proof {
        assert(i * p == (i * scale) * FINE) by (nonlinear_arith)
            requires
                p == scale * FINE,
        ;
    }
    let f: u128 = i as u128 * p + bits;
    proof {
        assert(x == m * f + places(left@)) by (nonlinear_arith)
            requires
                x == (d * scale) * FINE,
                p == scale * FINE,
                d == i * m + v,
                f == i * p + bits,
                bits * m + places(left@) == p * v,
        ;
    }
    settle(f, cut, Ghost(x), Ghost(m))
}

/// Whether nothing is left of a fraction.
fn all_zero(d: &Vec<u8>) -> (zero: bool)
    requires
        tens(d@),
    ensures
        zero <==> places(d@) == 0,
{
    let mut i: usize = d.len();
    assert(d@.skip(d@.len() as int) =~= Seq::<u8>::empty());
    while i > 0
        invariant
            i <= d@.len(),
            places(d@.skip(i as int)) == 0,
        decreases i,
    {
        i -= 1;
        proof {
            let rest = d@.skip(i as int);
            assert(rest.drop_first() =~= d@.skip(i + 1));
            assert(rest[0] == d@[i as int]);
            lemma_ten((rest.len() - 1) as nat);
            let p = pow(10, (rest.len() - 1) as nat);
            if d@[i as int] > 0 {
                assert(d@[i as int] as nat * p as nat > 0) by (nonlinear_arith)
                    requires
                        d@[i as int] > 0,
                        p > 0,
                ;
                lemma_places_skip(d@, i as int);
            } else {
                assert(0nat * p as nat == 0);
            }
        }
        if d[i] != 0 {
            return false;
        }
    }
    assert(d@.skip(0) =~= d@);
    true
}

proof fn lemma_places_skip(d: Seq<u8>, i: int)
    requires
        0 <= i <= d.len(),
    ensures
        places(d.skip(i)) <= places(d),
    decreases i,
{
    if i == 0 {
        assert(d.skip(0) =~= d);
    } else {
        lemma_places_skip(d, i - 1);
        assert(d.skip(i - 1).drop_first() =~= d.skip(i));
    }
}

fn lead_of(chars: &Vec<char>) -> (n: usize)
    ensures
        n == lead(chars@),
        n <= chars@.len(),
{
    let mut n: usize = 0;
    assert(chars@.skip(0) =~= chars@);
    while n < chars.len() && (digit(chars[n]) || chars[n] == '.')
        invariant
            n <= chars@.len(),
            lead(chars@) == n + lead(chars@.skip(n as int)),
        decreases chars@.len() - n,
    {
        assert(chars@.skip(n as int).drop_first() =~= chars@.skip(n + 1));
        n += 1;
    }
    n
}

fn point_of(chars: &Vec<char>) -> (n: usize)
    ensures
        n == before_point(chars@),
        n <= chars@.len(),
{
    let mut n: usize = 0;
    assert(chars@.skip(0) =~= chars@);
    while n < chars.len() && chars[n] != '.'
        invariant
            n <= chars@.len(),
            before_point(chars@) == n + before_point(chars@.skip(n as int)),
        decreases chars@.len() - n,
    {
        assert(chars@.skip(n as int).drop_first() =~= chars@.skip(n + 1));
        n += 1;
    }
    n
}

fn all_digits(chars: &Vec<char>) -> (all: bool)
    ensures
        all == digits(chars@),
{
    let mut i: usize = 0;
    while i < chars.len()
        invariant
            i <= chars@.len(),
            forall|j: int| 0 <= j < i ==> is_digit(#[trigger] chars@[j]),
        decreases chars@.len() - i,
    {
        if !digit(chars[i]) {
            return false;
        }
        i += 1;
    }
    true
}

fn shift_of(unit: &Vec<char>) -> (s: Option<u32>)
    ensures
        match s {
            Some(s) => shift(unit@) == Some(s as nat) && s <= 40,
            None => shift(unit@) is None,
        },
{
    let n: usize = unit.len();
    if n == 0 || (n == 1 && unit[0] == 'b') {
        return Some(0);
    }
    if n == 1 || (n == 2 && unit[1] == 'b') || (n == 3 && unit[1] == 'i' && unit[2] == 'b') {
        match unit[0] {
            'k' => Some(10),
            'm' => Some(20),
            'g' => Some(30),
            't' => Some(40),
            _ => None,
        }
    } else {
        None
    }
}

/// `4GiB`, `4G`, `4GB`, `512MiB`, `512M`, `1024` (bytes).
pub fn parse_bytes(word: &str) -> (bytes: Option<u64>)
    ensures
        bytes == byte_count(word@),
{
    let chars: Vec<char> = chars_of(word);
    let w: Vec<char> = trim(&chars);
    let k: usize = lead_of(&w);
    let number: Vec<char> = part(&w, 0, k);
    let rest: Vec<char> = part(&w, k, w.len());
    proof {
        assert(number@ =~= w@.take(k as int));
        assert(rest@ =~= w@.skip(k as int));
    }
    let unit: Vec<char> = lower_case(&trim(&rest));
    let at: usize = point_of(&number);
    let whole: Vec<char> = part(&number, 0, at);
    let fraction: Vec<char> = if at < number.len() {
        part(&number, at + 1, number.len())
    } else {
        Vec::new()
    };
    proof {
        assert(whole@ =~= whole_part(number@));
        assert(fraction@ =~= fraction_part(number@));
    }
    let s: u32 = match shift_of(&unit) {
        Some(s) => s,
        None => {
            return None;
        },
    };
    if !all_digits(&whole) || !all_digits(&fraction) || (whole.len() == 0 && fraction.len() == 0) {
        return None;
    }
    Some(read(&whole, &fraction, s))
}

/// A unit that leaves 53 bits of a number of few enough more is a power of
/// two no larger than those.
proof fn lemma_unit_divides(f: nat, j: nat)
    requires
        f < HALF * pow2(j),
    ensures
        pow2(j) % unit(f) == 0,
    decreases f,
{
    lemma_pow2_pos(j);
    if f < HALF {
        assert(pow2(j) % 1 == 0);
    } else {
        if j == 0 {
            assert(pow2(0) == 1) by {
                vstd::arithmetic::power2::lemma2_to64();
            }
        }
        lemma_pow2_unfold(j);
        let i = (j - 1) as nat;
        let h = f / 2;
        assert(HALF * (2 * pow2(i)) == 2 * (HALF * pow2(i))) by (nonlinear_arith);
        lemma_unit_divides(h, i);
        lemma_unit(h);
        let u = unit(h);
        let k = pow2(i) / u;
        lemma_fundamental_div_mod(pow2(i) as int, u as int);
        assert(2 * pow2(i) == k * (2 * u) + 0) by (nonlinear_arith)
            requires
                pow2(i) == u * k,
        ;
        lemma_fundamental_div_mod_converse(2 * pow2(i) as int, (2 * u) as int, k as int, 0);
    }
}

/// A whole count of fewer than 54 bits is read exactly.
pub proof fn whole_counts_are_exact(n: nat)
    requires
        n < HALF,
    ensures
        in_double(n, 1) == n,
{
    let fine = n * FINE as nat;
    assert(fine / 1 == fine);
    assert(pow2(54) == FINE) by {
        lemma2_to64_rest();
    }
    assert(fine < HALF * pow2(54)) by (nonlinear_arith)
        requires
            fine == n * FINE,
            n < HALF,
            pow2(54) == FINE,
            FINE > 0,
    ;
    lemma_unit_divides(fine, 54);
    lemma_unit(fine);
    let u = unit(fine);
    let k = FINE as nat / u;
    lemma_fundamental_div_mod(FINE as int, u as int);
    assert(fine == (n * k) * u + 0) by (nonlinear_arith)
        requires
            fine == n * FINE,
            FINE == u * k,
    ;
    lemma_fundamental_div_mod_converse(fine as int, u as int, (n * k) as int, 0);
    assert(1 * u == u);
    assert(nearest(fine, 1 * u) == n * k);
    assert(n * FINE as int / FINE as int == n) by (nonlinear_arith)
        requires
            FINE > 0,
    ;
}

/// A quotient that comes out whole, of fewer than 54 bits, is read exactly.
pub proof fn whole_quotients_are_exact(q: nat, m: nat)
    requires
        q < HALF,
        m > 0,
    ensures
        in_double(q * m, m) == q,
{
    let fine = q * FINE as nat;
    let all = (q * m) * FINE as nat;
    assert(all == fine * m) by (nonlinear_arith)
        requires
            fine == q * FINE,
            all == (q * m) * FINE,
    ;
    lemma_fundamental_div_mod_converse(all as int, m as int, fine as int, 0);
    assert(all / m == fine);
    assert(pow2(54) == FINE) by {
        lemma2_to64_rest();
    }
    assert(fine < HALF * pow2(54)) by (nonlinear_arith)
        requires
            fine == q * FINE,
            q < HALF,
            pow2(54) == FINE,
            FINE > 0,
    ;
    lemma_unit_divides(fine, 54);
    lemma_unit(fine);
    let u = unit(fine);
    let k = FINE as nat / u;
    lemma_fundamental_div_mod(FINE as int, u as int);
    assert(all == (q * k) * (m * u) + 0) by (nonlinear_arith)
        requires
            all == (q * m) * FINE,
            FINE == u * k,
    ;
    assert(m * u > 0) by (nonlinear_arith)
        requires
            m > 0,
            u > 0,
    ;
    lemma_fundamental_div_mod_converse(all as int, (m * u) as int, (q * k) as int, 0);
    assert(nearest(all, m * u) == q * k);
    assert((q * k) * u == q * FINE) by (nonlinear_arith)
        requires
            FINE == u * k,
    ;
    assert(q * FINE as int / FINE as int == q) by (nonlinear_arith)
        requires
            FINE > 0,
    ;
}

} // verus!
