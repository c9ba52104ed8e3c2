//! What words are read as, and what numbers are said as.

use vstd::arithmetic::div_mod::{lemma_fundamental_div_mod, lemma_fundamental_div_mod_converse};
use vstd::arithmetic::power::{lemma_pow0, lemma_pow_positive, pow};
use vstd::arithmetic::power2::pow2;
use vstd::prelude::*;

use crate::bytes::{
    before_point, byte_count, fraction_part, in_double, lead, lemma_decimal_append, nearest, shift,
    unit, whole_counts_are_exact, whole_part, whole_quotients_are_exact, HALF,
};
use crate::doubles::{
    amount_text, padded, percent_text, quotient, quotient_text, rounded, scale, span_text, tens,
    SEC,
};
use crate::ids::{ids, rows};
use crate::text::{
    decimal, decimal_text, decimal_text_reads_back, digit_char, digits, is_digit, is_space, lower, lowered,
    number, trimmed, unsigned,
};

verus! {

/// Nothing but spaces.
pub open spec fn blank(s: Seq<char>) -> bool {
    forall|i: int| 0 <= i < s.len() ==> is_space(#[trigger] s[i])
}

/// Trimming takes the spaces off both ends and nothing else: a word between
/// spaces, with none at either end of it, is what is left.
pub proof fn trimming_takes_the_spaces_off(before: Seq<char>, word: Seq<char>, after: Seq<char>)
    requires
        blank(before),
        blank(after),
        word.len() > 0 ==> !is_space(word[0]) && !is_space(word.last()),
    ensures
        trimmed(before + word + after) == word,
    decreases before.len() + after.len(),
{
    let s = before + word + after;
    if before.len() > 0 {
        assert(s[0] == before[0]);
        assert(s.drop_first() =~= before.drop_first() + word + after);
        assert forall|i: int| 0 <= i < before.drop_first().len() implies is_space(
            #[trigger] before.drop_first()[i],
        ) by {
            assert(before.drop_first()[i] == before[i + 1]);
        }
        trimming_takes_the_spaces_off(before.drop_first(), word, after);
    } else if after.len() > 0 {
        assert(s.last() == after.last());
        assert(is_space(after[after.len() - 1]));
        if word.len() > 0 {
            assert(s[0] == word[0]);
            assert(s.drop_last() =~= before + word + after.drop_last());
            assert forall|i: int| 0 <= i < after.drop_last().len() implies is_space(
                #[trigger] after.drop_last()[i],
            ) by {
                assert(after.drop_last()[i] == after[i]);
            }
            trimming_takes_the_spaces_off(before, word, after.drop_last());
        } else {
            assert(s[0] == after[0]);
            assert(is_space(after[0]));
            assert(s.drop_first() =~= before + word + after.drop_first());
            assert forall|i: int| 0 <= i < after.drop_first().len() implies is_space(
                #[trigger] after.drop_first()[i],
            ) by {
                assert(after.drop_first()[i] == after[i + 1]);
            }
            trimming_takes_the_spaces_off(before, word, after.drop_first());
        }
    } else {
        assert(s =~= word);
    }
}

/// A number reads as it is written, with a plus sign or without, up to the
/// most there may be; nothing reads as more than that.
pub proof fn a_number_reads_as_it_is_written(n: nat, max: nat, s: Seq<char>)
    ensures
        n <= max ==> number(decimal_text(n), max) == Some(n),
        n <= max ==> number(seq!['+'] + decimal_text(n), max) == Some(n),
        n > max ==> number(decimal_text(n), max) is None,
        number(s, max) matches Some(m) ==> m <= max,
        number(s, max) is Some ==> forall|i: int|
            0 <= i < s.len() ==> is_digit(#[trigger] s[i]) || (i == 0 && s[i] == '+'),
        s.len() == 0 || s == seq!['+'] ==> number(s, max) is None,
{
    decimal_text_reads_back(n);
    let t = decimal_text(n);
    assert(is_digit(t[0]));
    assert(unsigned(t) == t);
    assert((seq!['+'] + t).drop_first() =~= t);
    assert(unsigned(seq!['+'] + t) == t);
    if number(s, max) is Some {
        let u = unsigned(s);
        assert forall|i: int| 0 <= i < s.len() implies is_digit(#[trigger] s[i]) || (i == 0 && s[i]
            == '+') by {
            if s[0] == '+' {
                if i > 0 {
                    assert(u[i - 1] == s[i]);
                }
            } else {
                assert(u[i] == s[i]);
            }
        }
    }
    if s == seq!['+'] {
        assert(s.drop_first() =~= Seq::<char>::empty());
    }
}

proof fn lemma_lead(number: Seq<char>, rest: Seq<char>)
    requires
        digits(number),
        rest.len() > 0 ==> !is_digit(rest[0]) && rest[0] != '.',
    ensures
        lead(number + rest) == number.len(),
    decreases number.len(),
{
    if number.len() > 0 {
        let s = number + rest;
        assert(s[0] == number[0]);
        assert(s.drop_first() =~= number.drop_first() + rest);
        assert(digits(number.drop_first())) by {
            assert forall|i: int| 0 <= i < number.drop_first().len() implies is_digit(
                #[trigger] number.drop_first()[i],
            ) by {
                assert(number.drop_first()[i] == number[i + 1]);
            }
        }
        lemma_lead(number.drop_first(), rest);
    } else {
        assert(number + rest =~= rest);
    }
}

proof fn lemma_no_point(number: Seq<char>)
    requires
        digits(number),
    ensures
        before_point(number) == number.len(),
    decreases number.len(),
{
    if number.len() > 0 {
        assert(is_digit(number[0]));
        assert(digits(number.drop_first())) by {
            assert forall|i: int| 0 <= i < number.drop_first().len() implies is_digit(
                #[trigger] number.drop_first()[i],
            ) by {
                assert(number.drop_first()[i] == number[i + 1]);
            }
        }
        lemma_no_point(number.drop_first());
    }
}

/// The power of two a unit stands for: bytes by themselves, and `k`, `m`,
/// `g` and `t` with or without `b` or `ib`.
pub open spec fn stands_for(unit: Seq<char>, power: nat) -> bool {
    ||| power == 0 && (unit == Seq::<char>::empty() || unit == seq!['b'])
    ||| power == 10 && (unit == seq!['k'] || unit == seq!['k', 'b'] || unit == seq!['k', 'i', 'b'])
    ||| power == 20 && (unit == seq!['m'] || unit == seq!['m', 'b'] || unit == seq!['m', 'i', 'b'])
    ||| power == 30 && (unit == seq!['g'] || unit == seq!['g', 'b'] || unit == seq!['g', 'i', 'b'])
    ||| power == 40 && (unit == seq!['t'] || unit == seq!['t', 'b'] || unit == seq!['t', 'i', 'b'])
}

proof fn lemma_shift(unit: Seq<char>, power: nat)
    requires
        stands_for(unit, power),
    ensures
        shift(unit) == Some(power),
        forall|i: int| 0 <= i < unit.len() ==> 'b' <= #[trigger] unit[i] <= 't',
{
}

/// A count and its unit multiply: a whole number written out, a unit in
/// either case behind it, spaces around it, is that many of the unit, exactly
/// as long as a double holds it.
pub proof fn a_count_and_its_unit_multiply(
    n: nat,
    unit: Seq<char>,
    power: nat,
    before: Seq<char>,
    after: Seq<char>,
)
    requires
        stands_for(lowered(unit), power),
        n * pow2(power) < 0x20_0000_0000_0000,
        blank(before),
        blank(after),
    ensures
        byte_count(before + (decimal_text(n) + unit) + after) == Some((n * pow2(power)) as u64),
{
    let said = decimal_text(n);
    let w = said + unit;
    decimal_text_reads_back(n);
    lemma_shift(lowered(unit), power);
    assert forall|i: int| 0 <= i < unit.len() implies !is_space(#[trigger] unit[i]) && !is_digit(unit[i])
        && unit[i] != '.' by {
        assert(lowered(unit)[i] == lower(unit[i]));
        assert('b' <= lowered(unit)[i] <= 't');
    }
    assert(is_digit(said[0]) && is_digit(said[said.len() - 1]));
    assert(w[0] == said[0]);
    assert(!is_space(w[0]) && !is_space(w.last())) by {
        if unit.len() > 0 {
            assert(w.last() == unit[unit.len() - 1]);
        } else {
            assert(w.last() == said[said.len() - 1]);
        }
    }
    trimming_takes_the_spaces_off(before, w, after);
    lemma_lead(said, unit);
    assert(w.take(said.len() as int) =~= said);
    assert(w.skip(said.len() as int) =~= unit);
    let none = Seq::<char>::empty();
    trimming_takes_the_spaces_off(none, unit, none);
    assert(none + unit + none =~= unit);
    lemma_no_point(said);
    assert(whole_part(said) =~= said);
    assert(fraction_part(said) =~= none);
    assert(said + none =~= said);
    lemma_pow0(10);
    assert(pow(10, 0) == 1);
    whole_counts_are_exact(n * pow2(power));
}

/// What a division is rounded to lies no more than half of one away, and of
/// two as near the even one is taken.
pub proof fn the_nearest_is_near(n: nat, m: nat)
    requires
        m > 0,
    ensures
        2 * (nearest(n, m) * m) <= 2 * n + m,
        2 * n <= 2 * (nearest(n, m) * m) + m,
        2 * (nearest(n, m) * m) == 2 * n + m || 2 * n == 2 * (nearest(n, m) * m) + m ==> nearest(n, m) % 2
            == 0,
{
    lemma_fundamental_div_mod(n as int, m as int);
    let q = n / m;
    assert(m * q == q * m) by (nonlinear_arith);
    assert((q + 1) * m == q * m + m) by (nonlinear_arith);
}

proof fn lemma_padded(f: nat, d: nat)
    ensures
        padded(f, d).len() == d,
        digits(padded(f, d)),
        decimal(padded(f, d)) == f % tens(d),
        tens(d) > 0,
    decreases d,
{
    if d == 0 {
        assert(f % 1 == 0);
    } else {
        let p = (d - 1) as nat;
        lemma_padded(f / 10, p);
        let s = padded(f, d);
        let c = digit_char(f % 10);
        assert(s.drop_last() =~= padded(f / 10, p));
        assert(s.last() == c);
        assert(is_digit(c) && c as u32 == '0' as u32 + f % 10);
        assert forall|i: int| 0 <= i < s.len() implies is_digit(#[trigger] s[i]) by {
            if i < s.len() - 1 {
                assert(s[i] == padded(f / 10, p)[i]);
            }
        }
        let t = tens(p) as int;
        lemma_fundamental_div_mod(f as int, 10);
        lemma_fundamental_div_mod(f as int / 10, t);
        let q = f as int / 10 / t;
        let r = f as int / 10 % t;
        assert(f == (10 * t) * q + (10 * r + f % 10)) by (nonlinear_arith)
            requires
                f == 10 * (f as int / 10) + f % 10,
                f as int / 10 == t * q + r,
        ;
        assert(0 <= r < t);
        lemma_fundamental_div_mod_converse(f as int, 10 * t, q, 10 * r + f % 10);
    }
}

/// A quotient is said with all its places: read without its point it is the
/// quotient counted in the last of them, and so many digits stand behind it.
pub proof fn a_quotient_reads_back(n: nat, m: nat, d: nat)
    ensures
        ({
            let q = quotient(n, m, tens(d));
            let text = quotient_text(n, m, d);
            let whole = text.take(text.len() - d - 1);
            let rest = text.skip(text.len() - d);
            &&& text.len() > d + 1
            &&& text[text.len() - d - 1] == '.'
            &&& digits(whole) && digits(rest)
            &&& decimal(whole) * tens(d) + decimal(rest) == q
        }),
{
    let q = quotient(n, m, tens(d));
    let t = tens(d);
    lemma_padded(q % t, d);
    decimal_text_reads_back(q / t);
    reveal_strlit(".");
    let text = quotient_text(n, m, d);
    let a = decimal_text(q / t);
    let b = padded(q % t, d);
    assert("."@.len() == 1 && "."@[0] == '.');
    assert(text =~= a + "."@ + b);
    assert(text.len() == a.len() + 1 + d);
    assert(text.take(text.len() - d - 1) =~= a);
    assert(text.skip(text.len() - d) =~= b);
    lemma_fundamental_div_mod(q as int, t as int);
    assert(t * (q / t) == (q / t) * t) by (nonlinear_arith);
    assert((q % t) % t == q % t) by (nonlinear_arith)
        requires
            t > 0,
    ;
}

/// A whole number of what is counted in is said without a fraction: a
/// quotient that comes out even is itself.
pub proof fn an_even_quotient_is_itself(k: nat, m: nat, places: nat)
    requires
        m > 0,
    ensures
        quotient(k * m, m, places) == places * k,
{
    let n = k * m;
    let s = scale(n, m);
    lemma_scale_positive(n, m);
    assert(n * s == (k * s) * m) by (nonlinear_arith)
        requires
            n == k * m,
    ;
    lemma_fundamental_div_mod_converse((n * s) as int, m as int, (k * s) as int, 0);
    assert(nearest(n * s, m) == k * s);
    assert(places * (k * s) == (places * k) * s) by (nonlinear_arith);
    lemma_fundamental_div_mod_converse((places * (k * s)) as int, s as int, (places * k) as int, 0);
}

proof fn lemma_scale_positive(n: nat, m: nat)
    ensures
        scale(n, m) > 0,
    decreases HALF * m - n,
{
    if !(n == 0 || 2 * n >= HALF * m) {
        lemma_scale_positive(2 * n, m);
    }
}

/// A routing vector's rows lie one after the other, entry by entry.
pub proof fn rows_lie_one_after_the_other(raw: Seq<u8>, width: nat, r: int, c: int)
    requires
        width > 0,
        0 <= r < rows(raw, width).len(),
        0 <= c < width,
    ensures
        rows(raw, width)[r].len() == width,
        rows(raw, width)[r][c] == ids(raw)[r * width + c],
        rows(raw, width).len() * width <= ids(raw).len(),
        (rows(raw, width).len() + 1) * width > ids(raw).len(),
{
    let n = raw.len() as int;
    let w = width as int;
    let k = n / (4 * w);
    lemma_fundamental_div_mod(n, 4 * w);
    lemma_fundamental_div_mod(n, 4);
    assert((4 * w) * k == 4 * (k * w)) by (nonlinear_arith);
    assert(k * w <= n / 4 && (k + 1) * w == k * w + w) by (nonlinear_arith)
        requires
            n == 4 * (k * w) + n % (4 * w),
            0 <= n % (4 * w),
            w > 0,
    ;
    assert(0 <= r * w && (r + 1) * w <= k * w && (r + 1) * w == r * w + w) by (nonlinear_arith)
        requires
            0 <= r < k,
            w > 0,
    ;
}

/// A quotient is near what it is of: no further from it than half of its
/// last place and what the double before it was rounded by.
pub proof fn a_quotient_is_near(n: nat, m: nat, places: nat)
    requires
        m > 0,
    ensures
        ({
            let q = quotient(n, m, places);
            let s = scale(n, m);
            &&& s > 0
            &&& 2 * ((q * m) * s) <= 2 * ((places * n) * s) + m * (s + places)
            &&& 2 * ((places * n) * s) <= 2 * ((q * m) * s) + m * (s + places)
            &&& n > 0 && s > 1 ==> 2 * n * s >= 0x20_0000_0000_0000 * m
        }),
{
    let s = scale(n, m);
    let a = nearest(n * s, m);
    let q = quotient(n, m, places);
    lemma_scale_positive(n, m);
    the_nearest_is_near(n * s, m);
    the_nearest_is_near(places * a, s);
    lemma_scale_large(n, m);
    let am = (a * m) as int;
    let ns = (n * s) as int;
    let pa = (places * a) as int;
    let qs = (q * s) as int;
    let p = places as int;
    // from the last place to the double, and from the double to the quotient
    assert(2 * (p * am) <= 2 * (p * ns) + p * m && 2 * (p * ns) <= 2 * (p * am) + p * m) by (nonlinear_arith)
        requires
            2 * am <= 2 * ns + m,
            2 * ns <= 2 * am + m,
            p >= 0,
    ;
    assert(2 * (qs * m) <= 2 * (pa * m) + s * m && 2 * (pa * m) <= 2 * (qs * m) + s * m) by (nonlinear_arith)
        requires
            2 * qs <= 2 * pa + s,
            2 * pa <= 2 * qs + s,
            m > 0,
    ;
    assert(pa * m == p * am) by (nonlinear_arith)
        requires
            pa == p * a,
            am == a * m,
    ;
    assert(qs * m == (q * m) * s) by (nonlinear_arith)
        requires
            qs == q * s,
    ;
    assert(p * ns == (p * n) * s) by (nonlinear_arith)
        requires
            ns == n * s,
    ;
    assert(m * (s + p) == s * m + p * m) by (nonlinear_arith);
}

proof fn lemma_scale_large(n: nat, m: nat)
    ensures
        n > 0 && scale(n, m) > 1 ==> 2 * n * scale(n, m) >= 0x20_0000_0000_0000 * m,
        n > 0 ==> 2 * n * scale(n, m) >= 0x20_0000_0000_0000 * m || scale(n, m) == 1,
    decreases HALF * m - n,
{
    if !(n == 0 || 2 * n >= HALF * m) {
        lemma_scale_large(2 * n, m);
        let t = scale(2 * n, m);
        lemma_scale_positive(2 * n, m);
        assert(2 * n * (2 * t) == 2 * (2 * n) * t) by (nonlinear_arith);
        if t == 1 {
            assert(2 * (2 * n) >= HALF * m);
            assert(2 * n * 2 == 2 * (2 * n));
        }
    }
}

/// All of a whole is said as a hundred per cent, none of it as none, and
/// where there is no whole nothing is.
pub proof fn all_of_a_whole_is_a_hundred_per_cent(whole: u64)
    requires
        100 * whole < 0x20_0000_0000_0000,
    ensures
        percent_text(0, 0) == "0.0"@,
        whole > 0 ==> percent_text(whole, whole) == "100.0"@,
        percent_text(0, whole) == "0.0"@,
{
    reveal_strlit("0.0");
    reveal_strlit("100.0");
    reveal_strlit(".");
    if whole > 0 {
        let w = whole as nat;
        lemma_small_is_itself(w);
        lemma_small_is_itself(100 * w);
        an_even_quotient_is_itself(100, w, tens(1));
        an_even_quotient_is_itself(0, w, tens(1));
        lemma_small_is_itself(0);
        assert(tens(1) == 10) by {
            reveal_with_fuel(tens, 2);
        }
        assert(quotient(100 * w, w, 10) == 1000);
        assert(1000nat / 10 == 100 && 1000nat % 10 == 0);
        assert(padded(0, 1) =~= seq!['0']) by {
            reveal_with_fuel(padded, 2);
        }
        assert(decimal_text(100) =~= seq!['1', '0', '0']) by {
            reveal_with_fuel(decimal_text, 4);
            assert(decimal_text(1) =~= seq!['1']);
            assert(decimal_text(10) =~= seq!['1', '0']);
        }
        assert(percent_text(whole, whole) =~= seq!['1', '0', '0', '.', '0']);
        assert("100.0"@ =~= seq!['1', '0', '0', '.', '0']);
        assert(0 * w == 0);
        assert(quotient(0, w, 10) == 0);
        assert(decimal_text(0) =~= seq!['0']);
        assert(percent_text(0, whole) =~= seq!['0', '.', '0']);
        assert("0.0"@ =~= seq!['0', '.', '0']);
    }
}

proof fn lemma_small_is_itself(n: nat)
    requires
        n < 0x20_0000_0000_0000,
    ensures
        rounded(n) == n,
{
    assert(unit(n) == 1);
    assert(n / 1 == n && n % 1 == 0);
    assert(nearest(n, 1) == n);
}

/// A whole number of what it is counted in is said as that number, with
/// nothing behind its point.
pub proof fn a_whole_amount_says_itself(k: nat, of: u64, d: nat)
    requires
        of > 0,
        k * of < 0x20_0000_0000_0000,
    ensures
        ({
            let text = amount_text((k * of) as u64, of, d);
            let whole = text.take(text.len() - d - 1);
            let rest = text.skip(text.len() - d);
            &&& text.len() > d + 1
            &&& digits(whole) && decimal(whole) == k
            &&& digits(rest) && decimal(rest) == 0
        }),
{
    let n = k * of as nat;
    let t = tens(d);
    lemma_small_is_itself(n);
    an_even_quotient_is_itself(k, of as nat, t);
    a_quotient_reads_back(n, of as nat, d);
    lemma_padded(0, d);
    let q = quotient(n, of as nat, t);
    assert(q == t * k);
    lemma_fundamental_div_mod_converse(q as int, t as int, k as int, 0);
    decimal_text_reads_back(k);
    let text = quotient_text(n, of as nat, d);
    reveal_strlit(".");
    let a = decimal_text(k);
    let b = padded(0, d);
    assert(text =~= a + "."@ + b);
    assert(text.len() == a.len() + 1 + d);
    assert(text.take(text.len() - d - 1) =~= a);
    assert(text.skip(text.len() - d) =~= b);
    assert(0nat % t == 0) by (nonlinear_arith)
        requires
            t > 0,
    ;
}

/// Lowering touches the capitals alone, each to its own small letter.
pub proof fn lowering_touches_capitals_alone(s: Seq<char>, i: int)
    requires
        0 <= i < s.len(),
    ensures
        lowered(s).len() == s.len(),
        'A' <= s[i] <= 'Z' ==> lowered(s)[i] as u32 - s[i] as u32 == 'a' as u32 - 'A' as u32,
        !('A' <= s[i] <= 'Z') ==> lowered(s)[i] == s[i],
{
    assert(lowered(s)[i] == lower(s[i]));
}

proof fn lemma_lead_point(number: Seq<char>, rest: Seq<char>)
    requires
        forall|i: int| 0 <= i < number.len() ==> is_digit(#[trigger] number[i]) || number[i] == '.',
        rest.len() > 0 ==> !is_digit(rest[0]) && rest[0] != '.',
    ensures
        lead(number + rest) == number.len(),
    decreases number.len(),
{
    if number.len() > 0 {
        let s = number + rest;
        assert(s[0] == number[0]);
        assert(s.drop_first() =~= number.drop_first() + rest);
        assert forall|i: int| 0 <= i < number.drop_first().len() implies is_digit(
            #[trigger] number.drop_first()[i],
        ) || number.drop_first()[i] == '.' by {
            assert(number.drop_first()[i] == number[i + 1]);
        }
        lemma_lead_point(number.drop_first(), rest);
    } else {
        assert(number + rest =~= rest);
    }
}

proof fn lemma_point(whole: Seq<char>, rest: Seq<char>)
    requires
        digits(whole),
        rest.len() > 0,
        rest[0] == '.',
    ensures
        before_point(whole + rest) == whole.len(),
    decreases whole.len(),
{
    let s = whole + rest;
    if whole.len() > 0 {
        assert(s[0] == whole[0]);
        assert(is_digit(whole[0]));
        assert(s.drop_first() =~= whole.drop_first() + rest);
        assert(digits(whole.drop_first())) by {
            assert forall|i: int| 0 <= i < whole.drop_first().len() implies is_digit(
                #[trigger] whole.drop_first()[i],
            ) by {
                assert(whole.drop_first()[i] == whole[i + 1]);
            }
        }
        lemma_point(whole.drop_first(), rest);
    } else {
        assert(s[0] == rest[0]);
    }
}

/// A fraction counts for its share: a number with digits behind its point,
/// and a unit behind those, is as many bytes as come of it, exactly where
/// these are whole and a double holds them.
pub proof fn a_fraction_counts_for_its_share(
    n: nat,
    fraction: Seq<char>,
    unit: Seq<char>,
    power: nat,
    bytes: nat,
)
    requires
        digits(fraction),
        fraction.len() > 0,
        stands_for(lowered(unit), power),
        (n * pow(10, fraction.len()) + decimal(fraction)) * pow2(power) == bytes * pow(10, fraction.len()),
        bytes < 0x20_0000_0000_0000,
    ensures
        byte_count(decimal_text(n) + (seq!['.'] + fraction) + unit) == Some(bytes as u64),
{
    let whole = decimal_text(n);
    let said = whole + (seq!['.'] + fraction);
    let w = said + unit;
    let none = Seq::<char>::empty();
    decimal_text_reads_back(n);
    lemma_shift(lowered(unit), power);
    assert forall|i: int| 0 <= i < unit.len() implies !is_space(#[trigger] unit[i]) && !is_digit(unit[i])
        && unit[i] != '.' by {
        assert(lowered(unit)[i] == lower(unit[i]));
        assert('b' <= lowered(unit)[i] <= 't');
    }
    assert forall|i: int| 0 <= i < said.len() implies is_digit(#[trigger] said[i]) || said[i] == '.' by {
        if i < whole.len() {
            assert(said[i] == whole[i]);
        } else if i > whole.len() {
            assert(said[i] == fraction[i - whole.len() - 1]);
        }
    }
    assert(is_digit(whole[0]) && is_digit(fraction[fraction.len() - 1]));
    assert(w[0] == whole[0]);
    assert(!is_space(w[0]) && !is_space(w.last())) by {
        if unit.len() > 0 {
            assert(w.last() == unit[unit.len() - 1]);
        } else {
            assert(w.last() == fraction[fraction.len() - 1]);
        }
    }
    trimming_takes_the_spaces_off(none, w, none);
    assert(none + w + none =~= w);
    lemma_lead_point(said, unit);
    assert(w.take(said.len() as int) =~= said);
    assert(w.skip(said.len() as int) =~= unit);
    trimming_takes_the_spaces_off(none, unit, none);
    assert(none + unit + none =~= unit);
    lemma_point(whole, seq!['.'] + fraction);
    assert(whole_part(said) =~= whole);
    assert(fraction_part(said) =~= fraction);
    lemma_decimal_append(whole, fraction);
    lemma_pow_positive(10, fraction.len());
    let m = pow(10, fraction.len()) as nat;
    assert(decimal(whole + fraction) == n * m + decimal(fraction));
    assert(in_double(bytes * m, m) == bytes) by {
        whole_quotients_are_exact(bytes, m);
    }
}

/// A whole number of seconds is said in milliseconds as a thousand times
/// that, with nothing behind its point.
pub proof fn a_whole_second_is_a_thousand_milliseconds(k: u64, d: nat)
    requires
        k * 1_000_000_000 <= u64::MAX,
    ensures
        ({
            let text = span_text((k * 1_000_000_000) as u64, d);
            let whole = text.take(text.len() - d - 1);
            let rest = text.skip(text.len() - d);
            &&& text.len() > d + 1
            &&& text[text.len() - d - 1] == '.'
            &&& digits(whole) && decimal(whole) == 1000 * k
            &&& digits(rest) && decimal(rest) == 0
        }),
{
    let n = (k * 1_000_000_000) as u64;
    let t = tens(d);
    assert(n % SEC == 0 && n / SEC == k);
    assert(scale(0, SEC as nat) == 1);
    assert(nearest(0, SEC as nat) == 0);
    let sum = k as nat;
    lemma_small_is_itself(sum);
    lemma_small_is_itself(1000 * sum);
    assert(unit(sum) == 1);
    assert(sum / 1 == sum && sum % 1 == 0);
    assert(nearest(sum, 1) == sum);
    lemma_padded(0, d);
    let q = t * (1000 * sum);
    assert(q / 1 == q && q % 1 == 0);
    assert(nearest(q, 1) == q);
    assert(t * (1000 * sum) * 1 == q);
    lemma_fundamental_div_mod_converse(q as int, t as int, (1000 * sum) as int, 0);
    decimal_text_reads_back(1000 * sum);
    reveal_strlit(".");
    let text = span_text(n, d);
    let a = decimal_text(1000 * sum);
    let b = padded(0, d);
    assert(text =~= a + "."@ + b);
    assert(text.len() == a.len() + 1 + d);
    assert(text.take(text.len() - d - 1) =~= a);
    assert(text.skip(text.len() - d) =~= b);
    assert(0nat % t == 0) by (nonlinear_arith)
        requires
            t > 0,
    ;
}

} // verus!
