//! The words a load is configured with.

use vstd::prelude::*;
use vstd::string::*;

verus! {

/// Whether a character separates words: Unicode's white space.
pub open spec fn is_space(c: char) -> bool {
    let n = c as u32;
    ||| 0x9 <= n <= 0xd
    ||| n == 0x20
    ||| n == 0x85
    ||| n == 0xa0
    ||| n == 0x1680
    ||| 0x2000 <= n <= 0x200a
    ||| n == 0x2028
    ||| n == 0x2029
    ||| n == 0x202f
    ||| n == 0x205f
    ||| n == 0x3000
}

pub open spec fn is_digit(c: char) -> bool {
    '0' <= c <= '9'
}

/// An upper-case ASCII letter made lower-case; any other character as it is.
pub open spec fn lower(c: char) -> char {
    if 'A' <= c <= 'Z' {
        ((c as u32 + 32) as u32) as char
    } else {
        c
    }
}

/// A word without the white space around it.
pub open spec fn trimmed(s: Seq<char>) -> Seq<char>
    decreases s.len(),
{
    if s.len() == 0 {
        s
    } else if is_space(s[0]) {
        trimmed(s.drop_first())
    } else if is_space(s.last()) {
        trimmed(s.drop_last())
    } else {
        s
    }
}

pub open spec fn lowered(s: Seq<char>) -> Seq<char> {
    s.map_values(|c: char| lower(c))
}

pub open spec fn digits(s: Seq<char>) -> bool {
    forall|i: int| 0 <= i < s.len() ==> is_digit(#[trigger] s[i])
}

/// What a run of decimal digits says.
pub open spec fn decimal(s: Seq<char>) -> nat
    decreases s.len(),
{
    if s.len() == 0 {
        0
    } else {
        10 * decimal(s.drop_last()) + (s.last() as u32 - '0' as u32) as nat
    }
}

/// A word without a plus sign ahead of it.
pub open spec fn unsigned(s: Seq<char>) -> Seq<char> {
    if s.len() > 0 && s[0] == '+' {
        s.drop_first()
    } else {
        s
    }
}

/// The whole number a word says: decimal digits, perhaps after a plus sign,
/// that come to no more than `max`.
pub open spec fn number(s: Seq<char>, max: nat) -> Option<nat> {
    let u = unsigned(s);
    if u.len() > 0 && digits(u) && decimal(u) <= max {
        Some(decimal(u))
    } else {
        None
    }
}

/// The characters of a word.
pub fn chars_of(word: &str) -> (chars: Vec<char>)
    ensures
        chars@ == word@,
{
    let n: usize = word.unicode_len();
    let mut chars: Vec<char> = Vec::new();
    let mut i: usize = 0;
    while i < n
        invariant
            n == word@.len(),
            i <= n,
            chars@ == word@.take(i as int),
        decreases n - i,
    {
        chars.push(word.get_char(i));
        i += 1;
        assert(chars@ =~= word@.take(i as int));
    }
    assert(word@.take(n as int) =~= word@);
    chars
}

pub fn space(c: char) -> (space: bool)
    ensures
        space == is_space(c),
{
    let n: u32 = c as u32;
    (0x9 <= n && n <= 0xd) || n == 0x20 || n == 0x85 || n == 0xa0 || n == 0x1680 || (0x2000 <= n
        && n <= 0x200a) || n == 0x2028 || n == 0x2029 || n == 0x202f || n == 0x205f || n == 0x3000
}

pub fn digit(c: char) -> (digit: bool)
    ensures
        digit == is_digit(c),
{
    '0' <= c && c <= '9'
}

/// The part of `chars` between `from` and `to`, copied.
pub fn part(chars: &Vec<char>, from: usize, to: usize) -> (part: Vec<char>)
    requires
        from <= to <= chars@.len(),
    ensures
        part@ == chars@.subrange(from as int, to as int),
{
    let mut part: Vec<char> = Vec::new();
    let mut i: usize = from;
    while i < to
        invariant
            from <= i <= to,
            to <= chars@.len(),
            part@ == chars@.subrange(from as int, i as int),
        decreases to - i,
    {
        part.push(chars[i]);
        i += 1;
        assert(part@ =~= chars@.subrange(from as int, i as int));
    }
    part
}

/// A word without the white space around it.
pub fn trim(chars: &Vec<char>) -> (word: Vec<char>)
    ensures
        word@ == trimmed(chars@),
{
    let (from, to): (usize, usize) = trim_bounds(chars);
    part(chars, from, to)
}

/// Where a word starts and ends without the white space around it.
pub fn trim_bounds(chars: &Vec<char>) -> (bounds: (usize, usize))
    ensures
        bounds.0 <= bounds.1 <= chars@.len(),
        chars@.subrange(bounds.0 as int, bounds.1 as int) == trimmed(chars@),
{
    let mut from: usize = 0;
    let mut to: usize = chars.len();
    assert(chars@.subrange(0, to as int) =~= chars@);
    while from < to && space(chars[from])
        invariant
            from <= to,
            to == chars@.len(),
            trimmed(chars@) == trimmed(chars@.subrange(from as int, to as int)),
        decreases to - from,
    {
        assert(chars@.subrange(from as int, to as int).drop_first() =~= chars@.subrange(
            from + 1,
            to as int,
        ));
        from += 1;
    }
    while from < to && space(chars[to - 1])
        invariant
            from <= to,
            to <= chars@.len(),
            from < to ==> !is_space(chars@[from as int]),
            trimmed(chars@) == trimmed(chars@.subrange(from as int, to as int)),
        decreases to - from,
    {
        assert(chars@.subrange(from as int, to as int).drop_last() =~= chars@.subrange(
            from as int,
            to - 1,
        ));
        to -= 1;
    }
    (from, to)
}

/// A word in lower case.
pub fn lower_case(chars: &Vec<char>) -> (word: Vec<char>)
    ensures
        word@ == lowered(chars@),
{
    let mut word: Vec<char> = Vec::new();
    let mut i: usize = 0;
    while i < chars.len()
        invariant
            i <= chars@.len(),
            word@ == lowered(chars@.take(i as int)),
        decreases chars@.len() - i,
    {
        let c: char = chars[i];
        word.push(lower_char(c));
        i += 1;
        assert(word@ =~= lowered(chars@.take(i as int)));
    }
    assert(chars@.take(chars@.len() as int) =~= chars@);
    word
}

fn lower_char(c: char) -> (l: char)
    ensures
        l == lower(c),
{
    match c {
        'A' => 'a',
        'B' => 'b',
        'C' => 'c',
        'D' => 'd',
        'E' => 'e',
        'F' => 'f',
        'G' => 'g',
        'H' => 'h',
        'I' => 'i',
        'J' => 'j',
        'K' => 'k',
        'L' => 'l',
        'M' => 'm',
        'N' => 'n',
        'O' => 'o',
        'P' => 'p',
        'Q' => 'q',
        'R' => 'r',
        'S' => 's',
        'T' => 't',
        'U' => 'u',
        'V' => 'v',
        'W' => 'w',
        'X' => 'x',
        'Y' => 'y',
        'Z' => 'z',
        other => other,
    }
}

/// Whether a word is this one.
pub fn is_word(chars: &Vec<char>, word: &str) -> (same: bool)
    ensures
        same == (chars@ == word@),
{
    let n: usize = word.unicode_len();
    if chars.len() != n {
        return false;
    }
    let mut i: usize = 0;
    while i < n
        invariant
            n == word@.len(),
            n == chars@.len(),
            i <= n,
            forall|j: int| 0 <= j < i ==> chars@[j] == word@[j],
        decreases n - i,
    {
        if chars[i] != word.get_char(i) {
            return false;
        }
        i += 1;
    }
    assert(chars@ =~= word@);
    true
}

/// More digits say no less.
pub proof fn lemma_decimal_prefix(s: Seq<char>, n: int)
    requires
        0 <= n <= s.len(),
        digits(s),
    ensures
        decimal(s.take(n)) <= decimal(s),
    decreases s.len() - n,
{
    if n == s.len() {
        assert(s.take(n) =~= s);
    } else {
        lemma_decimal_prefix(s, n + 1);
        assert(s.take(n + 1).drop_last() =~= s.take(n));
        assert(is_digit(s[n]));
    }
}

/// The whole number a word says, if it says one that is no more than `max`.
pub fn parse_number(chars: &Vec<char>, max: u64) -> (n: Option<u64>)
    ensures
        match n {
            Some(n) => number(chars@, max as nat) == Some(n as nat),
            None => number(chars@, max as nat) is None,
        },
{
    let from: usize = if chars.len() > 0 && chars[0] == '+' { 1 } else { 0 };
    let ghost u = unsigned(chars@);
    if from == chars.len() {
        return None;
    }
    assert(u =~= chars@.subrange(from as int, chars@.len() as int));
    let mut n: u64 = 0;
    let mut i: usize = from;
    assert(u.take(0) =~= Seq::<char>::empty());
    while i < chars.len()
        invariant
            from <= i <= chars@.len(),
            u == unsigned(chars@),
            u.len() > 0,
            u == chars@.subrange(from as int, chars@.len() as int),
            digits(u.take(i - from)),
            n == decimal(u.take(i - from)),
            n <= max,
        decreases chars@.len() - i,
    {
        let c: char = chars[i];
        assert(u[i - from] == c);
        let ghost more = u.take(i + 1 - from);
        assert(more.drop_last() =~= u.take(i - from));
        if !digit(c) {
            assert(!digits(u));
            return None;
        }
        let d: u64 = (c as u32 - '0' as u32) as u64;
        proof {
            assert forall|j: int| 0 <= j < more.len() implies is_digit(#[trigger] more[j]) by {
                if j < i - from {
                    assert(u.take(i - from)[j] == more[j]);
                }
            }
            if digits(u) {
                lemma_decimal_prefix(u, i + 1 - from);
            }
        }
        match n.checked_mul(10) {
            None => {
                return None;
            },
            Some(tens) => match tens.checked_add(d) {
                None => {
                    return None;
                },
                Some(next) => {
                    if next > max {
                        return None;
                    }
                    n = next;
                },
            },
        }
        i += 1;
    }
    assert(u.take(u.len() as int) =~= u);
    Some(n)
}

pub open spec fn digit_char(d: nat) -> char {
    ('0' as u32 + d) as u32 as char
}

/// A whole number in decimal.
pub open spec fn decimal_text(n: nat) -> Seq<char>
    decreases n,
{
    if n < 10 {
        seq![digit_char(n)]
    } else {
        decimal_text(n / 10).push(digit_char(n % 10))
    }
}

/// A number said in decimal is read back as the same number.
pub proof fn decimal_text_reads_back(n: nat)
    ensures
        digits(decimal_text(n)),
        decimal_text(n).len() > 0,
        decimal(decimal_text(n)) == n,
    decreases n,
{
    if n < 10 {
        assert(decimal_text(n).drop_last() =~= Seq::<char>::empty());
        assert(decimal(decimal_text(n).drop_last()) == 0);
    } else {
        decimal_text_reads_back(n / 10);
        let t = decimal_text(n);
        assert(t.drop_last() =~= decimal_text(n / 10));
        assert forall|i: int| 0 <= i < t.len() implies is_digit(#[trigger] t[i]) by {
            if i < t.len() - 1 {
                assert(t[i] == decimal_text(n / 10)[i]);
            }
        }
    }
}

/// Say a whole number in decimal.
pub fn say_number(into: &mut String, n: u64)
    ensures
        final(into)@ == old(into)@ + decimal_text(n as nat),
    decreases n,
{
    if n >= 10 {
        say_number(into, n / 10);
    }
    let d: u64 = n % 10;
    let ghost before = into@;
    proof {
        reveal_strlit("0");
        reveal_strlit("1");
        reveal_strlit("2");
        reveal_strlit("3");
        reveal_strlit("4");
        reveal_strlit("5");
        reveal_strlit("6");
        reveal_strlit("7");
        reveal_strlit("8");
        reveal_strlit("9");
    }
    into.append(
        match d {
            0 => "0",
            1 => "1",
            2 => "2",
            3 => "3",
            4 => "4",
            5 => "5",
            6 => "6",
            7 => "7",
            8 => "8",
            _ => "9",
        },
    );
    proof {
        assert(into@ =~= before + seq![digit_char(d as nat)]);
        assert(into@ =~= old(into)@ + decimal_text(n as nat));
    }
}

} // verus!
