//! Text building and parsing on characters.

use vstd::arithmetic::power::{lemma_pow0, pow};
use vstd::prelude::*;

verus! {

/// `String::push`: the character is appended at the end.
pub assume_specification[ String::push ](s: &mut String, c: char)
    ensures
        final(s)@ == old(s)@.push(c),
;

/// The path of `name` inside the directory `dir`. An absolute `name` stands
/// for itself, and a separator is added only where `dir` does not end in one.
pub open spec fn joined_path(dir: Seq<char>, name: Seq<char>) -> Seq<char> {
    if name.len() > 0 && name[0] == '/' {
        name
    } else if dir.len() == 0 || dir.last() == '/' {
        dir + name
    } else {
        dir + seq!['/'] + name
    }
}

/// The character for the digit `d`, in bases up to sixteen.
pub open spec fn digit_char(d: int) -> char {
    if d < 10 {
        ('0' as int + d) as char
    } else {
        ('a' as int + d - 10) as char
    }
}

/// The value of a digit character in the given base.
pub open spec fn digit_value(c: char, base: int) -> Option<int> {
    let v = if '0' <= c && c <= '9' {
        c as int - '0' as int
    } else if 'a' <= c && c <= 'z' {
        c as int - 'a' as int + 10
    } else if 'A' <= c && c <= 'Z' {
        c as int - 'A' as int + 10
    } else {
        base
    };
    if v < base {
        Some(v)
    } else {
        None
    }
}

/// The decimal digits of `n`, without leading zeros.
pub open spec fn decimal(n: int) -> Seq<char>
    decreases n,
{
    if n < 10 {
        seq![digit_char(n)]
    } else {
        decimal(n / 10).push(digit_char(n % 10))
    }
}

/// The lowest `width` digits of `n` in the given base.
pub open spec fn fixed_digits(n: int, base: int, width: nat) -> Seq<char>
    decreases width,
{
    if width == 0 {
        Seq::empty()
    } else {
        fixed_digits(n / base, base, (width - 1) as nat).push(digit_char(n % base))
    }
}

/// The decimal digits of `n`, with leading zeros up to four digits.
pub open spec fn decimal4(n: int) -> Seq<char> {
    if n < 10000 {
        fixed_digits(n, 10, 4)
    } else {
        decimal(n)
    }
}

/// The sixteen hexadecimal digits of a 64-bit number.
pub open spec fn hex16(n: int) -> Seq<char> {
    fixed_digits(n, 16, 16)
}

/// The number that a string of digits stands for; nothing if one of the
/// characters is no digit of the base.
pub open spec fn digits_value(s: Seq<char>, base: int) -> Option<int>
    decreases s.len(),
{
    if s.len() == 0 {
        Some(0)
    } else {
        match (digits_value(s.drop_last(), base), digit_value(s.last(), base)) {
            (Some(high), Some(low)) => Some(high * base + low),
            _ => None,
        }
    }
}

/// The number in a text: at least one digit, a plus sign allowed in front, and
/// no more than `max`.
pub open spec fn parsed_number(s: Seq<char>, base: int, max: int) -> Option<int> {
    let digits = if s.len() > 0 && s[0] == '+' {
        s.skip(1)
    } else {
        s
    };
    if digits.len() == 0 {
        None
    } else {
        match digits_value(digits, base) {
            Some(n) => if n <= max {
                Some(n)
            } else {
                None
            },
            None => None,
        }
    }
}

fn make_digit(d: u64) -> (c: char)
    requires
        d < 16,
    ensures
        c == digit_char(d as int),
{
    if d < 10 {
        (48u8 + d as u8) as char
    } else {
        (97u8 + (d as u8 - 10)) as char
    }
}

/// Appends the decimal digits of `n`.
pub fn push_decimal(text: &mut String, n: u64)
    ensures
        final(text)@ == old(text)@ + decimal(n as int),
    decreases n,
{
    if n >= 10 {
        push_decimal(text, n / 10);
    }
    text.push(make_digit(n % 10));
    assert(text@ =~= old(text)@ + decimal(n as int));
}

/// Appends the lowest `width` digits of `n` in the given base.
pub fn push_fixed_digits(text: &mut String, n: u64, base: u64, width: usize)
    requires
        2 <= base <= 16,
    ensures
        final(text)@ == old(text)@ + fixed_digits(n as int, base as int, width as nat),
    decreases width,
{
    if width > 0 {
        push_fixed_digits(text, n / base, base, width - 1);
        proof {
            assert(n as int % base as int == (n % base) as int);
            vstd::arithmetic::div_mod::lemma_mod_bound(n as int, base as int);
        }
        text.push(make_digit(n % base));
    }
    assert(text@ =~= old(text)@ + fixed_digits(n as int, base as int, width as nat));
}

/// Appends `n` in decimal, with leading zeros up to four digits.
pub fn push_decimal4(text: &mut String, n: u64)
    ensures
        final(text)@ == old(text)@ + decimal4(n as int),
{
    if n < 10000 {
        push_fixed_digits(text, n, 10, 4);
    } else {
        push_decimal(text, n);
    }
}

/// Appends the sixteen hexadecimal digits of `n`.
pub fn push_hex16(text: &mut String, n: u64)
    ensures
        final(text)@ == old(text)@ + hex16(n as int),
{
    push_fixed_digits(text, n, 16, 16);
}

fn read_digit(c: char, base: u64) -> (d: Option<u64>)
    requires
        2 <= base <= 16,
    ensures
        match d {
            Some(v) => digit_value(c, base as int) == Some(v as int),
            None => digit_value(c, base as int) is None,
        },
{
    let v: u64 = if '0' <= c && c <= '9' {
        c as u64 - '0' as u64
    } else if 'a' <= c && c <= 'z' {
        c as u64 - 'a' as u64 + 10
    } else if 'A' <= c && c <= 'Z' {
        c as u64 - 'A' as u64 + 10
    } else {
        base
    };
    if v < base {
        Some(v)
    } else {
        None
    }
}

/// The characters of a text.
pub fn chars_of(text: &str) -> (chars: Vec<char>)
    ensures
        chars@ == text@,
{
    let n: usize = text.unicode_len();
    let mut chars: Vec<char> = Vec::new();
    let mut i: usize = 0;
    while i < n
        invariant
            n == text@.len(),
            i <= n,
            chars@ == text@.take(i as int),
        decreases n - i,
    {
        chars.push(text.get_char(i));
        i = i + 1;
        assert(chars@ =~= text@.take(i as int));
    }
    assert(text@.take(n as int) =~= text@);
    chars
}

/// Reads the number that stands in `chars` from `from` up to `to`.
pub fn parse_number(chars: &Vec<char>, from: usize, to: usize, base: u64, max: u64) -> (n: Option<
    u64,
>)
    requires
        from <= to <= chars@.len(),
        2 <= base <= 16,
    ensures
        match n {
            Some(v) => parsed_number(
                chars@.subrange(from as int, to as int),
                base as int,
                max as int,
            ) == Some(v as int),
            None => parsed_number(
                chars@.subrange(from as int, to as int),
                base as int,
                max as int,
            ) is None,
        },
{
    let ghost whole = chars@.subrange(from as int, to as int);
    let start: usize = if from < to && chars[from] == '+' {
        from + 1
    } else {
        from
    };
    let ghost digits = chars@.subrange(start as int, to as int);
    assert(digits =~= if whole.len() > 0 && whole[0] == '+' {
        whole.skip(1)
    } else {
        whole
    });
    if start == to {
        return None;
    }
    let mut value: u64 = 0;
    let mut i: usize = start;
    while i < to
        invariant
            start <= i <= to <= chars@.len(),
            2 <= base <= 16,
            value <= max,
            digits == chars@.subrange(start as int, to as int),
            digits_value(digits.take(i - start), base as int) == Some(value as int),
            from <= start,
            whole == chars@.subrange(from as int, to as int),
            digits == (if whole.len() > 0 && whole[0] == '+' {
                whole.skip(1)
            } else {
                whole
            }),
        decreases to - i,
    {
        let ghost upto = digits.take(i + 1 - start);
        proof {
            assert(upto.drop_last() =~= digits.take(i - start));
            assert(upto.last() == chars@[i as int]);
        }
        match read_digit(chars[i], base) {
            Some(d) => {
                proof {
                    if value > (u64::MAX - d) / base as int {
                        assert(value * base + d > u64::MAX) by (nonlinear_arith)
                            requires
                                value > (u64::MAX - d) / base as int,
                                base >= 2,
                                d <= u64::MAX,
                        ;
                        lemma_prefix_value(digits, i + 1 - start, base as int);
                    } else {
                        assert(value * base + d <= u64::MAX) by (nonlinear_arith)
                            requires
                                value <= (u64::MAX - d) / base as int,
                                base >= 2,
                                d <= u64::MAX,
                        ;
                    }
                }
                if value > (u64::MAX - d) / base {
                    return None;
                }
                let next: u64 = value * base + d;
                if next > max {
                    proof {
                        lemma_prefix_value(digits, i + 1 - start, base as int);
                    }
                    return None;
                }
                value = next;
            },
            None => {
                proof {
                    lemma_prefix_value(digits, i + 1 - start, base as int);
                }
                return None;
            },
        }
        i = i + 1;
    }
    assert(digits.take(to - start) =~= digits);
    Some(value)
}

/// A prefix that is no number makes the whole no number, and the whole is at
/// least as large as a prefix.
proof fn lemma_prefix_value(s: Seq<char>, k: int, base: int)
    requires
        0 <= k <= s.len(),
        base >= 2,
    ensures
        digits_value(s, base) is Some ==> digits_value(s.take(k), base) is Some,
        digits_value(s, base) is Some ==> digits_value(s, base)->Some_0 >= digits_value(
            s.take(k),
            base,
        )->Some_0 >= 0,
    decreases s.len(),
{
    if k == s.len() {
        assert(s.take(k) =~= s);
        lemma_value_nonneg(s, base);
    } else {
        let rest = s.drop_last();
        assert(rest.take(k) =~= s.take(k));
        lemma_prefix_value(rest, k, base);
        lemma_value_nonneg(s, base);
        if digits_value(s, base) is Some {
            let high = digits_value(rest, base)->Some_0;
            assert(high * base >= high) by (nonlinear_arith)
                requires
                    high >= 0,
                    base >= 2,
            ;
        }
    }
}

proof fn lemma_value_nonneg(s: Seq<char>, base: int)
    requires
        base >= 2,
    ensures
        digits_value(s, base) is Some ==> digits_value(s, base)->Some_0 >= 0,
    decreases s.len(),
{
    if s.len() > 0 {
        lemma_value_nonneg(s.drop_last(), base);
        if digits_value(s, base) is Some {
            let high = digits_value(s.drop_last(), base)->Some_0;
            assert(high * base >= 0) by (nonlinear_arith)
                requires
                    high >= 0,
                    base >= 2,
            ;
        }
    }
}

/// Reading back a number of fixed width gives the number.
pub proof fn lemma_fixed_digits_value(n: int, base: int, width: nat)
    requires
        2 <= base <= 16,
        0 <= n,
    ensures
        fixed_digits(n, base, width).len() == width,
        digits_value(fixed_digits(n, base, width), base) == Some(
            n % vstd::arithmetic::power::pow(base, width),
        ),
    decreases width,
{
    use_pow(base, width);
    if width == 0 {
        assert(n % 1 == 0);
    } else {
        let w = (width - 1) as nat;
        lemma_fixed_digits_value(n / base, base, w);
        let s = fixed_digits(n, base, width);
        assert(s.drop_last() =~= fixed_digits(n / base, base, w));
        vstd::arithmetic::div_mod::lemma_mod_bound(n, base);
        assert(digit_value(digit_char(n % base), base) == Some(n % base));
        let p = vstd::arithmetic::power::pow(base, w);
        vstd::arithmetic::div_mod::lemma_mod_breakdown(n, base, p);
        assert(((n / base) % p) * base == base * ((n / base) % p)) by (nonlinear_arith);
    }
}

proof fn use_pow(base: int, width: nat)
    requires
        base >= 2,
    ensures
        vstd::arithmetic::power::pow(base, 0) == 1,
        width > 0 ==> vstd::arithmetic::power::pow(base, width) == base
            * vstd::arithmetic::power::pow(base, (width - 1) as nat),
        vstd::arithmetic::power::pow(base, width) > 0,
        width > 0 ==> vstd::arithmetic::power::pow(base, (width - 1) as nat) > 0,
{
    vstd::arithmetic::power::lemma_pow0(base);
    reveal(vstd::arithmetic::power::pow);
    vstd::arithmetic::power::lemma_pow_positive(base, width);
    if width > 0 {
        vstd::arithmetic::power::lemma_pow_positive(base, (width - 1) as nat);
    }
}



/// The characters from `from` up to `to`, as a text.
pub fn text_between(chars: &Vec<char>, from: usize, to: usize) -> (text: String)
    requires
        from <= to <= chars@.len(),
    ensures
        text@ == chars@.subrange(from as int, to as int),
{
    let mut text = String::new();
    let mut i: usize = from;
    while i < to
        invariant
            from <= i <= to <= chars@.len(),
            text@ == chars@.subrange(from as int, i as int),
        decreases to - i,
    {
        text.push(chars[i]);
        i = i + 1;
        assert(text@ =~= chars@.subrange(from as int, i as int));
    }
    text
}

/// Whether `part` stands in `chars` from `at` on.
fn stands_at(chars: &Vec<char>, at: usize, part: &Vec<char>) -> (yes: bool)
    requires
        at + part@.len() <= chars@.len(),
    ensures
        yes == (chars@.subrange(at as int, at + part@.len()) == part@),
{
    let ghost there = chars@.subrange(at as int, at + part@.len());
    let mut i: usize = 0;
    while i < part.len()
        invariant
            i <= part@.len(),
            at + part@.len() <= chars@.len(),
            there == chars@.subrange(at as int, at + part@.len()),
            forall|j: int| 0 <= j < i ==> there[j] == part@[j],
        decreases part@.len() - i,
    {
        let _len: usize = chars.len();
        if chars[at + i] != part[i] {
            assert(there[i as int] != part@[i as int]);
            return false;
        }
        i = i + 1;
    }
    assert(there =~= part@);
    true
}

/// What is left of a text behind a prefix, if it starts with it.
pub open spec fn behind_prefix(text: Seq<char>, prefix: Seq<char>) -> Option<Seq<char>> {
    if prefix.is_prefix_of(text) {
        Some(text.skip(prefix.len() as int))
    } else {
        None
    }
}

/// What is left of a text before a suffix, if it ends with it.
pub open spec fn before_suffix(text: Seq<char>, suffix: Seq<char>) -> Option<Seq<char>> {
    if suffix.is_suffix_of(text) {
        Some(text.take(text.len() - suffix.len()))
    } else {
        None
    }
}

/// Whether an optional text is what an optional sequence says.
pub open spec fn same_option(text: Option<String>, says: Option<Seq<char>>) -> bool {
    match (text, says) {
        (Some(text), Some(says)) => text@ == says,
        (None, None) => true,
        _ => false,
    }
}

/// What is left of a text behind a prefix, if it starts with it.
pub fn strip_prefix(text: &str, prefix: &str) -> (rest: Option<String>)
    ensures
        same_option(rest, behind_prefix(text@, prefix@)),
{
    let chars: Vec<char> = chars_of(text);
    let part: Vec<char> = chars_of(prefix);
    if part.len() > chars.len() {
        return None;
    }
    if stands_at(&chars, 0, &part) {
        let rest: String = text_between(&chars, part.len(), chars.len());
        assert(rest@ =~= text@.skip(prefix@.len() as int));
        Some(rest)
    } else {
        None
    }
}

/// What is left of a text before a suffix, if it ends with it.
pub fn strip_suffix(text: &str, suffix: &str) -> (rest: Option<String>)
    ensures
        same_option(rest, before_suffix(text@, suffix@)),
{
    let chars: Vec<char> = chars_of(text);
    let part: Vec<char> = chars_of(suffix);
    if part.len() > chars.len() {
        return None;
    }
    let at: usize = chars.len() - part.len();
    if stands_at(&chars, at, &part) {
        let rest: String = text_between(&chars, 0, at);
        assert(rest@ =~= text@.take(text@.len() - suffix@.len()));
        Some(rest)
    } else {
        None
    }
}

/// How many characters precede the first `c` of a text.
pub open spec fn before_char(s: Seq<char>, c: char) -> nat
    decreases s.len(),
{
    if s.len() == 0 || s[0] == c {
        0
    } else {
        1 + before_char(s.skip(1), c)
    }
}

/// No character before that place is `c`, and the one there is, if any.
pub proof fn lemma_before_char(s: Seq<char>, c: char)
    ensures
        before_char(s, c) <= s.len(),
        forall|i: int| 0 <= i < before_char(s, c) ==> #[trigger] s[i] != c,
        before_char(s, c) < s.len() ==> s[before_char(s, c) as int] == c,
    decreases s.len(),
{
    if s.len() > 0 && s[0] != c {
        let rest = s.skip(1);
        lemma_before_char(rest, c);
        assert forall|i: int| 0 <= i < before_char(s, c) implies #[trigger] s[i] != c by {
            if i > 0 {
                assert(rest[i - 1] == s[i]);
            }
        }
    }
}

/// There is one such place.
pub proof fn lemma_is_before_char(s: Seq<char>, c: char, n: int)
    requires
        0 <= n <= s.len(),
        forall|i: int| 0 <= i < n ==> #[trigger] s[i] != c,
        n < s.len() ==> s[n] == c,
    ensures
        before_char(s, c) == n,
{
    lemma_before_char(s, c);
    let m = before_char(s, c) as int;
    if m < n {
        assert(s[m] != c);
    }
    if n < m {
        assert(s[n] != c);
    }
}

/// How many characters precede the first `c`.
pub fn find_char(chars: &Vec<char>, c: char) -> (n: usize)
    ensures
        n == before_char(chars@, c),
        n <= chars@.len(),
{
    let mut n: usize = 0;
    while n < chars.len() && chars[n] != c
        invariant
            n <= chars@.len(),
            forall|i: int| 0 <= i < n ==> #[trigger] chars@[i] != c,
        decreases chars@.len() - n,
    {
        n = n + 1;
    }
    proof {
        lemma_is_before_char(chars@, c, n as int);
    }
    n
}

/// A text without the `c` at its end.
pub open spec fn trimmed_end(s: Seq<char>, c: char) -> Seq<char>
    decreases s.len(),
{
    if s.len() > 0 && s.last() == c {
        trimmed_end(s.drop_last(), c)
    } else {
        s
    }
}

/// A text without the `c` at its end.
pub fn trim_end_char(text: &str, c: char) -> (trimmed: String)
    ensures
        trimmed@ == trimmed_end(text@, c),
{
    let chars: Vec<char> = chars_of(text);
    let mut n: usize = chars.len();
    assert(chars@.take(n as int) =~= text@);
    while n > 0 && chars[n - 1] == c
        invariant
            n <= chars@.len(),
            trimmed_end(text@, c) == trimmed_end(chars@.take(n as int), c),
        decreases n,
    {
        assert(chars@.take(n as int).drop_last() =~= chars@.take(n - 1));
        n = n - 1;
    }
    let trimmed: String = text_between(&chars, 0, n);
    assert(trimmed@ =~= chars@.take(n as int));
    trimmed
}

/// Reading back the decimal digits of a number gives the number.
pub proof fn lemma_decimal_value(n: int)
    requires
        n >= 0,
    ensures
        decimal(n).len() > 0,
        digits_value(decimal(n), 10) == Some(n),
    decreases n,
{
    if n < 10 {
        let s = decimal(n);
        assert(s.drop_last() =~= Seq::empty());
        assert(digits_value(s.drop_last(), 10) == Some(0int));
        assert(digit_value(digit_char(n), 10) == Some(n));
    } else {
        lemma_decimal_value(n / 10);
        assert(decimal(n).drop_last() =~= decimal(n / 10));
        assert(digit_value(digit_char(n % 10), 10) == Some(n % 10));
    }
}

/// The characters of a number are digits.
pub proof fn lemma_value_digits(s: Seq<char>, base: int)
    requires
        2 <= base <= 16,
        digits_value(s, base) is Some,
    ensures
        forall|i: int| 0 <= i < s.len() ==> digit_value(#[trigger] s[i], base) is Some,
    decreases s.len(),
{
    if s.len() > 0 {
        lemma_value_digits(s.drop_last(), base);
        assert forall|i: int| 0 <= i < s.len() implies digit_value(
            #[trigger] s[i],
            base,
        ) is Some by {
            if i < s.len() - 1 {
                assert(s.drop_last()[i] == s[i]);
            }
        }
    }
}

/// Reading back a number of four digits or more gives the number.
pub proof fn lemma_decimal4_value(n: int)
    requires
        n >= 0,
    ensures
        decimal4(n).len() > 0,
        digits_value(decimal4(n), 10) == Some(n),
{
    lemma_fixed_digits_value(n, 10, 4);
    lemma_decimal_value(n);
    if n < 10000 {
        assert(vstd::arithmetic::power::pow(10, 4) == 10000) by {
            reveal_with_fuel(vstd::arithmetic::power::pow, 5);
        }
        assert(n % 10000 == n);
    }
}

/// Reading back the sixteen hexadecimal digits of a number gives the number.
pub proof fn lemma_hex16_value(n: int)
    requires
        0 <= n <= u64::MAX,
    ensures
        hex16(n).len() == 16,
        digits_value(hex16(n), 16) == Some(n),
{
    lemma_fixed_digits_value(n, 16, 16);
    assert(vstd::arithmetic::power::pow(16, 16) == 0x1_0000_0000_0000_0000) by {
        reveal_with_fuel(vstd::arithmetic::power::pow, 17);
    }
    assert(n % 0x1_0000_0000_0000_0000 == n);
}

/// The digits up to nine are the characters from '0', and those from ten are the
/// letters from 'a'. Capital letters are read as the small ones are.
pub proof fn law_digits(d: int)
    requires
        0 <= d < 16,
    ensures
        digit_char(d) as int == if d < 10 {
            48 + d
        } else {
            87 + d
        },
        digit_value(digit_char(d), 16) == Some(d),
        d < 10 ==> digit_value(digit_char(d), 10) == Some(d),
        d >= 10 ==> digit_value(digit_char(d), 10) is None,
        d >= 10 ==> digit_value((55 + d) as char, 16) == Some(d),
{
}

/// The number that digits stand for: where digits are followed by more digits, the
/// first ones count as often as the base to the power of how many follow.
pub proof fn law_digits_are_positional(high: Seq<char>, low: Seq<char>, base: int)
    requires
        base >= 2,
    ensures
        digits_value(high + low, base) == (match (
            digits_value(high, base),
            digits_value(low, base),
        ) {
            (Some(h), Some(l)) => Some(h * pow(base, low.len()) + l),
            _ => None,
        }),
        digits_value(Seq::empty(), base) == Some(0int),
        forall|c: char| #[trigger] digits_value(seq![c], base) == digit_value(c, base),
    decreases low.len(),
{
    lemma_pow0(base);
    assert forall|c: char| #[trigger] digits_value(seq![c], base) == digit_value(c, base) by {
        let one = seq![c];
        assert(one.drop_last() =~= Seq::empty());
        assert(digits_value(one.drop_last(), base) == Some(0int));
        assert(one.last() == c);
        assert(0 * base == 0);
    }
    if low.len() == 0 {
        assert(high + low =~= high);
    } else {
        let rest = low.drop_last();
        law_digits_are_positional(high, rest, base);
        assert((high + low).drop_last() =~= high + rest);
        assert((high + low).last() == low.last());
        reveal(pow);
        if digits_value(high, base) is Some && digits_value(low, base) is Some {
            let h = digits_value(high, base)->Some_0;
            let l = digits_value(rest, base)->Some_0;
            let p = pow(base, rest.len());
            assert((h * p + l) * base == h * (base * p) + l * base) by (nonlinear_arith);
        }
    }
}

/// A number in decimal reads back as itself, with a plus sign too, where it is not
/// above the limit, and is no number where it is. It is written without leading
/// zeros, in the digits from '0' to '9'.
pub proof fn law_decimal_reads_back(n: int, max: int)
    requires
        n >= 0,
    ensures
        parsed_number(decimal(n), 10, max) == (if n <= max {
            Some(n)
        } else {
            None
        }),
        parsed_number(seq!['+'] + decimal(n), 10, max) == parsed_number(decimal(n), 10, max),
        forall|i: int| 0 <= i < decimal(n).len() ==> '0' <= #[trigger] decimal(n)[i] <= '9',
        n > 0 ==> decimal(n)[0] != '0',
        decimal(n).len() > 0,
{
    lemma_decimal_value(n);
    lemma_decimal_digits(n);
    assert((seq!['+'] + decimal(n)).skip(1) =~= decimal(n));
}

proof fn lemma_decimal_digits(n: int)
    requires
        n >= 0,
    ensures
        forall|i: int| 0 <= i < decimal(n).len() ==> '0' <= #[trigger] decimal(n)[i] <= '9',
        decimal(n).len() > 0,
        n > 0 ==> decimal(n)[0] != '0',
    decreases n,
{
    if n >= 10 {
        lemma_decimal_digits(n / 10);
        let before = decimal(n / 10);
        assert forall|i: int| 0 <= i < decimal(n).len() implies '0' <= #[trigger] decimal(n)[i]
            <= '9' by {
            if i < before.len() {
                assert(decimal(n)[i] == before[i]);
            }
        }
        assert(decimal(n)[0] == before[0]);
    }
}

/// Trimming takes off every `c` at the end, and nothing else.
pub proof fn law_trimming(s: Seq<char>, c: char)
    ensures
        trimmed_end(s, c).is_prefix_of(s),
        trimmed_end(s, c).len() > 0 ==> trimmed_end(s, c).last() != c,
        forall|i: int| trimmed_end(s, c).len() <= i < s.len() ==> #[trigger] s[i] == c,
    decreases s.len(),
{
    if s.len() > 0 && s.last() == c {
        law_trimming(s.drop_last(), c);
        let t = trimmed_end(s, c);
        assert(t =~= s.drop_last().subrange(0, t.len() as int));
        assert(t =~= s.subrange(0, t.len() as int));
        assert forall|i: int| t.len() <= i < s.len() implies #[trigger] s[i] == c by {
            if i < s.len() - 1 {
                assert(s.drop_last()[i] == c);
            }
        }
    } else {
        assert(s =~= s.subrange(0, s.len() as int));
    }
}

/// A relative name below a directory lies behind the directory and a slash, of
/// which there is one; an absolute name is its own path.
pub proof fn law_joined_path(dir: Seq<char>, name: Seq<char>)
    ensures
        name.len() > 0 && name[0] == '/' ==> joined_path(dir, name) == name,
        !(name.len() > 0 && name[0] == '/') && dir.len() > 0 && dir.last() != '/' ==> joined_path(
            dir,
            name,
        ) == joined_path(dir.push('/'), name),
        !(name.len() > 0 && name[0] == '/') ==> joined_path(dir.push('/'), name) == dir.push('/')
            + name,
        !(name.len() > 0 && name[0] == '/') ==> joined_path(Seq::empty(), name) == name,
{
    assert(dir + seq!['/'] =~= dir.push('/'));
    assert(Seq::<char>::empty() + name =~= name);
}

/// What a number may be written with: digits of the base alone, at least one, and an optional
/// plus sign in front. It is no number if it is above the limit.
pub proof fn law_numbers_are_digits(digits: Seq<char>, base: int, max: int)
    requires
        2 <= base <= 16,
        digits.len() > 0 ==> digits[0] != '+',
    ensures
        parsed_number(digits, base, max) is Some <==> digits.len() > 0 && (forall|i: int|
            0 <= i < digits.len() ==> digit_value(#[trigger] digits[i], base) is Some) && digits_value(
            digits,
            base,
        )->Some_0 <= max,
        parsed_number(digits, base, max) matches Some(n) ==> digits_value(digits, base) == Some(n) && 0
            <= n <= max,
        parsed_number(seq!['+'] + digits, base, max) == parsed_number(digits, base, max),
{
    assert((seq!['+'] + digits).skip(1) =~= digits);
    lemma_all_digits(digits, base);
    lemma_value_nonneg(digits, base);
    if digits_value(digits, base) is Some {
        lemma_value_digits(digits, base);
    }
}

proof fn lemma_all_digits(s: Seq<char>, base: int)
    ensures
        (forall|i: int| 0 <= i < s.len() ==> digit_value(#[trigger] s[i], base) is Some)
            ==> digits_value(s, base) is Some,
    decreases s.len(),
{
    if s.len() > 0 {
        let rest = s.drop_last();
        lemma_all_digits(rest, base);
        if forall|i: int| 0 <= i < s.len() ==> digit_value(#[trigger] s[i], base) is Some {
            assert forall|i: int| 0 <= i < rest.len() implies digit_value(
                #[trigger] rest[i],
                base,
            ) is Some by {
                assert(rest[i] == s[i]);
            }
            assert(digit_value(s[s.len() - 1], base) is Some);
        }
    }
}

/// The digits of base 10 are '0' to '9', and those of base 16 also the letters up to 'f', small
/// or capital; no other character is one.
pub proof fn law_digit_characters(c: char)
    ensures
        digit_value(c, 10) is Some <==> 48 <= c as int <= 57,
        digit_value(c, 16) is Some <==> 48 <= c as int <= 57 || 65 <= c as int <= 70 || 97 <= c as int
            <= 102,
{
}

} // verus!
