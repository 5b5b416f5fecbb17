//! Decimal numerals: writing numbers as text and reading them back.
use vstd::prelude::*;

verus! {

/// The digit for a value below ten.
pub open spec fn digit(value: nat) -> char {
    (48 + value) as char
}

/// `c` is one of the ten ASCII digits.
pub open spec fn is_digit(c: char) -> bool {
    '0' <= c <= '9'
}

/// The decimal numeral of `n`, without leading zeros.
pub open spec fn decimal(n: nat) -> Seq<char>
    decreases n,
{
    if n < 10 {
        seq![digit(n)]
    } else {
        decimal(n / 10).push(digit(n % 10))
    }
}

/// The number that a sequence of digits stands for; none if something else is among them.
pub open spec fn digits_value(s: Seq<char>) -> Option<nat>
    decreases s.len(),
{
    if s.len() == 0 {
        Some(0)
    } else {
        match digits_value(s.drop_last()) {
            Some(value) => if is_digit(s.last()) {
                Some(value * 10 + (s.last() as u32 - 48) as nat)
            } else {
                None
            },
            None => None,
        }
    }
}

/// The number that `s` stands for: at least one digit, with or without a plus sign in front,
/// and a value of at most `max`.
pub open spec fn number(s: Seq<char>, max: nat) -> Option<nat> {
    let digits = if s.len() > 0 && s[0] == '+' {
        s.drop_first()
    } else {
        s
    };
    match digits_value(digits) {
        Some(value) => if digits.len() > 0 && value <= max {
            Some(value)
        } else {
            None
        },
        None => None,
    }
}

/// Appends the decimal numeral of `n`.
pub fn append_decimal(text: &mut String, n: u64)
    ensures
        final(text)@ == old(text)@ + decimal(n as nat),
    decreases n,
{
    let ghost start = text@;
    if n >= 10 {
        append_decimal(text, n / 10);
    }
    let c: char = (48u8 + (n % 10) as u8) as char;
    assert(c == digit(n as nat % 10));
    text.push(c);
    if n >= 10 {
        assert((start + decimal(n as nat / 10)).push(c) =~= start + decimal(n as nat));
    } else {
        assert(start.push(c) =~= start + decimal(n as nat));
    }
}

/// The decimal numeral of `n`.
pub fn to_decimal(n: u64) -> (result: String)
    ensures
        result@ == decimal(n as nat),
{
    let mut result = String::new();
    append_decimal(&mut result, n);
    assert(result@ =~= decimal(n as nat));
    result
}

/// More digits behind a number never make it smaller, nor make a number of what is none.
proof fn lemma_longer_is_larger(s: Seq<char>, at: int)
    requires
        0 <= at <= s.len(),
    ensures
        digits_value(s.take(at)) is None ==> digits_value(s) is None,
        digits_value(s.take(at)) matches Some(low) ==> (digits_value(s) matches Some(high) ==> low
            <= high),
    decreases s.len(),
{
    if at == s.len() {
        assert(s.take(at) =~= s);
    } else {
        assert(s.drop_last().take(at) =~= s.take(at));
        lemma_longer_is_larger(s.drop_last(), at);
    }
}

/// The number that `s` stands for, where that is a number of at most `max`.
pub fn parse_number(s: &[char], max: u64) -> (result: Option<u64>)
    ensures
        match result {
            Some(value) => number(s@, max as nat) == Some(value as nat),
            None => number(s@, max as nat) is None,
        },
{
    let from: usize = if s.len() > 0 && s[0] == '+' {
        1
    } else {
        0
    };
    let ghost digits = if s@.len() > 0 && s@[0] == '+' {
        s@.drop_first()
    } else {
        s@
    };
    assert(digits =~= s@.skip(from as int));
    if s.len() == from {
        return None;
    }
    let mut value: u64 = 0;
    for i in from..s.len()
        invariant
            0 <= from <= 1,
            from < s@.len(),
            digits == s@.skip(from as int),
            value <= max,
            digits_value(digits.take(i - from)) == Some(value as nat),
            number(s@, max as nat) == (match digits_value(digits) {
                Some(total) => if digits.len() > 0 && total <= max {
                    Some(total)
                } else {
                    None
                },
                None => None,
            }),
    {
        let c: char = s[i];
        let ghost at = i - from + 1;
        assert(digits.take(at).drop_last() =~= digits.take(i - from));
        assert(digits.take(at).last() == c);
        proof {
            lemma_longer_is_larger(digits, at);
        }
        if c < '0' || c > '9' {
            return None;
        }
        let next: u128 = (value as u128) * 10 + ((c as u32 - 48) as u128);
        if next > max as u128 {
            return None;
        }
        value = next as u64;
    }
    assert(digits.take(s@.len() - from) =~= digits);
    Some(value)
}

/// A numeral is made of digits, and there is at least one.
pub proof fn lemma_decimal_is_digits(n: nat)
    ensures
        decimal(n).len() > 0,
        forall|i: int| 0 <= i < decimal(n).len() ==> is_digit(#[trigger] decimal(n)[i]),
    decreases n,
{
    if n >= 10 {
        lemma_decimal_is_digits(n / 10);
    }
}

/// A numeral has the value of the number that it was written for.
proof fn lemma_digits_value(n: nat)
    ensures
        digits_value(decimal(n)) == Some(n),
    decreases n,
{
    reveal_with_fuel(digits_value, 2);
    if n >= 10 {
        lemma_digits_value(n / 10);
        assert(decimal(n).drop_last() =~= decimal(n / 10));
    } else {
        assert(decimal(n).drop_last() =~= Seq::<char>::empty());
    }
}

/// A number written in decimal reads back as itself wherever it is in range.
pub proof fn law_decimal_reads_back(n: nat, max: nat)
    requires
        n <= max,
    ensures
        number(decimal(n), max) == Some(n),
{
    lemma_decimal_is_digits(n);
    lemma_digits_value(n);
    assert(is_digit(decimal(n)[0]));
}

/// Different numbers have different numerals.
pub proof fn law_decimal_is_injective(a: nat, b: nat)
    requires
        decimal(a) == decimal(b),
    ensures
        a == b,
{
    lemma_digits_value(a);
    lemma_digits_value(b);
}

/// A numeral is positional: below ten it is one digit, and a further digit makes ten times as
/// much and that digit.
pub proof fn law_numerals_are_positional(n: nat, last: nat)
    requires
        last < 10,
    ensures
        decimal(last).len() == 1,
        decimal(last)[0] as u32 == 48 + last,
        n > 0 ==> decimal(10 * n + last) == decimal(n) + decimal(last),
{
    if n > 0 {
        assert((10 * n + last) / 10 == n && (10 * n + last) % 10 == last);
        assert(decimal(10 * n + last) =~= decimal(n) + decimal(last));
    }
}

proof fn lemma_digits_only(s: Seq<char>)
    ensures
        digits_value(s) is Some <==> forall|i: int|
            0 <= i < s.len() ==> '0' <= #[trigger] s[i] <= '9',
    decreases s.len(),
{
    if s.len() > 0 {
        let shorter = s.drop_last();
        let last = s[s.len() - 1];
        lemma_digits_only(shorter);
        if digits_value(s) is Some {
            assert forall|i: int| 0 <= i < s.len() implies '0' <= #[trigger] s[i] <= '9' by {
                if i < shorter.len() {
                    assert(shorter[i] == s[i]);
                } else {
                    assert(is_digit(last));
                }
            }
        }
        if forall|i: int| 0 <= i < s.len() ==> '0' <= #[trigger] s[i] <= '9' {
            assert forall|i: int| 0 <= i < shorter.len() implies '0' <= #[trigger] shorter[i] <= '9' by {
                assert(shorter[i] == s[i]);
            }
            assert('0' <= last <= '9');
        }
    }
}

/// A text without a sign stands for a number exactly where it is made of digits, has at least one
/// of them, and is not too large.
pub proof fn law_numbers_are_made_of_digits(s: Seq<char>, max: nat)
    requires
        s.len() > 0 ==> s[0] != '+',
    ensures
        number(s, max) is Some ==> s.len() > 0,
        number(s, max) is Some ==> forall|i: int|
            0 <= i < s.len() ==> '0' <= #[trigger] s[i] <= '9',
        number(s, max) matches Some(value) ==> value <= max,
        number(seq!['+'] + s, max) == number(s, max),
{
    lemma_digits_only(s);
    assert((seq!['+'] + s).drop_first() =~= s);
}

/// A number is read digit by digit: a further digit makes ten times as much and that digit, and
/// none where this is too large.
pub proof fn law_numbers_are_read_digit_by_digit(s: Seq<char>, value: nat, c: char, max: nat)
    requires
        number(s, value) == Some(value),
        48 <= c as u32 <= 57,
    ensures
        number(s.push(c), max) == if value * 10 + (c as u32 - 48) <= max {
            Some((value * 10 + (c as u32 - 48)) as nat)
        } else {
            None
        },
        number(seq![c], max) == if c as u32 - 48 <= max {
            Some((c as u32 - 48) as nat)
        } else {
            None
        },
{
    reveal_with_fuel(digits_value, 2);
    assert(seq![c].drop_last() =~= Seq::<char>::empty());
    assert(s.len() > 0);
    if s[0] == '+' {
        assert(s.push(c).drop_first() =~= s.drop_first().push(c));
        assert(s.drop_first().push(c).drop_last() =~= s.drop_first());
    } else {
        assert(s.push(c).drop_last() =~= s);
    }
}

} // verus!
