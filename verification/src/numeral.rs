//! Decimal numerals: what a run of digit characters is worth, which digit
//! sequence a number writes as, and the executable rendering of numbers
//! used when tokens are printed.

use vstd::prelude::*;

verus! {

/// Decimal digits are the only characters that may form a number literal.
pub open spec fn is_digit_char(c: char) -> bool {
    '0' as u32 <= c as u32 && c as u32 <= '9' as u32
}

/// The numeric value of a single decimal digit.
pub open spec fn digit_val(c: char) -> int {
    c as u32 - '0' as u32
}

/// The value of a digit sequence read as a decimal numeral.
pub open spec fn num_val(digits: Seq<char>) -> int
    decreases digits.len(),
{
    if digits.len() == 0 {
        0
    } else {
        num_val(digits.drop_last()) * 10 + digit_val(digits.last())
    }
}

/// Whether every character of `digits` is a decimal digit.
pub open spec fn all_digits(digits: Seq<char>) -> bool {
    forall|i: int| 0 <= i < digits.len() ==> is_digit_char(#[trigger] digits[i])
}

/// The character a single digit value writes as.
pub open spec fn digit_char(d: int) -> char {
    if d == 0 {
        '0'
    } else if d == 1 {
        '1'
    } else if d == 2 {
        '2'
    } else if d == 3 {
        '3'
    } else if d == 4 {
        '4'
    } else if d == 5 {
        '5'
    } else if d == 6 {
        '6'
    } else if d == 7 {
        '7'
    } else if d == 8 {
        '8'
    } else {
        '9'
    }
}

/// The decimal digit sequence of `n`, most significant digit first, with
/// no sign and no leading zeros beyond the single digit of zero itself.
pub open spec fn spec_digits_of(n: nat) -> Seq<char>
    decreases n,
{
    if n < 10 {
        seq![digit_char(n as int)]
    } else {
        spec_digits_of(n / 10).push(digit_char((n % 10) as int))
    }
}

/// The decimal text of an integer: a minus sign ahead of the digits of
/// its magnitude when it is negative.
pub open spec fn spec_int_str(n: int) -> Seq<char> {
    if n < 0 {
        seq!['-'] + spec_digits_of((-n) as nat)
    } else {
        spec_digits_of(n as nat)
    }
}

pub proof fn lemma_num_val_nonneg(digits: Seq<char>)
    requires
        all_digits(digits),
    ensures
        num_val(digits) >= 0,
    decreases digits.len(),
{
    if digits.len() > 0 {
        assert(all_digits(digits.drop_last()));
        lemma_num_val_nonneg(digits.drop_last());
    }
}

/// Reading a prefix of a numeral never yields more than the whole numeral.
pub proof fn lemma_num_val_prefix_le(digits: Seq<char>, j: int)
    requires
        all_digits(digits),
        0 <= j <= digits.len(),
    ensures
        num_val(digits.take(j)) <= num_val(digits),
    decreases digits.len() - j,
{
    if j == digits.len() {
        assert(digits.take(j) =~= digits);
    } else {
        assert(digits.take(j + 1).drop_last() =~= digits.take(j));
        assert(digits.take(j + 1).last() == digits[j]);
        assert(all_digits(digits.take(j)));
        lemma_num_val_nonneg(digits.take(j));
        assert(num_val(digits.take(j)) <= num_val(digits.take(j + 1)));
        lemma_num_val_prefix_le(digits, j + 1);
    }
}

/// Every digit value in range writes as a digit character of that value.
pub proof fn lemma_digit_char_props(d: int)
    requires
        0 <= d < 10,
    ensures
        is_digit_char(digit_char(d)),
        digit_val(digit_char(d)) == d,
{
}

/// The digit sequence of a number is made of digits and is never empty.
pub proof fn lemma_digits_of_all_digits(n: nat)
    ensures
        all_digits(spec_digits_of(n)),
        spec_digits_of(n).len() >= 1,
    decreases n,
{
    if n < 10 {
        lemma_digit_char_props(n as int);
    } else {
        lemma_digits_of_all_digits(n / 10);
        lemma_digit_char_props((n % 10) as int);
        assert(spec_digits_of(n).drop_last() =~= spec_digits_of(n / 10));
    }
}

/// Reading the digit sequence of `n` as a numeral gives back `n`.
pub proof fn lemma_num_val_digits_of(n: nat)
    ensures
        num_val(spec_digits_of(n)) == n,
    decreases n,
{
    if n < 10 {
        lemma_digit_char_props(n as int);
        assert(num_val(Seq::<char>::empty()) == 0);
        assert(spec_digits_of(n).drop_last() =~= Seq::<char>::empty());
        assert(spec_digits_of(n).last() == digit_char(n as int));
    } else {
        lemma_num_val_digits_of(n / 10);
        lemma_digit_char_props((n % 10) as int);
        assert(spec_digits_of(n).drop_last() =~= spec_digits_of(n / 10));
        assert(spec_digits_of(n).last() == digit_char((n % 10) as int));
        vstd::arithmetic::div_mod::lemma_fundamental_div_mod(n as int, 10);
    }
}

fn digit_to_str(d: u64) -> (r: &'static str)
    requires
        d < 10,
    ensures
        r@ == seq![digit_char(d as int)],
{
    let r: &'static str = if d == 0 {
        "0"
    } else if d == 1 {
        "1"
    } else if d == 2 {
        "2"
    } else if d == 3 {
        "3"
    } else if d == 4 {
        "4"
    } else if d == 5 {
        "5"
    } else if d == 6 {
        "6"
    } else if d == 7 {
        "7"
    } else if d == 8 {
        "8"
    } else {
        "9"
    };
    proof {
        reveal_strlit("0");
        reveal_strlit("1");
        reveal_strlit("2");
        reveal_strlit("3");
        reveal_strlit("4");
        reveal_strlit("5");
        reveal_strlit("6");
        reveal_strlit("7");
        reveal_strlit("8");
        reveal_strlit("9");
        assert(r@ =~= seq![digit_char(d as int)]);
    }
    r
}

/// Writes `n` in decimal.
pub fn u64_to_string(n: u64) -> (s: String)
    ensures
        s@ == spec_digits_of(n as nat),
    decreases n,
{
    if n < 10 {
        String::from_str(digit_to_str(n))
    } else {
        let mut s = u64_to_string(n / 10);
        s.append(digit_to_str(n % 10));
        proof {
            assert(s@ =~= spec_digits_of((n / 10) as nat).push(digit_char((n % 10) as int)));
        }
        s
    }
}

/// Writes `n` in decimal, with a minus sign when it is negative.
pub fn i64_to_string(n: i64) -> (s: String)
    ensures
        s@ == spec_int_str(n as int),
{
    if n >= 0 {
        u64_to_string(n as u64)
    } else {
        let m: u64 = (-(n as i128)) as u64;
        let mut s = String::from_str("-");
        s.append(u64_to_string(m).as_str());
        proof {
            reveal_strlit("-");
            assert(s@ =~= spec_int_str(n as int));
        }
        s
    }
}

} // verus!
