//! Numbers as decimal text: writing them, and reading them back.
//!
//! The decimal text of a number is its digits, the highest first, without a
//! leading zero but for the number zero. A text holds at most one number at
//! a place, so what was written is what is read.
use vstd::prelude::*;
use vstd::string::StringExecFns;

verus! {

/// The character for the decimal digit `d`.
pub open spec fn digit_char(d: nat) -> char {
    if d == 0 {
        '0'
    } else if d == 1 {
        '1'
    } else if d == 2 {
        '2'
    } else if d == 3 {
        '3'
    } else if d == 4 {
        '4'
    } else if d == 5 {
        '5'
    } else if d == 6 {
        '6'
    } else if d == 7 {
        '7'
    } else if d == 8 {
        '8'
    } else {
        '9'
    }
}

/// The decimal text of `n`: its digits, the highest first, and no leading
/// zero but for `n == 0`.
pub open spec fn decimal(n: nat) -> Seq<char>
    decreases n,
{
    if n < 10 {
        seq![digit_char(n)]
    } else {
        decimal(n / 10).push(digit_char(n % 10))
    }
}

/// Whether `c` is a decimal digit.
pub open spec fn is_digit(c: char) -> bool {
    '0' <= c && c <= '9'
}

/// The number that the digit `c` stands for.
pub open spec fn digit_value(c: char) -> nat {
    (c as int - '0' as int) as nat
}

/// Whether `text` holds decimal digits only.
pub open spec fn all_digits(text: Seq<char>) -> bool {
    forall|i: int| 0 <= i < text.len() ==> is_digit(#[trigger] text[i])
}

/// The number that the digits `text` stand for, read as a decimal.
pub open spec fn digits_value(text: Seq<char>) -> nat
    decreases text.len(),
{
    if text.len() == 0 {
        0
    } else {
        10 * digits_value(text.drop_last()) + digit_value(text.last())
    }
}

/// `text` holds at `pos` the decimal text of `value`, which ends before
/// `end`, and no digit follows it.
pub open spec fn number_at(text: Seq<char>, pos: int, value: nat, end: int) -> bool {
    &&& 0 <= pos < end <= text.len()
    &&& text.subrange(pos, end) == decimal(value)
    &&& end < text.len() ==> !is_digit(text[end])
}

/// The decimal text of a number is made of digits, stands for that number,
/// and begins with a zero only where the number is zero.
pub proof fn lemma_decimal(n: nat)
    ensures
        decimal(n).len() >= 1,
        all_digits(decimal(n)),
        digits_value(decimal(n)) == n,
        decimal(n)[0] == '0' ==> n == 0,
        n == 0 ==> decimal(n) == seq!['0'],
    decreases n,
{
    if n < 10 {
        assert(decimal(n).drop_last().len() == 0);
        assert(digits_value(decimal(n)) == 10 * digits_value(decimal(n).drop_last())
            + digit_value(decimal(n).last()));
    } else {
        lemma_decimal(n / 10);
        let shorter = decimal(n / 10);
        assert(decimal(n).drop_last() =~= shorter);
        assert(decimal(n).last() == digit_char(n % 10));
        assert(decimal(n)[0] == shorter[0]);
    }
}

/// Digits that begin with no zero stand for a number that is not zero.
proof fn lemma_value_positive(text: Seq<char>)
    requires
        all_digits(text),
        text.len() >= 1,
        text[0] != '0',
    ensures
        digits_value(text) >= 1,
    decreases text.len(),
{
    if text.len() == 1 {
        assert(text.drop_last().len() == 0);
        assert(text.last() == text[0]);
        assert(is_digit(text[0]));
    } else {
        let shorter = text.drop_last();
        assert(shorter[0] == text[0]);
        lemma_value_positive(shorter);
    }
}

/// Digits without a leading zero are the decimal text of the number that
/// they stand for.
pub proof fn lemma_decimal_of_digits(text: Seq<char>)
    requires
        all_digits(text),
        text.len() >= 1,
        text.len() > 1 ==> text[0] != '0',
    ensures
        decimal(digits_value(text)) == text,
    decreases text.len(),
{
    let last = text.last();
    assert(is_digit(last));
    assert(digit_char(digit_value(last)) == last);
    if text.len() == 1 {
        assert(text.drop_last().len() == 0);
        assert(digits_value(text.drop_last()) == 0);
        assert(digits_value(text) == digit_value(last));
        assert(decimal(digits_value(text)) =~= text);
    } else {
        let shorter = text.drop_last();
        assert(shorter[0] == text[0]);
        lemma_value_positive(shorter);
        lemma_decimal_of_digits(shorter);
        let v = digits_value(text);
        assert(v == 10 * digits_value(shorter) + digit_value(last));
        assert(v / 10 == digits_value(shorter));
        assert(v % 10 == digit_value(last));
        assert(decimal(v) =~= text);
    }
}

/// Digits stand for at least the number that their first `k` stand for.
pub proof fn lemma_value_grows(text: Seq<char>, k: int)
    requires
        all_digits(text),
        0 <= k <= text.len(),
    ensures
        digits_value(text.subrange(0, k)) <= digits_value(text),
    decreases text.len() - k,
{
    if k == text.len() {
        assert(text.subrange(0, k) =~= text);
    } else {
        let shorter = text.drop_last();
        lemma_value_grows(shorter, k);
        assert(shorter.subrange(0, k) =~= text.subrange(0, k));
    }
}

/// A text holds at most one number at a place.
pub proof fn lemma_number_unique(text: Seq<char>, pos: int, a: nat, a_end: int, b: nat, b_end: int)
    requires
        number_at(text, pos, a, a_end),
        number_at(text, pos, b, b_end),
    ensures
        a == b,
        a_end == b_end,
{
    lemma_decimal(a);
    lemma_decimal(b);
    if a_end < b_end {
        assert(text[a_end] == text.subrange(pos, b_end)[a_end - pos]);
    }
    if b_end < a_end {
        assert(text[b_end] == text.subrange(pos, a_end)[b_end - pos]);
    }
}

/// The bytes `bytes` as text, each byte a character.
pub open spec fn byte_text(bytes: Seq<u8>) -> Seq<char> {
    Seq::new(bytes.len(), |i: int| bytes[i] as char)
}

/// Reads the number that `bytes` hold at `pos` as text: there is a result
/// where they hold one there that is at most `limit`, and it is the number
/// and the place where its text ends.
pub fn read_number(bytes: &[u8], pos: usize, limit: u32) -> (r: Option<(u32, usize)>)
    ensures
        match r {
            Some((value, end)) => number_at(
                byte_text(bytes@),
                pos as int,
                value as nat,
                end as int,
            ) && value <= limit,
            None => forall|value: nat, end: int|
                value <= limit ==> !number_at(byte_text(bytes@), pos as int, value, end),
        },
{
    let ghost text = byte_text(bytes@);
    let n = bytes.len();
    if pos >= n || bytes[pos] < 48 || bytes[pos] > 57 {
        proof {
            assert forall|value: nat, end: int| value <= limit implies !number_at(
                text,
                pos as int,
                value,
                end,
            ) by {
                if number_at(text, pos as int, value, end) {
                    lemma_decimal(value);
                    assert(text[pos as int] == text.subrange(pos as int, end)[0]);
                }
            }
        }
        return None;
    }
    let first: u32 = (bytes[pos] - 48) as u32;
    if first == 0 {
        let end = pos + 1;
        if end < n && bytes[end] >= 48 && bytes[end] <= 57 {
            proof {
                assert forall|value: nat, other: int| value <= limit implies !number_at(
                    text,
                    pos as int,
                    value,
                    other,
                ) by {
                    if number_at(text, pos as int, value, other) {
                        lemma_decimal(value);
                        assert(text[pos as int] == text.subrange(pos as int, other)[0]);
                        assert(text[pos as int] == '0');
                        assert(decimal(value) == seq!['0']);
                        assert(text.subrange(pos as int, other).len() == 1);
                        assert(is_digit(text[end as int]));
                    }
                }
            }
            return None;
        }
        proof {
            lemma_decimal(0);
            assert(text[pos as int] == '0');
            assert(text.subrange(pos as int, end as int) =~= decimal(0));
            if end < n {
                assert(!is_digit(text[end as int]));
            }
        }
        return Some((0, end));
    }
    if first > limit {
        proof {
            assert forall|value: nat, end: int| value <= limit implies !number_at(
                text,
                pos as int,
                value,
                end,
            ) by {
                if number_at(text, pos as int, value, end) {
                    lemma_decimal(value);
                    let whole = text.subrange(pos as int, end);
                    lemma_value_grows(whole, 1);
                    assert(whole.subrange(0, 1).drop_last().len() == 0);
                    assert(whole.subrange(0, 1).last() == text[pos as int]);
                }
            }
        }
        return None;
    }
    let mut value: u64 = first as u64;
    let mut end: usize = pos + 1;
    proof {
        let one = text.subrange(pos as int, end as int);
        assert(one.drop_last().len() == 0);
        assert(digits_value(one.drop_last()) == 0);
        assert(one.last() == text[pos as int]);
        assert(digits_value(one) == digit_value(text[pos as int]));
    }
    while end < n && bytes[end] >= 48 && bytes[end] <= 57
        invariant
            text == byte_text(bytes@),
            n == text.len(),
            pos < end <= n,
            text[pos as int] != '0',
            all_digits(text.subrange(pos as int, end as int)),
            digits_value(text.subrange(pos as int, end as int)) == value,
            value <= limit,
        decreases n - end,
    {
        let digit: u64 = (bytes[end] - 48) as u64;
        let ghost longer = text.subrange(pos as int, end + 1);
        proof {
            assert(longer.drop_last() =~= text.subrange(pos as int, end as int));
            assert(longer.last() == text[end as int]);
            assert(all_digits(longer)) by {
                assert forall|i: int| 0 <= i < longer.len() implies is_digit(
                    #[trigger] longer[i],
                ) by {
                    if i < longer.len() - 1 {
                        assert(longer[i] == text.subrange(pos as int, end as int)[i]);
                    } else {
                        assert(longer[i] == text[end as int]);
                        assert(is_digit(text[end as int]));
                    }
                }
            }
        }
        if value * 10 + digit > limit as u64 {
            proof {
                assert forall|other: nat, stop: int| other <= limit implies !number_at(
                    text,
                    pos as int,
                    other,
                    stop,
                ) by {
                    if number_at(text, pos as int, other, stop) {
                        lemma_decimal(other);
                        let whole = text.subrange(pos as int, stop);
                        if stop < end {
                            assert(text[stop] == text.subrange(pos as int, end as int)[stop
                                - pos]);
                        }
                        assert(stop > end);
                        lemma_value_grows(whole, end + 1 - pos);
                        assert(whole.subrange(0, end + 1 - pos) =~= longer);
                    }
                }
            }
            return None;
        }
        value = value * 10 + digit;
        end = end + 1;
    }
    proof {
        let digits = text.subrange(pos as int, end as int);
        assert(digits[0] == text[pos as int]);
        lemma_decimal_of_digits(digits);
    }
    Some((value as u32, end))
}

/// Appends the character for the digit `d`.
fn push_digit(buf: &mut String, d: u8)
    requires
        d < 10,
    ensures
        final(buf)@ == old(buf)@.push(digit_char(d as nat)),
{
    proof {
        reveal_strlit("0");
        reveal_strlit("1");
        reveal_strlit("2");
        reveal_strlit("3");
        reveal_strlit("4");
        reveal_strlit("5");
        reveal_strlit("6");
        reveal_strlit("7");
        reveal_strlit("8");
        reveal_strlit("9");
    }
    let ghost before = buf@;
    let text = if d == 0 {
        "0"
    } else if d == 1 {
        "1"
    } else if d == 2 {
        "2"
    } else if d == 3 {
        "3"
    } else if d == 4 {
        "4"
    } else if d == 5 {
        "5"
    } else if d == 6 {
        "6"
    } else if d == 7 {
        "7"
    } else if d == 8 {
        "8"
    } else {
        "9"
    };
    buf.append(text);
    assert(buf@ =~= before.push(digit_char(d as nat)));
}

/// Appends the decimal text of `n`.
pub fn write_number(buf: &mut String, n: usize)
    ensures
        final(buf)@ == old(buf)@ + decimal(n as nat),
    decreases n,
{
    let ghost before = buf@;
    if n >= 10 {
        write_number(buf, n / 10);
    }
    push_digit(buf, (n % 10) as u8);
    assert(buf@ =~= before + decimal(n as nat));
}

} // verus!
