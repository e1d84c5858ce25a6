//! The log of a student as a line of text.

use vstd::prelude::*;
use vstd::string::StringExecFns;

verus! {

/// The character of a digit.
pub open spec fn digit_char(d: int) -> char {
    if d == 0 {
        '0'
    } else if d == 1 {
        '1'
    } else if d == 2 {
        '2'
    } else if d == 3 {
        '3'
    } else if d == 4 {
        '4'
    } else if d == 5 {
        '5'
    } else if d == 6 {
        '6'
    } else if d == 7 {
        '7'
    } else if d == 8 {
        '8'
    } else {
        '9'
    }
}

/// A number written in decimal digits, without leading zeros.
pub open spec fn digits_of(n: nat) -> Seq<char>
    decreases n,
{
    if n < 10 {
        seq![digit_char(n as int)]
    } else {
        digits_of(n / 10).push(digit_char((n % 10) as int))
    }
}

/// An entry of a log: category, college and status, with colons between.
pub open spec fn entry_text(entry: (u8, usize, u8)) -> Seq<char> {
    digits_of(entry.0 as nat) + seq![':'] + digits_of(entry.1 as nat) + seq![':'] + digits_of(
        entry.2 as nat,
    )
}

/// A log: its entries with a blank between one and the next.
pub open spec fn log_text(log: Seq<(u8, usize, u8)>) -> Seq<char>
    decreases log.len(),
{
    if log.len() == 0 {
        Seq::empty()
    } else if log.len() == 1 {
        entry_text(log[0])
    } else {
        log_text(log.drop_last()) + seq![' '] + entry_text(log.last())
    }
}

/// The text of a digit.
fn digit_text(d: u8) -> (text: &'static str)
    requires
        d < 10,
    ensures
        text@ == seq![digit_char(d as int)],
{
    proof {
        reveal_strlit("0");
        reveal_strlit("1");
        reveal_strlit("2");
        reveal_strlit("3");
        reveal_strlit("4");
        reveal_strlit("5");
        reveal_strlit("6");
        reveal_strlit("7");
        reveal_strlit("8");
        reveal_strlit("9");
    }
    let text = if d == 0 {
        "0"
    } else if d == 1 {
        "1"
    } else if d == 2 {
        "2"
    } else if d == 3 {
        "3"
    } else if d == 4 {
        "4"
    } else if d == 5 {
        "5"
    } else if d == 6 {
        "6"
    } else if d == 7 {
        "7"
    } else if d == 8 {
        "8"
    } else {
        "9"
    };
    assert(text@ =~= seq![digit_char(d as int)]);
    text
}

/// The digits of `n` from a place value on: with `tail` digits behind them
/// they are the digits of the whole number.
spec fn with_tail(n: nat, tail: Seq<char>) -> Seq<char> {
    digits_of(n) + tail
}

/// Appends a number in decimal digits to a text.
pub fn append_number(text: &mut String, n: usize)
    ensures
        final(text)@ == old(text)@ + digits_of(n as nat),
{
    // the digits from the last to the first
    let mut digits: Vec<u8> = Vec::new();
    let mut rest = n;
    let ghost mut tail: Seq<char> = Seq::empty();
    while rest >= 10
        invariant
            with_tail(rest as nat, tail) == digits_of(n as nat),
            tail.len() == digits.len(),
            forall|i: int| 0 <= i < digits.len() ==> digits[i] < 10,
            forall|i: int|
                0 <= i < digits.len() ==> tail[tail.len() - 1 - i] == digit_char(
                    (#[trigger] digits[i]) as int,
                ),
        decreases rest,
    {
        let d = (rest % 10) as u8;
        proof {
            let longer = seq![digit_char(d as int)] + tail;
            assert(digits_of(rest as nat) == digits_of((rest / 10) as nat).push(digit_char(d as int)));
            assert(with_tail((rest / 10) as nat, longer) =~= with_tail(rest as nat, tail));
            assert forall|i: int| 0 <= i < digits.len() implies longer[longer.len() - 1 - i]
                == digit_char((#[trigger] digits[i]) as int) by {
                assert(longer[longer.len() - 1 - i] == tail[tail.len() - 1 - i]);
            }
            tail = longer;
        }
        digits.push(d);
        rest = rest / 10;
    }
    text.append(digit_text(rest as u8));
    let mut i = digits.len();
    while i > 0
        invariant
            i <= digits.len(),
            tail.len() == digits.len(),
            forall|k: int| 0 <= k < digits.len() ==> digits[k] < 10,
            forall|k: int|
                0 <= k < digits.len() ==> tail[tail.len() - 1 - k] == digit_char(
                    (#[trigger] digits[k]) as int,
                ),
            text@ == old(text)@ + digits_of(rest as nat) + tail.take(digits.len() - i),
        decreases i,
    {
        i -= 1;
        text.append(digit_text(digits[i]));
        assert(tail.take(digits.len() - i) =~= tail.take(digits.len() - i - 1).push(
            digit_char(digits[i as int] as int),
        ));
        assert(text@ =~= old(text)@ + digits_of(rest as nat) + tail.take(digits.len() - i));
    }
    assert(tail.take(digits.len() as int) =~= tail);
    assert(text@ =~= old(text)@ + with_tail(rest as nat, tail));
}

/// Appends an entry of a log to a text.
fn append_entry(text: &mut String, entry: (u8, usize, u8))
    ensures
        final(text)@ == old(text)@ + entry_text(entry),
{
    proof {
        reveal_strlit(":");
    }
    append_number(text, entry.0 as usize);
    text.append(":");
    append_number(text, entry.1);
    text.append(":");
    append_number(text, entry.2 as usize);
    assert(text@ =~= old(text)@ + entry_text(entry));
}

/// A log as a line of text: for each application the category of the
/// college, the college and the final status, with colons between them
/// and a blank between one application and the next.
pub fn write_log(log: &Vec<(u8, usize, u8)>) -> (text: String)
    ensures
        text@ == log_text(log@),
{
    let mut text = String::new();
    let mut i: usize = 0;
    while i < log.len()
        invariant
            i <= log.len(),
            text@ == log_text(log@.take(i as int)),
        decreases log.len() - i,
    {
        proof {
            reveal_strlit(" ");
            assert(log@.take(i + 1).drop_last() =~= log@.take(i as int));
        }
        if i > 0 {
            text.append(" ");
        }
        append_entry(&mut text, log[i]);
        i += 1;
        proof {
            let now = log@.take(i as int);
            if i == 1 {
                assert(text@ =~= entry_text(now[0]));
            } else {
                assert(text@ =~= log_text(now.drop_last()) + seq![' '] + entry_text(now.last()));
            }
        }
    }
    assert(log@.take(log.len() as int) =~= log@);
    text
}

} // verus!
