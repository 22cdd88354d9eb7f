//! Building of the messages that the decoders hand back.
use vstd::prelude::*;

verus! {

/// The decimal digit of a number below ten.
pub open spec fn digit(n: nat) -> char {
    (('0' as nat) + n) as char
}

/// A number in decimal notation, without leading zeros.
pub open spec fn decimal(n: nat) -> Seq<char>
    decreases n,
{
    if n < 10 {
        seq![digit(n)]
    } else {
        decimal(n / 10).push(digit(n % 10))
    }
}

fn digit_text(n: usize) -> (s: &'static str)
    requires
        n < 10,
    ensures
        s@ == seq![digit(n as nat)],
{
    proof {
        reveal_strlit("0");
        reveal_strlit("1");
        reveal_strlit("2");
        reveal_strlit("3");
        reveal_strlit("4");
        reveal_strlit("5");
        reveal_strlit("6");
        reveal_strlit("7");
        reveal_strlit("8");
        reveal_strlit("9");
    }
    match n {
        0 => "0",
        1 => "1",
        2 => "2",
        3 => "3",
        4 => "4",
        5 => "5",
        6 => "6",
        7 => "7",
        8 => "8",
        _ => "9",
    }
}

/// Appends a number in decimal notation.
pub fn push_number(text: &mut String, n: usize)
    ensures
        final(text)@ == old(text)@ + decimal(n as nat),
    decreases n,
{
    if n >= 10 {
        push_number(text, n / 10);
    }
    text.append(digit_text(n % 10));
}

/// `before`, a number.
pub fn number_after(before: &str, n: usize) -> (text: String)
    ensures
        text@ == before@ + decimal(n as nat),
{
    let mut text: String = before.to_string();
    push_number(&mut text, n);
    text
}

/// `before`, a number, `after`.
pub fn with_number(before: &str, n: usize, after: &str) -> (text: String)
    ensures
        text@ == before@ + decimal(n as nat) + after@,
{
    let mut text: String = before.to_string();
    push_number(&mut text, n);
    text.append(after);
    text
}

/// Appends a number and the text that follows it.
pub fn push_with(text: &mut String, n: usize, after: &str)
    ensures
        final(text)@ == old(text)@ + decimal(n as nat) + after@,
{
    push_number(text, n);
    text.append(after);
}

/// A result whose message reads as given.
pub open spec fn same_result<T>(res: Result<T, String>, expected: Result<T, Seq<char>>) -> bool {
    match (res, expected) {
        (Ok(value), Ok(expected_value)) => value == expected_value,
        (Err(text), Err(message)) => text@ == message,
        _ => false,
    }
}

} // verus!
