//! Numbers and quotations as text.

use vstd::prelude::*;

verus! {

/// A decimal digit.
pub open spec fn digit_char(d: nat) -> char {
    (48 + d) as char
}

/// A number in decimal.
pub open spec fn decimal(n: nat) -> Seq<char>
    decreases n,
{
    if n < 10 {
        seq![digit_char(n)]
    } else {
        decimal(n / 10).push(digit_char(n % 10))
    }
}

fn digit_text(d: u64) -> (text: &'static str)
    requires
        d < 10,
    ensures
        text@ == seq![digit_char(d as nat)],
{
    proof {
        reveal_strlit("0");
        reveal_strlit("1");
        reveal_strlit("2");
        reveal_strlit("3");
        reveal_strlit("4");
        reveal_strlit("5");
        reveal_strlit("6");
        reveal_strlit("7");
        reveal_strlit("8");
        reveal_strlit("9");
    }
    let text = match d {
        0 => "0",
        1 => "1",
        2 => "2",
        3 => "3",
        4 => "4",
        5 => "5",
        6 => "6",
        7 => "7",
        8 => "8",
        _ => "9",
    };
    assert(text@ =~= seq![digit_char(d as nat)]);
    text
}

/// Writes a number in decimal.
pub fn decimal_text(n: u64) -> (text: String)
    ensures
        text@ == decimal(n as nat),
    decreases n,
{
    if n < 10 {
        digit_text(n).to_owned()
    } else {
        let mut text = decimal_text(n / 10);
        text.append(digit_text(n % 10));
        assert(text@ =~= decimal(n as nat));
        text
    }
}

/// Writes a wide number in decimal.
pub fn wide_decimal_text(n: u128) -> (text: String)
    ensures
        text@ == decimal(n as nat),
    decreases n,
{
    if n < 10 {
        digit_text(n as u64).to_owned()
    } else {
        let mut text = wide_decimal_text(n / 10);
        text.append(digit_text((n % 10) as u64));
        assert(text@ =~= decimal(n as nat));
        text
    }
}

/// A number with its sign in decimal.
pub open spec fn signed_decimal(x: int) -> Seq<char> {
    if x < 0 {
        "-"@ + decimal((-x) as nat)
    } else {
        decimal(x as nat)
    }
}

/// Writes a number with its sign in decimal.
pub fn signed_text(x: i64) -> (text: String)
    ensures
        text@ == signed_decimal(x as int),
{
    if x == i64::MIN {
        let mut text = "-".to_owned();
        text.append(&decimal_text(9223372036854775808));
        text
    } else if x < 0 {
        let mut text = "-".to_owned();
        text.append(&decimal_text((-x) as u64));
        text
    } else {
        decimal_text(x as u64)
    }
}

/// A truth value in words.
pub open spec fn truth_word(b: bool) -> Seq<char> {
    if b {
        "true"@
    } else {
        "false"@
    }
}

/// A text in double quotes, with the characters escaped that the `Debug` form of
/// [`str`] escapes.
pub uninterp spec fn quoted(text: Seq<char>) -> Seq<char>;

/// Quotes a text: the `Debug` form of [`str`] in the standard library, by the
/// `{:?}` of `format!`. Nothing is claimed of it but that the same text is always
/// quoted in the same way.
#[verifier::external_body]
pub(crate) fn quoted_text(text: &str) -> (written: String)
    ensures
        written@ == quoted(text@),
{
    format!("{:?}", text)
}

/// The first `n` bytes in decimal, with commas between them.
pub open spec fn byte_list(bytes: Seq<u8>, n: nat) -> Seq<char>
    decreases n,
{
    if n == 0 {
        Seq::empty()
    } else if n == 1 {
        decimal(bytes[0] as nat)
    } else {
        byte_list(bytes, (n - 1) as nat) + ", "@ + decimal(bytes[n - 1] as nat)
    }
}

/// Writes bytes in decimal, with commas between them.
pub fn byte_list_text(bytes: &[u8]) -> (text: String)
    ensures
        text@ == byte_list(bytes@, bytes@.len()),
{
    let mut text = "".to_owned();
    proof {
        reveal_strlit("");
        assert(text@ =~= Seq::<char>::empty());
    }
    let mut i: usize = 0;
    while i < bytes.len()
        invariant
            0 <= i <= bytes.len(),
            text@ == byte_list(bytes@, i as nat),
        decreases bytes.len() - i,
    {
        if i > 0 {
            text.append(", ");
        }
        text.append(&decimal_text(bytes[i] as u64));
        i = i + 1;
        assert(text@ =~= byte_list(bytes@, i as nat));
    }
    text
}

} // verus!
