//! Numbers as text: decimal and hexadecimal digits in ASCII.

use vstd::prelude::*;
use vstd::string::*;

verus! {

/// The ASCII code of the decimal digit `d`.
pub open spec fn digit(d: int) -> u8 {
    (48 + d) as u8
}

/// The ASCII code of the hexadecimal digit `d`, in lower case.
pub open spec fn hex_digit(d: int) -> u8 {
    if d < 10 {
        (48 + d) as u8
    } else {
        (87 + d) as u8
    }
}

/// The decimal digits of a number, most significant first, without leading
/// zeros.
pub open spec fn decimal(n: nat) -> Seq<u8>
    decreases n,
{
    if n < 10 {
        seq![digit(n as int)]
    } else {
        decimal(n / 10).push(digit((n % 10) as int))
    }
}

/// The two hexadecimal digits of a byte, in lower case.
pub open spec fn hex_byte(b: u8) -> Seq<u8> {
    seq![hex_digit(b as int / 16), hex_digit(b as int % 16)]
}

/// ASCII codes as characters.
pub open spec fn as_chars(bytes: Seq<u8>) -> Seq<char> {
    Seq::new(bytes.len(), |i: int| bytes[i] as char)
}

/// Whether a byte is the ASCII code of a decimal digit.
pub open spec fn is_digit(b: u8) -> bool {
    48 <= b <= 57
}

/// The number that a run of decimal digits stands for.
pub open spec fn digits_value(digits: Seq<u8>) -> nat
    decreases digits.len(),
{
    if digits.len() == 0 {
        0
    } else {
        (digits_value(digits.drop_last()) * 10 + (digits.last() - 48)) as nat
    }
}

/// Whether a field is a number: one decimal digit or more, and nothing else.
pub open spec fn is_number(field: Seq<u8>) -> bool {
    field.len() > 0 && forall|i: int| 0 <= i < field.len() ==> is_digit(#[trigger] field[i])
}

/// The decimal digits of a number are digits, and there is at least one.
pub proof fn lemma_decimal_is_number(n: nat)
    ensures
        is_number(decimal(n)),
    decreases n,
{
    if n >= 10 {
        lemma_decimal_is_number(n / 10);
    }
}

/// The digits of a number stand for that number.
pub proof fn lemma_decimal_value(n: nat)
    ensures
        digits_value(decimal(n)) == n,
    decreases n,
{
    let digits = decimal(n);
    if n >= 10 {
        lemma_decimal_value(n / 10);
        assert(digits.drop_last() =~= decimal(n / 10));
        assert(digits.last() == digit((n % 10) as int));
        assert(digits_value(digits) == digits_value(digits.drop_last()) * 10 + (digits.last()
            - 48));
    } else {
        assert(digits.drop_last() =~= Seq::<u8>::empty());
        assert(digits_value(Seq::<u8>::empty()) == 0);
        assert(digits.last() == digit(n as int));
        assert(digits_value(digits) == digits_value(digits.drop_last()) * 10 + (digits.last()
            - 48));
    }
}

/// Appends the decimal digits of a number.
pub fn push_decimal(out: &mut Vec<u8>, n: u32)
    ensures
        final(out)@ == old(out)@ + decimal(n as nat),
    decreases n,
{
    if n >= 10 {
        push_decimal(out, n / 10);
    }
    out.push(48 + (n % 10) as u8);
    assert(out@ =~= old(out)@ + decimal(n as nat));
}

/// Appends the two hexadecimal digits of a byte.
pub fn push_hex_byte(out: &mut Vec<u8>, b: u8)
    ensures
        final(out)@ == old(out)@ + hex_byte(b),
{
    out.push(hex_digit_of(b / 16));
    out.push(hex_digit_of(b % 16));
    assert(out@ =~= old(out)@ + hex_byte(b));
}

fn hex_digit_of(d: u8) -> (code: u8)
    requires
        d < 16,
    ensures
        code == hex_digit(d as int),
{
    if d < 10 {
        48 + d
    } else {
        87 + d
    }
}

/// The ASCII codes that numbers and colours are written with: the decimal
/// digits, the letters `a` to `f`, and `#`.
pub open spec fn is_writable(code: u8) -> bool {
    is_digit(code) || 97 <= code <= 102 || code == 35
}

/// Appends the codes of numbers and colours to a string as characters.
pub fn push_ascii(out: &mut String, bytes: &Vec<u8>)
    requires
        forall|i: int| 0 <= i < bytes@.len() ==> is_writable(#[trigger] bytes@[i]),
    ensures
        final(out)@ == old(out)@ + as_chars(bytes@),
{
    let mut i: usize = 0;
    while i < bytes.len()
        invariant
            i <= bytes@.len(),
            forall|k: int| 0 <= k < bytes@.len() ==> is_writable(#[trigger] bytes@[k]),
            out@ == old(out)@ + as_chars(bytes@.take(i as int)),
        decreases bytes@.len() - i,
    {
        let piece: &'static str = ascii_str(bytes[i]);
        out.append(piece);
        assert(out@ =~= old(out)@ + as_chars(bytes@.take(i + 1)));
        i = i + 1;
    }
    assert(bytes@.take(bytes@.len() as int) =~= bytes@);
}

/// Appends the decimal digits of a number to a string.
pub fn append_decimal(out: &mut String, n: u32)
    ensures
        final(out)@ == old(out)@ + as_chars(decimal(n as nat)),
{
    let mut digits: Vec<u8> = Vec::new();
    push_decimal(&mut digits, n);
    proof {
        lemma_decimal_is_number(n as nat);
        assert(digits@ =~= decimal(n as nat));
    }
    push_ascii(out, &digits);
}

/// Appends the two hexadecimal digits of a byte to a string.
pub fn append_hex_byte(out: &mut String, b: u8)
    ensures
        final(out)@ == old(out)@ + as_chars(hex_byte(b)),
{
    let mut digits: Vec<u8> = Vec::new();
    push_hex_byte(&mut digits, b);
    assert(digits@ =~= hex_byte(b));
    push_ascii(out, &digits);
}

/// The string of one character for a code.
fn ascii_str(code: u8) -> (piece: &'static str)
    requires
        is_writable(code),
    ensures
        piece@ == seq![code as char],
{
    proof {
        reveal_strlit("0");
        reveal_strlit("1");
        reveal_strlit("2");
        reveal_strlit("3");
        reveal_strlit("4");
        reveal_strlit("5");
        reveal_strlit("6");
        reveal_strlit("7");
        reveal_strlit("8");
        reveal_strlit("9");
        reveal_strlit("a");
        reveal_strlit("b");
        reveal_strlit("c");
        reveal_strlit("d");
        reveal_strlit("e");
        reveal_strlit("f");
        reveal_strlit("#");
    }
    let piece: &'static str = if code == 48 {
        "0"
    } else if code == 49 {
        "1"
    } else if code == 50 {
        "2"
    } else if code == 51 {
        "3"
    } else if code == 52 {
        "4"
    } else if code == 53 {
        "5"
    } else if code == 54 {
        "6"
    } else if code == 55 {
        "7"
    } else if code == 56 {
        "8"
    } else if code == 57 {
        "9"
    } else if code == 97 {
        "a"
    } else if code == 98 {
        "b"
    } else if code == 99 {
        "c"
    } else if code == 100 {
        "d"
    } else if code == 101 {
        "e"
    } else if code == 102 {
        "f"
    } else {
        "#"
    };
    assert(piece@ =~= seq![code as char]);
    piece
}

} // verus!
