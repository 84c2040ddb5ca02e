//! Two-digit hexadecimal rendering and reading of 8-bit channels.
use vstd::prelude::*;

verus! {

/// The sixteen lowercase hexadecimal digits.
pub open spec fn hex_digits() -> Seq<char> {
    seq!['0', '1', '2', '3', '4', '5', '6', '7', '8', '9', 'a', 'b', 'c', 'd', 'e', 'f']
}

/// Two lowercase hexadecimal digits of a byte.
pub open spec fn byte_hex(n: int) -> Seq<char> {
    seq![hex_digits()[n / 16], hex_digits()[n % 16]]
}

/// Value of a hexadecimal digit of either case.
pub open spec fn hex_value(c: char) -> Option<int> {
    if '0' <= c && c <= '9' {
        Some(c as int - '0' as int)
    } else if 'a' <= c && c <= 'f' {
        Some(c as int - 'a' as int + 10)
    } else if 'A' <= c && c <= 'F' {
        Some(c as int - 'A' as int + 10)
    } else {
        None
    }
}

/// The byte written by two hexadecimal digits, if both are digits.
pub open spec fn hex_pair(hi: char, lo: char) -> Option<int> {
    match (hex_value(hi), hex_value(lo)) {
        (Some(a), Some(b)) => Some(16 * a + b),
        _ => None,
    }
}

/// The text of one hexadecimal digit.
pub(crate) fn digit_text(n: u8) -> (r: &'static str)
    requires
        n < 16,
    ensures
        r@ == seq![hex_digits()[n as int]],
{
    proof {
        reveal_strlit("0");
        reveal_strlit("1");
        reveal_strlit("2");
        reveal_strlit("3");
        reveal_strlit("4");
        reveal_strlit("5");
        reveal_strlit("6");
        reveal_strlit("7");
        reveal_strlit("8");
        reveal_strlit("9");
        reveal_strlit("a");
        reveal_strlit("b");
        reveal_strlit("c");
        reveal_strlit("d");
        reveal_strlit("e");
        reveal_strlit("f");
    }
    match n {
        0 => "0",
        1 => "1",
        2 => "2",
        3 => "3",
        4 => "4",
        5 => "5",
        6 => "6",
        7 => "7",
        8 => "8",
        9 => "9",
        10 => "a",
        11 => "b",
        12 => "c",
        13 => "d",
        14 => "e",
        _ => "f",
    }
}

/// Appends the two lowercase hexadecimal digits of `n`.
pub fn push_byte_hex(out: &mut String, n: u8)
    ensures
        final(out)@ == old(out)@ + byte_hex(n as int),
{
    out.append(digit_text(n / 16));
    out.append(digit_text(n % 16));
    assert(final(out)@ =~= old(out)@ + byte_hex(n as int));
}

/// Value of a hexadecimal digit of either case.
pub fn hex_value_exec(c: char) -> (r: Option<u8>)
    ensures
        r matches Some(v) ==> hex_value(c) == Some(v as int),
        r is None ==> hex_value(c) is None,
{
    if '0' <= c && c <= '9' {
        Some((c as u32 - '0' as u32) as u8)
    } else if 'a' <= c && c <= 'f' {
        Some((c as u32 - 'a' as u32 + 10) as u8)
    } else if 'A' <= c && c <= 'F' {
        Some((c as u32 - 'A' as u32 + 10) as u8)
    } else {
        None
    }
}

/// The byte written by two hexadecimal digits.
pub fn hex_pair_exec(hi: char, lo: char) -> (r: Option<u8>)
    ensures
        r matches Some(v) ==> hex_pair(hi, lo) == Some(v as int),
        r is None ==> hex_pair(hi, lo) is None,
{
    match (hex_value_exec(hi), hex_value_exec(lo)) {
        (Some(a), Some(b)) => Some(16 * a + b),
        _ => None,
    }
}

/// Each lowercase digit reads back as its own value.
pub proof fn lemma_hex_digit_value(i: int)
    requires
        0 <= i < 16,
    ensures
        hex_value(hex_digits()[i]) == Some(i),
{
    let d = hex_digits();
    assert(d[0] == '0' && d[1] == '1' && d[2] == '2' && d[3] == '3');
    assert(d[4] == '4' && d[5] == '5' && d[6] == '6' && d[7] == '7');
    assert(d[8] == '8' && d[9] == '9' && d[10] == 'a' && d[11] == 'b');
    assert(d[12] == 'c' && d[13] == 'd' && d[14] == 'e' && d[15] == 'f');
}

/// The two digits written for a byte read back as that byte.
pub proof fn lemma_byte_hex_round_trip(n: int)
    requires
        0 <= n < 256,
    ensures
        byte_hex(n).len() == 2,
        hex_pair(byte_hex(n)[0], byte_hex(n)[1]) == Some(n),
{
    lemma_hex_digit_value(n / 16);
    lemma_hex_digit_value(n % 16);
}

} // verus!
