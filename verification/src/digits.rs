//! Verified digit formatting: fixed-width lowercase hexadecimal and
//! variable-width decimal renderings of unsigned integers, built character
//! by character with exact specifications.

use vstd::prelude::*;
use vstd::string::StringExecFns;

verus! {

/// The lowercase hexadecimal digit for a value below sixteen.
pub open spec fn hex_digit(n: int) -> char {
    if n == 0 {
        '0'
    } else if n == 1 {
        '1'
    } else if n == 2 {
        '2'
    } else if n == 3 {
        '3'
    } else if n == 4 {
        '4'
    } else if n == 5 {
        '5'
    } else if n == 6 {
        '6'
    } else if n == 7 {
        '7'
    } else if n == 8 {
        '8'
    } else if n == 9 {
        '9'
    } else if n == 10 {
        'a'
    } else if n == 11 {
        'b'
    } else if n == 12 {
        'c'
    } else if n == 13 {
        'd'
    } else if n == 14 {
        'e'
    } else {
        'f'
    }
}

/// The decimal digit for a value below ten.
pub open spec fn dec_digit(n: int) -> char {
    if n == 0 {
        '0'
    } else if n == 1 {
        '1'
    } else if n == 2 {
        '2'
    } else if n == 3 {
        '3'
    } else if n == 4 {
        '4'
    } else if n == 5 {
        '5'
    } else if n == 6 {
        '6'
    } else if n == 7 {
        '7'
    } else if n == 8 {
        '8'
    } else {
        '9'
    }
}

/// The eight-digit lowercase hexadecimal rendering of a 32-bit value.
pub open spec fn hex8(h: int) -> Seq<char> {
    seq![
        hex_digit((h / 0x10000000) % 16),
        hex_digit((h / 0x1000000) % 16),
        hex_digit((h / 0x100000) % 16),
        hex_digit((h / 0x10000) % 16),
        hex_digit((h / 0x1000) % 16),
        hex_digit((h / 0x100) % 16),
        hex_digit((h / 0x10) % 16),
        hex_digit(h % 16),
    ]
}

/// The decimal rendering of a nonnegative value, most significant digit
/// first, with no leading zeros (a lone zero renders as `"0"`).
pub open spec fn dec_str(n: int) -> Seq<char>
    decreases n,
{
    if n < 10 {
        seq![dec_digit(n)]
    } else {
        dec_str(n / 10).push(dec_digit(n % 10))
    }
}

fn push_hex_digit(s: &mut String, n: u32)
    requires
        n < 16,
    ensures
        final(s)@ == old(s)@.push(hex_digit(n as int)),
{
    proof {
        reveal_strlit("0");
        reveal_strlit("1");
        reveal_strlit("2");
        reveal_strlit("3");
        reveal_strlit("4");
        reveal_strlit("5");
        reveal_strlit("6");
        reveal_strlit("7");
        reveal_strlit("8");
        reveal_strlit("9");
        reveal_strlit("a");
        reveal_strlit("b");
        reveal_strlit("c");
        reveal_strlit("d");
        reveal_strlit("e");
        reveal_strlit("f");
    }
    match n {
        0 => s.append("0"),
        1 => s.append("1"),
        2 => s.append("2"),
        3 => s.append("3"),
        4 => s.append("4"),
        5 => s.append("5"),
        6 => s.append("6"),
        7 => s.append("7"),
        8 => s.append("8"),
        9 => s.append("9"),
        10 => s.append("a"),
        11 => s.append("b"),
        12 => s.append("c"),
        13 => s.append("d"),
        14 => s.append("e"),
        _ => s.append("f"),
    }
    proof {
        assert(final(s)@ =~= old(s)@.push(hex_digit(n as int)));
    }
}

fn push_dec_digit(s: &mut String, n: u64)
    requires
        n < 10,
    ensures
        final(s)@ == old(s)@.push(dec_digit(n as int)),
{
    proof {
        reveal_strlit("0");
        reveal_strlit("1");
        reveal_strlit("2");
        reveal_strlit("3");
        reveal_strlit("4");
        reveal_strlit("5");
        reveal_strlit("6");
        reveal_strlit("7");
        reveal_strlit("8");
        reveal_strlit("9");
    }
    match n {
        0 => s.append("0"),
        1 => s.append("1"),
        2 => s.append("2"),
        3 => s.append("3"),
        4 => s.append("4"),
        5 => s.append("5"),
        6 => s.append("6"),
        7 => s.append("7"),
        8 => s.append("8"),
        _ => s.append("9"),
    }
    proof {
        assert(final(s)@ =~= old(s)@.push(dec_digit(n as int)));
    }
}

/// Append the eight-digit lowercase hexadecimal rendering of `h`.
pub fn append_hex8(s: &mut String, h: u32)
    ensures
        final(s)@ == old(s)@ + hex8(h as int),
{
    push_hex_digit(s, (h / 0x10000000) % 16);
    push_hex_digit(s, (h / 0x1000000) % 16);
    push_hex_digit(s, (h / 0x100000) % 16);
    push_hex_digit(s, (h / 0x10000) % 16);
    push_hex_digit(s, (h / 0x1000) % 16);
    push_hex_digit(s, (h / 0x100) % 16);
    push_hex_digit(s, (h / 0x10) % 16);
    push_hex_digit(s, h % 16);
    proof {
        assert(final(s)@ =~= old(s)@ + hex8(h as int));
    }
}

/// The decimal rendering of a 64-bit value as a fresh string.
pub fn u64_to_decimal(n: u64) -> (s: String)
    ensures
        s@ == dec_str(n as int),
    decreases n,
{
    if n < 10 {
        let mut s = String::new();
        push_dec_digit(&mut s, n);
        proof {
            assert(s@ =~= dec_str(n as int));
        }
        s
    } else {
        let mut s = u64_to_decimal(n / 10);
        push_dec_digit(&mut s, n % 10);
        proof {
            assert(s@ =~= dec_str(n as int));
        }
        s
    }
}

} // verus!
