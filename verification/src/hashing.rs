use vstd::prelude::*;

use std::collections::hash_map::DefaultHasher;
use vstd::std_specs::hash::DefaultHasherAdditionalSpecFns;
use vstd::string::StringExecFns;

verus! {

/// The 64-bit fingerprint of a path string: the standard hasher is fed the
/// UTF-8 bytes of the string followed by a single 0xff terminator byte, the
/// same byte stream that hashing a `str` value feeds it.
pub open spec fn hash_u64_of(s: Seq<char>) -> u64 {
    DefaultHasher::spec_finish(seq![vstd::utf8::encode_utf8(s), seq![0xffu8]])
}

/// The uppercase hexadecimal digit for a value below 16.
pub open spec fn hex_digit_char(d: u64) -> char {
    if d == 0 {
        '0'
    } else if d == 1 {
        '1'
    } else if d == 2 {
        '2'
    } else if d == 3 {
        '3'
    } else if d == 4 {
        '4'
    } else if d == 5 {
        '5'
    } else if d == 6 {
        '6'
    } else if d == 7 {
        '7'
    } else if d == 8 {
        '8'
    } else if d == 9 {
        '9'
    } else if d == 10 {
        'A'
    } else if d == 11 {
        'B'
    } else if d == 12 {
        'C'
    } else if d == 13 {
        'D'
    } else if d == 14 {
        'E'
    } else {
        'F'
    }
}

/// The uppercase hexadecimal digits of `n`, most significant first,
/// with no digits at all for zero.
pub open spec fn hex_digits_of(n: u64) -> Seq<char>
    decreases n,
{
    if n == 0 {
        Seq::<char>::empty()
    } else {
        hex_digits_of(n / 16).push(hex_digit_char(n % 16))
    }
}

/// The uppercase hexadecimal rendering of `n`, as `{:X}` formatting
/// produces it: no leading zeros, and a single `0` for zero.
pub open spec fn hex_upper_of(n: u64) -> Seq<char> {
    if n == 0 {
        seq!['0']
    } else {
        hex_digits_of(n)
    }
}

/// The textual hash key of a path string.
pub open spec fn hash_hex_of(s: Seq<char>) -> Seq<char> {
    hex_upper_of(hash_u64_of(s))
}

/// The uppercase hexadecimal digit for `d`, as a one-character string slice.
fn hex_digit_str(d: u64) -> (r: &'static str)
    requires
        d < 16,
    ensures
        r@ == seq![hex_digit_char(d)],
{
    proof {
        reveal_strlit("0");
        reveal_strlit("1");
        reveal_strlit("2");
        reveal_strlit("3");
        reveal_strlit("4");
        reveal_strlit("5");
        reveal_strlit("6");
        reveal_strlit("7");
        reveal_strlit("8");
        reveal_strlit("9");
        reveal_strlit("A");
        reveal_strlit("B");
        reveal_strlit("C");
        reveal_strlit("D");
        reveal_strlit("E");
        reveal_strlit("F");
    }
    let r: &'static str = match d {
        0 => "0",
        1 => "1",
        2 => "2",
        3 => "3",
        4 => "4",
        5 => "5",
        6 => "6",
        7 => "7",
        8 => "8",
        9 => "9",
        10 => "A",
        11 => "B",
        12 => "C",
        13 => "D",
        14 => "E",
        _ => "F",
    };
    proof {
        assert(r@ =~= seq![hex_digit_char(d)]);
    }
    r
}

/// Renders `n` in uppercase hexadecimal without leading zeros,
/// exactly as `{:X}` formatting would.
pub fn to_hex_upper(n: u64) -> (r: String)
    ensures
        r@ == hex_upper_of(n),
{
    if n == 0 {
        proof {
            reveal_strlit("0");
        }
        let zero: String = "0".to_owned();
        proof {
            assert(zero@ =~= hex_upper_of(0));
        }
        return zero;
    }
    let mut rest: u64 = n;
    let mut r: String = String::new();
    while rest > 0
        invariant
            hex_digits_of(rest) + r@ =~= hex_digits_of(n),
        decreases rest,
    {
        let d: u64 = rest % 16;
        let ds: &str = hex_digit_str(d);
        proof {
            assert(hex_digits_of(rest) =~= hex_digits_of(rest / 16) + seq![hex_digit_char(d)]);
            assert(hex_digits_of(rest / 16) + (ds@ + r@) =~= hex_digits_of(rest / 16) + seq![
                hex_digit_char(d),
            ] + r@);
        }
        r = ds.to_owned().concat(r.as_str());
        rest = rest / 16;
    }
    proof {
        assert(r@ =~= hex_upper_of(n));
    }
    r
}

} // verus!
