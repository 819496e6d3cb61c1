//! Percent-decoding and percent-encoding of bytes, with exact
//! specifications.
//!
//! Decoding: a `%` followed by two hexadecimal digits (either case) stands
//! for one byte; any other byte, including a `%` not followed by two
//! hexadecimal digits, stands for itself.
//!
//! Encoding uses the path percent-encode rule: a byte is written as `%`
//! plus two uppercase hexadecimal digits when it is outside printable
//! ASCII or one of the few characters that would break a link line; every
//! other byte is written as itself.

use vstd::prelude::*;

verus! {

/// True of a byte that is an ASCII hexadecimal digit.
pub open spec fn is_hex_digit(b: u8) -> bool {
    (0x30 <= b && b <= 0x39) || (0x41 <= b && b <= 0x46) || (0x61 <= b && b <= 0x66)
}

/// Numeric value of an ASCII hexadecimal digit.
pub open spec fn hex_value(b: u8) -> u8 {
    if 0x30 <= b && b <= 0x39 {
        (b - 0x30) as u8
    } else if 0x41 <= b && b <= 0x46 {
        (b - 0x41 + 10) as u8
    } else {
        (b - 0x61 + 10) as u8
    }
}

/// What percent-decoding yields on a byte sequence.
pub open spec fn pdecode(s: Seq<u8>) -> Seq<u8>
    decreases s.len(),
{
    if s.len() == 0 {
        Seq::empty()
    } else if s[0] == 0x25 && s.len() >= 3 && is_hex_digit(s[1]) && is_hex_digit(s[2]) {
        seq![(hex_value(s[1]) * 16 + hex_value(s[2])) as u8] + pdecode(s.skip(3))
    } else {
        seq![s[0]] + pdecode(s.skip(1))
    }
}

/// True of a byte that the path encode rule replaces by an escape.
pub open spec fn must_encode(b: u8) -> bool {
    b >= 0x80 || b < 0x20 || b == 0x7f || b == 0x20 || b == 0x22 || b == 0x23 || b == 0x3c
        || b == 0x3e || b == 0x3f || b == 0x60 || b == 0x7b || b == 0x7d
}

/// Uppercase hexadecimal digit for a value below 16.
pub open spec fn hex_digit_upper(v: u8) -> u8 {
    if v < 10 {
        (0x30 + v) as u8
    } else {
        (0x41 + (v - 10)) as u8
    }
}

/// What the path encode rule writes for one byte.
pub open spec fn pencode_byte(b: u8) -> Seq<u8> {
    if must_encode(b) {
        seq![0x25u8, hex_digit_upper(b / 16), hex_digit_upper(b % 16)]
    } else {
        seq![b]
    }
}

/// What percent-encoding with the path encode rule yields on a byte
/// sequence.
pub open spec fn pencode(s: Seq<u8>) -> Seq<u8>
    decreases s.len(),
{
    if s.len() == 0 {
        Seq::empty()
    } else {
        pencode_byte(s[0]) + pencode(s.skip(1))
    }
}

fn hex_digit_value(b: u8) -> (r: Option<u8>)
    ensures
        r is Some <==> is_hex_digit(b),
        r matches Some(v) ==> v == hex_value(b) && v < 16,
{
    if 0x30 <= b && b <= 0x39 {
        Some(b - 0x30)
    } else if 0x41 <= b && b <= 0x46 {
        Some(b - 0x41 + 10)
    } else if 0x61 <= b && b <= 0x66 {
        Some(b - 0x61 + 10)
    } else {
        None
    }
}

/// Percent-decode a byte sequence.
pub fn percent_decode(s: &[u8]) -> (r: Vec<u8>)
    ensures
        r@ == pdecode(s@),
{
    let mut out: Vec<u8> = Vec::new();
    let mut i: usize = 0;
    proof {
        assert(s@.skip(0) =~= s@);
    }
    while i < s.len()
        invariant
            i <= s@.len(),
            pdecode(s@) == out@ + pdecode(s@.skip(i as int)),
        decreases s@.len() - i,
    {
        let b = s[i];
        proof {
            assert(s@.skip(i as int)[0] == s@[i as int]);
        }
        if b == 0x25 && s.len() - i >= 3 {
            let h = hex_digit_value(s[i + 1]);
            let l = hex_digit_value(s[i + 2]);
            proof {
                assert(s@.skip(i as int)[1] == s@[i + 1]);
                assert(s@.skip(i as int)[2] == s@[i + 2]);
            }
            match (h, l) {
                (Some(hv), Some(lv)) => {
                    out.push(hv * 16 + lv);
                    proof {
                        assert(s@.skip(i as int).skip(3) =~= s@.skip(i + 3));
                    }
                    i = i + 3;
                },
                _ => {
                    out.push(b);
                    proof {
                        assert(s@.skip(i as int).skip(1) =~= s@.skip(i + 1));
                    }
                    i = i + 1;
                },
            }
        } else {
            out.push(b);
            proof {
                assert(s@.skip(i as int).skip(1) =~= s@.skip(i + 1));
            }
            i = i + 1;
        }
    }
    proof {
        assert(s@.skip(s@.len() as int) =~= Seq::<u8>::empty());
        assert(out@ =~= pdecode(s@));
    }
    out
}

/// Percent-encode a byte sequence with the path encode rule.
pub fn percent_encode(s: &[u8]) -> (r: Vec<u8>)
    ensures
        r@ == pencode(s@),
{
    let mut out: Vec<u8> = Vec::new();
    let mut i: usize = 0;
    proof {
        assert(s@.skip(0) =~= s@);
    }
    while i < s.len()
        invariant
            i <= s@.len(),
            pencode(s@) == out@ + pencode(s@.skip(i as int)),
        decreases s@.len() - i,
    {
        let b = s[i];
        proof {
            assert(s@.skip(i as int)[0] == s@[i as int]);
        }
        if b >= 0x80 || b < 0x20 || b == 0x7f || b == 0x20 || b == 0x22 || b == 0x23 || b == 0x3c
            || b == 0x3e || b == 0x3f || b == 0x60 || b == 0x7b || b == 0x7d {
            out.push(0x25);
            let hi = b / 16;
            let lo = b % 16;
            out.push(if hi < 10 { 0x30 + hi } else { 0x41 + (hi - 10) });
            out.push(if lo < 10 { 0x30 + lo } else { 0x41 + (lo - 10) });
        } else {
            out.push(b);
        }
        proof {
            assert(s@.skip(i as int).skip(1) =~= s@.skip(i + 1));
        }
        i = i + 1;
    }
    proof {
        assert(s@.skip(s@.len() as int) =~= Seq::<u8>::empty());
        assert(out@ =~= pencode(s@));
    }
    out
}

} // verus!
