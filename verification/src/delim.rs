//! Decoding a human-supplied delimiter string into its raw byte sequence.
//!
//! The decoder works over the string's UTF-8 bytes. A backslash introduces an
//! escape: `\n`, `\r`, `\t` and `\0` stand for their control bytes, `\xHH` for
//! the byte with hex value `HH`, and any other escaped byte for itself. A `\x`
//! not followed by two hex digits is no escape: the backslash passes through
//! by itself and decoding resumes at the `x`.

use vstd::prelude::*;
use vstd::string::StringSliceAdditionalSpecFns;

verus! {

/// The byte is an ASCII hexadecimal digit.
pub open spec fn is_hex_digit(b: u8) -> bool {
    (48 <= b <= 57) || (97 <= b <= 102) || (65 <= b <= 70)
}

/// The value of an ASCII hexadecimal digit.
pub open spec fn hex_val(b: u8) -> u8
    recommends
        is_hex_digit(b),
{
    if 48 <= b <= 57 {
        (b - 48) as u8
    } else if 97 <= b <= 102 {
        (b - 97 + 10) as u8
    } else {
        (b - 65 + 10) as u8
    }
}

/// The decoded bytes of the delimiter string's bytes from position `i` on.
pub open spec fn parse_delim_spec(s: Seq<u8>, i: int) -> Seq<u8>
    decreases s.len() - i,
{
    if i < 0 || i >= s.len() {
        Seq::empty()
    } else if s[i] == 92 && i + 1 < s.len() {
        let c = s[i + 1];
        if c == 110 {
            seq![10u8] + parse_delim_spec(s, i + 2)
        } else if c == 114 {
            seq![13u8] + parse_delim_spec(s, i + 2)
        } else if c == 116 {
            seq![9u8] + parse_delim_spec(s, i + 2)
        } else if c == 48 {
            seq![0u8] + parse_delim_spec(s, i + 2)
        } else if c == 120 {
            if i + 3 < s.len() && is_hex_digit(s[i + 2]) && is_hex_digit(s[i + 3]) {
                seq![(hex_val(s[i + 2]) * 16 + hex_val(s[i + 3])) as u8] + parse_delim_spec(
                    s,
                    i + 4,
                )
            } else {
                seq![92u8] + parse_delim_spec(s, i + 1)
            }
        } else {
            seq![c] + parse_delim_spec(s, i + 2)
        }
    } else {
        seq![s[i]] + parse_delim_spec(s, i + 1)
    }
}

fn is_hex_digit_exec(b: u8) -> (r: bool)
    ensures
        r == is_hex_digit(b),
{
    (48 <= b && b <= 57) || (97 <= b && b <= 102) || (65 <= b && b <= 70)
}

fn hex_val_exec(b: u8) -> (r: u8)
    requires
        is_hex_digit(b),
    ensures
        r == hex_val(b),
{
    if 48 <= b && b <= 57 {
        b - 48
    } else if 97 <= b && b <= 102 {
        b - 97 + 10
    } else {
        b - 65 + 10
    }
}

/// Decodes a delimiter string's escape sequences into the raw bytes the
/// scanner matches against.
pub fn parse_delimiter(delim: &str) -> (r: Vec<u8>)
    ensures
        r@ == parse_delim_spec(delim.spec_bytes(), 0),
{
    let bytes = delim.as_bytes();
    let n = bytes.len();
    let ghost s = bytes@;
    let mut r: Vec<u8> = Vec::new();
    let mut i: usize = 0;
    while i < n
        invariant
            i <= n,
            n == s.len(),
            s == bytes@,
            parse_delim_spec(s, 0) == r@ + parse_delim_spec(s, i as int),
        decreases n - i,
    {
        let ghost r0 = r@;
        let ghost i0 = i as int;
        if bytes[i] == 92 && n - i > 1 {
            let c = bytes[i + 1];
            if c == 110 {
                r.push(10);
                i += 2;
            } else if c == 114 {
                r.push(13);
                i += 2;
            } else if c == 116 {
                r.push(9);
                i += 2;
            } else if c == 48 {
                r.push(0);
                i += 2;
            } else if c == 120 {
                if n - i > 3 && is_hex_digit_exec(bytes[i + 2]) && is_hex_digit_exec(
                    bytes[i + 3],
                ) {
                    let hi = hex_val_exec(bytes[i + 2]);
                    let lo = hex_val_exec(bytes[i + 3]);
                    r.push(hi * 16 + lo);
                    i += 4;
                } else {
                    r.push(92);
                    i += 1;
                }
            } else {
                r.push(c);
                i += 2;
            }
        } else {
            r.push(bytes[i]);
            i += 1;
        }
        proof {
            assert(r@ =~= r0 + (parse_delim_spec(s, i0).take(1)));
            assert(parse_delim_spec(s, i0) =~= parse_delim_spec(s, i0).take(1)
                + parse_delim_spec(s, i as int));
            assert(r0 + parse_delim_spec(s, i0) =~= r@ + parse_delim_spec(s, i as int));
        }
    }
    r
}

} // verus!
