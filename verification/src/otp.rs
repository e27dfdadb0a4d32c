use vstd::prelude::*;
use crate::errors::TokenError;

verus! {

/// 10 to the power `n`.
pub open spec fn spec_pow10(n: nat) -> int
    decreases n,
{
    if n == 0 {
        1
    } else {
        10 * spec_pow10((n - 1) as nat)
    }
}

/// 10 to the power `n`, for the digit counts a token can report.
pub fn pow10(n: u8) -> (r: u64)
    requires
        n <= 9,
    ensures
        r == spec_pow10(n as nat),
        1 <= r <= 1000000000,
{
    let r: u64 = if n == 0 {
        1
    } else if n == 1 {
        10
    } else if n == 2 {
        100
    } else if n == 3 {
        1000
    } else if n == 4 {
        10000
    } else if n == 5 {
        100000
    } else if n == 6 {
        1000000
    } else if n == 7 {
        10000000
    } else if n == 8 {
        100000000
    } else {
        1000000000
    };
    proof {
        reveal_with_fuel(spec_pow10, 11);
    }
    r
}

/// Big-endian bytes of a 64-bit value.
pub open spec fn spec_be64(v: u64) -> Seq<u8> {
    seq![
        (v >> 56) as u8,
        (v >> 48) as u8,
        (v >> 40) as u8,
        (v >> 32) as u8,
        (v >> 24) as u8,
        (v >> 16) as u8,
        (v >> 8) as u8,
        v as u8,
    ]
}

/// The authentication challenge: the number of whole 30-second steps
/// since the Unix epoch, encoded as 8 bytes big endian.
pub fn challenge_bytes(now_secs: i64) -> (r: Vec<u8>)
    requires
        now_secs >= 0,
    ensures
        r@.len() == 8,
        r@ == spec_be64((now_secs as int / 30) as u64),
{
    let step: u64 = (now_secs as u64) / 30;
    let mut out: Vec<u8> = Vec::new();
    out.push((step >> 56) as u8);
    out.push((step >> 48) as u8);
    out.push((step >> 40) as u8);
    out.push((step >> 32) as u8);
    out.push((step >> 24) as u8);
    out.push((step >> 16) as u8);
    out.push((step >> 8) as u8);
    out.push(step as u8);
    proof {
        assert(out@ =~= spec_be64(step));
    }
    out
}

/// The big-endian 32-bit value held in a 4-byte response.
pub open spec fn spec_be32(s: Seq<u8>) -> int {
    s[0] * 0x1000000 + s[1] * 0x10000 + s[2] * 0x100 + s[3]
}

/// Decimal digits of `v`, zero padded to `width` characters.
pub open spec fn spec_decimal(v: int, width: nat) -> Seq<u8> {
    Seq::new(width, |i: int| (48 + (v / spec_pow10((width - 1 - i) as nat)) % 10) as u8)
}

/// The rendered one-time code for a raw 4-byte response: its 32-bit
/// value reduced modulo 10^digits, zero padded to `digits` characters.
pub open spec fn spec_code(digits: u8, raw: Seq<u8>) -> Seq<u8> {
    spec_decimal(spec_be32(raw) % spec_pow10(digits as nat), digits as nat)
}

/// Decodes a device response into the decimal one-time code.
///
/// A well-formed response has exactly 4 bytes and declares between 1
/// and 9 digits; anything else is reported as a device error rather
/// than a code.
pub fn decode_code(digits: u8, raw: &[u8]) -> (r: Result<Vec<u8>, TokenError>)
    ensures
        1 <= digits <= 9 && raw@.len() == 4 ==> (r matches Ok(code) && code@ == spec_code(
            digits,
            raw@,
        )),
        !(1 <= digits <= 9 && raw@.len() == 4) ==> r == Err::<Vec<u8>, TokenError>(
            TokenError::DeviceError,
        ),
{
    if !(1 <= digits && digits <= 9 && raw.len() == 4) {
        return Err(TokenError::DeviceError);
    }
    let value: u32 = (raw[0] as u32) * 0x1000000 + (raw[1] as u32) * 0x10000 + (raw[2] as u32)
        * 0x100 + (raw[3] as u32);
    let modulus: u32 = pow10(digits) as u32;
    let code_val: u32 = value % modulus;
    let ghost v: int = spec_be32(raw@) % spec_pow10(digits as nat);
    proof {
        assert(code_val == v);
    }
    let mut out: Vec<u8> = Vec::new();
    let mut i: u8 = 0;
    while i < digits
        invariant
            1 <= digits <= 9,
            i <= digits,
            code_val == v,
            0 <= v,
            out@.len() == i,
            forall|j: int|
                0 <= j < i ==> out@[j] == (48 + (v / spec_pow10((digits - 1 - j) as nat))
                    % 10) as u8,
        decreases digits - i,
    {
        let place: u32 = pow10(digits - 1 - i) as u32;
        let digit: u32 = (code_val / place) % 10;
        out.push(48 + (digit as u8));
        i += 1;
    }
    proof {
        assert(out@ =~= spec_code(digits, raw@));
    }
    Ok(out)
}

} // verus!
