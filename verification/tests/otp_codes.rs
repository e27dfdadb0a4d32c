use credentials_helper::errors::TokenError;
use credentials_helper::otp::{challenge_bytes, decode_code, pow10};

#[test]
fn decodes_the_boundary_example() {
    // 0x000F4240 is 1_000_000; modulo 10^6 that is 0, zero padded.
    assert_eq!(decode_code(6, &[0x00, 0x0F, 0x42, 0x40]), Ok(b"000000".to_vec()));
}

#[test]
fn zero_pads_small_values() {
    assert_eq!(decode_code(6, &[0, 0, 0, 7]), Ok(b"000007".to_vec()));
    assert_eq!(decode_code(8, &[0, 0, 0, 0]), Ok(b"00000000".to_vec()));
}

#[test]
fn keeps_only_the_low_digits() {
    // 0x075BCD15 is 123456789.
    assert_eq!(decode_code(6, &[0x07, 0x5B, 0xCD, 0x15]), Ok(b"456789".to_vec()));
    assert_eq!(decode_code(8, &[0x07, 0x5B, 0xCD, 0x15]), Ok(b"23456789".to_vec()));
    assert_eq!(decode_code(9, &[0x07, 0x5B, 0xCD, 0x15]), Ok(b"123456789".to_vec()));
}

#[test]
fn rejects_bad_lengths_and_digit_counts() {
    assert_eq!(decode_code(6, &[1, 2, 3]), Err(TokenError::DeviceError));
    assert_eq!(decode_code(6, &[1, 2, 3, 4, 5]), Err(TokenError::DeviceError));
    assert_eq!(decode_code(0, &[1, 2, 3, 4]), Err(TokenError::DeviceError));
    assert_eq!(decode_code(10, &[1, 2, 3, 4]), Err(TokenError::DeviceError));
}

#[test]
fn challenge_is_the_big_endian_time_step() {
    assert_eq!(challenge_bytes(0), vec![0u8; 8]);
    assert_eq!(challenge_bytes(59), vec![0, 0, 0, 0, 0, 0, 0, 1]);
    assert_eq!(challenge_bytes(1718452800), vec![0, 0, 0, 0, 0x03, 0x6A, 0x0C, 0xE0]);
}

#[test]
fn powers_of_ten() {
    assert_eq!(pow10(0), 1);
    assert_eq!(pow10(1), 10);
    assert_eq!(pow10(9), 1000000000);
}
