use otp::cipher::Direction;
use otp::codec::transform_data;
use otp::keygen::generate_key;
use otp::message::{interleave_buffers, validate_buffer};

fn one_chunk(stream: &str, direction: Direction) -> String {
    let mut buf = vec![0u8; stream.len()];
    let (_, n) = transform_data(stream.as_bytes(), &mut buf, None, '@', direction);
    String::from_utf8(buf[..n].to_vec()).unwrap()
}

#[test]
fn accepts_symbols_and_trailing_newlines() {
    assert_eq!(validate_buffer("HELLO WORLD"), Ok(()));
    assert_eq!(validate_buffer("HELLO WORLD\n"), Ok(()));
    assert_eq!(validate_buffer("ABC\n\n"), Ok(()));
    assert_eq!(validate_buffer(""), Ok(()));
}

#[test]
fn names_the_first_invalid_byte() {
    assert_eq!(
        validate_buffer("HELLO world"),
        Err("Invalid character 'w' (byte: 119) at position 6".to_string())
    );
    assert_eq!(
        validate_buffer("AB\nC"),
        Err("Invalid character '\n' (byte: 10) at position 2".to_string())
    );
    assert_eq!(
        validate_buffer("$"),
        Err("Invalid character '$' (byte: 36) at position 0".to_string())
    );
}

#[test]
fn interleaves_data_then_key() {
    assert_eq!(interleave_buffers("CAT", "XYZ"), "CXAYTZ");
    assert_eq!(interleave_buffers("AB", "XYZ"), "AXBY");
    assert_eq!(interleave_buffers("ABC", "X"), "AX");
    assert_eq!(interleave_buffers("", "XYZ"), "");
}

#[test]
fn hello_world_round_trip() {
    let key = "XMCKLXMCKLX";
    let cipher = one_chunk(&interleave_buffers("HELLO WORLD", key), Direction::Encrypt);
    assert_eq!(cipher, "DQNVZWHQAW ");
    let plain = one_chunk(&interleave_buffers(&cipher, key), Direction::Decrypt);
    assert_eq!(plain, "HELLO WORLD");
}

#[test]
fn another_key_gives_another_well_formed_cipher() {
    let cipher = one_chunk(&interleave_buffers("HELLO WORLD", "ABCDEFGHIJK"), Direction::Encrypt);
    assert_eq!(cipher, "HFNOSEBVZUN");
    assert_ne!(cipher, "DQNVZWHQAW ");
    assert_eq!(cipher.len(), 11);
    assert_eq!(validate_buffer(&cipher), Ok(()));
}

#[test]
fn round_trip_with_a_longer_key() {
    let key = "QWERTY UIOPASDFG";
    let cipher = one_chunk(&interleave_buffers("ATTACK AT DAWN", key), Direction::Encrypt);
    assert_eq!(cipher.len(), 14);
    let plain = one_chunk(&interleave_buffers(&cipher, key), Direction::Decrypt);
    assert_eq!(plain, "ATTACK AT DAWN");
}

#[test]
fn generated_keys_have_the_length_asked_for() {
    let key = generate_key(500);
    assert_eq!(key.len(), 500);
    assert_eq!(validate_buffer(&key), Ok(()));
    assert_eq!(generate_key(0), "");
}
