use otp::codec::{chunk_ends_stream, decrypt_data, encrypt_data, transform_data};
use otp::cipher::Direction;
use otp::message::interleave_buffers;

fn run_chunks(stream: &[u8], sizes: &[usize], direction: Direction) -> (Vec<u8>, Option<char>) {
    let mut out = Vec::new();
    let mut carry = None;
    let mut start = 0;
    for &n in sizes {
        let chunk = &stream[start..start + n];
        start += n;
        let mut buf = [0u8; 1000];
        let (next, written) = transform_data(chunk, &mut buf, carry, '@', direction);
        out.extend_from_slice(&buf[..written]);
        carry = next;
    }
    assert_eq!(start, stream.len());
    (out, carry)
}

#[test]
fn encrypts_a_whole_chunk() {
    let mut buf = [7u8; 8];
    let (carry, n) = encrypt_data(b"CXAYTZ", &mut buf, None, '$');
    assert_eq!(carry, None);
    assert_eq!(n, 3);
    assert_eq!(&buf[..3], b"ZYR");
    assert!(buf[3..].iter().all(|&b| b == 0));
}

#[test]
fn decrypts_a_whole_chunk() {
    let mut buf = [0u8; 8];
    let (carry, n) = decrypt_data(b"CXAYTZ", &mut buf, None, '@');
    assert_eq!(carry, None);
    assert_eq!(&buf[..n], b"GDV");
}

#[test]
fn odd_chunk_carries_its_last_byte() {
    let mut buf = [0u8; 4];
    let (carry, n) = encrypt_data(b"CXA", &mut buf, None, '$');
    assert_eq!(n, 1);
    assert_eq!(&buf[..1], b"Z");
    assert_eq!(carry, Some('A'));
    let (carry, n) = encrypt_data(b"YTZ", &mut buf, carry, '$');
    assert_eq!(carry, None);
    assert_eq!(&buf[..n], b"YR");
}

#[test]
fn empty_chunk_keeps_the_carry() {
    let mut buf = [0u8; 2];
    let (carry, n) = decrypt_data(b"", &mut buf, Some('Q'), '@');
    assert_eq!(n, 0);
    assert_eq!(carry, Some('Q'));
}

#[test]
fn sentinel_ends_the_chunk() {
    let mut buf = [0u8; 8];
    let (carry, n) = decrypt_data(b"CXA@YTZ", &mut buf, None, '@');
    assert_eq!(&buf[..n], b"G");
    assert_eq!(carry, None);
    assert!(buf.iter().skip(n).all(|&b| b == 0));
}

#[test]
fn sentinel_in_a_key_position_ends_the_chunk() {
    let mut buf = [0u8; 8];
    let (carry, n) = encrypt_data(b"CXA$YT", &mut buf, None, '$');
    assert_eq!(&buf[..n], b"Z");
    assert_eq!(carry, None);
}

#[test]
fn sentinel_after_a_carried_byte_drops_it() {
    let mut buf = [0u8; 8];
    let (carry, n) = encrypt_data(b"$XY", &mut buf, Some('A'), '$');
    assert_eq!(n, 0);
    assert_eq!(carry, None);
}

#[test]
fn sentinel_as_last_byte_is_not_carried() {
    let mut buf = [0u8; 8];
    let (carry, n) = encrypt_data(b"CX$", &mut buf, None, '$');
    assert_eq!(&buf[..n], b"Z");
    assert_eq!(carry, None);
}

#[test]
fn pairs_with_a_non_symbol_are_skipped() {
    let mut buf = [0u8; 8];
    let (carry, n) = encrypt_data(b"CXaYTZ", &mut buf, None, '$');
    assert_eq!(carry, None);
    assert_eq!(&buf[..n], b"ZR");
}

#[test]
fn one_byte_chunks_match_one_chunk() {
    let stream = interleave_buffers("CAT", "XYZ");
    let bytes = stream.as_bytes();
    assert_eq!(bytes.len(), 6);
    let whole = run_chunks(bytes, &[6], Direction::Encrypt);
    let split = run_chunks(bytes, &[1, 1, 1, 1, 1, 1], Direction::Encrypt);
    assert_eq!(whole, (b"ZYR".to_vec(), None));
    assert_eq!(split, whole);
}

#[test]
fn every_split_of_a_stream_matches_one_chunk() {
    let stream = interleave_buffers("HELLO WORLD", "XMCKLXMCKLX");
    let mut bytes = stream.into_bytes();
    bytes.push(b'@');
    let whole = run_chunks(&bytes, &[bytes.len()], Direction::Decrypt);
    for first in 1..bytes.len() {
        for second in 1..bytes.len() - first {
            let third = bytes.len() - first - second;
            let sizes = [first, second, third];
            assert_eq!(run_chunks(&bytes, &sizes, Direction::Decrypt), whole);
        }
    }
}

#[test]
fn bytes_after_the_sentinel_do_not_matter() {
    let mut a = [0u8; 8];
    let mut b = [0u8; 8];
    let ra = encrypt_data(b"CXAY$TZ", &mut a, Some('B'), '$');
    let rb = encrypt_data(b"CXAY$QQQ", &mut b, Some('B'), '$');
    assert_eq!(ra, rb);
    assert_eq!(a, b);
    assert_eq!(ra.0, None);
}

#[test]
fn detects_the_sentinel_in_chunk_or_carry() {
    assert!(chunk_ends_stream(b"AB@", None, '@'));
    assert!(!chunk_ends_stream(b"AB$", None, '@'));
    assert!(chunk_ends_stream(b"", Some('@'), '@'));
    assert!(!chunk_ends_stream(b"", Some('A'), '@'));
}
