use otp::cipher::Direction;
use otp::client::ClientSession;
use otp::connection::{Connection, Phase};
use otp::message::interleave_buffers;

#[test]
fn matching_handshake_is_echoed() {
    let mut conn = Connection::new('@', '@', Direction::Decrypt);
    assert_eq!(conn.on_handshake(b'@'), Some(b'@'));
    assert_eq!(conn.phase, Phase::Active);
}

#[test]
fn wrong_sentinel_is_rejected_without_output() {
    let mut conn = Connection::new('@', '@', Direction::Decrypt);
    assert_eq!(conn.on_handshake(b'$'), None);
    assert_eq!(conn.phase, Phase::Closed);
    assert!(conn.on_chunk(b"CXAYTZ@").is_empty());
    assert_eq!(conn.phase, Phase::Closed);
}

#[test]
fn chunks_before_the_handshake_are_ignored() {
    let mut conn = Connection::new('$', '$', Direction::Encrypt);
    assert!(conn.on_chunk(b"CXAYTZ$").is_empty());
    assert_eq!(conn.phase, Phase::AwaitingHandshake);
}

#[test]
fn connection_transforms_and_closes_on_the_sentinel() {
    let mut conn = Connection::new('$', '$', Direction::Encrypt);
    assert_eq!(conn.on_handshake(b'$'), Some(b'$'));
    assert_eq!(conn.on_chunk(b"CXA"), b"Z".to_vec());
    assert_eq!(conn.carry, Some('A'));
    assert_eq!(conn.phase, Phase::Active);
    assert_eq!(conn.on_chunk(b"YTZ$"), b"YR$".to_vec());
    assert_eq!(conn.phase, Phase::Closed);
    assert_eq!(conn.carry, None);
    assert!(conn.on_chunk(b"AB").is_empty());
}

#[test]
fn connection_close_ends_it() {
    let mut conn = Connection::new('@', '@', Direction::Decrypt);
    conn.on_handshake(b'@');
    conn.close();
    assert_eq!(conn.phase, Phase::Closed);
    assert!(conn.on_chunk(b"AB").is_empty());
}

#[test]
fn client_sends_chunks_then_the_sentinel_once() {
    let mut session = ClientSession::new(b"ABCDEFGHIJ".to_vec(), b'$', 4);
    assert_eq!(session.next_outgoing(), b"ABCD".to_vec());
    assert!(!session.all_sent);
    assert_eq!(session.next_outgoing(), b"EFGH".to_vec());
    assert_eq!(session.next_outgoing(), b"IJ$".to_vec());
    assert!(session.all_sent);
    assert!(session.next_outgoing().is_empty());
    assert!(session.next_outgoing().is_empty());
}

#[test]
fn client_sends_the_sentinel_after_an_exact_last_chunk() {
    let mut session = ClientSession::new(b"ABCD".to_vec(), b'@', 2);
    assert_eq!(session.next_outgoing(), b"AB".to_vec());
    assert_eq!(session.next_outgoing(), b"CD@".to_vec());
    assert!(session.next_outgoing().is_empty());
}

#[test]
fn client_with_an_empty_stream_sends_only_the_sentinel() {
    let mut session = ClientSession::new(Vec::new(), b'@', 1000);
    assert_eq!(session.next_outgoing(), b"@".to_vec());
    assert!(session.next_outgoing().is_empty());
}

#[test]
fn client_checks_the_handshake_reply() {
    let session = ClientSession::new(Vec::new(), b'@', 1000);
    assert!(session.handshake_accepted(b"@"));
    assert!(!session.handshake_accepted(b"$"));
    assert!(!session.handshake_accepted(b""));
    assert!(!session.handshake_accepted(b"@@"));
}

#[test]
fn client_stops_at_the_servers_sentinel() {
    let mut session = ClientSession::new(Vec::new(), b'$', 1000);
    assert_eq!(session.on_incoming(b"ZY"), b"ZY".to_vec());
    assert!(!session.done);
    assert_eq!(session.on_incoming(b"R$"), b"R".to_vec());
    assert!(session.done);
}

#[test]
fn client_and_server_agree_end_to_end() {
    let stream = interleave_buffers("HELLO WORLD", "XMCKLXMCKLX").into_bytes();
    let mut client = ClientSession::new(stream, b'$', 5);
    let mut server = Connection::new('$', '$', Direction::Encrypt);
    assert_eq!(server.on_handshake(b'$'), Some(b'$'));
    assert!(client.handshake_accepted(&[b'$']));
    let mut shown = Vec::new();
    while !client.done {
        let out = client.next_outgoing();
        let reply = server.on_chunk(&out);
        shown.extend(client.on_incoming(&reply));
    }
    assert_eq!(shown, b"DQNVZWHQAW ".to_vec());
    assert_eq!(server.phase, Phase::Closed);
}
