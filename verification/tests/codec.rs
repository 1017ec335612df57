//! Wire codec tests: action classification, decoding, and response layouts.

use rotten::action::Action;
use rotten::parser::{DecodeError, Event, Frame, Parser};

fn header(connection_id: u64, action: u32, transaction_id: u32) -> Vec<u8> {
    let mut buf = Vec::new();
    buf.extend_from_slice(&connection_id.to_be_bytes());
    buf.extend_from_slice(&action.to_be_bytes());
    buf.extend_from_slice(&transaction_id.to_be_bytes());
    buf
}

#[test]
fn test_action_connect() {
    let buf = header(0x41727101980, 0, 123);
    let action = Action::new(&buf);
    assert_eq!(Action::Connect, action);
}

#[test]
fn test_action_announce() {
    let buf = header(0x41727101980, 1, 123);
    let action = Action::new(&buf);
    assert_eq!(Action::Announce, action);
}

#[test]
fn test_action_scrape() {
    let buf = header(0x41727101980, 2, 123);
    let action = Action::new(&buf);
    assert_eq!(Action::Scrape, action);
}

#[test]
fn test_action_error() {
    let buf = header(0x41727101980, 3, 123);
    let action = Action::new(&buf);
    assert_eq!(Action::Error, action);
}

#[test]
fn too_short_datagrams_decode_to_too_short() {
    for len in 0..16 {
        let buf: Vec<u8> = vec![0xAB; len];
        let parser = Parser::new(buf);
        assert_eq!(parser.parse(), Err(DecodeError::TooShort));
    }
}

#[test]
fn connect_datagram_decodes_to_its_fields() {
    let buf = header(0x41727101980, 0, 0x0000007B);
    let parser = Parser::new(buf);
    match parser.parse() {
        Ok(Frame::Connect { connection_id, transaction_id }) => {
            assert_eq!(connection_id, 0x41727101980);
            assert_eq!(transaction_id, 0x7B);
        }
        other => panic!("expected a connect frame, got {:?}", other),
    }
}

#[test]
fn connect_with_trailing_bytes_is_wrong_length() {
    let mut buf = header(0x41727101980, 0, 123);
    buf.push(0);
    let parser = Parser::new(buf);
    assert_eq!(parser.parse(), Err(DecodeError::WrongLength));
}

#[test]
fn unknown_action_code_is_bad_action() {
    let buf = header(0x41727101980, 7, 123);
    let parser = Parser::new(buf);
    assert_eq!(parser.parse(), Err(DecodeError::BadAction));
}

fn announce_datagram(
    connection_id: u64,
    transaction_id: u32,
    info_hash: [u8; 20],
    peer_id: [u8; 20],
    downloaded: u64,
    left: u64,
    uploaded: u64,
    event: u32,
    ip: u32,
    key: u32,
    num_want: i32,
    port: u16,
) -> Vec<u8> {
    let mut buf = header(connection_id, 1, transaction_id);
    buf.extend_from_slice(&info_hash);
    buf.extend_from_slice(&peer_id);
    buf.extend_from_slice(&downloaded.to_be_bytes());
    buf.extend_from_slice(&left.to_be_bytes());
    buf.extend_from_slice(&uploaded.to_be_bytes());
    buf.extend_from_slice(&event.to_be_bytes());
    buf.extend_from_slice(&ip.to_be_bytes());
    buf.extend_from_slice(&key.to_be_bytes());
    buf.extend_from_slice(&num_want.to_be_bytes());
    buf.extend_from_slice(&port.to_be_bytes());
    buf
}

#[test]
fn announce_datagram_decodes_to_its_fields() {
    let buf = announce_datagram(
        0xDEADBEEF,
        42,
        [1; 20],
        [2; 20],
        300,
        400,
        500,
        2,
        0x7F000001,
        9,
        -1,
        6881,
    );
    assert_eq!(buf.len(), 98);
    let parser = Parser::new(buf);
    match parser.parse() {
        Ok(Frame::Announce {
            connection_id,
            transaction_id,
            info_hash,
            peer_id,
            downloaded,
            left,
            uploaded,
            event,
            ip_address,
            key,
            num_want,
            port,
        }) => {
            assert_eq!(connection_id, 0xDEADBEEF);
            assert_eq!(transaction_id, 42);
            assert_eq!(info_hash, vec![1u8; 20]);
            assert_eq!(peer_id, vec![2u8; 20]);
            assert_eq!(downloaded, 300);
            assert_eq!(left, 400);
            assert_eq!(uploaded, 500);
            assert_eq!(event, Event::Started);
            assert_eq!(ip_address, 0x7F000001);
            assert_eq!(key, 9);
            assert_eq!(num_want, -1);
            assert_eq!(port, 6881);
        }
        other => panic!("expected an announce frame, got {:?}", other),
    }
}

#[test]
fn announce_of_97_bytes_is_wrong_length() {
    let mut buf = announce_datagram(1, 2, [0; 20], [0; 20], 0, 0, 0, 0, 0, 0, 0, 0);
    buf.pop();
    let parser = Parser::new(buf);
    assert_eq!(parser.parse(), Err(DecodeError::WrongLength));
}

#[test]
fn scrape_datagram_decodes_hashes_in_order() {
    let mut buf = header(5, 2, 77);
    buf.extend_from_slice(&[0xAA; 20]);
    buf.extend_from_slice(&[0xBB; 20]);
    let parser = Parser::new(buf);
    match parser.parse() {
        Ok(Frame::Scrape { connection_id, transaction_id, info_hashes }) => {
            assert_eq!(connection_id, 5);
            assert_eq!(transaction_id, 77);
            assert_eq!(info_hashes.len(), 2);
            assert_eq!(info_hashes[0], vec![0xAAu8; 20]);
            assert_eq!(info_hashes[1], vec![0xBBu8; 20]);
        }
        other => panic!("expected a scrape frame, got {:?}", other),
    }
}

#[test]
fn scrape_with_no_hash_is_wrong_length() {
    let buf = header(5, 2, 77);
    let parser = Parser::new(buf);
    assert_eq!(parser.parse(), Err(DecodeError::WrongLength));
}

#[test]
fn scrape_with_ragged_tail_is_wrong_length() {
    let mut buf = header(5, 2, 77);
    buf.extend_from_slice(&[0xAA; 20]);
    buf.extend_from_slice(&[0xBB; 7]);
    let parser = Parser::new(buf);
    assert_eq!(parser.parse(), Err(DecodeError::WrongLength));
}

#[test]
fn event_codes_map_as_the_protocol_says() {
    assert_eq!(Event::from(0), Event::NoEvent);
    assert_eq!(Event::from(1), Event::Completed);
    assert_eq!(Event::from(2), Event::Started);
    assert_eq!(Event::from(3), Event::Stopped);
    assert_eq!(Event::from(4), Event::NoEvent);
    assert_eq!(Event::from(0xFFFF_FFFF), Event::NoEvent);
}

#[test]
fn scrape_cap_is_seventy_four_hashes() {
    let mut ok = header(5, 2, 77);
    for _ in 0..74 {
        ok.extend_from_slice(&[0xCC; 20]);
    }
    let parser = Parser::new(ok);
    match parser.parse() {
        Ok(Frame::Scrape { info_hashes, .. }) => assert_eq!(info_hashes.len(), 74),
        other => panic!("expected a scrape frame, got {:?}", other),
    }

    let mut over = header(5, 2, 77);
    for _ in 0..75 {
        over.extend_from_slice(&[0xCC; 20]);
    }
    let parser = Parser::new(over);
    assert_eq!(parser.parse(), Err(DecodeError::WrongLength));
}
