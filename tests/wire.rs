use bittorrent::bitfield::BitField;
use bittorrent::connection::{
    check_handshake_reply, process_message, request_blocks, ConnectionState, HandshakeError,
    MessageResult, SendError, MAX_IN_PROGRESS_REQUESTS_PER_CONNECTION,
};
use bittorrent::messages::{Handshake, HandshakeParseError, Message, MessageParseError};
use bittorrent::torrent::{PieceIndexOffsetLength, Torrent};
use bittorrent::util::{attach_bytes, read_be_u32};

#[test]
fn reads_big_endian_words_and_advances() {
    let bytes: Vec<u8> = vec![0, 0, 1, 2, 0xff, 0xff, 0xff, 0xff, 9];
    let mut input: &[u8] = &bytes;
    assert_eq!(read_be_u32(&mut input), Some(258));
    assert_eq!(read_be_u32(&mut input), Some(u32::MAX));
    assert_eq!(input, &[9]);
    assert_eq!(read_be_u32(&mut input), None);
    assert_eq!(input, &[9]);
}

#[test]
fn attaches_parts_in_order() {
    let a: &[u8] = &[1, 2];
    let b: &[u8] = &[];
    let c: &[u8] = &[3];
    assert_eq!(attach_bytes(&[a, b, c]), vec![1, 2, 3]);
}

#[test]
fn serializes_messages() {
    assert_eq!(Message::KeepAlive.serialize(), vec![0, 0, 0, 0]);
    assert_eq!(Message::Choke.serialize(), vec![0, 0, 0, 1, 0]);
    assert_eq!(Message::UnChoke.serialize(), vec![0, 0, 0, 1, 1]);
    assert_eq!(Message::Interested.serialize(), vec![0, 0, 0, 1, 2]);
    assert_eq!(Message::NotInterested.serialize(), vec![0, 0, 0, 1, 3]);
    assert_eq!(Message::Have { index: 258 }.serialize(), vec![0, 0, 0, 5, 4, 0, 0, 1, 2]);
    assert_eq!(Message::BitField(vec![0xf0]).serialize(), vec![0, 0, 0, 2, 5, 0xf0]);
    assert_eq!(
        Message::Request { index: 1, begin: 16384, length: 16384 }.serialize(),
        vec![0, 0, 0, 13, 6, 0, 0, 0, 1, 0, 0, 0x40, 0, 0, 0, 0x40, 0]
    );
    assert_eq!(
        Message::Piece { index: 2, offset: 3, data: vec![7, 8] }.serialize(),
        vec![0, 0, 0, 11, 7, 0, 0, 0, 2, 0, 0, 0, 3, 7, 8]
    );
    assert_eq!(
        Message::Cancel { index: 1, begin: 2, length: 3 }.serialize(),
        vec![0, 0, 0, 13, 8, 0, 0, 0, 1, 0, 0, 0, 2, 0, 0, 0, 3]
    );
}

#[test]
fn parses_what_it_serializes() {
    let messages = vec![
        Message::Choke,
        Message::UnChoke,
        Message::Interested,
        Message::NotInterested,
        Message::Have { index: 77 },
        Message::BitField(vec![1, 2, 3]),
        Message::Request { index: 1, begin: 2, length: 3 },
        Message::Piece { index: 4, offset: 16384, data: vec![9; 20] },
        Message::Cancel { index: 5, begin: 6, length: 7 },
    ];
    for m in messages {
        let bytes = m.serialize();
        let mut input: &[u8] = &bytes;
        let prefix_len = read_be_u32(&mut input).unwrap();
        assert_eq!(Message::new(input, prefix_len).unwrap(), m);
    }
    assert_eq!(Message::new(&[], 0).unwrap(), Message::KeepAlive);
}

#[test]
fn short_or_unknown_frames_are_refused() {
    assert_eq!(Message::new(&[4, 0, 0], 3), Err(MessageParseError::Have));
    assert_eq!(Message::new(&[6, 0, 0, 0, 1], 5), Err(MessageParseError::Request));
    assert_eq!(Message::new(&[7, 0, 0, 0, 1, 0, 0, 0], 8), Err(MessageParseError::Piece));
    assert_eq!(Message::new(&[8], 1), Err(MessageParseError::Cancel));
    assert_eq!(Message::new(&[9], 1), Err(MessageParseError::Id(9)));
    assert_eq!(
        Message::new(&[7, 0, 0, 0, 1, 0, 0, 0, 2], 9).unwrap(),
        Message::Piece { index: 1, offset: 2, data: vec![] }
    );
}

#[test]
fn benign_read_errors() {
    assert!(MessageParseError::WouldBlock.is_benign());
    assert!(MessageParseError::TimedOut.is_benign());
    assert!(!MessageParseError::ConnectionReset.is_benign());
    assert!(!MessageParseError::UnexpectedEof.is_benign());
}

fn handshake_bytes(info_hash: &[u8], peer_id: &[u8]) -> Vec<u8> {
    Handshake { info_hash: info_hash.to_vec(), peer_id: peer_id.to_vec() }.serialize()
}

#[test]
fn handshake_frame_layout() {
    let bytes = handshake_bytes(&[1; 20], &[2; 20]);
    assert_eq!(bytes.len(), 68);
    assert_eq!(bytes[0], 19);
    assert_eq!(&bytes[1..20], b"BitTorrent protocol");
    assert_eq!(&bytes[20..28], &[0; 8]);
    assert_eq!(&bytes[28..48], &[1; 20]);
    assert_eq!(&bytes[48..68], &[2; 20]);
    let parsed = Handshake::new(&bytes).unwrap();
    assert_eq!(parsed.info_hash, vec![1; 20]);
    assert_eq!(parsed.peer_id, vec![2; 20]);
}

#[test]
fn malformed_handshakes() {
    let bytes = handshake_bytes(&[1; 20], &[2; 20]);
    assert_eq!(Handshake::new(&[]).unwrap_err(), HandshakeParseError::PStrLen);
    assert_eq!(Handshake::new(&bytes[..10]).unwrap_err(), HandshakeParseError::PStr);
    assert_eq!(Handshake::new(&bytes[..25]).unwrap_err(), HandshakeParseError::ReservedBytes);
    assert_eq!(Handshake::new(&bytes[..40]).unwrap_err(), HandshakeParseError::InfoHash);
    assert_eq!(Handshake::new(&bytes[..60]).unwrap_err(), HandshakeParseError::PeerId);
    let mut not_text = bytes.clone();
    not_text[1] = 0xff;
    assert_eq!(Handshake::new(&not_text).unwrap_err(), HandshakeParseError::PStr);
}

#[test]
fn handshake_replies_are_checked() {
    let reply = handshake_bytes(&[1; 20], &[2; 20]);
    assert_eq!(check_handshake_reply(&reply, &[1; 20], Some(&[2; 20])), Ok(()));
    assert_eq!(check_handshake_reply(&reply, &[1; 20], None), Ok(()));
    assert_eq!(
        check_handshake_reply(&reply, &[3; 20], None),
        Err(SendError::UnexpectedInfoHashOrPeerId)
    );
    assert_eq!(
        check_handshake_reply(&reply, &[1; 20], Some(&[4; 20])),
        Err(SendError::UnexpectedInfoHashOrPeerId)
    );
    assert_eq!(
        check_handshake_reply(&reply[..30], &[1; 20], None),
        Err(SendError::HandshakeParse)
    );
}

#[test]
fn connection_follows_choke_and_interest() {
    let mut t = Torrent::new(4, 16384, 65536);
    let mut c = ConnectionState::new();
    assert!(c.is_choked && !c.is_local_interested && c.bitfield.is_none());

    let (r, out) = process_message(&mut t, &mut c, Message::KeepAlive);
    assert_eq!((r, out), (MessageResult::Accepted, vec![Message::KeepAlive]));

    let (r, out) = process_message(&mut t, &mut c, Message::BitField(vec![0b1010_0000]));
    assert_eq!((r, out), (MessageResult::Accepted, vec![Message::Interested]));
    assert!(c.is_local_interested);

    let (r, out) = process_message(&mut t, &mut c, Message::Have { index: 1 });
    assert_eq!((r, out), (MessageResult::Accepted, vec![]));
    assert_eq!(c.bitfield.as_ref().unwrap().is_set(1), Ok(true));

    let (r, _) = process_message(&mut t, &mut c, Message::Have { index: 4 });
    assert_eq!(r, MessageResult::BadPeerHave);

    let (r, out) = process_message(&mut t, &mut c, Message::UnChoke);
    assert_eq!(r, MessageResult::Accepted);
    assert!(!c.is_choked);
    assert_eq!(
        out,
        vec![
            Message::Request { index: 0, begin: 0, length: 16384 },
            Message::Request { index: 1, begin: 0, length: 16384 },
            Message::Request { index: 2, begin: 0, length: 16384 },
        ]
    );
    assert_eq!(c.in_progress_requests, 3);

    let (r, out) = process_message(
        &mut t,
        &mut c,
        Message::Piece { index: 1, offset: 0, data: vec![5; 16384] },
    );
    assert_eq!((r, out), (MessageResult::Accepted, vec![]));
    assert_eq!(c.in_progress_requests, 2);

    let (r, _) = process_message(
        &mut t,
        &mut c,
        Message::Piece { index: 1, offset: 0, data: vec![] },
    );
    assert_eq!(r, MessageResult::BadPeerPiece);
    let (r, _) = process_message(
        &mut t,
        &mut c,
        Message::Piece { index: 3, offset: 0, data: vec![1] },
    );
    assert_eq!(r, MessageResult::Accepted);
    assert_eq!(c.in_progress_requests, 1);

    let (r, _) = process_message(&mut t, &mut c, Message::Request { index: 9, begin: 0, length: 1 });
    assert_eq!(r, MessageResult::BadPeerRequest);
    let (r, _) = process_message(&mut t, &mut c, Message::Request { index: 0, begin: 0, length: 1 });
    assert_eq!(r, MessageResult::Accepted);

    let (r, out) = process_message(&mut t, &mut c, Message::Choke);
    assert_eq!((r, out), (MessageResult::Accepted, vec![]));
    assert!(c.is_choked);
    assert!(request_blocks(&mut t, &mut c).is_empty());
}

#[test]
fn request_pipeline_is_capped() {
    let mut t = Torrent::new(20, 16384, 20 * 16384);
    let mut c = ConnectionState::new();
    c.bitfield = Some(BitField::new(vec![0xff, 0xff, 0xff]));
    c.is_choked = false;
    let out = request_blocks(&mut t, &mut c);
    assert_eq!(out.len(), MAX_IN_PROGRESS_REQUESTS_PER_CONNECTION);
    assert_eq!(c.in_progress_requests, MAX_IN_PROGRESS_REQUESTS_PER_CONNECTION);
    assert!(request_blocks(&mut t, &mut c).is_empty());
    assert_eq!(
        t.get_next_block(c.bitfield.as_ref().unwrap()).map(|PieceIndexOffsetLength(p, _, _)| p < 20),
        Some(true)
    );
}

#[test]
fn handshake_failures_map_to_setup_errors() {
    assert_eq!(HandshakeError::TcpWrite.send_error(), SendError::Write);
    assert_eq!(
        HandshakeError::TcpReturnHandshakeRead([0; 68]).send_error(),
        SendError::ReturnHandshakeRead
    );
}

#[test]
fn have_sets_one_bit_and_keeps_the_others() {
    let mut t = Torrent::new(16, 16384, 16 * 16384);
    let mut c = ConnectionState::new();
    let _ = process_message(&mut t, &mut c, Message::BitField(vec![0b1000_0001, 0]));
    let (r, out) = process_message(&mut t, &mut c, Message::Have { index: 9 });
    assert_eq!((r, out), (MessageResult::Accepted, vec![]));
    let bf = c.bitfield.as_ref().unwrap();
    for bit in 0..16 {
        assert_eq!(bf.is_set(bit), Ok(bit == 0 || bit == 7 || bit == 9));
    }
    assert!(c.is_choked);
    assert_eq!(c.in_progress_requests, 0);
}
