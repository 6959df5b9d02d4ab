use bittorrent::bencode::{Bencodable, BencodeParseErrorType};
use bittorrent::tracker::{
    is_self_peer, parse_compact_peers, parse_ipv4, parse_peer_list, parse_tracker_response,
    random_string, tracker_announce_url, Peer, PeerAddr, TrackerPeer, TrackerResponseError,
};

fn addr_73() -> PeerAddr {
    PeerAddr::V4 { ip: [73, 140, 205, 84], port: 8999 }
}

#[test]
fn it_correctly_converts_bytes_to_ip_addrs() {
    let example: &[u8] = &[
        0x49 as u8, 0x8C as u8, 0xCD as u8, 0x54 as u8, 0x23 as u8, 0x27 as u8, 0x49 as u8,
        0x8C as u8, 0xCD as u8, 0x54 as u8, 0x23 as u8, 0x27 as u8,
    ];

    let actual = parse_compact_peers(example).unwrap();
    let expected = vec![TrackerPeer::SocketAddr(addr_73()), TrackerPeer::SocketAddr(addr_73())];

    assert_eq!(actual, expected);
}

#[test]
fn each_compact_entry_has_its_own_port() {
    let example: &[u8] = &[1, 2, 3, 4, 0, 80, 5, 6, 7, 8, 0x1f, 0x90];
    assert_eq!(
        parse_compact_peers(example).unwrap(),
        vec![
            TrackerPeer::SocketAddr(PeerAddr::V4 { ip: [1, 2, 3, 4], port: 80 }),
            TrackerPeer::SocketAddr(PeerAddr::V4 { ip: [5, 6, 7, 8], port: 8080 }),
        ]
    );
    assert_eq!(parse_compact_peers(&[1, 2, 3]), Err(TrackerResponseError::MisalignedPeers));
    assert_eq!(parse_compact_peers(&[]), Ok(vec![]));
}

#[test]
fn dotted_quads() {
    assert_eq!(parse_ipv4(b"73.140.205.84"), Some([73, 140, 205, 84]));
    assert_eq!(parse_ipv4(b"0.0.0.0"), Some([0, 0, 0, 0]));
    assert_eq!(parse_ipv4(b"255.255.255.255"), Some([255, 255, 255, 255]));
    assert_eq!(parse_ipv4(b"256.0.0.1"), None);
    assert_eq!(parse_ipv4(b"01.2.3.4"), None);
    assert_eq!(parse_ipv4(b"1.2.3"), None);
    assert_eq!(parse_ipv4(b"1.2.3.4.5"), None);
    assert_eq!(parse_ipv4(b"1..3.4"), None);
    assert_eq!(parse_ipv4(b"1.2.3.4 "), None);
    assert_eq!(parse_ipv4(b"1234.2.3.4"), None);
}

#[test]
fn structured_peer_lists() {
    let body = b"d5:peersld2:ip13:73.140.205.847:peer id20:abcdefghijklmnopqrst4:porti8999eeee";
    let peers = parse_tracker_response(body).unwrap();
    assert_eq!(
        peers,
        vec![TrackerPeer::Peer(Peer {
            socket_addr: addr_73(),
            id: b"abcdefghijklmnopqrst".to_vec(),
            id_advertised: true,
        })]
    );
    let bad = vec![Bencodable::Integer(3)];
    assert_eq!(
        parse_peer_list(&bad),
        Err(TrackerResponseError::UnexpectedBencodable(Bencodable::Integer(3)))
    );
}

#[test]
fn compact_response_body() {
    let mut body = b"d8:intervali1800e5:peers6:".to_vec();
    body.extend_from_slice(&[0x49, 0x8C, 0xCD, 0x54, 0x23, 0x27]);
    body.push(b'e');
    assert_eq!(
        parse_tracker_response(&body).unwrap(),
        vec![TrackerPeer::SocketAddr(addr_73())]
    );
}

#[test]
fn response_errors() {
    match parse_tracker_response(b"d5:peers") {
        Err(TrackerResponseError::BdecodeFailure(e)) => {
            assert_eq!(e.error_type, BencodeParseErrorType::ParseValue)
        }
        other => panic!("unexpected {:?}", other),
    }
    assert_eq!(
        parse_tracker_response(b"i5e"),
        Err(TrackerResponseError::UnexpectedBencodable(Bencodable::Integer(5)))
    );
    assert_eq!(parse_tracker_response(b"de"), Err(TrackerResponseError::NoPeerKey));
    assert_eq!(
        parse_tracker_response(b"d5:peers5:abcdee"),
        Err(TrackerResponseError::MisalignedPeers)
    );
    assert_eq!(
        parse_tracker_response(b"d5:peersi5ee"),
        Err(TrackerResponseError::NoPeerByteString { original_string: Bencodable::Integer(5) })
    );
}

#[test]
fn bare_addresses_get_a_random_id() {
    let peer = TrackerPeer::SocketAddr(addr_73()).into_peer();
    assert_eq!(peer.socket_addr, addr_73());
    assert_eq!(peer.id.len(), 20);
    assert!(peer.id.iter().all(|b| b.is_ascii_alphanumeric()));
    assert!(!peer.id_advertised);
    let id = random_string();
    assert_eq!(id.len(), 20);
    assert!(id.chars().all(|c| c.is_ascii_alphanumeric()));
}

#[test]
fn announce_url_percent_encodes_the_hash() {
    let url = tracker_announce_url("http://t.example/announce", &[0x12, b'a', 0xff, b' '], b"Z9");
    assert_eq!(url, "http://t.example/announce?info_hash=%12a%FF%20&peer_id=Z9");
}

#[test]
fn own_address_is_recognised() {
    let me = PeerAddr::V4 { ip: [127, 0, 0, 1], port: 8999 };
    assert!(is_self_peer(&me, 8999));
    assert!(!is_self_peer(&me, 9000));
    assert!(!is_self_peer(&addr_73(), 8999));
}
