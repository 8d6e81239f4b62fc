use bittorrent_core::{announce_url_bytes, build_url, decode_all, extract, parse_peers, parse_response, PeerAddress, TorrentError};

fn response(peers: &[u8]) -> Vec<u8> {
    let mut b = format!("d8:intervali1800e5:peers{}:", peers.len()).into_bytes();
    b.extend_from_slice(peers);
    b.push(b'e');
    b
}

#[test]
fn decodes_compact_peer() {
    let peers = parse_peers(&[127, 0, 0, 1, 0x1A, 0xE1]).unwrap();
    assert_eq!(peers, vec![PeerAddress { ip: [127, 0, 0, 1], port: 6881 }]);
    assert_eq!(peers[0].to_text(), "127.0.0.1:6881");
}

#[test]
fn decodes_two_peers_in_order() {
    let peers = parse_peers(&[127, 0, 0, 1, 0x1A, 0xE1, 10, 20, 255, 0, 0xFF, 0xFF]).unwrap();
    assert_eq!(peers.len(), 2);
    assert_eq!(peers[1], PeerAddress { ip: [10, 20, 255, 0], port: 65535 });
    assert_eq!(peers[1].to_text(), "10.20.255.0:65535");
}

#[test]
fn rejects_partial_peer_record() {
    assert_eq!(parse_peers(&[1, 2, 3, 4, 5, 6, 7]), Err(TorrentError::InvalidLength));
}

#[test]
fn parses_tracker_reply() {
    let r = parse_response(&response(&[127, 0, 0, 1, 0x1A, 0xE1, 192, 168, 0, 2, 0, 80])).unwrap();
    assert_eq!(r.interval, 1800);
    assert_eq!(r.peers[0].to_text(), "127.0.0.1:6881");
    assert_eq!(r.peers[1].to_text(), "192.168.0.2:80");
}

#[test]
fn reply_errors() {
    assert_eq!(parse_response(b"li1ee").err(), Some(TorrentError::MalformedResponse));
    assert_eq!(parse_response(b"d8:intervali1ee").err(), Some(TorrentError::MissingField));
    assert_eq!(parse_response(b"d5:peers0:e").err(), Some(TorrentError::MissingField));
    assert_eq!(parse_response(b"d8:intervali1e5:peersi3ee").err(), Some(TorrentError::TypeMismatch));
    assert_eq!(parse_response(&response(&[1, 2, 3])).err(), Some(TorrentError::InvalidLength));
    assert_eq!(parse_response(b"d8:interval").err(), Some(TorrentError::UnexpectedEnd));
}

fn sample_torrent() -> Vec<u8> {
    let mut b = b"d8:announce31:http://tracker.example/announce4:infod6:lengthi92063e4:name10:sample.txt12:piece lengthi32768e6:pieces40:".to_vec();
    b.extend(0u8..40);
    b.extend(b"ee");
    b
}

#[test]
fn builds_announce_url() {
    let t = extract(&decode_all(&sample_torrent()).unwrap()).unwrap();
    let url = build_url(&t, b"00112233445566778899", 6881).unwrap();
    assert_eq!(
        url,
        "http://tracker.example/announce?info_hash=E%0A%0E%A4i%C5%A5x%9F%2C%28%86J%19P%B0%E9%1C%8D~&peer_id=00112233445566778899&port=6881&uploaded=0&downloaded=0&left=92063&compact=1"
    );
}

#[test]
fn escapes_binary_peer_id() {
    let t = extract(&decode_all(&sample_torrent()).unwrap()).unwrap();
    let url = String::from_utf8(announce_url_bytes(&t, &[0, 65, 126, 255, 32], 1)).unwrap();
    assert!(url.contains("&peer_id=%00A~%FF%20&port=1&"));
}

#[test]
fn non_utf8_tracker_url_is_reported() {
    let mut t = extract(&decode_all(&sample_torrent()).unwrap()).unwrap();
    t.announce_url = vec![0xff];
    assert_eq!(build_url(&t, b"00112233445566778899", 6881), Err(TorrentError::InvalidUtf8));
}
