use bittorrent::tracker::{announce_url, TrackerError, TrackerRequest, TrackerResponse};

#[test]
fn tracker_compact_parse() {
    let mut body = b"d8:intervali60e5:peers12:".to_vec();
    body.extend([0x0A, 0x00, 0x00, 0x01, 0x1A, 0xE1, 0x0A, 0x00, 0x00, 0x02, 0x1A, 0xE1]);
    body.push(b'e');
    let r = TrackerResponse::from_bytes(&body).unwrap();
    assert_eq!(r.interval, Some(60));
    let peers = r.peers();
    assert_eq!(peers.len(), 2);
    assert_eq!(peers[0].ip, [10, 0, 0, 1]);
    assert_eq!(peers[0].port, 6881);
    assert_eq!(peers[1].ip, [10, 0, 0, 2]);
    assert_eq!(peers[1].port, 6881);
}

#[test]
fn tracker_partial_group_is_ignored() {
    let r = TrackerResponse { interval: None, peers: vec![1, 2, 3, 4, 0, 80, 9, 9] };
    let peers = r.peers();
    assert_eq!(peers.len(), 1);
    assert_eq!(peers[0].port, 80);
}

#[test]
fn tracker_response_errors() {
    assert!(matches!(TrackerResponse::from_bytes(b"d5:peers"), Err(TrackerError::Decode(_))));
    assert!(matches!(TrackerResponse::from_bytes(b"d8:intervali60ee"), Err(TrackerError::Invalid)));
    assert!(matches!(TrackerResponse::from_bytes(b"d8:intervali-1e5:peers0:e"), Err(TrackerError::Invalid)));
    let r = TrackerResponse::from_bytes(b"d5:peers0:e").unwrap();
    assert_eq!(r.interval, None);
    assert!(r.peers().is_empty());
}

#[test]
fn request_has_random_digit_peer_id() {
    let r = TrackerRequest::new(98304);
    assert_eq!(r.peer_id.len(), 20);
    assert!(r.peer_id.chars().all(|c| c.is_ascii_digit()));
    assert_eq!(r.port, 6881);
    assert_eq!(r.left, 98304);
    assert_eq!(r.compact, 1);
}

#[test]
fn announce_url_encodes_the_info_hash() {
    let mut r = TrackerRequest::new(10);
    r.peer_id = "00112233445566778899".to_string();
    let mut hash = [0u8; 20];
    hash[0] = 0xd6;
    hash[1] = b'A';
    hash[2] = b' ';
    hash[3] = b'~';
    hash[4] = b'-';
    hash[5] = b'.';
    hash[6] = b'z';
    let url = announce_url("http://t.example/announce", &r, &hash).unwrap();
    assert_eq!(
        url,
        "http://t.example/announce?peer_id=00112233445566778899&port=6881&uploaded=0&downloaded=0&left=10&compact=1&info_hash=%D6A%20%7E%2D%2Ez%00%00%00%00%00%00%00%00%00%00%00%00%00"
    );
    assert!(announce_url("udp://t.example:80", &r, &hash).is_none());
}
