use bittorrent::download::{AvailabilityError, Download};
use bittorrent::peer::{
    block_from_piece, block_layout, frame_length, place_block, request_message, retry_block,
    Handshake, Message, MessageTag, Peer, PeerError, BLOCK_SIZE,
};
use bittorrent::torrent::Torrent;
use bittorrent::tracker::PeerAddr;
use sha1::{Digest, Sha1};

fn addr() -> PeerAddr {
    PeerAddr { ip: [127, 0, 0, 1], port: 6881 }
}

fn reply(info_hash: [u8; 20], reserved5: u8) -> Vec<u8> {
    let mut h = Handshake::new(info_hash, *b"-TR2940-k8hj0wgej6ch");
    h.reserved[5] = reserved5;
    h.to_bytes()
}

#[test]
fn base_handshake_reports_peer_id_and_extension_bit() {
    let hash = [3u8; 20];
    let p = Peer::handshake(addr(), hash, &reply(hash, 0x10)).unwrap();
    assert_eq!(&p.id, b"-TR2940-k8hj0wgej6ch");
    assert!(p.supports_extension);
    assert!(p.choked);
    assert!(!p.interested);
    let q = Peer::handshake(addr(), hash, &reply(hash, 0x00)).unwrap();
    assert!(!q.supports_extension);
    let r = Peer::handshake(addr(), hash, &reply(hash, 0xEF)).unwrap();
    assert!(!r.supports_extension);
}

#[test]
fn handshake_echo_must_match() {
    let hash = [3u8; 20];
    let other = [4u8; 20];
    assert!(matches!(Peer::handshake(addr(), hash, &reply(other, 0x10)), Err(PeerError::WrongInfoHash)));
    let mut bad = reply(hash, 0x10);
    bad[3] = b'x';
    assert!(matches!(Peer::handshake(addr(), hash, &bad), Err(PeerError::BadHandshake)));
    assert!(matches!(Peer::handshake(addr(), hash, &bad[..67]), Err(PeerError::BadHandshake)));
}

#[test]
fn handshake_bytes_layout() {
    let b = Handshake::new([1u8; 20], [2u8; 20]).to_bytes();
    assert_eq!(b.len(), 68);
    assert_eq!(b[0], 19);
    assert_eq!(&b[1..20], b"BitTorrent protocol");
    assert_eq!(&b[20..28], &[0, 0, 0, 0, 0, 0x10, 0, 0]);
    assert_eq!(&b[28..48], &[1u8; 20]);
    assert_eq!(&b[48..68], &[2u8; 20]);
    let h = Handshake::from_bytes(&b).unwrap();
    assert!(h.supports_extension());
}

#[test]
fn message_framing() {
    let m = Message::new(MessageTag::Interested, vec![]);
    assert_eq!(m.as_bytes(), vec![0, 0, 0, 1, 2]);
    let r = request_message(1, 16384, 16384);
    assert_eq!(r.as_bytes(), vec![0, 0, 0, 13, 6, 0, 0, 0, 1, 0, 0, 0x40, 0, 0, 0, 0x40, 0]);
    assert_eq!(frame_length(&[0, 0, 0x40, 9]), 16393);
    let m = Message::from_body(&[7, 1, 2]).unwrap();
    assert_eq!(m.id, MessageTag::Piece);
    assert_eq!(m.payload, vec![1, 2]);
    assert_eq!(m.length, 3);
    assert!(Message::from_body(&[]).is_none());
    assert_eq!(Message::from_body(&[99]).unwrap().id, MessageTag::Unknown(99));
    assert_eq!(MessageTag::from_byte(20), MessageTag::Extended);
    assert_eq!(MessageTag::Extended.to_byte(), 20);
}

#[test]
fn bitfield_lists_claimed_pieces() {
    let hash = [3u8; 20];
    let mut p = Peer::handshake(addr(), hash, &reply(hash, 0)).unwrap();
    let m = Message::from_body(&[5, 0b1010_0000, 0b0000_0001]).unwrap();
    let pieces = p.get_pieces(&m).unwrap();
    assert_eq!(pieces, vec![0, 2, 15]);
    assert!(p.has_piece(2));
    assert!(!p.has_piece(1));
    let not_bitfield = Message::from_body(&[1]).unwrap();
    assert!(matches!(p.get_pieces(&not_bitfield), Err(PeerError::UnexpectedMessage)));
}

#[test]
fn unchoke_is_awaited() {
    let hash = [3u8; 20];
    let mut p = Peer::handshake(addr(), hash, &reply(hash, 0)).unwrap();
    let m = p.interested();
    assert_eq!(m.id, MessageTag::Interested);
    assert!(p.interested);
    assert!(!p.await_unchoke(&Message::from_body(&[4, 0, 0, 0, 1]).unwrap()));
    assert!(p.choked);
    assert!(p.await_unchoke(&Message::from_body(&[1]).unwrap()));
    assert!(!p.choked);
}

#[test]
fn blocks_split_a_piece() {
    assert_eq!(block_layout(16384), vec![(0, 16384)]);
    assert_eq!(block_layout(40000), vec![(0, 16384), (16384, 16384), (32768, 7232)]);
    assert!(block_layout(0).is_empty());
    assert_eq!(BLOCK_SIZE, 16384);
}

#[test]
fn piece_message_must_answer_the_request() {
    let mut body = vec![7, 0, 0, 0, 2, 0, 0, 0x40, 0];
    body.extend([9u8; 5]);
    let m = Message::from_body(&body).unwrap();
    assert_eq!(block_from_piece(&m, 2, 16384, 5).unwrap(), vec![9u8; 5]);
    assert!(matches!(block_from_piece(&m, 3, 16384, 5), Err(PeerError::BadPayload)));
    assert!(matches!(block_from_piece(&m, 2, 0, 5), Err(PeerError::BadPayload)));
    assert!(matches!(block_from_piece(&m, 2, 16384, 6), Err(PeerError::BadPayload)));
    let choke = Message::from_body(&[0]).unwrap();
    assert!(matches!(block_from_piece(&choke, 2, 16384, 5), Err(PeerError::UnexpectedMessage)));
}

#[test]
fn blocks_are_placed_by_offset() {
    let mut piece = vec![0u8; 6];
    place_block(&mut piece, 4, &[5, 6]);
    place_block(&mut piece, 0, &[1, 2, 3, 4]);
    assert_eq!(piece, vec![1, 2, 3, 4, 5, 6]);
}

fn single_piece_torrent(payload: &[u8]) -> Torrent {
    let mut info = Vec::new();
    info.extend(b"d6:lengthi16384e4:name1:x12:piece lengthi16384e6:pieces20:".iter());
    info.extend(Sha1::digest(payload).iter());
    info.push(b'e');
    let mut m = b"d8:announce16:http://t.example4:info".to_vec();
    m.extend(info);
    m.push(b'e');
    Torrent::new(&m).unwrap()
}

#[test]
fn single_piece_download() {
    let payload: Vec<u8> = (0..16384u32).map(|i| (i % 251) as u8).collect();
    let t = single_piece_torrent(&payload);
    let layout = block_layout(t.info.piece_size(0));
    assert_eq!(layout, vec![(0, 16384)]);
    let request = request_message(0, 0, 16384);
    assert_eq!(request.payload, vec![0, 0, 0, 0, 0, 0, 0, 0, 0, 0, 0x40, 0]);
    // the mock peer answers with one PIECE message
    let mut body = vec![7, 0, 0, 0, 0, 0, 0, 0, 0];
    body.extend(&payload);
    let answer = Message::from_body(&body).unwrap();
    let data = block_from_piece(&answer, 0, 0, 16384).unwrap();
    let mut piece = vec![0u8; 16384];
    place_block(&mut piece, 0, &data);
    assert!(t.info.verify_piece(0, &piece));
    let mut d = Download::new(&t.info, &vec![vec![0]]).unwrap();
    assert_eq!(d.pending(), vec![0]);
    assert_eq!(d.choose_peer(0), 0);
    assert!(d.complete_piece(0, &piece));
    assert!(d.is_complete());
    assert_eq!(d.file_bytes, payload);
    assert_eq!(d.finish(), Some(payload));
}

#[test]
fn corrupt_piece_stays_pending() {
    let payload = vec![1u8; 16384];
    let t = single_piece_torrent(&payload);
    let mut d = Download::new(&t.info, &vec![vec![0], vec![0]]).unwrap();
    assert!(!d.complete_piece(0, &vec![2u8; 16384]));
    assert!(!d.complete_piece(0, &vec![1u8; 100]));
    assert_eq!(d.pending(), vec![0]);
    assert!(!d.is_complete());
    assert!(d.file_bytes.iter().all(|b| *b == 0));
    assert!(d.choose_peer(0) < 2);
    assert_eq!(d.finish(), None);
}

#[test]
fn download_needs_peers_holding_every_piece() {
    let t = single_piece_torrent(&[1u8; 16384]);
    assert!(matches!(Download::new(&t.info, &vec![]), Err(AvailabilityError::NoPeers)));
    assert!(matches!(Download::new(&t.info, &vec![vec![3]]), Err(AvailabilityError::NoAvailability)));
    let d = Download::new(&t.info, &vec![vec![3], vec![0]]).unwrap();
    assert_eq!(d.holders.get(&0), Some(&vec![1]));
    assert_eq!(d.holders.len(), 1);
}

#[test]
fn blocks_are_tried_three_times() {
    assert!(retry_block(1));
    assert!(retry_block(2));
    assert!(!retry_block(3));
}
