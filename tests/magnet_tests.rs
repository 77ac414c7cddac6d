use bittorrent::magnet::{Magnet, MagnetError};
use bittorrent::metadata::{
    extension_handshake_message, metadata_from_pieces, metadata_piece, metadata_piece_count,
    metadata_request_message, MetadataError,
};
use bittorrent::peer::{Handshake, Message, MessageTag, Peer, PeerError};
use bittorrent::torrent::Torrent;
use bittorrent::tracker::PeerAddr;
use sha1::{Digest, Sha1};

const HASH_HEX: &str = "d69f91e6b2ae4c542468d1073a71d4ea13879a7f";

#[test]
fn magnet_parse() {
    let uri = format!(
        "magnet:?xt=urn:btih:{}&dn=sample.torrent&tr=http%3A%2F%2Fbittorrent-test-tracker.codecrafters.io%2Fannounce",
        HASH_HEX
    );
    let m = Magnet::new(&uri).unwrap();
    assert_eq!(hex::encode(m.info_hash), HASH_HEX);
    assert_eq!(m.file_name.as_deref(), Some("sample.torrent"));
    assert_eq!(
        m.tracker_url.as_deref(),
        Some("http://bittorrent-test-tracker.codecrafters.io/announce")
    );
}

#[test]
fn magnet_tracker_is_normalized_and_optional() {
    let m = Magnet::new(&format!("magnet:?xt=urn:btih:{}&tr=HTTP%3A%2F%2FExample.com", HASH_HEX)).unwrap();
    assert_eq!(m.tracker_url.as_deref(), Some("http://example.com/"));
    let m = Magnet::new(&format!("magnet:?xt=urn:btih:{}", HASH_HEX.to_uppercase())).unwrap();
    assert_eq!(hex::encode(m.info_hash), HASH_HEX);
    assert!(m.tracker_url.is_none());
    assert!(m.file_name.is_none());
}

#[test]
fn magnet_errors() {
    assert_eq!(Magnet::new("not a url").err(), Some(MagnetError::InvalidUrl));
    assert_eq!(Magnet::new(&format!("http://x/?xt=urn:btih:{}", HASH_HEX)).err(), Some(MagnetError::NotMagnet));
    assert_eq!(Magnet::new("magnet:?dn=x").err(), Some(MagnetError::MissingXt));
    assert_eq!(Magnet::new(&format!("magnet:?xt=urn:sha1:{}", HASH_HEX)).err(), Some(MagnetError::InvalidXt));
    assert_eq!(Magnet::new("magnet:?xt=urn:btih:abcd").err(), Some(MagnetError::InvalidInfoHash));
    assert_eq!(
        Magnet::new(&format!("magnet:?xt=urn:btih:{}zz", &HASH_HEX[..38])).err(),
        Some(MagnetError::InvalidInfoHash)
    );
    assert_eq!(
        Magnet::new(&format!("magnet:?xt=urn:btih:{}&tr=nope", HASH_HEX)).err(),
        Some(MagnetError::InvalidTracker)
    );
}

fn info_bytes() -> Vec<u8> {
    let mut pieces = Vec::new();
    for k in 0..3u8 {
        pieces.extend(Sha1::digest([k; 3]).iter());
    }
    let mut info = b"d6:lengthi98304e4:name8:test.txt12:piece lengthi32768e6:pieces60:".to_vec();
    info.extend(&pieces);
    info.push(b'e');
    info
}

fn large_info_bytes() -> Vec<u8> {
    let count = 900;
    let mut pieces = Vec::new();
    for k in 0..count as u32 {
        pieces.extend(Sha1::digest(k.to_be_bytes()).iter());
    }
    let length = 32768u64 * count as u64;
    let mut info = format!("d6:lengthi{}e4:name8:test.txt12:piece lengthi32768e6:pieces{}:", length, pieces.len()).into_bytes();
    info.extend(&pieces);
    info.push(b'e');
    info
}

fn reply_message(index: u32, total: usize, data: &[u8]) -> Message {
    let mut body = vec![20u8, 1];
    body.extend(format!("d8:msg_typei1e5:piecei{}e10:total_sizei{}ee", index, total).bytes());
    body.extend(data);
    Message::from_body(&body).unwrap()
}

#[test]
fn magnet_info_matches_metainfo() {
    let info = large_info_bytes();
    assert!(info.len() > 16384 && info.len() <= 32768);
    let hash: [u8; 20] = Sha1::digest(&info).into();
    let mut metainfo = b"d8:announce31:http://tracker.example/announce4:info".to_vec();
    metainfo.extend(&info);
    metainfo.push(b'e');
    let direct = Torrent::new(&metainfo).unwrap();

    let uri = format!(
        "magnet:?xt=urn:btih:{}&tr=http%3A%2F%2Ftracker.example%2Fannounce",
        hex::encode(hash)
    );
    let magnet = Magnet::new(&uri).unwrap();
    // the mock peer: extension bit set, then the extension handshake
    let reply = {
        let mut h = Handshake::new(hash, *b"-TR2940-k8hj0wgej6ch");
        h.reserved[5] = 0x10;
        h.to_bytes()
    };
    let mut peer = Peer::handshake(PeerAddr { ip: [10, 0, 0, 1], port: 6881 }, magnet.info_hash, &reply).unwrap();
    assert!(peer.supports_extension);
    let mut ext = vec![20u8, 0];
    ext.extend(format!("d1:md11:ut_metadatai16ee13:metadata_sizei{}ee", info.len()).bytes());
    let size = peer.on_extension_handshake(&Message::from_body(&ext).unwrap()).unwrap();
    assert_eq!(size, Some(info.len() as i64));
    assert_eq!(peer.metadata_extension_id, Some(16));

    let count = metadata_piece_count(info.len());
    assert_eq!(count, 2);
    let mut pieces = Vec::new();
    for i in 0..count {
        let req = metadata_request_message(16, i as u32);
        assert_eq!(req.id, MessageTag::Extended);
        assert_eq!(req.payload[0], 16);
        let chunk = &info[i * 16384..std::cmp::min(info.len(), (i + 1) * 16384)];
        let (total, data) = metadata_piece(&reply_message(i as u32, info.len(), chunk), i as u32).unwrap();
        assert_eq!(total as usize, info.len());
        pieces.push(data);
    }
    let metadata = metadata_from_pieces(&pieces, info.len(), &magnet.info_hash).unwrap();
    let t = Torrent::from_magnet_and_metadata(magnet, metadata).unwrap();
    assert_eq!(t.announce, direct.announce);
    assert_eq!(t.len(), direct.len());
    assert_eq!(t.info.piece_length, direct.info.piece_length);
    assert_eq!(t.info_hash(), direct.info_hash());
    assert_eq!(t.pieces(), direct.pieces());
}

#[test]
fn metadata_request_payload() {
    let m = metadata_request_message(3, 1);
    let mut expected = vec![3u8];
    expected.extend(b"d8:msg_typei0e5:piecei1ee");
    assert_eq!(m.payload, expected);
    let h = extension_handshake_message();
    let mut expected = vec![0u8];
    expected.extend(b"d1:md11:ut_metadatai1eee");
    assert_eq!(h.payload, expected);
    assert_eq!(h.id, MessageTag::Extended);
}

#[test]
fn metadata_checks() {
    let info = info_bytes();
    let hash: [u8; 20] = Sha1::digest(&info).into();
    let pieces = vec![info.clone()];
    assert!(metadata_from_pieces(&pieces, info.len(), &hash).is_ok());
    assert_eq!(metadata_from_pieces(&pieces, info.len() + 1, &hash).err(), Some(MetadataError::SizeMismatch));
    assert_eq!(metadata_from_pieces(&pieces, info.len(), &[0u8; 20]).err(), Some(MetadataError::HashMismatch));
    let junk = vec![b"i1e".to_vec()];
    let junk_hash: [u8; 20] = Sha1::digest(b"i1e").into();
    assert!(matches!(metadata_from_pieces(&junk, 3, &junk_hash), Err(MetadataError::Invalid(_))));
    // a reply for another piece, or a reject, is refused
    assert!(metadata_piece(&reply_message(1, info.len(), &info), 0).is_err());
    let mut reject = vec![20u8, 1];
    reject.extend(b"d8:msg_typei2e5:piecei0ee");
    assert!(metadata_piece(&Message::from_body(&reject).unwrap(), 0).is_err());
}

#[test]
fn extension_handshake_errors() {
    let hash = [1u8; 20];
    let reply = Handshake::new(hash, [2u8; 20]).to_bytes();
    let mut peer = Peer::handshake(PeerAddr { ip: [10, 0, 0, 1], port: 1 }, hash, &reply).unwrap();
    let not_ext = Message::from_body(&[1]).unwrap();
    assert!(matches!(peer.on_extension_handshake(&not_ext), Err(PeerError::UnexpectedMessage)));
    let mut no_m = vec![20u8, 0];
    no_m.extend(b"d1:xi1ee");
    assert!(matches!(peer.on_extension_handshake(&Message::from_body(&no_m).unwrap()), Err(PeerError::BadPayload)));
    assert_eq!(peer.metadata_extension_id, None);
}

#[test]
fn metadata_pieces_are_requested_until_the_total() {
    assert_eq!(bittorrent::metadata::next_metadata_piece(0, None), Some(0));
    assert_eq!(bittorrent::metadata::next_metadata_piece(1, None), None);
    assert_eq!(bittorrent::metadata::next_metadata_piece(1, Some(20000)), Some(1));
    assert_eq!(bittorrent::metadata::next_metadata_piece(2, Some(20000)), None);
    assert_eq!(bittorrent::metadata::next_metadata_piece(1, Some(16384)), None);
}
