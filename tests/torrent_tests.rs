use bittorrent::torrent::{Layout, MetainfoError, Torrent};
use sha1::{Digest, Sha1};

fn piece_digests() -> Vec<u8> {
    let mut pieces = Vec::new();
    for k in 0..3u8 {
        pieces.extend(Sha1::digest([k; 4]).iter());
    }
    pieces
}

fn info_dict(length: u64, piece_length: u64, pieces: &[u8]) -> Vec<u8> {
    let mut info = Vec::new();
    info.extend(format!("d6:lengthi{}e4:name8:test.txt12:piece lengthi{}e6:pieces{}:", length, piece_length, pieces.len()).bytes());
    info.extend(pieces);
    info.push(b'e');
    info
}

fn metainfo(info: &[u8]) -> Vec<u8> {
    let mut m = Vec::new();
    m.extend(b"d8:announce31:http://tracker.example/announce4:info".iter());
    m.extend(info);
    m.push(b'e');
    m
}

#[test]
fn info_on_known_torrent() {
    let pieces = piece_digests();
    let info = info_dict(98304, 32768, &pieces);
    let t = Torrent::new(&metainfo(&info)).unwrap();
    assert_eq!(t.announce, "http://tracker.example/announce");
    assert_eq!(t.len(), 98304);
    assert_eq!(t.info.piece_length, 32768);
    assert_eq!(t.info.name, "test.txt");
    let hashes = t.pieces();
    assert_eq!(hashes.len(), 3);
    for (k, h) in hashes.iter().enumerate() {
        assert_eq!(hex::encode(h).len(), 40);
        assert_eq!(h.as_slice(), &pieces[20 * k..20 * k + 20]);
    }
    let expected: [u8; 20] = Sha1::digest(&info).into();
    assert_eq!(t.info_hash(), expected);
    assert_eq!(t.info_hash(), Torrent::new(&metainfo(&info)).unwrap().info_hash());
}

#[test]
fn info_bytes_are_the_span_in_the_file() {
    let pieces = piece_digests();
    let info = info_dict(98304, 32768, &pieces);
    let t = Torrent::new(&metainfo(&info)).unwrap();
    assert_eq!(t.info.info_bytes(), &info);
}

#[test]
fn piece_sizes_cover_the_length() {
    let pieces = piece_digests();
    let t = Torrent::new(&metainfo(&info_dict(70000, 32768, &pieces))).unwrap();
    let sizes: Vec<u32> = (0..3).map(|i| t.info.piece_size(i)).collect();
    assert_eq!(sizes, vec![32768, 32768, 4464]);
    assert_eq!(sizes.iter().sum::<u32>(), t.len());
    assert!(sizes.iter().all(|s| *s <= t.info.piece_length));
}

#[test]
fn multi_file_length_is_the_sum() {
    let pieces = piece_digests();
    let mut info = Vec::new();
    info.extend(b"d5:filesld6:lengthi40000e4:pathl1:a1:beed6:lengthi30000e4:pathl1:ceee4:name3:dir12:piece lengthi32768e6:pieces60:".iter());
    info.extend(&pieces);
    info.push(b'e');
    let t = Torrent::new(&metainfo(&info)).unwrap();
    assert_eq!(t.len(), 70000);
    match &t.info.layout {
        Layout::MultiFile { files } => {
            assert_eq!(files.len(), 2);
            assert_eq!(files[0].path, vec!["a".to_string(), "b".to_string()]);
            assert_eq!(files[1].length, 30000);
        }
        Layout::SingleFile { .. } => panic!("expected several files"),
    }
}

#[test]
fn malformed_metainfo_is_refused() {
    let pieces = piece_digests();
    assert!(matches!(Torrent::new(b"d8:announce"), Err(MetainfoError::Decode(_))));
    assert!(matches!(Torrent::new(b"i3e"), Err(MetainfoError::Invalid)));
    let missing_info = b"d8:announce3:abce";
    assert!(matches!(Torrent::new(missing_info), Err(MetainfoError::Invalid)));
    // three digests cannot describe a single piece's worth of content
    let t = Torrent::new(&metainfo(&info_dict(100, 32768, &pieces)));
    assert!(matches!(t, Err(MetainfoError::Invalid)));
    // digests must come in whole 20-byte units
    let t = Torrent::new(&metainfo(&info_dict(98304, 32768, &pieces[..59])));
    assert!(matches!(t, Err(MetainfoError::Invalid)));
    let t = Torrent::new(&metainfo(&info_dict(98304, 0, &pieces)));
    assert!(matches!(t, Err(MetainfoError::Invalid)));
}

#[test]
fn verify_piece_checks_size_and_digest() {
    let data = vec![7u8; 16384];
    let digest = Sha1::digest(&data);
    let mut info = Vec::new();
    info.extend(b"d6:lengthi16384e4:name1:x12:piece lengthi16384e6:pieces20:".iter());
    info.extend(digest.iter());
    info.push(b'e');
    let t = Torrent::new(&metainfo(&info)).unwrap();
    assert!(t.info.verify_piece(0, &data));
    let mut bad = data.clone();
    bad[0] = 8;
    assert!(!t.info.verify_piece(0, &bad));
    assert!(!t.info.verify_piece(0, &data[..100]));
}
