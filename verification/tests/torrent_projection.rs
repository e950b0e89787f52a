use sha1::{Digest, Sha1};
use torrent_parser::bencode::Bencode;
use torrent_parser::torrent::{SHA1Hash, Torrent, TorrentFile, TorrentInfo, TorrentParsingError};

fn info_bytes(pieces: &[u8]) -> Vec<u8> {
    let mut info = Vec::new();
    info.extend_from_slice(b"d5:filesld6:lengthi1024e4:pathl3:foo7:bar.txteee");
    info.extend_from_slice(b"4:name4:test12:piece lengthi16384e6:pieces");
    info.extend_from_slice(format!("{}:", pieces.len()).as_bytes());
    info.extend_from_slice(pieces);
    info.push(b'e');
    info
}

fn torrent_bytes(announce: &[u8], info: &[u8]) -> Vec<u8> {
    let mut t = Vec::new();
    t.extend_from_slice(b"d8:announce");
    t.extend_from_slice(format!("{}:", announce.len()).as_bytes());
    t.extend_from_slice(announce);
    t.extend_from_slice(b"4:info");
    t.extend_from_slice(info);
    t.push(b'e');
    t
}

#[test]
fn minimal_torrent_projects() {
    let info = info_bytes(&[0xAA; 20]);
    let bytes = torrent_bytes(b"udp://tracker.example/announce", &info);
    let t = Torrent::try_from(bytes).unwrap();
    assert_eq!(t.announce, "udp://tracker.example/announce");
    assert_eq!(t.info.name, "test");
    assert_eq!(t.info.piece_len, 16384);
    assert_eq!(t.info.files.len(), 1);
    assert_eq!(t.info.files[0].length, 1024);
    assert_eq!(t.info.files[0].path, vec!["foo".to_string(), "bar.txt".to_string()]);
    assert_eq!(t.info.pieces, vec![SHA1Hash([0xAA; 20])]);
}

#[test]
fn info_hash_is_digest_of_raw_span() {
    let info = info_bytes(&[0x5C; 20]);
    let bytes = torrent_bytes(b"udp://tracker.example/announce", &info);
    let t = Torrent::try_from(bytes).unwrap();
    let expected: [u8; 20] = Sha1::digest(&info).into();
    assert_eq!(t.info_hash.0, expected);
}

#[test]
fn info_text_inside_announce_does_not_fool_the_span() {
    // The announce URL carries the literal text `4:info`; the digest must
    // still be taken at the real `info` key of the dictionary.
    let info = info_bytes(&[0x11; 20]);
    let bytes = torrent_bytes(b"http://x/4:info/z", &info);
    let t = Torrent::try_from(bytes).unwrap();
    let expected: [u8; 20] = Sha1::digest(&info).into();
    assert_eq!(t.info_hash.0, expected);
}

#[test]
fn missing_announce_is_field_not_found() {
    let mut bytes = Vec::new();
    bytes.extend_from_slice(b"d4:info");
    bytes.extend_from_slice(&info_bytes(&[0u8; 20]));
    bytes.push(b'e');
    let err = Torrent::try_from(bytes).unwrap_err();
    assert_eq!(err, TorrentParsingError::FieldNotFound("announce".to_string()));
}

#[test]
fn missing_info_is_field_not_found() {
    let bytes = b"d8:announce3:abce".to_vec();
    let err = Torrent::try_from(bytes).unwrap_err();
    assert_eq!(err, TorrentParsingError::FieldNotFound("info".to_string()));
}

#[test]
fn announce_must_be_utf8() {
    let info = info_bytes(&[0u8; 20]);
    let bytes = torrent_bytes(&[0xFF, 0xFE, 0x80], &info);
    let err = Torrent::try_from(bytes).unwrap_err();
    assert_eq!(err, TorrentParsingError::InvalidString);
}

#[test]
fn truncated_buffer_is_invalid_bencode() {
    let err = Torrent::try_from(b"d3:foo".to_vec()).unwrap_err();
    assert_eq!(err, TorrentParsingError::InvalidBencode);
}

#[test]
fn non_dictionary_root_is_not_a_dict() {
    assert_eq!(Torrent::try_from(b"i5e".to_vec()).unwrap_err(), TorrentParsingError::NotADict);
    assert_eq!(Torrent::try_from(b"le".to_vec()).unwrap_err(), TorrentParsingError::NotADict);
}

#[test]
fn pieces_of_nineteen_bytes_mismatch() {
    let info = info_bytes(&[0u8; 19]);
    let bytes = torrent_bytes(b"udp://t", &info);
    let err = Torrent::try_from(bytes).unwrap_err();
    assert_eq!(err, TorrentParsingError::MismatchedPieceLength);
}

#[test]
fn pieces_of_twentyone_bytes_mismatch() {
    let info = info_bytes(&[0u8; 21]);
    let bytes = torrent_bytes(b"udp://t", &info);
    let err = Torrent::try_from(bytes).unwrap_err();
    assert_eq!(err, TorrentParsingError::MismatchedPieceLength);
}

#[test]
fn empty_pieces_give_empty_list() {
    let info = info_bytes(&[]);
    let bytes = torrent_bytes(b"udp://t", &info);
    let t = Torrent::try_from(bytes).unwrap();
    assert_eq!(t.info.pieces.len(), 0);
}

#[test]
fn two_pieces_split_in_order() {
    let mut raw = vec![0x01; 20];
    raw.extend_from_slice(&[0x02; 20]);
    let info = info_bytes(&raw);
    let bytes = torrent_bytes(b"udp://t", &info);
    let t = Torrent::try_from(bytes).unwrap();
    assert_eq!(t.info.pieces, vec![SHA1Hash([0x01; 20]), SHA1Hash([0x02; 20])]);
}

#[test]
fn integer_path_element_is_invalid_path() {
    let mut info = Vec::new();
    info.extend_from_slice(b"d5:filesld6:lengthi1e4:pathli7eeee");
    info.extend_from_slice(b"4:name1:n12:piece lengthi1e6:pieces0:e");
    let bytes = torrent_bytes(b"udp://t", &info);
    let err = Torrent::try_from(bytes).unwrap_err();
    assert_eq!(err, TorrentParsingError::InvalidPath);
}

#[test]
fn negative_file_length_is_invalid() {
    let file = Bencode::Dictionary(vec![
        (b"length".to_vec(), Bencode::Integer(-1)),
        (b"path".to_vec(), Bencode::List(vec![Bencode::ByteString(b"a".to_vec())])),
    ]);
    assert_eq!(TorrentFile::try_from(file).unwrap_err(), TorrentParsingError::InvalidFileLen);
}

#[test]
fn file_entry_projects() {
    let file = Bencode::Dictionary(vec![
        (b"length".to_vec(), Bencode::Integer(5)),
        (
            b"path".to_vec(),
            Bencode::List(vec![
                Bencode::ByteString(b"dir".to_vec()),
                Bencode::ByteString(b"f.txt".to_vec()),
            ]),
        ),
    ]);
    let f = TorrentFile::try_from(file).unwrap();
    assert_eq!(f.length, 5);
    assert_eq!(f.path, vec!["dir".to_string(), "f.txt".to_string()]);
}

#[test]
fn file_entry_must_be_dictionary() {
    assert_eq!(
        TorrentFile::try_from(Bencode::Integer(1)).unwrap_err(),
        TorrentParsingError::NotADict
    );
}

#[test]
fn file_missing_length_is_field_not_found() {
    let file = Bencode::Dictionary(vec![(
        b"path".to_vec(),
        Bencode::List(vec![Bencode::ByteString(b"a".to_vec())]),
    )]);
    assert_eq!(
        TorrentFile::try_from(file).unwrap_err(),
        TorrentParsingError::FieldNotFound("file[length]".to_string())
    );
}

#[test]
fn file_missing_path_is_field_not_found() {
    let file = Bencode::Dictionary(vec![(b"length".to_vec(), Bencode::Integer(5))]);
    assert_eq!(
        TorrentFile::try_from(file).unwrap_err(),
        TorrentParsingError::FieldNotFound("file[path]".to_string())
    );
}

#[test]
fn path_segment_must_be_utf8() {
    let file = Bencode::Dictionary(vec![
        (b"length".to_vec(), Bencode::Integer(5)),
        (b"path".to_vec(), Bencode::List(vec![Bencode::ByteString(vec![0xFF, 0x80])])),
    ]);
    assert_eq!(TorrentFile::try_from(file).unwrap_err(), TorrentParsingError::InvalidString);
}

#[test]
fn info_missing_name_is_field_not_found() {
    let info = Bencode::Dictionary(vec![(b"files".to_vec(), Bencode::List(vec![]))]);
    assert_eq!(
        TorrentInfo::try_from(info).unwrap_err(),
        TorrentParsingError::FieldNotFound("info[name]".to_string())
    );
}

#[test]
fn info_missing_files_is_field_not_found() {
    let info = Bencode::Dictionary(vec![(b"name".to_vec(), Bencode::ByteString(b"n".to_vec()))]);
    assert_eq!(
        TorrentInfo::try_from(info).unwrap_err(),
        TorrentParsingError::FieldNotFound("info[files]".to_string())
    );
}

#[test]
fn info_missing_piece_length_is_field_not_found() {
    let info = Bencode::Dictionary(vec![
        (b"name".to_vec(), Bencode::ByteString(b"n".to_vec())),
        (b"files".to_vec(), Bencode::List(vec![])),
    ]);
    assert_eq!(
        TorrentInfo::try_from(info).unwrap_err(),
        TorrentParsingError::FieldNotFound("info[piece length]".to_string())
    );
}

#[test]
fn info_missing_pieces_is_field_not_found() {
    let info = Bencode::Dictionary(vec![
        (b"name".to_vec(), Bencode::ByteString(b"n".to_vec())),
        (b"files".to_vec(), Bencode::List(vec![])),
        (b"piece length".to_vec(), Bencode::Integer(7)),
    ]);
    assert_eq!(
        TorrentInfo::try_from(info).unwrap_err(),
        TorrentParsingError::FieldNotFound("info[pieces]".to_string())
    );
}

#[test]
fn non_positive_piece_length_is_invalid() {
    for pl in [0i64, -3] {
        let info = Bencode::Dictionary(vec![
            (b"name".to_vec(), Bencode::ByteString(b"n".to_vec())),
            (b"files".to_vec(), Bencode::List(vec![])),
            (b"piece length".to_vec(), Bencode::Integer(pl)),
            (b"pieces".to_vec(), Bencode::ByteString(vec![])),
        ]);
        assert_eq!(
            TorrentInfo::try_from(info).unwrap_err(),
            TorrentParsingError::InvalidPieceLen
        );
    }
}

#[test]
fn extra_dictionary_keys_are_ignored() {
    let mut info = Vec::new();
    info.extend_from_slice(b"d7:comment3:etc5:filesle4:name1:n");
    info.extend_from_slice(b"12:piece lengthi4e6:pieces0:e");
    let bytes = torrent_bytes(b"udp://t", &info);
    let t = Torrent::try_from(bytes).unwrap();
    assert_eq!(t.info.name, "n");
    assert_eq!(t.info.files.len(), 0);
}

#[test]
fn utf8_name_survives() {
    let mut info = Vec::new();
    info.extend_from_slice(b"d5:filesle4:name5:caf\xc3\xa9");
    info.extend_from_slice(b"12:piece lengthi4e6:pieces0:e");
    let bytes = torrent_bytes(b"udp://t", &info);
    let t = Torrent::try_from(bytes).unwrap();
    assert_eq!(t.info.name, "caf\u{e9}");
}

#[test]
fn hex_of_zero_digest_is_forty_zeros() {
    let h = SHA1Hash([0u8; 20]);
    assert_eq!(h.to_hex(), "0".repeat(40));
}

#[test]
fn hex_matches_known_empty_input_digest() {
    let d: [u8; 20] = Sha1::digest(b"").into();
    let h = SHA1Hash(d);
    assert_eq!(h.to_hex(), "da39a3ee5e6b4b0d3255bfef95601890afd80709");
}

#[test]
fn hex_renders_bytes_in_order() {
    let mut b = [0u8; 20];
    b[0] = 0x01;
    b[1] = 0xAB;
    b[19] = 0xFF;
    let h = SHA1Hash(b);
    let mut expected = String::from("01ab");
    expected.push_str(&"00".repeat(17));
    expected.push_str("ff");
    assert_eq!(h.to_hex(), expected);
}
