use bittorrent_core::{decode_all, extract, info_hash, read_torrent, split_pieces, text_of, to_hex, BencodeValue, TorrentError};

fn info_bytes() -> Vec<u8> {
    let mut b = b"d6:lengthi92063e4:name10:sample.txt12:piece lengthi32768e6:pieces40:".to_vec();
    b.extend(0u8..40);
    b.push(b'e');
    b
}

fn torrent_bytes() -> Vec<u8> {
    let mut b = b"d8:announce31:http://tracker.example/announce4:info".to_vec();
    b.extend(info_bytes());
    b.push(b'e');
    b
}

#[test]
fn extracts_metadata() {
    let top = decode_all(&torrent_bytes()).unwrap();
    let t = extract(&top).unwrap();
    assert_eq!(t.announce_url, b"http://tracker.example/announce".to_vec());
    assert_eq!(t.info.length, 92063);
    assert_eq!(t.info.name, "sample.txt");
    assert_eq!(t.info.piece_length, 32768);
    assert_eq!(t.info.pieces.len(), 2);
    assert_eq!(t.info.pieces[0], (0u8..20).collect::<Vec<u8>>());
    assert_eq!(t.info.pieces[1], (20u8..40).collect::<Vec<u8>>());
    assert_eq!(t.info.info_hash_hex(), "450a0ea469c5a5789f2c28864a1950b0e91c8d7e");
    assert_eq!(t.info.piece_hash_hex(0), "000102030405060708090a0b0c0d0e0f10111213");
}

#[test]
fn info_hash_is_sha1_of_info_encoding() {
    let info = decode_all(&info_bytes()).unwrap();
    let h = info_hash(&info);
    assert_eq!(h.len(), 20);
    assert_eq!(to_hex(&h), "450a0ea469c5a5789f2c28864a1950b0e91c8d7e");
    assert_eq!(info_hash(&info), h);
}

#[test]
fn info_hash_changes_with_one_byte() {
    let info = decode_all(&info_bytes()).unwrap();
    let mut other = info_bytes();
    let at = other.iter().position(|&c| c == b'9').unwrap();
    other[at] = b'8';
    let changed = decode_all(&other).unwrap();
    assert_ne!(info_hash(&info), info_hash(&changed));
    let mut name_changed = info_bytes();
    let at = name_changed.iter().position(|&c| c == b's').unwrap();
    name_changed[at] = b'S';
    assert_ne!(info_hash(&info), info_hash(&decode_all(&name_changed).unwrap()));
}

#[test]
fn splits_forty_bytes_into_two_pieces() {
    let raw: Vec<u8> = (0u8..40).collect();
    let pieces = split_pieces(&raw).unwrap();
    assert_eq!(pieces.len(), 2);
    assert_eq!(pieces[0], raw[0..20].to_vec());
    assert_eq!(pieces[1], raw[20..40].to_vec());
}

#[test]
fn rejects_forty_one_bytes_of_pieces() {
    let raw: Vec<u8> = (0u8..41).collect();
    assert_eq!(split_pieces(&raw), Err(TorrentError::InvalidLength));
    assert_eq!(split_pieces(&[]), Ok(vec![]));
}

#[test]
fn missing_fields_are_reported() {
    let no_announce = decode_all(b"d4:infod6:lengthi1e4:name1:a12:piece lengthi1e6:pieces0:ee").unwrap();
    assert_eq!(extract(&no_announce).err(), Some(TorrentError::MissingField));
    let no_pieces = decode_all(b"d8:announce1:x4:infod6:lengthi1e4:name1:a12:piece lengthi1eee").unwrap();
    assert_eq!(extract(&no_pieces).err(), Some(TorrentError::MissingField));
    let multi_file = decode_all(b"d8:announce1:x4:infod5:filesle4:name1:a12:piece lengthi1e6:pieces0:ee").unwrap();
    assert_eq!(extract(&multi_file).err(), Some(TorrentError::MissingField));
}

#[test]
fn wrong_kinds_are_type_mismatches() {
    let info_list = decode_all(b"d8:announce1:x4:infoli1eee").unwrap();
    assert_eq!(extract(&info_list).err(), Some(TorrentError::TypeMismatch));
    let announce_int = decode_all(b"d8:announcei1e4:infodee").unwrap();
    assert_eq!(extract(&announce_int).err(), Some(TorrentError::TypeMismatch));
    assert_eq!(extract(&BencodeValue::Integer(3)).err(), Some(TorrentError::TypeMismatch));
}

#[test]
fn bad_piece_table_and_name_are_reported() {
    let short = decode_all(b"d8:announce1:x4:infod6:lengthi1e4:name1:a12:piece lengthi1e6:pieces3:abcee").unwrap();
    assert_eq!(extract(&short).err(), Some(TorrentError::InvalidLength));
    let mut bad_name = b"d8:announce1:x4:infod6:lengthi1e4:name1:".to_vec();
    bad_name.push(0xff);
    bad_name.extend(b"12:piece lengthi1e6:pieces0:ee");
    let v = decode_all(&bad_name).unwrap();
    assert_eq!(extract(&v).err(), Some(TorrentError::InvalidUtf8));
}

#[test]
fn text_needs_utf8() {
    assert_eq!(text_of(b"spam"), Ok("spam".to_string()));
    assert_eq!(text_of(&[0xc3, 0xa9]), Ok("\u{e9}".to_string()));
    assert_eq!(text_of(&[0xff, 0x41]), Err(TorrentError::InvalidUtf8));
}

#[test]
fn hex_has_two_digits_per_byte() {
    assert_eq!(to_hex(&[0x00, 0xab, 0x7f]), "00ab7f");
    assert_eq!(to_hex(&[]), "");
}

#[test]
fn reads_torrent_file_bytes() {
    let t = read_torrent(&torrent_bytes()).unwrap();
    assert_eq!(t.info.name, "sample.txt");
    assert_eq!(t.info.info_hash_hex(), "450a0ea469c5a5789f2c28864a1950b0e91c8d7e");
    let mut truncated = torrent_bytes();
    truncated.pop();
    assert_eq!(read_torrent(&truncated).err(), Some(TorrentError::UnexpectedEnd));
    let mut trailing = torrent_bytes();
    trailing.push(b'x');
    assert_eq!(read_torrent(&trailing).err(), Some(TorrentError::MalformedInput));
}

#[test]
fn piece_spans_follow_piece_length() {
    let t = read_torrent(&torrent_bytes()).unwrap();
    assert_eq!(t.info.piece_span(0), Some((0, 32768)));
    assert_eq!(t.info.piece_span(1), Some((32768, 65536)));
    assert_eq!(t.info.piece_span(2), None);
    let short = read_torrent(b"d8:announce1:x4:infod6:lengthi25e4:name1:a12:piece lengthi20e6:pieces40:0123456789012345678901234567890123456789ee").unwrap();
    assert_eq!(short.info.piece_span(1), Some((20, 25)));
}
