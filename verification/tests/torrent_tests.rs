use bittorrent::bencode::BencodeValue;
use bittorrent::decode::decode;
use bittorrent::report::describe;
use bittorrent::torrent::metadata_from_info;
use bittorrent::torrent::bytes_equal;
use bittorrent::torrent::find_bytes;
use bittorrent::torrent::parse;
use bittorrent::torrent::split_hashes;
use bittorrent::torrent::Field;
use bittorrent::torrent::TorrentError;
use sha1::Digest;

fn sample_info() -> Vec<u8> {
    let mut info = b"d6:lengthi92063e4:name10:sample.txt12:piece lengthi32768e6:pieces40:".to_vec();
    info.extend(0u8..40);
    info.push(b'e');
    info
}

fn sample_file() -> Vec<u8> {
    let mut file = b"d8:announce28:http://tracker.test/announce4:info".to_vec();
    file.extend(sample_info());
    file.push(b'e');
    file
}

#[test]
fn parses_a_single_file_torrent() {
    let meta = parse(&sample_file()).unwrap();
    assert_eq!(meta.announce_url, "http://tracker.test/announce");
    assert_eq!(meta.total_length, 92063);
    assert_eq!(meta.piece_length, 32768);
    assert_eq!(meta.piece_hashes.len(), 2);
    assert_eq!(meta.piece_hashes[0], (0u8..20).collect::<Vec<u8>>());
    assert_eq!(meta.piece_hashes[1], (20u8..40).collect::<Vec<u8>>());
}

#[test]
fn info_hash_is_the_digest_of_the_raw_span() {
    let file = sample_file();
    let meta = parse(&file).unwrap();
    assert_eq!(
        meta.info_hash,
        vec![69, 10, 14, 164, 105, 197, 165, 120, 159, 44, 40, 134, 74, 25, 80, 176, 233, 28, 141, 126]
    );
    assert_eq!(hex::encode(&meta.info_hash), "450a0ea469c5a5789f2c28864a1950b0e91c8d7e");
    let span = &file[48..48 + 109];
    assert_eq!(span, &sample_info()[..]);
    assert_eq!(meta.info_hash, sha1::Sha1::digest(span).to_vec());
}

#[test]
fn info_hash_is_the_same_every_time() {
    let file = sample_file();
    let first = parse(&file).unwrap();
    let second = parse(&file).unwrap();
    assert_eq!(first.info_hash, second.info_hash);
    assert_eq!(first.info_hash.len(), 20);
    assert_eq!(first, second);
}

#[test]
fn info_hash_follows_the_bytes_not_the_value() {
    let plain = parse(b"d8:announce1:u4:infod6:lengthi1e12:piece lengthi1e6:pieces0:ee").unwrap();
    let padded = parse(b"d8:announce1:u4:infod6:lengthi01e12:piece lengthi1e6:pieces0:ee").unwrap();
    assert_eq!(plain.total_length, padded.total_length);
    assert_ne!(plain.info_hash, padded.info_hash);
}

#[test]
fn rejects_files_that_are_no_dictionary() {
    assert_eq!(parse(b""), Err(TorrentError::InvalidTorrentFile));
    assert_eq!(parse(b"i1e"), Err(TorrentError::InvalidTorrentFile));
    assert_eq!(parse(b"l4:infoe"), Err(TorrentError::InvalidTorrentFile));
    assert_eq!(parse(b"d8:announce"), Err(TorrentError::InvalidTorrentFile));
}

#[test]
fn reports_each_missing_field() {
    assert_eq!(
        parse(b"d4:infod6:lengthi1e12:piece lengthi1e6:pieces0:ee"),
        Err(TorrentError::MissingField(Field::Announce))
    );
    assert_eq!(
        parse(b"d8:announcei5e4:infod6:lengthi1e12:piece lengthi1e6:pieces0:ee"),
        Err(TorrentError::MissingField(Field::Announce))
    );
    assert_eq!(
        parse(&[b"d8:announce1:".to_vec(), vec![0xff], b"4:infodee".to_vec()].concat()),
        Err(TorrentError::MissingField(Field::Announce))
    );
    assert_eq!(parse(b"d8:announce1:ue"), Err(TorrentError::MissingField(Field::Info)));
    assert_eq!(parse(b"d8:announce1:u4:infoi1ee"), Err(TorrentError::MissingField(Field::Info)));
    assert_eq!(
        parse(b"d8:announce1:u4:infod12:piece lengthi1e6:pieces0:ee"),
        Err(TorrentError::MissingField(Field::Length))
    );
    assert_eq!(
        parse(b"d8:announce1:u4:infod6:length1:x12:piece lengthi1e6:pieces0:ee"),
        Err(TorrentError::MissingField(Field::Length))
    );
    assert_eq!(
        parse(b"d8:announce1:u4:infod6:lengthi1e6:pieces0:ee"),
        Err(TorrentError::MissingField(Field::PieceLength))
    );
    assert_eq!(
        parse(b"d8:announce1:u4:infod6:lengthi1e12:piece lengthi1eee"),
        Err(TorrentError::MissingField(Field::Pieces))
    );
    assert_eq!(
        parse(b"d8:announce1:u4:infod6:lengthi1e12:piece lengthi1e6:piecesi0eee"),
        Err(TorrentError::MissingField(Field::Pieces))
    );
}

#[test]
fn rejects_pieces_that_are_no_whole_hashes() {
    assert_eq!(
        parse(b"d8:announce1:u4:infod6:lengthi1e12:piece lengthi1e6:pieces3:abcee"),
        Err(TorrentError::MalformedPieces)
    );
}

#[test]
fn the_first_marker_is_taken() {
    // The marker inside the comment comes first and is followed by no value.
    assert_eq!(
        parse(b"d8:announce1:u7:comment7:4:info!4:infod6:lengthi1e12:piece lengthi1e6:pieces0:ee"),
        Err(TorrentError::InvalidTorrentFile)
    );
}

#[test]
fn finds_byte_patterns() {
    assert_eq!(find_bytes(b"abcabc", b"bc", 0), Some(1));
    assert_eq!(find_bytes(b"abcabc", b"bc", 2), Some(4));
    assert_eq!(find_bytes(b"abcabc", b"bc", 5), None);
    assert_eq!(find_bytes(b"abc", b"abcd", 0), None);
    assert_eq!(find_bytes(b"abc", b"x", 0), None);
    assert_eq!(find_bytes(b"abc", b"", 3), Some(3));
    assert_eq!(find_bytes(b"abc", b"", 4), None);
}

#[test]
fn compares_and_splits_bytes() {
    assert!(bytes_equal(b"abc", b"abc"));
    assert!(!bytes_equal(b"abc", b"abd"));
    assert!(!bytes_equal(b"abc", b"ab"));
    assert_eq!(split_hashes(&[7u8; 45]), vec![vec![7u8; 20], vec![7u8; 20]]);
    assert_eq!(split_hashes(&[7u8; 19]), Vec::<Vec<u8>>::new());
}

#[test]
fn describes_metadata_line_by_line() {
    let lines = describe(&parse(&sample_file()).unwrap());
    assert_eq!(
        lines,
        vec![
            "Tracker URL: http://tracker.test/announce".to_string(),
            "Length: 92063".to_string(),
            "Info Hash: 450a0ea469c5a5789f2c28864a1950b0e91c8d7e".to_string(),
            "Piece Length: 32768".to_string(),
            "Piece Hashes:".to_string(),
            "000102030405060708090a0b0c0d0e0f10111213".to_string(),
            "1415161718191a1b1c1d1e1f2021222324252627".to_string(),
        ]
    );
}

#[test]
fn hashes_have_twenty_bytes() {
    let meta = parse(&sample_file()).unwrap();
    assert_eq!(meta.info_hash.len(), 20);
    assert!(meta.piece_hashes.iter().all(|hash| hash.len() == 20));
}

#[test]
fn builds_metadata_from_a_decoded_info_value() {
    let (info, _) = decode(&sample_info(), 0).unwrap();
    let meta = metadata_from_info(&info, "u".to_string(), vec![1u8; 20]).unwrap();
    assert_eq!(meta.announce_url, "u");
    assert_eq!(meta.info_hash, vec![1u8; 20]);
    assert_eq!(meta.total_length, 92063);
    assert_eq!(meta.piece_hashes.len(), 2);
    assert_eq!(
        metadata_from_info(&BencodeValue::Integer(1), "u".to_string(), vec![]),
        Err(TorrentError::MissingField(Field::Info))
    );
}

#[test]
fn refuses_lengths_out_of_range() {
    assert_eq!(
        parse(b"d8:announce1:u4:infod6:lengthi-5e12:piece lengthi1e6:pieces0:ee"),
        Err(TorrentError::MissingField(Field::Length))
    );
    assert_eq!(
        parse(b"d8:announce1:u4:infod6:lengthi1e12:piece lengthi0e6:pieces0:ee"),
        Err(TorrentError::MissingField(Field::PieceLength))
    );
    assert_eq!(
        parse(b"d8:announce1:u4:infod6:lengthi1e12:piece lengthi-4e6:pieces0:ee"),
        Err(TorrentError::MissingField(Field::PieceLength))
    );
    assert_eq!(
        parse(b"d8:announce1:u4:infod6:lengthi-5e12:piece lengthi0e6:pieces3:abcee"),
        Err(TorrentError::MissingField(Field::Length))
    );
    let (info, _) = decode(b"d6:lengthi-5e12:piece lengthi0e6:pieces0:e", 0).unwrap();
    assert_eq!(
        metadata_from_info(&info, "u".to_string(), vec![1u8; 20]),
        Err(TorrentError::MissingField(Field::Length))
    );
}

#[test]
fn accepts_the_smallest_lengths() {
    let meta = parse(b"d8:announce1:u4:infod6:lengthi0e12:piece lengthi1e6:pieces0:ee").unwrap();
    assert_eq!(meta.total_length, 0);
    assert_eq!(meta.piece_length, 1);
    assert!(meta.piece_hashes.is_empty());
}
