use bittorrent::bencode::BencodeValue;
use bittorrent::decimal::decimal_string;
use bittorrent::handshake::build_handshake;
use bittorrent::handshake::read_handshake;
use bittorrent::handshake::read_handshake_for;
use bittorrent::handshake::HandshakeError;
use bittorrent::torrent::TorrentMetadata;
use bittorrent::tracker::announce_url;
use bittorrent::tracker::compact_peers;
use bittorrent::tracker::decode_peers;
use bittorrent::tracker::peers_of_answer;
use bittorrent::tracker::PeerEndpoint;
use bittorrent::tracker::TrackerError;

fn metadata(hash: Vec<u8>, length: i64) -> TorrentMetadata {
    TorrentMetadata {
        announce_url: "http://tracker.test/announce".to_string(),
        total_length: length,
        info_hash: hash,
        piece_length: 32768,
        piece_hashes: vec![],
    }
}

#[test]
fn decodes_one_compact_peer() {
    assert_eq!(
        compact_peers(&[192, 168, 1, 1, 0x1A, 0xE1]),
        Ok(vec![PeerEndpoint { ip: [192, 168, 1, 1], port: 6881 }])
    );
}

#[test]
fn decodes_compact_peers_in_order() {
    assert_eq!(
        compact_peers(&[10, 0, 0, 1, 0, 80, 255, 255, 255, 255, 255, 255]),
        Ok(vec![
            PeerEndpoint { ip: [10, 0, 0, 1], port: 80 },
            PeerEndpoint { ip: [255, 255, 255, 255], port: 65535 },
        ])
    );
    assert_eq!(compact_peers(&[]), Ok(vec![]));
    assert_eq!(compact_peers(&[1, 2, 3, 4, 5]), Err(TrackerError::TrackerProtocolError));
}

#[test]
fn decodes_a_tracker_answer() {
    let mut body = b"d8:intervali60e5:peers6:".to_vec();
    body.extend([192, 168, 1, 1, 0x1A, 0xE1]);
    body.push(b'e');
    assert_eq!(decode_peers(&body), Ok(vec![PeerEndpoint { ip: [192, 168, 1, 1], port: 6881 }]));
}

#[test]
fn an_answer_without_peers_is_empty() {
    assert_eq!(decode_peers(b"d8:intervali60ee"), Ok(vec![]));
    assert_eq!(decode_peers(b"de"), Ok(vec![]));
}

#[test]
fn rejects_answers_that_are_no_compact_dictionary() {
    assert_eq!(decode_peers(b"i1e"), Err(TrackerError::TrackerProtocolError));
    assert_eq!(decode_peers(b""), Err(TrackerError::TrackerProtocolError));
    assert_eq!(decode_peers(b"d5:peers"), Err(TrackerError::TrackerProtocolError));
    assert_eq!(decode_peers(b"d5:peersldeee"), Err(TrackerError::TrackerProtocolError));
    assert_eq!(decode_peers(b"d5:peers5:abcdee"), Err(TrackerError::TrackerProtocolError));
}

#[test]
fn builds_the_announce_url() {
    let hash = vec![69, 10, 14, 164, 105, 197, 165, 120, 159, 44, 40, 134, 74, 25, 80, 176, 233, 28, 141, 126];
    let url = announce_url(&metadata(hash, 92063), b"00112233284566778899", 6881);
    assert_eq!(
        url,
        "http://tracker.test/announce/?info_hash=E%0A%0E%A4i%C5%A5x%9F%2C%28%86J%19P%B0%E9%1C%8D%7E\
         &peer_id=00112233284566778899&port=6881&uploaded=0&downloaded=0&left=92063&compact=1"
    );
}

#[test]
fn announce_url_encodes_bytes_and_numbers() {
    let url = announce_url(&metadata(vec![0x20, 0x2a, 0x7e, 0xff, 0x41, 0x00], -5), b"a b", 0);
    assert_eq!(
        url,
        "http://tracker.test/announce/?info_hash=+*%7E%FFA%00&peer_id=a+b&port=0\
         &uploaded=0&downloaded=0&left=-5&compact=1"
    );
}

#[test]
fn frames_the_handshake() {
    let hash: Vec<u8> = (100u8..120).collect();
    let id = b"00112233284566778899";
    let frame = build_handshake(&hash, id);
    assert_eq!(frame.len(), 68);
    assert_eq!(frame[0], 19);
    assert_eq!(&frame[1..20], b"BitTorrent protocol");
    assert_eq!(&frame[20..28], &[0u8; 8]);
    assert_eq!(&frame[28..48], &hash[..]);
    assert_eq!(&frame[48..68], id);
}

#[test]
fn reads_the_peer_id_from_an_answer() {
    let hash = [9u8; 20];
    let remote: Vec<u8> = (1u8..21).collect();
    let answer = build_handshake(&hash, &remote);
    assert_eq!(read_handshake(&answer), Ok(remote.clone()));
    let other_hash = build_handshake(&[8u8; 20], &remote);
    assert_eq!(read_handshake(&other_hash), Ok(remote));
}

#[test]
fn rejects_short_answers() {
    let answer = build_handshake(&[9u8; 20], &[7u8; 20]);
    assert_eq!(read_handshake(&answer[..67]), Err(HandshakeError::IncompleteHandshake));
    assert_eq!(read_handshake(&[]), Err(HandshakeError::IncompleteHandshake));
    assert_eq!(read_handshake(&[0u8; 10]), Err(HandshakeError::IncompleteHandshake));
}

#[test]
fn rejects_answers_of_another_protocol() {
    let mut answer = build_handshake(&[9u8; 20], &[7u8; 20]);
    answer[0] = 18;
    assert_eq!(read_handshake(&answer), Err(HandshakeError::HandshakeMismatch));
    answer[0] = 19;
    answer[19] = b'L';
    assert_eq!(read_handshake(&answer), Err(HandshakeError::HandshakeMismatch));
    assert_eq!(read_handshake(&[0u8; 68]), Err(HandshakeError::HandshakeMismatch));
}

#[test]
fn shows_an_endpoint_as_text() {
    let peers = compact_peers(&[192, 168, 1, 1, 0x1A, 0xE1]).unwrap();
    assert_eq!(peers[0].address(), "192.168.1.1:6881");
    assert_eq!(PeerEndpoint { ip: [0, 10, 200, 255], port: 0 }.address(), "0.10.200.255:0");
}

#[test]
fn reads_peers_from_a_decoded_answer() {
    let answer = BencodeValue::Dictionary(vec![(
        b"peers".to_vec(),
        BencodeValue::ByteString(vec![127, 0, 0, 1, 0x1F, 0x90]),
    )]);
    assert_eq!(peers_of_answer(&answer), Ok(vec![PeerEndpoint { ip: [127, 0, 0, 1], port: 8080 }]));
    assert_eq!(peers_of_answer(&BencodeValue::List(vec![])), Err(TrackerError::TrackerProtocolError));
    let listed = BencodeValue::Dictionary(vec![(b"peers".to_vec(), BencodeValue::List(vec![]))]);
    assert_eq!(peers_of_answer(&listed), Err(TrackerError::TrackerProtocolError));
}

#[test]
fn compares_the_echoed_info_hash() {
    let hash = [9u8; 20];
    let remote: Vec<u8> = (1u8..21).collect();
    let answer = build_handshake(&hash, &remote);
    assert_eq!(read_handshake_for(&answer, &hash), Ok(remote.clone()));
    assert_eq!(read_handshake_for(&answer, &[8u8; 20]), Err(HandshakeError::HandshakeMismatch));
    assert_eq!(read_handshake_for(&answer, &hash[..19]), Err(HandshakeError::HandshakeMismatch));
    assert_eq!(read_handshake_for(&answer[..67], &hash), Err(HandshakeError::IncompleteHandshake));
    assert_eq!(read_handshake_for(&[0u8; 68], &[0u8; 20]), Err(HandshakeError::HandshakeMismatch));
    assert_eq!(read_handshake(&answer), Ok(remote));
}

#[test]
fn writes_integers_in_decimal() {
    assert_eq!(decimal_string(0), "0");
    assert_eq!(decimal_string(7), "7");
    assert_eq!(decimal_string(10), "10");
    assert_eq!(decimal_string(6881), "6881");
    assert_eq!(decimal_string(-1), "-1");
    assert_eq!(decimal_string(-1203), "-1203");
    assert_eq!(decimal_string(i64::MAX), "9223372036854775807");
    assert_eq!(decimal_string(i64::MIN), "-9223372036854775808");
}
