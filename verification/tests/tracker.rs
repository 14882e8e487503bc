use bytebuffer::ByteBuffer;
use torrent_leech::errors::Error;
use torrent_leech::torrents::{Info, Torrent};
use torrent_leech::tracker::{endpoint_of, get_torrent_peers, tracker_endpoint, PORT};
use torrent_leech::utils::{
    announce_req, build_announce_req, build_conn_req, conn_req, gen_peer_id, hash_torrent_info,
    parse_announce_resp, parse_conn_resp, peer_id_from, AnnounceResp, ConnResp, Peer,
};

fn torrent() -> Torrent {
    let info = Info {
        name: String::from("payload"),
        pieces: vec![0u8; 15 * 20],
        piece_length: 32768,
        length: Some(479502),
        files: None,
    };
    Torrent::new(info, None, [0xAA; 20]).expect("a well-formed torrent")
}

#[test]
fn peer_id_has_the_prefix_and_twelve_bytes() {
    let id = peer_id_from(0x0102030405060708, -2).to_bytes();
    let mut expected = b"-R~0001-".to_vec();
    expected.extend_from_slice(&[1, 2, 3, 4, 5, 6, 7, 8, 0xFF, 0xFF, 0xFF, 0xFE]);
    assert_eq!(id, expected);
    let id = peer_id_from(-1, i32::MIN).to_bytes();
    assert_eq!(&id[8..], &[0xFF, 0xFF, 0xFF, 0xFF, 0xFF, 0xFF, 0xFF, 0xFF, 0x80, 0, 0, 0]);
}

#[test]
fn generated_peer_id_has_20_bytes() {
    let id = gen_peer_id().to_bytes();
    assert_eq!(id.len(), 20);
    assert_eq!(&id[..8], b"-R~0001-");
}

#[test]
fn connect_request_layout() {
    assert_eq!(
        conn_req(0x11223344).to_bytes(),
        vec![0, 0, 0x04, 0x17, 0x27, 0x10, 0x19, 0x80, 0, 0, 0, 0, 0x11, 0x22, 0x33, 0x44]
    );
    let random = build_conn_req().to_bytes();
    assert_eq!(random.len(), 16);
    assert_eq!(&random[..12], &[0, 0, 0x04, 0x17, 0x27, 0x10, 0x19, 0x80, 0, 0, 0, 0]);
}

#[test]
fn connect_response_is_big_endian_and_signed() {
    let buf: [u8; 16] =
        [0, 0, 0, 0, 0xFF, 0xFF, 0xFF, 0xFE, 0x80, 0, 0, 0, 0, 0, 0, 1];
    assert_eq!(
        parse_conn_resp(&buf),
        ConnResp { action: 0, transaction_id: -2, connection_id: i64::MIN + 1 }
    );
    let buf: [u8; 16] = [0x7F, 0xFF, 0xFF, 0xFF, 0, 0, 1, 0, 0, 0, 0, 1, 0, 0, 0, 2];
    assert_eq!(
        parse_conn_resp(&buf),
        ConnResp { action: i32::MAX, transaction_id: 256, connection_id: 0x1_0000_0002 }
    );
}

#[test]
fn announce_request_layout() {
    let t = torrent();
    let peer_id = ByteBuffer::from_bytes(&[0xBB; 20]);
    let bytes = announce_req(&t, 0x0102030405060708, -1, &peer_id, PORT).to_bytes();
    let mut expected: Vec<u8> = vec![1, 2, 3, 4, 5, 6, 7, 8];
    expected.extend_from_slice(&[0, 0, 0, 1]);
    expected.extend_from_slice(&[0xFF; 4]);
    expected.extend_from_slice(&[0xAA; 20]);
    expected.extend_from_slice(&[0xBB; 20]);
    expected.extend_from_slice(&[0; 8]);
    expected.extend_from_slice(&479502u64.to_be_bytes());
    expected.extend_from_slice(&[0; 8]);
    expected.extend_from_slice(&[0; 12]);
    expected.extend_from_slice(&[0xFF; 4]);
    expected.extend_from_slice(&[0x1A, 0x1A]);
    assert_eq!(bytes.len(), 98);
    assert_eq!(bytes, expected);

    let random = build_announce_req(&t, 7, &peer_id, -2).to_bytes();
    assert_eq!(random.len(), 98);
    assert_eq!(&random[..12], &[0, 0, 0, 0, 0, 0, 0, 7, 0, 0, 0, 1]);
    assert_eq!(&random[16..], &expected[16..96].iter().copied().chain([0xFF, 0xFE]).collect::<Vec<u8>>()[..]);
}

#[test]
fn announce_response_lists_a_peer_for_each_seeder() {
    let mut buf = [0u8; 1000];
    buf[3] = 1;
    buf[7] = 9;
    buf[10] = 7;
    buf[11] = 8;
    buf[15] = 2;
    buf[19] = 2;
    buf[20..26].copy_from_slice(&[10, 0, 0, 1, 0x1A, 0xE1]);
    buf[26..32].copy_from_slice(&[10, 0, 0, 2, 0x1A, 0xE2]);
    let resp = parse_announce_resp(&buf, 32).expect("an answer");
    assert_eq!(
        (resp.action, resp.transaction_id, resp.interval, resp.leechers, resp.seeders),
        (1, 9, 1800, 2, 2)
    );
    assert_eq!(
        resp.peers,
        vec![
            Peer { ip_addr: 0x0A000001, port: 0x1AE1 },
            Peer { ip_addr: 0x1AE10A00, port: 0x0002 },
        ]
    );
}

#[test]
fn announce_response_needs_its_header() {
    let buf = [0u8; 1000];
    assert!(matches!(parse_announce_resp(&buf, 19), Err(Error::TrackerResponse)));
    let resp = parse_announce_resp(&buf, 20).expect("an answer");
    assert_eq!(resp.seeders, 0);
    assert!(resp.peers.is_empty());
}

#[test]
fn announce_response_with_more_seeders_than_fit() {
    let mut buf = [0u8; 1000];
    buf[19] = 244;
    assert_eq!(parse_announce_resp(&buf, 1000).expect("an answer").peers.len(), 244);
    buf[19] = 245;
    assert!(matches!(parse_announce_resp(&buf, 1000), Err(Error::TrackerResponse)));
    buf[16] = 0xFF;
    buf[17] = 0xFF;
    buf[18] = 0xFF;
    buf[19] = 0xFF;
    let resp = parse_announce_resp(&buf, 1000).expect("an answer");
    assert_eq!(resp.seeders, -1);
    assert!(resp.peers.is_empty());
}

#[test]
fn peers_only_where_the_tracker_counts_seeders() {
    let resp = |seeders: i32, peers: Vec<Peer>| AnnounceResp {
        action: 1,
        transaction_id: 0,
        interval: 0,
        leechers: 0,
        seeders,
        peers,
    };
    let peer = Peer { ip_addr: 1, port: 2 };
    assert_eq!(get_torrent_peers(resp(0, vec![peer])), Err(Error::NoPeers));
    assert_eq!(get_torrent_peers(resp(1, vec![peer])), Ok(vec![peer]));
}

#[test]
fn tracker_address_from_the_announce_url() {
    assert_eq!(
        tracker_endpoint("udp://tracker.example.org:6969/announce"),
        Some((String::from("tracker.example.org"), 6969))
    );
    assert_eq!(tracker_endpoint("udp://tracker.example.org/announce"), None);
    assert_eq!(tracker_endpoint("not a url"), None);
    assert_eq!(endpoint_of(Some("h"), Some(1)), Some((String::from("h"), 1)));
    assert_eq!(endpoint_of(None, Some(1)), None);
    assert_eq!(endpoint_of(Some("h"), None), None);
}

#[test]
fn info_hash_is_the_sha1_of_the_bencoded_info() {
    let expected: [u8; 20] = [
        0xa9, 0x99, 0x3e, 0x36, 0x47, 0x06, 0x81, 0x6a, 0xba, 0x3e, 0x25, 0x71, 0x78, 0x50, 0xc2,
        0x6c, 0x9c, 0xd0, 0xd8, 0x9d,
    ];
    assert_eq!(hash_torrent_info(b"abc"), expected);
    let empty: [u8; 20] = [
        0xda, 0x39, 0xa3, 0xee, 0x5e, 0x6b, 0x4b, 0x0d, 0x32, 0x55, 0xbf, 0xef, 0x95, 0x60, 0x18,
        0x90, 0xaf, 0xd8, 0x07, 0x09,
    ];
    assert_eq!(hash_torrent_info(b""), empty);
}
