use bytebuffer::ByteBuffer;
use torrent_leech::errors::Error;
use torrent_leech::message_handlers::{MessageHandler, SessionState, Step};
use torrent_leech::messages::{
    build_bitfield, build_choke, build_have, build_interested, build_keep_alive,
    build_not_interested, build_peer_handshake, build_piece, build_port, build_request,
    build_unchoke, GenericPayload,
};
use torrent_leech::pieces::Pieces;
use torrent_leech::queue::PieceBlock;
use torrent_leech::torrents::{Info, Torrent};

const MAX: u32 = 16384 + 13;

fn torrent(pieces: usize, piece_length: u64, total: u64) -> Torrent {
    let info = Info {
        name: String::from("payload"),
        pieces: vec![0u8; pieces * 20],
        piece_length,
        length: Some(total),
        files: None,
    };
    Torrent::new(info, None, [0xAA; 20]).expect("a well-formed torrent")
}

fn open<'a>(t: &'a Torrent) -> MessageHandler<'a> {
    let mut session = MessageHandler::new(t, MAX);
    let peer_id = ByteBuffer::from_bytes(&[0xBB; 20]);
    session.connected(&peer_id);
    let theirs = build_peer_handshake(&[0xAA; 20], &ByteBuffer::from_bytes(&[0xCC; 20]));
    session.handshake(&theirs);
    session
}

fn piece_frame(index: u32, begin: u32, block: Vec<u8>) -> ByteBuffer {
    build_piece(&GenericPayload {
        index,
        begin,
        length: None,
        piece_index: None,
        block: Some(block),
        bitfield: None,
        port: None,
    })
}

fn sent(step: Step) -> Vec<u8> {
    match step {
        Step::Send(bytes) => bytes,
        other => panic!("expected a send, got {:?}", other),
    }
}

#[test]
fn session_starts_by_sending_the_handshake() {
    let t = torrent(2, 16384, 32768);
    let mut session = MessageHandler::new(&t, MAX);
    assert_eq!(session.state(), SessionState::Connecting);
    assert!(session.choked());
    let handshake = session.connected(&ByteBuffer::from_bytes(&[0xBB; 20]));
    let mut expected: Vec<u8> = vec![19];
    expected.extend_from_slice(b"BitTorrent protocol");
    expected.extend_from_slice(&[0u8; 8]);
    expected.extend_from_slice(&[0xAA; 20]);
    expected.extend_from_slice(&[0xBB; 20]);
    assert_eq!(handshake, expected);
    assert_eq!(session.state(), SessionState::Handshaking);
}

#[test]
fn good_handshake_is_answered_with_interested() {
    let t = torrent(2, 16384, 32768);
    let mut session = MessageHandler::new(&t, MAX);
    session.connected(&ByteBuffer::from_bytes(&[0xBB; 20]));
    let theirs = build_peer_handshake(&[0xAA; 20], &ByteBuffer::from_bytes(&[0xCC; 20]));
    let step = session.handshake(&theirs);
    assert_eq!(sent(step), build_interested().to_bytes());
    assert_eq!(session.interested(), vec![0, 0, 0, 1, 2]);
    assert_eq!(session.state(), SessionState::AwaitingUnchoke);
}

#[test]
fn handshake_of_another_protocol_is_a_mismatch() {
    let t = torrent(2, 16384, 32768);
    let good = build_peer_handshake(&[0xAA; 20], &ByteBuffer::from_bytes(&[0xCC; 20])).to_bytes();
    let mut wrong_name = good.clone();
    wrong_name[5] = b'X';
    let mut wrong_len = good.clone();
    wrong_len[0] = 18;
    let mut wrong_hash = good.clone();
    wrong_hash[30] = 0;
    let short = good[..67].to_vec();
    for bad in [wrong_name, wrong_len, wrong_hash, short, vec![]] {
        let mut session = MessageHandler::new(&t, MAX);
        session.connected(&ByteBuffer::from_bytes(&[0xBB; 20]));
        let step = session.handshake(&ByteBuffer::from_bytes(&bad));
        assert!(matches!(step, Step::Fail(Error::ProtocolMismatch)));
        assert_eq!(session.state(), SessionState::Closed);
    }
}

#[test]
fn reserved_bytes_and_peer_id_are_not_checked() {
    let t = torrent(2, 16384, 32768);
    let mut theirs =
        build_peer_handshake(&[0xAA; 20], &ByteBuffer::from_bytes(&[0x01; 20])).to_bytes();
    theirs[25] = 0x10;
    let mut session = MessageHandler::new(&t, MAX);
    session.connected(&ByteBuffer::from_bytes(&[0xBB; 20]));
    assert!(matches!(session.handshake(&ByteBuffer::from_bytes(&theirs)), Step::Send(_)));
}

#[test]
fn bitfield_enqueues_pieces_in_ascending_order() {
    let t = torrent(8, 16384, 8 * 16384);
    let mut pieces = Pieces::new(&t);
    let mut session = open(&t);
    let step = session.router(&build_bitfield(&ByteBuffer::from_bytes(&[0x7F])), &mut pieces);
    assert!(matches!(step, Step::Wait));
    let indexes: Vec<u32> = session.queue().iter().map(|b| b.index).collect();
    assert_eq!(indexes, vec![1, 2, 3, 4, 5, 6, 7]);

    let mut session = open(&t);
    session.router(&build_bitfield(&ByteBuffer::from_bytes(&[0xFF])), &mut pieces);
    let indexes: Vec<u32> = session.queue().iter().map(|b| b.index).collect();
    assert_eq!(indexes, vec![0, 1, 2, 3, 4, 5, 6, 7]);
}

#[test]
fn spare_bits_enqueue_nothing() {
    let t = torrent(5, 16384, 5 * 16384);
    let mut pieces = Pieces::new(&t);
    let mut session = open(&t);
    session.router(&build_bitfield(&ByteBuffer::from_bytes(&[0xFF])), &mut pieces);
    let indexes: Vec<u32> = session.queue().iter().map(|b| b.index).collect();
    assert_eq!(indexes, vec![0, 1, 2, 3, 4]);
}

#[test]
fn set_spare_bits_are_passed_over() {
    let t = torrent(10, 16384, 10 * 16384);
    let mut pieces = Pieces::new(&t);
    let mut session = open(&t);
    let step = session.router(&build_bitfield(&ByteBuffer::from_bytes(&[0xFF, 0xFF])), &mut pieces);
    assert!(matches!(step, Step::Wait));
    assert_eq!(session.state(), SessionState::AwaitingUnchoke);
    let indexes: Vec<u32> = session.queue().iter().map(|b| b.index).collect();
    assert_eq!(indexes, vec![0, 1, 2, 3, 4, 5, 6, 7, 8, 9]);
}

#[test]
fn second_bitfield_is_a_violation() {
    let t = torrent(8, 16384, 8 * 16384);
    let mut pieces = Pieces::new(&t);
    let mut session = open(&t);
    session.router(&build_bitfield(&ByteBuffer::from_bytes(&[0x01])), &mut pieces);
    let step = session.router(&build_bitfield(&ByteBuffer::from_bytes(&[0x01])), &mut pieces);
    assert!(matches!(step, Step::Fail(Error::ProtocolViolation)));
    assert_eq!(session.state(), SessionState::Closed);
}

#[test]
fn bitfield_after_have_is_a_violation() {
    let t = torrent(8, 16384, 8 * 16384);
    let mut pieces = Pieces::new(&t);
    let mut session = open(&t);
    session.router(&build_have(3), &mut pieces);
    let step = session.router(&build_bitfield(&ByteBuffer::from_bytes(&[0x01])), &mut pieces);
    assert!(matches!(step, Step::Fail(Error::ProtocolViolation)));
}

#[test]
fn have_out_of_range_is_a_violation() {
    let t = torrent(8, 16384, 8 * 16384);
    let mut pieces = Pieces::new(&t);
    let mut session = open(&t);
    let step = session.router(&build_have(8), &mut pieces);
    assert!(matches!(step, Step::Fail(Error::ProtocolViolation)));
    assert_eq!(session.state(), SessionState::Closed);
    assert_eq!(session.queued(), 0);
}

#[test]
fn have_while_choked_only_enqueues() {
    let t = torrent(15, 32768, 479502);
    let mut pieces = Pieces::new(&t);
    let mut session = open(&t);
    let step = session.router(&build_have(14), &mut pieces);
    assert!(matches!(step, Step::Wait));
    assert_eq!(
        session.queue(),
        vec![
            PieceBlock { index: 14, begin: 0, length: 16384 },
            PieceBlock { index: 14, begin: 16384, length: 4366 },
        ]
    );
}

#[test]
fn unchoke_requests_the_first_needed_block() {
    let t = torrent(15, 32768, 479502);
    let mut pieces = Pieces::new(&t);
    let mut session = open(&t);
    session.router(&build_have(14), &mut pieces);
    pieces.add_requested(PieceBlock { index: 14, begin: 0, length: 16384 });
    let step = session.router(&build_unchoke(), &mut pieces);
    let wanted = PieceBlock { index: 14, begin: 16384, length: 4366 };
    assert_eq!(sent(step), build_request(wanted).to_bytes());
    assert_eq!(session.state(), SessionState::Active);
    assert!(!session.choked());
    assert_eq!(session.queued(), 0);
    assert!(!pieces.needed(wanted));
}

#[test]
fn have_on_an_empty_queue_requests_at_once() {
    let t = torrent(2, 16384, 32768);
    let mut pieces = Pieces::new(&t);
    let mut session = open(&t);
    assert!(matches!(session.router(&build_unchoke(), &mut pieces), Step::Wait));
    let step = session.router(&build_have(1), &mut pieces);
    assert_eq!(
        sent(step),
        build_request(PieceBlock { index: 1, begin: 0, length: 16384 }).to_bytes()
    );
    // the queue was empty before, so the next have requests again
    let step = session.router(&build_have(0), &mut pieces);
    assert!(matches!(step, Step::Send(_)));
}

#[test]
fn have_on_a_filled_queue_only_enqueues() {
    let t = torrent(15, 32768, 479502);
    let mut pieces = Pieces::new(&t);
    let mut session = open(&t);
    session.router(&build_unchoke(), &mut pieces);
    assert!(matches!(session.router(&build_have(1), &mut pieces), Step::Send(_)));
    assert_eq!(session.queued(), 1);
    assert!(matches!(session.router(&build_have(2), &mut pieces), Step::Wait));
    assert_eq!(session.queued(), 3);
}

#[test]
fn choke_closes_the_session() {
    let t = torrent(2, 16384, 32768);
    let mut pieces = Pieces::new(&t);
    let mut session = open(&t);
    session.router(&build_unchoke(), &mut pieces);
    let step = session.router(&build_choke(), &mut pieces);
    assert!(matches!(step, Step::Close));
    assert!(session.choked());
    assert_eq!(session.state(), SessionState::Closed);
}

#[test]
fn other_messages_change_nothing() {
    let t = torrent(2, 16384, 32768);
    let mut pieces = Pieces::new(&t);
    let mut session = open(&t);
    let block = PieceBlock { index: 0, begin: 0, length: 16384 };
    for frame in [
        build_keep_alive(),
        build_interested(),
        build_not_interested(),
        build_request(block),
        build_port(6881),
        ByteBuffer::from_bytes(&[0, 0, 0, 2, 20, 7]),
    ] {
        assert!(matches!(session.router(&frame, &mut pieces), Step::Wait));
        assert_eq!(session.state(), SessionState::AwaitingUnchoke);
        assert_eq!(session.queued(), 0);
    }
    assert_eq!(pieces.progress(), (0, 2));
}

#[test]
fn empty_read_means_the_peer_is_gone() {
    let t = torrent(2, 16384, 32768);
    let mut pieces = Pieces::new(&t);
    let mut session = open(&t);
    let step = session.router(&ByteBuffer::new(), &mut pieces);
    assert!(matches!(step, Step::Fail(Error::PeerDisconnected)));
    assert_eq!(session.state(), SessionState::Closed);
}

#[test]
fn malformed_frame_closes_the_session() {
    let t = torrent(2, 16384, 32768);
    let mut pieces = Pieces::new(&t);
    let mut session = open(&t);
    let step = session.router(&ByteBuffer::from_bytes(&[0, 0, 0, 2, 0, 0]), &mut pieces);
    assert!(matches!(step, Step::Fail(Error::MalformedFrame)));
    assert_eq!(session.state(), SessionState::Closed);
}

#[test]
fn piece_is_marked_and_delivered_at_its_offset() {
    let t = torrent(15, 32768, 479502);
    let mut pieces = Pieces::new(&t);
    let mut session = open(&t);
    let step = session.router(&piece_frame(14, 16384, vec![7; 4366]), &mut pieces);
    match step {
        Step::Deliver(payload) => {
            assert_eq!(payload.offset, 14 * 32768 + 16384);
            assert_eq!(payload.block, vec![7; 4366]);
        }
        other => panic!("expected a delivery, got {:?}", other),
    }
    assert_eq!(pieces.progress(), (1, 30));
}

#[test]
fn piece_that_the_torrent_does_not_have_is_a_violation() {
    let t = torrent(15, 32768, 479502);
    let mut pieces = Pieces::new(&t);
    for (index, begin) in [(15, 0), (0, 32768), (14, 32768)] {
        let mut session = open(&t);
        let step = session.router(&piece_frame(index, begin, vec![7; 10]), &mut pieces);
        assert!(matches!(step, Step::Fail(Error::ProtocolViolation)));
        assert_eq!(session.state(), SessionState::Closed);
    }
    assert_eq!(pieces.progress(), (0, 30));
}

#[test]
fn two_piece_torrent_completes() {
    let t = torrent(2, 16384, 32768);
    let mut pieces = Pieces::new(&t);
    let mut session = open(&t);
    session.router(&build_bitfield(&ByteBuffer::from_bytes(&[0xC0])), &mut pieces);
    let first = sent(session.router(&build_unchoke(), &mut pieces));
    assert_eq!(
        first,
        build_request(PieceBlock { index: 0, begin: 0, length: 16384 }).to_bytes()
    );

    let step = session.router(&piece_frame(0, 0, vec![1; 16384]), &mut pieces);
    assert!(matches!(step, Step::Deliver(_)));
    assert!(!pieces.is_done());
    let second = sent(session.piece_published(&mut pieces));
    assert_eq!(
        second,
        build_request(PieceBlock { index: 1, begin: 0, length: 16384 }).to_bytes()
    );

    let step = session.router(&piece_frame(1, 0, vec![2; 16384]), &mut pieces);
    assert!(matches!(step, Step::Deliver(_)));
    assert!(pieces.is_done());
    assert!(matches!(session.piece_published(&mut pieces), Step::Finished));
    assert_eq!(session.state(), SessionState::Closed);
}

#[test]
fn blocks_asked_of_another_peer_are_passed_over() {
    let t = torrent(3, 16384, 3 * 16384);
    let mut pieces = Pieces::new(&t);
    let mut one = open(&t);
    let mut two = open(&t);
    one.router(&build_bitfield(&ByteBuffer::from_bytes(&[0xE0])), &mut pieces);
    two.router(&build_bitfield(&ByteBuffer::from_bytes(&[0xE0])), &mut pieces);
    let a = sent(one.router(&build_unchoke(), &mut pieces));
    let b = sent(two.router(&build_unchoke(), &mut pieces));
    assert_eq!(a, build_request(PieceBlock { index: 0, begin: 0, length: 16384 }).to_bytes());
    assert_eq!(b, build_request(PieceBlock { index: 1, begin: 0, length: 16384 }).to_bytes());
    assert_eq!(one.queued(), 2);
    assert_eq!(two.queued(), 1);
}

#[test]
fn exhausted_ledger_reissues_lost_blocks() {
    let t = torrent(2, 16384, 32768);
    let mut pieces = Pieces::new(&t);
    let mut lost = open(&t);
    lost.router(&build_bitfield(&ByteBuffer::from_bytes(&[0xC0])), &mut pieces);
    lost.router(&build_unchoke(), &mut pieces);
    pieces.add_requested(PieceBlock { index: 1, begin: 0, length: 16384 });
    pieces.add_received(PieceBlock { index: 1, begin: 0, length: 16384 });

    let mut other = open(&t);
    other.router(&build_bitfield(&ByteBuffer::from_bytes(&[0xC0])), &mut pieces);
    let again = sent(other.router(&build_unchoke(), &mut pieces));
    assert_eq!(
        again,
        build_request(PieceBlock { index: 0, begin: 0, length: 16384 }).to_bytes()
    );
}

#[test]
fn queue_without_needed_blocks_is_drained() {
    let t = torrent(2, 16384, 32768);
    let mut pieces = Pieces::new(&t);
    pieces.add_requested(PieceBlock { index: 0, begin: 0, length: 16384 });
    let mut session = open(&t);
    session.router(&build_have(0), &mut pieces);
    assert!(matches!(session.router(&build_unchoke(), &mut pieces), Step::Wait));
    assert_eq!(session.queued(), 0);
}

#[test]
fn frames_are_taken_once_whole() {
    let t = torrent(2, 16384, 32768);
    let session = MessageHandler::new(&t, MAX);
    let mut pending: Vec<u8> = vec![0, 0, 0];
    assert!(matches!(session.get_whole_msg(&mut pending), Ok(None)));
    pending.extend_from_slice(&[5, 4, 0, 0]);
    assert!(matches!(session.get_whole_msg(&mut pending), Ok(None)));
    assert_eq!(pending, vec![0, 0, 0, 5, 4, 0, 0]);
    pending.extend_from_slice(&[0, 1, 0, 0, 0, 0, 0, 0]);
    let frame = session.get_whole_msg(&mut pending).expect("no error").expect("a frame");
    assert_eq!(frame.to_bytes(), build_have(1).to_bytes());
    assert_eq!(pending, vec![0, 0, 0, 0, 0, 0]);
    let frame = session.get_whole_msg(&mut pending).expect("no error").expect("a frame");
    assert_eq!(frame.to_bytes(), build_keep_alive().to_bytes());
    assert_eq!(pending, vec![0, 0]);
    assert!(matches!(session.get_whole_msg(&mut pending), Ok(None)));
}

#[test]
fn frame_above_the_ceiling_is_malformed() {
    let t = torrent(2, 16384, 32768);
    let session = MessageHandler::new(&t, MAX);
    let mut pending: Vec<u8> = vec![0, 0, 0x40, 0x0E, 7];
    assert!(matches!(session.get_whole_msg(&mut pending), Err(Error::MalformedFrame)));
    assert_eq!(pending, vec![0, 0, 0x40, 0x0E, 7]);
    let mut pending: Vec<u8> = vec![0, 0, 0x40, 0x0D, 7];
    assert!(matches!(session.get_whole_msg(&mut pending), Ok(None)));
}

#[test]
fn lost_connection_closes_the_session() {
    let t = torrent(2, 16384, 32768);
    let mut session = open(&t);
    assert!(matches!(session.lost(true), Step::Fail(Error::PeerTimeout)));
    assert_eq!(session.state(), SessionState::Closed);
    let mut session = open(&t);
    assert!(matches!(session.lost(false), Step::Fail(Error::PeerDisconnected)));
    assert_eq!(session.state(), SessionState::Closed);
}

#[test]
fn session_is_open_between_handshake_and_close() {
    let t = torrent(2, 16384, 32768);
    let mut pieces = Pieces::new(&t);
    let mut session = MessageHandler::new(&t, MAX);
    assert!(!session.is_open());
    session.connected(&ByteBuffer::from_bytes(&[0xBB; 20]));
    assert!(!session.is_open());
    let theirs = build_peer_handshake(&[0xAA; 20], &ByteBuffer::from_bytes(&[0xCC; 20]));
    session.handshake(&theirs);
    assert!(session.is_open());
    session.unchoke(&mut pieces);
    assert!(session.is_open());
    session.choke();
    assert!(!session.is_open());
}

#[test]
fn have_handler_refuses_a_piece_behind_the_last() {
    let t = torrent(8, 16384, 8 * 16384);
    let mut pieces = Pieces::new(&t);
    let mut session = open(&t);
    assert!(matches!(session.have(7, &mut pieces), Step::Wait));
    assert_eq!(session.queued(), 1);
    assert!(matches!(session.have(8, &mut pieces), Step::Fail(Error::ProtocolViolation)));
    assert_eq!(session.state(), SessionState::Closed);
    assert_eq!(session.queued(), 1);
    assert_eq!(pieces.progress(), (0, 8));
}

#[test]
fn bitfield_handler_passes_over_spare_bits() {
    let t = torrent(10, 16384, 10 * 16384);
    let mut session = open(&t);
    assert!(matches!(session.bitfield(&vec![0xFF, 0xFF]), Step::Wait));
    let indexes: Vec<u32> = session.queue().iter().map(|b| b.index).collect();
    assert_eq!(indexes, vec![0, 1, 2, 3, 4, 5, 6, 7, 8, 9]);
    assert!(matches!(session.bitfield(&vec![0x80, 0x00]), Step::Fail(Error::ProtocolViolation)));
}

#[test]
fn piece_handler_delivers_at_the_offset() {
    let t = torrent(15, 32768, 479502);
    let mut pieces = Pieces::new(&t);
    let mut session = open(&t);
    match session.piece(3, 16384, vec![5; 16384], &mut pieces) {
        Step::Deliver(payload) => {
            assert_eq!(payload.offset, 3 * 32768 + 16384);
            assert_eq!(payload.block, vec![5; 16384]);
        }
        other => panic!("expected a delivery, got {:?}", other),
    }
    assert_eq!(pieces.progress(), (1, 30));
    assert!(matches!(
        session.piece(15, 0, vec![5; 1], &mut pieces),
        Step::Fail(Error::ProtocolViolation)
    ));
}

#[test]
fn request_handler_asks_for_one_block_at_a_time() {
    let t = torrent(2, 16384, 32768);
    let mut pieces = Pieces::new(&t);
    let mut session = open(&t);
    session.bitfield(&vec![0xC0]);
    assert!(matches!(session.request_piece(&mut pieces), Step::Wait));
    assert_eq!(session.queued(), 2);
    session.unchoke(&mut pieces);
    assert_eq!(session.queued(), 1);
    let second = sent(session.request_piece(&mut pieces));
    assert_eq!(
        second,
        build_request(PieceBlock { index: 1, begin: 0, length: 16384 }).to_bytes()
    );
    assert!(matches!(session.request_piece(&mut pieces), Step::Wait));
}
