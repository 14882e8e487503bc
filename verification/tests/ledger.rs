use torrent_leech::download::download_outcome;
use torrent_leech::errors::Error;
use torrent_leech::pieces::Pieces;
use torrent_leech::queue::{PieceBlock, Queue};
use torrent_leech::torrents::{Info, Torrent};

fn torrent(pieces: usize, blocks_per_piece: u64) -> Torrent {
    let piece_length = blocks_per_piece * 16384;
    let info = Info {
        name: String::from("payload"),
        pieces: vec![0u8; pieces * 20],
        piece_length,
        length: Some(pieces as u64 * piece_length),
        files: None,
    };
    Torrent::new(info, None, [0; 20]).expect("a well-formed torrent")
}

fn block(index: u32, j: u32) -> PieceBlock {
    PieceBlock { index, begin: j * 16384, length: 16384 }
}

fn percent(pieces: &Pieces) -> f32 {
    let (downloaded, total) = pieces.progress();
    downloaded as f32 / total as f32 * 100.0
}

#[test]
fn test_calculate_downloaded_percent() {
    let t = torrent(5, 2);
    let mut pieces = Pieces::new(&t);
    for i in 0..5 {
        pieces.add_received(block(i, 0));
        pieces.add_received(block(i, 1));
    }
    let percent_downloaded = percent(&pieces);
    assert_eq!(percent_downloaded, 100.0);

    let mut pieces = Pieces::new(&t);
    for i in 0..5 {
        pieces.add_received(block(i, 0));
    }
    let percent_downloaded = percent(&pieces);
    assert_eq!(percent_downloaded, 50.0);

    let t = torrent(5, 3);
    let mut pieces = Pieces::new(&t);
    for i in 0..5 {
        pieces.add_received(block(i, 0));
        pieces.add_received(block(i, 1));
    }
    let percent_downloaded = percent(&pieces);
    assert_eq!(percent_downloaded, 66.66667);
}

#[test]
fn new_ledger_needs_everything() {
    let t = torrent(2, 2);
    let mut pieces = Pieces::new(&t);
    assert_eq!(pieces.progress(), (0, 4));
    assert!(!pieces.is_done());
    for i in 0..2 {
        for j in 0..2 {
            assert!(pieces.holds(block(i, j)));
            assert!(pieces.needed(block(i, j)));
        }
    }
    assert!(!pieces.holds(block(2, 0)));
    assert!(!pieces.holds(block(0, 2)));
}

#[test]
fn requested_block_is_not_needed_until_refresh() {
    let t = torrent(2, 2);
    let mut pieces = Pieces::new(&t);
    pieces.add_requested(block(0, 1));
    assert!(!pieces.needed(block(0, 1)));
    pieces.add_requested(block(1, 0));
    pieces.add_received(block(1, 0));
    assert!(!pieces.needed(block(0, 1)));
    assert!(!pieces.needed(block(1, 0)));
    assert!(pieces.needed(block(0, 0)));
}

#[test]
fn begin_within_a_block_names_the_block() {
    let t = torrent(1, 2);
    let mut pieces = Pieces::new(&t);
    pieces.add_requested(PieceBlock { index: 0, begin: 16384 + 100, length: 10 });
    assert!(!pieces.needed(block(0, 1)));
    assert!(pieces.needed(block(0, 0)));
}

#[test]
fn refresh_reissues_what_has_not_arrived() {
    let t = torrent(2, 2);
    let mut pieces = Pieces::new(&t);
    for i in 0..2 {
        for j in 0..2 {
            pieces.add_requested(block(i, j));
        }
    }
    pieces.add_received(block(0, 0));
    pieces.add_received(block(1, 1));
    assert!(pieces.needed(block(0, 1)));
    assert!(pieces.needed(block(1, 0)));
    assert!(!pieces.needed(block(0, 0)));
    assert!(!pieces.needed(block(1, 1)));
    assert_eq!(pieces.progress(), (2, 4));
}

#[test]
fn done_once_every_block_has_arrived() {
    let t = torrent(2, 1);
    let mut pieces = Pieces::new(&t);
    assert_eq!(download_outcome(&pieces, false), Err(Error::DownloadIncomplete));
    pieces.add_received(block(0, 0));
    assert!(!pieces.is_done());
    assert_eq!(download_outcome(&pieces, false), Err(Error::DownloadIncomplete));
    pieces.add_received(block(1, 0));
    assert!(pieces.is_done());
    assert_eq!(download_outcome(&pieces, false), Ok(()));
    assert_eq!(download_outcome(&pieces, true), Err(Error::WriteFailed));
}

#[test]
fn every_error_has_its_line() {
    let all = [
        Error::MalformedFrame,
        Error::ProtocolMismatch,
        Error::ProtocolViolation,
        Error::PeerDisconnected,
        Error::PeerTimeout,
        Error::WriteFailed,
        Error::DownloadIncomplete,
        Error::TrackerResponse,
        Error::NoPeers,
    ];
    for (i, a) in all.iter().enumerate() {
        for b in &all[i + 1..] {
            assert_ne!(a.describe(), b.describe());
        }
    }
    assert_eq!(Error::PeerDisconnected.describe(), "peer connection closed");
    assert_eq!(Error::NoPeers.describe(), "no peers at the moment");
}

#[test]
fn done_ledger_needs_nothing() {
    let t = torrent(1, 2);
    let mut pieces = Pieces::new(&t);
    pieces.add_requested(block(0, 0));
    pieces.add_requested(block(0, 1));
    pieces.add_received(block(0, 0));
    pieces.add_received(block(0, 1));
    assert!(!pieces.needed(block(0, 0)));
    assert!(!pieces.needed(block(0, 1)));
}

#[test]
fn queue_holds_the_blocks_of_a_piece_in_order() {
    let info = Info {
        name: String::from("payload"),
        pieces: vec![0u8; 15 * 20],
        piece_length: 32768,
        length: Some(479502),
        files: None,
    };
    let t = Torrent::new(info, None, [0; 20]).expect("a well-formed torrent");
    let mut queue = Queue::new(&t);
    assert!(queue.choked());
    assert_eq!(queue.len(), 0);
    assert_eq!(queue.peek(), None);
    assert_eq!(queue.deque(), None);
    queue.queue(14);
    queue.queue(0);
    queue.queue(14);
    assert_eq!(queue.len(), 6);
    assert_eq!(
        queue.snapshot(),
        vec![
            PieceBlock { index: 14, begin: 0, length: 16384 },
            PieceBlock { index: 14, begin: 16384, length: 4366 },
            PieceBlock { index: 0, begin: 0, length: 16384 },
            PieceBlock { index: 0, begin: 16384, length: 16384 },
            PieceBlock { index: 14, begin: 0, length: 16384 },
            PieceBlock { index: 14, begin: 16384, length: 4366 },
        ]
    );
    assert_eq!(queue.peek(), Some(PieceBlock { index: 14, begin: 0, length: 16384 }));
    assert_eq!(queue.deque(), Some(PieceBlock { index: 14, begin: 0, length: 16384 }));
    assert_eq!(queue.len(), 5);
    queue.set_choked(false);
    assert!(!queue.choked());
}
