use crate::buffer::{be32, be32_at, be32_value, buffer_bytes};
use crate::download::PieceChannelPayload;
use crate::errors::Error;
use crate::messages::{
    bitfield_len, block_fields, build_interested, build_peer_handshake, build_request, decoded,
    frame, handshake_bytes, lemma_bitfield_round_trip, lemma_frame_decodes,
    lemma_have_round_trip, lemma_piece_round_trip, parse, protocol_name, well_framed,
    GenericPayload, Msg, MsgView,
};
use crate::pieces::{Ledger, Pieces};
use crate::queue::{piece_blocks, PieceBlock, Queue};
use crate::torrents::{lemma_mul_bound, Torrent};
use bytebuffer::ByteBuffer;
use vstd::prelude::*;

verus! {

/// Value of the bit that stands for the piece at place `r` of a bitfield byte:
/// the highest bit for place 0.
pub open spec fn bit_weight(r: int) -> int {
    if r == 0 {
        128
    } else if r == 1 {
        64
    } else if r == 2 {
        32
    } else if r == 3 {
        16
    } else if r == 4 {
        8
    } else if r == 5 {
        4
    } else if r == 6 {
        2
    } else {
        1
    }
}

/// Whether a bitfield has the bit of piece `i`: bit `7 - i % 8` of byte
/// `i / 8`.
pub open spec fn has_bit(bitfield: Seq<u8>, i: int) -> bool {
    0 <= i / 8 < bitfield.len() && (bitfield[i / 8] as int / bit_weight(i % 8)) % 2 == 1
}

/// The pieces below `n` whose bit is set, in ascending order.
pub open spec fn named(bitfield: Seq<u8>, n: nat) -> Seq<u64>
    decreases n,
{
    if n == 0 {
        Seq::empty()
    } else {
        named(bitfield, (n - 1) as nat) + if has_bit(bitfield, n - 1) {
            seq![(n - 1) as u64]
        } else {
            Seq::empty()
        }
    }
}

/// The pieces that a bitfield names, spare bits and all, in ascending order.
pub open spec fn listed(bitfield: Seq<u8>) -> Seq<u64> {
    named(bitfield, 8 * bitfield.len())
}

/// Every piece listed lies below `n`, has its bit set, and stands behind the
/// smaller ones.
pub proof fn lemma_named_ascending(bitfield: Seq<u8>, n: nat, a: int)
    requires
        n <= u64::MAX,
        0 <= a < named(bitfield, n).len(),
    ensures
        named(bitfield, n)[a] < n,
        has_bit(bitfield, named(bitfield, n)[a] as int),
        forall|c: int| 0 <= c < a ==> named(bitfield, n)[c] < named(bitfield, n)[a],
    decreases n,
{
    if n > 0 {
        let front = named(bitfield, (n - 1) as nat);
        if a < front.len() {
            lemma_named_ascending(bitfield, (n - 1) as nat, a);
        } else {
            assert forall|c: int| 0 <= c < a implies named(bitfield, n)[c] < named(bitfield, n)[a] by {
                lemma_named_ascending(bitfield, (n - 1) as nat, c);
            }
        }
    }
}

/// Every piece below `n` whose bit is set is listed.
pub proof fn lemma_named_complete(bitfield: Seq<u8>, n: nat, i: int)
    requires
        n <= u64::MAX,
        0 <= i < n,
        has_bit(bitfield, i),
    ensures
        named(bitfield, n).contains(i as u64),
    decreases n,
{
    let front = named(bitfield, (n - 1) as nat);
    if i == n - 1 {
        assert(named(bitfield, n)[front.len() as int] == i as u64);
    } else {
        lemma_named_complete(bitfield, (n - 1) as nat, i);
        let a = choose|a: int| 0 <= a < front.len() && front[a] == i as u64;
        assert(named(bitfield, n)[a] == i as u64);
    }
}

/// Parse the bitfield: the indices of the pieces whose bit is set, in
/// ascending order. The high bit of the first byte stands for piece 0.
pub fn parse_bitfield(bitfield: Vec<u8>) -> (piece_indexes: Vec<u64>)
    requires
        bitfield@.len() * 8 <= u64::MAX,
    ensures
        piece_indexes@ == listed(bitfield@),
{
    let mut piece_indexes: Vec<u64> = Vec::new();
    let ghost bits = bitfield@;
    let mut i: usize = 0;
    while i < bitfield.len()
        invariant
            i <= bitfield.len(),
            bits == bitfield@,
            bits.len() * 8 <= u64::MAX,
            piece_indexes@ == named(bits, (8 * i) as nat),
        decreases bitfield.len() - i,
    {
        let b: u8 = bitfield[i];
        let mut weight: u8 = 128;
        let mut j: u64 = 0;
        while j < 8
            invariant
                j <= 8,
                i < bitfield.len(),
                bits == bitfield@,
                bits.len() * 8 <= u64::MAX,
                b == bits[i as int],
                j < 8 ==> weight as int == bit_weight(j as int),
                piece_indexes@ == named(bits, (8 * i + j) as nat),
            decreases 8 - j,
        {
            let ghost at = 8 * i + j;
            assert(at / 8 == i && at % 8 == j);
            if (b / weight) % 2 == 1 {
                piece_indexes.push(i as u64 * 8 + j);
            }
            weight = weight / 2;
            j += 1;
        }
        i += 1;
    }
    piece_indexes
}

/// The blocks of the pieces below `n` whose bit is set, in ascending order of
/// the pieces.
pub open spec fn bitfield_blocks(t: Torrent, bitfield: Seq<u8>, n: nat) -> Seq<PieceBlock>
    decreases n,
{
    if n == 0 {
        Seq::empty()
    } else {
        bitfield_blocks(t, bitfield, (n - 1) as nat) + if has_bit(bitfield, n - 1) {
            piece_blocks(t, (n - 1) as nat)
        } else {
            Seq::empty()
        }
    }
}

/// A bitfield enqueues no block of a piece at or behind `n`, whatever its
/// spare bits hold, and only blocks of pieces whose bit is set.
pub proof fn lemma_bitfield_blocks_in_range(t: Torrent, bitfield: Seq<u8>, n: nat, a: int)
    requires
        n <= u32::MAX,
        0 <= a < bitfield_blocks(t, bitfield, n).len(),
    ensures
        bitfield_blocks(t, bitfield, n)[a].index < n,
        has_bit(bitfield, bitfield_blocks(t, bitfield, n)[a].index as int),
    decreases n,
{
    if n > 0 {
        let front = bitfield_blocks(t, bitfield, (n - 1) as nat);
        if a < front.len() {
            lemma_bitfield_blocks_in_range(t, bitfield, (n - 1) as nat, a);
        }
    }
}

/// Which of the first `n` pieces a bitfield names.
pub open spec fn pieces_of(bitfield: Seq<u8>, n: nat) -> Seq<bool> {
    Seq::new(n, |i: int| has_bit(bitfield, i))
}

/// What the piece at place `r` of byte `k` adds to the byte: the weight of
/// its bit where the piece is there.
pub open spec fn bit_of(have: Seq<bool>, k: int, r: int) -> int {
    if 8 * k + r < have.len() && have[8 * k + r] {
        bit_weight(r)
    } else {
        0
    }
}

/// The bitfield that names exactly the pieces that `have` holds, with its
/// spare bits zero.
pub open spec fn bitfield_of(have: Seq<bool>) -> Seq<u8> {
    Seq::new(
        (have.len() + 7) / 8,
        |k: int|
            (bit_of(have, k, 0) + bit_of(have, k, 1) + bit_of(have, k, 2) + bit_of(have, k, 3)
                + bit_of(have, k, 4) + bit_of(have, k, 5) + bit_of(have, k, 6) + bit_of(
                have,
                k,
                7,
            )) as u8,
    )
}

/// Whether the bits behind the last of `n` pieces are zero.
pub open spec fn spare_bits_zero(bitfield: Seq<u8>, n: nat) -> bool {
    forall|i: int| n <= i < 8 * bitfield.len() ==> !#[trigger] has_bit(bitfield, i)
}

/// A byte is the sum of the weights of its bits.
proof fn lemma_byte_is_its_bits(b: u8)
    ensures
        b as int == (if (b as int / 128) % 2 == 1 {
            128int
        } else {
            0
        }) + (if (b as int / 64) % 2 == 1 {
            64int
        } else {
            0
        }) + (if (b as int / 32) % 2 == 1 {
            32int
        } else {
            0
        }) + (if (b as int / 16) % 2 == 1 {
            16int
        } else {
            0
        }) + (if (b as int / 8) % 2 == 1 {
            8int
        } else {
            0
        }) + (if (b as int / 4) % 2 == 1 {
            4int
        } else {
            0
        }) + (if (b as int / 2) % 2 == 1 {
            2int
        } else {
            0
        }) + (if (b as int / 1) % 2 == 1 {
            1int
        } else {
            0
        }),
{
    let v = b as int;
    let q1 = v / 2;
    let q2 = q1 / 2;
    let q3 = q2 / 2;
    let q4 = q3 / 2;
    let q5 = q4 / 2;
    let q6 = q5 / 2;
    let q7 = q6 / 2;
    assert(q2 == v / 4);
    assert(q3 == v / 8);
    assert(q4 == v / 16);
    assert(q5 == v / 32);
    assert(q6 == v / 64);
    assert(q7 == v / 128);
    assert(q7 < 2);
    assert(v == 2 * q1 + v % 2);
    assert(q1 == 2 * q2 + q1 % 2);
    assert(q2 == 2 * q3 + q2 % 2);
    assert(q3 == 2 * q4 + q3 % 2);
    assert(q4 == 2 * q5 + q4 % 2);
    assert(q5 == 2 * q6 + q5 % 2);
    assert(q6 == 2 * q7 + q6 % 2);
}

/// Bitfield round trip: a bitfield of the length that the piece count asks
/// for, with its spare bits zero, is the bitfield of the pieces it names.
pub proof fn lemma_bitfield_of_its_pieces(bitfield: Seq<u8>, n: nat)
    requires
        bitfield.len() == (n + 7) / 8,
        spare_bits_zero(bitfield, n),
    ensures
        bitfield_of(pieces_of(bitfield, n)) == bitfield,
{
    let have = pieces_of(bitfield, n);
    let back = bitfield_of(have);
    assert forall|k: int| 0 <= k < bitfield.len() implies back[k] == bitfield[k] by {
        let b = bitfield[k];
        lemma_byte_is_its_bits(b);
        assert forall|r: int| 0 <= r < 8 implies bit_of(have, k, r) == if (b as int / bit_weight(
            r,
        )) % 2 == 1 {
            bit_weight(r)
        } else {
            0
        } by {
            let i = 8 * k + r;
            assert(i / 8 == k && i % 8 == r);
            if i >= n {
                assert(!has_bit(bitfield, i));
            } else {
                assert(have[i] == has_bit(bitfield, i));
            }
        }
        assert(bit_of(have, k, 0) == if (b as int / 128) % 2 == 1 { 128int } else { 0 });
        assert(bit_of(have, k, 1) == if (b as int / 64) % 2 == 1 { 64int } else { 0 });
        assert(bit_of(have, k, 2) == if (b as int / 32) % 2 == 1 { 32int } else { 0 });
        assert(bit_of(have, k, 3) == if (b as int / 16) % 2 == 1 { 16int } else { 0 });
        assert(bit_of(have, k, 4) == if (b as int / 8) % 2 == 1 { 8int } else { 0 });
        assert(bit_of(have, k, 5) == if (b as int / 4) % 2 == 1 { 4int } else { 0 });
        assert(bit_of(have, k, 6) == if (b as int / 2) % 2 == 1 { 2int } else { 0 });
        assert(bit_of(have, k, 7) == if (b as int / 1) % 2 == 1 { 1int } else { 0 });
    }
    assert(back =~= bitfield);
}

/// Whether the bitfield has the bit of a piece.
pub fn bit_is_set(bitfield: &Vec<u8>, piece_index: u32) -> (r: bool)
    ensures
        r == has_bit(bitfield@, piece_index as int),
{
    let at: usize = (piece_index / 8) as usize;
    if at >= bitfield.len() {
        return false;
    }
    let place: u32 = piece_index % 8;
    let weight: u8 = if place == 0 {
        128
    } else if place == 1 {
        64
    } else if place == 2 {
        32
    } else if place == 3 {
        16
    } else if place == 4 {
        8
    } else if place == 5 {
        4
    } else if place == 6 {
        2
    } else {
        1
    };
    (bitfield[at] / weight) % 2 == 1
}

/// The least ceiling on the length that a frame may declare: a block and
/// the thirteen bytes of the longest header.
pub const MIN_MAX_FRAME: u32 = 16397;

/// Where a peer session stands.
#[derive(Debug, Copy, Clone, PartialEq, Eq, Structural)]
pub enum SessionState {
    Connecting,
    Handshaking,
    AwaitingUnchoke,
    Active,
    Closed,
}

/// What the caller is to do after the session has taken an event.
#[derive(Debug)]
pub enum Step {
    /// Nothing: read on.
    Wait,
    /// Send these bytes to the peer, then read on.
    Send(Vec<u8>),
    /// Hand the block to the writer, then call `piece_published`.
    Deliver(PieceChannelPayload),
    /// The payload is complete: close the connection and end the download.
    Finished,
    /// The peer chokes us: close the connection.
    Close,
    /// Close the connection for this reason.
    Fail(Error),
}

/// A step as a mathematical value.
pub ghost enum StepView {
    Wait,
    Send(Seq<u8>),
    Deliver { offset: u64, block: Seq<u8> },
    Finished,
    Close,
    Fail(Error),
}

impl View for Step {
    type V = StepView;

    open spec fn view(&self) -> StepView {
        match *self {
            Step::Wait => StepView::Wait,
            Step::Send(bytes) => StepView::Send(bytes@),
            Step::Deliver(payload) => StepView::Deliver {
                offset: payload.offset,
                block: payload.block@,
            },
            Step::Finished => StepView::Finished,
            Step::Close => StepView::Close,
            Step::Fail(e) => StepView::Fail(e),
        }
    }
}

/// A session as a mathematical value.
pub ghost struct SessionView {
    pub state: SessionState,
    pub choked: bool,
    pub blocks: Seq<PieceBlock>,
    pub enqueued: bool,
}

/// What an event makes of a session and of the ledger, and what is to be done.
pub ghost struct Turn {
    pub session: SessionView,
    pub ledger: Ledger,
    pub step: StepView,
}

/// Row and column of a block's cell in the ledger.
pub open spec fn cell_of(b: PieceBlock) -> (int, int) {
    (b.index as int, b.begin as int / 16384)
}

/// Whether `b` names a block of the torrent.
pub open spec fn valid_block(t: Torrent, b: PieceBlock) -> bool {
    &&& b.index < t.piece_count()
    &&& b.begin as int / 16384 < t.spec_blocks_per_piece(b.index as nat)
}

/// The request frame for a block.
pub open spec fn request_frame(b: PieceBlock) -> Seq<u8> {
    frame(6, block_fields(b.index, b.begin, b.length))
}

/// Index of the first block from `from` on that has not been asked for, or
/// the number of blocks where there is none.
pub open spec fn first_needed(l: Ledger, blocks: Seq<PieceBlock>, from: int) -> int
    decreases blocks.len() - from,
{
    if from < 0 || from >= blocks.len() {
        blocks.len() as int
    } else if !l.requested[cell_of(blocks[from]).0][cell_of(blocks[from]).1] {
        from
    } else {
        first_needed(l, blocks, from + 1)
    }
}

/// Asking for the next block: nothing while the peer chokes us or the queue
/// is empty. Else the ledger is refreshed where it is exhausted, the blocks
/// that were asked for already are dropped from the front of the queue, and
/// the first one that was not is requested and marked.
pub open spec fn request_turn(s: SessionView, l: Ledger) -> Turn {
    if s.choked || s.blocks.len() == 0 {
        Turn { session: s, ledger: l, step: StepView::Wait }
    } else {
        let fresh = l.refreshed();
        let n = first_needed(fresh, s.blocks, 0);
        if n >= s.blocks.len() {
            Turn {
                session: SessionView { blocks: Seq::empty(), ..s },
                ledger: fresh,
                step: StepView::Wait,
            }
        } else {
            let b = s.blocks[n];
            Turn {
                session: SessionView { blocks: s.blocks.subrange(n + 1, s.blocks.len() as int), ..s },
                ledger: fresh.mark_requested(cell_of(b).0, cell_of(b).1),
                step: StepView::Send(request_frame(b)),
            }
        }
    }
}

/// A session that failed: closed, with the reason.
pub open spec fn failed(s: SessionView, l: Ledger, e: Error) -> Turn {
    Turn {
        session: SessionView { state: SessionState::Closed, ..s },
        ledger: l,
        step: StepView::Fail(e),
    }
}

/// choke: the peer chokes us, and the session closes.
pub open spec fn choke_turn(s: SessionView, l: Ledger) -> Turn {
    Turn {
        session: SessionView { state: SessionState::Closed, choked: true, ..s },
        ledger: l,
        step: StepView::Close,
    }
}

/// unchoke: the session is active and asks for its next block.
pub open spec fn unchoke_turn(s: SessionView, l: Ledger) -> Turn {
    request_turn(SessionView { state: SessionState::Active, choked: false, ..s }, l)
}

/// have: a piece that the torrent does not have is a protocol violation.
/// Else the piece's blocks join the queue, and where the queue was empty
/// the next block is asked for.
pub open spec fn have_turn(t: Torrent, s: SessionView, l: Ledger, piece_index: u32) -> Turn {
    if piece_index >= t.piece_count() {
        failed(s, l, Error::ProtocolViolation)
    } else {
        let queued = SessionView {
            blocks: s.blocks + piece_blocks(t, piece_index as nat),
            enqueued: true,
            ..s
        };
        if s.blocks.len() == 0 {
            request_turn(queued, l)
        } else {
            Turn { session: queued, ledger: l, step: StepView::Wait }
        }
    }
}

/// bitfield: a protocol violation once a piece has been enqueued. Else the
/// blocks of every piece of the torrent whose bit is set join the queue, in
/// ascending order of the pieces.
pub open spec fn bitfield_turn(t: Torrent, s: SessionView, l: Ledger, bitfield: Seq<u8>) -> Turn {
    if s.enqueued {
        failed(s, l, Error::ProtocolViolation)
    } else {
        let blocks = bitfield_blocks(t, bitfield, t.piece_count());
        Turn {
            session: SessionView {
                blocks: s.blocks + blocks,
                enqueued: blocks.len() > 0,
                ..s
            },
            ledger: l,
            step: StepView::Wait,
        }
    }
}

/// piece: a block that the torrent does not have is a protocol violation.
/// Else the block is marked as arrived and goes to the writer, with the
/// offset in the payload at which it starts.
pub open spec fn piece_turn(
    t: Torrent,
    s: SessionView,
    l: Ledger,
    index: u32,
    begin: u32,
    block: Seq<u8>,
) -> Turn {
    if !l.has(index as int, begin as int / 16384) {
        failed(s, l, Error::ProtocolViolation)
    } else {
        Turn {
            session: s,
            ledger: l.mark_received(index as int, begin as int / 16384),
            step: StepView::Deliver {
                offset: (index * t.info.piece_length + begin) as u64,
                block,
            },
        }
    }
}

/// Once a block has gone to the writer: where every block has arrived the
/// session closes and the download is finished, else the next block is asked
/// for.
pub open spec fn published_turn(s: SessionView, l: Ledger) -> Turn {
    if l.done() {
        Turn {
            session: SessionView { state: SessionState::Closed, ..s },
            ledger: l,
            step: StepView::Finished,
        }
    } else {
        request_turn(s, l)
    }
}

/// What a decoded message makes of the session: choke, unchoke, have,
/// bitfield and piece have their handlers; the keep-alive and every other
/// message change nothing.
pub open spec fn message_turn(t: Torrent, s: SessionView, l: Ledger, m: MsgView) -> Turn {
    if m.size == 0 {
        Turn { session: s, ledger: l, step: StepView::Wait }
    } else if m.id == 0 {
        choke_turn(s, l)
    } else if m.id == 1 {
        unchoke_turn(s, l)
    } else if m.id == 4 {
        have_turn(t, s, l, m.payload.piece_index->0)
    } else if m.id == 5 {
        bitfield_turn(t, s, l, m.payload.bitfield->0)
    } else if m.id == 7 {
        piece_turn(t, s, l, m.payload.index, m.payload.begin, m.payload.block->0)
    } else {
        Turn { session: s, ledger: l, step: StepView::Wait }
    }
}

/// What the bytes of one read make of the session: no bytes mean that the
/// peer is gone, bytes that are no frame end the session, and a frame is
/// handled as the message it decodes to.
pub open spec fn route_turn(
    t: Torrent,
    max_frame: u32,
    s: SessionView,
    l: Ledger,
    bytes: Seq<u8>,
) -> Turn {
    if bytes.len() == 0 {
        failed(s, l, Error::PeerDisconnected)
    } else if !well_framed(bytes, t.piece_count(), max_frame as nat) {
        failed(s, l, Error::MalformedFrame)
    } else {
        message_turn(t, s, l, decoded(bytes))
    }
}

/// Whether a peer's handshake is the one of this protocol and this torrent:
/// 68 bytes, the protocol's name with its length, and the torrent's info
/// hash. The reserved bytes and the peer id may be anything.
pub open spec fn handshake_ok(received: Seq<u8>, info_hash: Seq<u8>) -> bool {
    &&& received.len() == 68
    &&& received[0] == 19
    &&& received.subrange(1, 20) == protocol_name()
    &&& received.subrange(28, 48) == info_hash
}

/// The blocks of a piece of the torrent are blocks of the torrent.
pub proof fn lemma_piece_blocks_valid(t: Torrent, i: nat, a: int)
    requires
        t.wf(),
        i < t.piece_count(),
        0 <= a < piece_blocks(t, i).len(),
    ensures
        valid_block(t, piece_blocks(t, i)[a]),
        piece_blocks(t, i)[a].index == i,
        piece_blocks(t, i)[a].begin == a * 16384,
        piece_blocks(t, i)[a].length == t.spec_block_len(i, a as nat),
{
    t.lemma_piece_len_bounds(i);
}

/// A block that the ledger has, once it arrives, counts as arrived and goes
/// to the writer with its bytes and with the offset at which it starts in
/// the payload.
pub proof fn lemma_received_is_delivered(
    t: Torrent,
    s: SessionView,
    l: Ledger,
    index: u32,
    begin: u32,
    block: Seq<u8>,
)
    requires
        t.wf(),
        l.wf(),
        l.has(index as int, begin as int / 16384),
    ensures
        ({
            let turn = piece_turn(t, s, l, index, begin, block);
            &&& turn.ledger.received[index as int][begin as int / 16384]
            &&& turn.step == StepView::Deliver {
                offset: (index * t.info.piece_length + begin) as u64,
                block,
            }
            &&& index * t.info.piece_length + begin <= u64::MAX
            &&& turn.session == s
        }),
{
    lemma_mul_bound(index as int, t.info.piece_length as int, 0xFFFF_FFFF, 0xFFFF_FFFF);
}

/// The first block that has not been asked for lies at or behind `from`, no
/// block between the two is needed, and the block itself is.
pub proof fn lemma_first_needed(l: Ledger, blocks: Seq<PieceBlock>, from: int)
    requires
        0 <= from <= blocks.len(),
    ensures
        from <= first_needed(l, blocks, from) <= blocks.len(),
        forall|k: int|
            from <= k < first_needed(l, blocks, from) ==> l.requested[cell_of(
                #[trigger] blocks[k],
            ).0][cell_of(blocks[k]).1],
        first_needed(l, blocks, from) < blocks.len() ==> !l.requested[cell_of(
            blocks[first_needed(l, blocks, from)],
        ).0][cell_of(blocks[first_needed(l, blocks, from)]).1],
    decreases blocks.len() - from,
{
    if from < blocks.len() && l.requested[cell_of(blocks[from]).0][cell_of(blocks[from]).1] {
        lemma_first_needed(l, blocks, from + 1);
    }
}

/// No duplicate requests: a session asks only for a block that, once the
/// ledger is refreshed, does not count as asked for, and that block counts
/// as asked for afterwards. Every block that it drops from its queue on the
/// way counts as asked for already.
pub proof fn lemma_request_is_needed(s: SessionView, l: Ledger)
    requires
        l.wf(),
        forall|k: int|
            0 <= k < s.blocks.len() ==> l.has(
                cell_of(#[trigger] s.blocks[k]).0,
                cell_of(s.blocks[k]).1,
            ),
        request_turn(s, l).step is Send,
    ensures
        ({
            let n = first_needed(l.refreshed(), s.blocks, 0);
            let turn = request_turn(s, l);
            let cell = cell_of(s.blocks[n]);
            &&& !s.choked
            &&& 0 <= n < s.blocks.len()
            &&& turn.step == StepView::Send(request_frame(s.blocks[n]))
            &&& !l.refreshed().requested[cell.0][cell.1]
            &&& turn.ledger.requested[cell.0][cell.1]
            &&& turn.ledger.received == l.received
            &&& forall|k: int|
                0 <= k < n ==> l.refreshed().requested[cell_of(#[trigger] s.blocks[k]).0][cell_of(
                    s.blocks[k],
                ).1]
        }),
{
    let fresh = l.refreshed();
    lemma_first_needed(fresh, s.blocks, 0);
    let n = first_needed(fresh, s.blocks, 0);
    let cell = cell_of(s.blocks[n]);
    assert(l.has(cell.0, cell.1));
    assert(l.requested[cell.0].len() == l.received[cell.0].len());
}

/// Spare bits enqueue nothing: a bitfield message of the right length, on a
/// session that has enqueued no piece yet, is not rejected whatever its
/// spare bits hold. It changes neither the state nor the ledger, and adds
/// to the queue only blocks of pieces of the torrent whose bit is set, in
/// ascending order of the pieces.
pub proof fn lemma_bitfield_message_enqueues(
    t: Torrent,
    max_frame: u32,
    s: SessionView,
    l: Ledger,
    bitfield: Seq<u8>,
)
    requires
        t.wf(),
        !s.enqueued,
        bitfield.len() == bitfield_len(t.piece_count()),
        bitfield.len() < max_frame,
    ensures
        ({
            let turn = route_turn(t, max_frame, s, l, frame(5, bitfield));
            let added = bitfield_blocks(t, bitfield, t.piece_count());
            &&& turn.step == StepView::Wait
            &&& turn.ledger == l
            &&& turn.session.state == s.state
            &&& turn.session.choked == s.choked
            &&& turn.session.blocks == s.blocks + added
            &&& forall|a: int|
                0 <= a < added.len() ==> (#[trigger] added[a]).index < t.piece_count() && has_bit(
                    bitfield,
                    added[a].index as int,
                )
        }),
{
    lemma_bitfield_round_trip(bitfield, t.piece_count(), max_frame as nat);
    lemma_frame_decodes(5, bitfield, t.piece_count(), max_frame as nat);
    let added = bitfield_blocks(t, bitfield, t.piece_count());
    assert forall|a: int| 0 <= a < added.len() implies (#[trigger] added[a]).index
        < t.piece_count() && has_bit(bitfield, added[a].index as int) by {
        lemma_bitfield_blocks_in_range(t, bitfield, t.piece_count(), a);
    }
}

/// A have message for a piece that the torrent does not have closes the
/// session as a protocol violation: nothing is enqueued, nothing is sent,
/// and the ledger stays as it is.
pub proof fn lemma_have_out_of_range_closes(
    t: Torrent,
    max_frame: u32,
    s: SessionView,
    l: Ledger,
    piece_index: u32,
)
    requires
        piece_index >= t.piece_count(),
        max_frame >= MIN_MAX_FRAME,
    ensures
        ({
            let turn = route_turn(t, max_frame, s, l, frame(4, be32(piece_index)));
            &&& turn.step == StepView::Fail(Error::ProtocolViolation)
            &&& turn.session.state == SessionState::Closed
            &&& turn.session.blocks == s.blocks
            &&& turn.session.enqueued == s.enqueued
            &&& turn.ledger == l
        }),
{
    lemma_have_round_trip(piece_index, t.piece_count(), max_frame as nat);
    lemma_frame_decodes(4, be32(piece_index), t.piece_count(), max_frame as nat);
}

/// A piece message for a block that the ledger has marks the block as
/// arrived and hands it to the writer: the bytes as they came, and the
/// offset at which the block starts in the payload. The session stays as it
/// is.
pub proof fn lemma_piece_message_is_delivered(
    t: Torrent,
    max_frame: u32,
    s: SessionView,
    l: Ledger,
    index: u32,
    begin: u32,
    block: Seq<u8>,
)
    requires
        t.wf(),
        l.wf(),
        l.has(index as int, begin as int / 16384),
        block.len() + 8 < max_frame,
    ensures
        ({
            let turn = route_turn(
                t,
                max_frame,
                s,
                l,
                frame(7, be32(index) + be32(begin) + block),
            );
            &&& turn.step == StepView::Deliver {
                offset: (index * t.info.piece_length + begin) as u64,
                block,
            }
            &&& index * t.info.piece_length + begin <= u64::MAX
            &&& turn.ledger == l.mark_received(index as int, begin as int / 16384)
            &&& turn.ledger.received[index as int][begin as int / 16384]
            &&& turn.ledger.requested == l.requested
            &&& turn.session == s
        }),
{
    let payload = be32(index) + be32(begin) + block;
    lemma_piece_round_trip(index, begin, block, t.piece_count(), max_frame as nat);
    lemma_frame_decodes(7, payload, t.piece_count(), max_frame as nat);
    lemma_received_is_delivered(t, s, l, index, begin, block);
}

/// Refreshing a ledger twice is refreshing it once.
pub proof fn lemma_refresh_once(l: Ledger)
    ensures
        l.refreshed().refreshed() == l.refreshed(),
{
}

/// Marking a cell and refreshing keep the shape of a ledger.
pub proof fn lemma_shape_kept(l: Ledger, t: Torrent, i: int, j: int)
    requires
        l.shaped_for(t),
        l.has(i, j),
    ensures
        l.mark_requested(i, j).shaped_for(t),
        l.mark_received(i, j).shaped_for(t),
        l.refreshed().shaped_for(t),
        l.refreshed().has(i, j),
{
    let r = l.refreshed();
    assert forall|k: int| 0 <= k < r.requested.len() implies (#[trigger] r.requested[k]).len()
        == t.spec_blocks_per_piece(k as nat) by {
        assert(l.requested[k].len() == l.received[k].len());
    }
}

/// The driver of one peer session: it takes what was read from the peer and
/// says what is to be sent, delivered or closed. It owns the peer's queue and
/// works on the ledger that all sessions share.
pub struct MessageHandler<'a> {
    torrent: &'a Torrent,
    queue: Queue<'a>,
    state: SessionState,
    enqueued: bool,
    max_frame: u32,
}

impl<'a> View for MessageHandler<'a> {
    type V = SessionView;

    closed spec fn view(&self) -> SessionView {
        SessionView {
            state: self.state,
            choked: self.queue.is_choked(),
            blocks: self.queue.blocks(),
            enqueued: self.enqueued,
        }
    }
}

impl<'a> MessageHandler<'a> {
    /// The torrent that the session downloads.
    pub closed spec fn torrent(&self) -> Torrent {
        *self.torrent
    }

    /// The largest length that a frame from the peer may declare.
    pub closed spec fn max_frame(&self) -> u32 {
        self.max_frame
    }

    /// The torrent is well formed and has its info hash, the ceiling on
    /// frames leaves room for a piece message with a full block, and every
    /// block in the queue is one of the torrent's blocks.
    pub closed spec fn wf(&self) -> bool {
        &&& self.torrent.wf()
        &&& self.torrent.info_hash is Some
        &&& self.max_frame >= MIN_MAX_FRAME
        &&& self.queue.torrent() == *self.torrent
        &&& forall|a: int|
            0 <= a < self.queue.blocks().len() ==> valid_block(
                *self.torrent,
                #[trigger] self.queue.blocks()[a],
            )
    }

    /// Whether the session takes messages: the handshake is done and the
    /// session is not closed.
    pub open spec fn spec_is_open(&self) -> bool {
        self@.state == SessionState::AwaitingUnchoke || self@.state == SessionState::Active
    }

    /// Whether the session takes messages: the handshake is done and the
    /// session is not closed.
    #[verifier::when_used_as_spec(spec_is_open)]
    pub fn is_open(&self) -> (r: bool)
        ensures
            r == self.is_open(),
    {
        match self.state {
            SessionState::AwaitingUnchoke => true,
            SessionState::Active => true,
            _ => false,
        }
    }

    /// What a well-formed session is: its torrent is well formed and has its
    /// info hash, its ceiling on frames leaves room for a piece message with
    /// a full block, and every block in its queue is a block of the torrent.
    pub proof fn lemma_wf_gives(&self)
        requires
            self.wf(),
        ensures
            self.torrent().wf(),
            self.torrent().info_hash is Some,
            self.max_frame() >= MIN_MAX_FRAME,
            forall|a: int|
                0 <= a < self@.blocks.len() ==> valid_block(
                    self.torrent(),
                    #[trigger] self@.blocks[a],
                ),
    {
    }

    /// Whether the ledger is one for the session's torrent.
    pub open spec fn shares(&self, pieces: &Pieces) -> bool {
        pieces.wf() && pieces@.shaped_for(self.torrent())
    }

    /// A session that is about to connect, with an empty queue and a peer
    /// that chokes us. It takes frames that declare up to `max_frame`
    /// bytes, which must leave room for a piece message with a full block.
    pub fn new(torrent: &'a Torrent, max_frame: u32) -> (h: MessageHandler<'a>)
        requires
            torrent.wf(),
            torrent.info_hash is Some,
            max_frame >= MIN_MAX_FRAME,
        ensures
            h.wf(),
            h.torrent() == *torrent,
            h.max_frame() == max_frame,
            h@ == (SessionView {
                state: SessionState::Connecting,
                choked: true,
                blocks: Seq::empty(),
                enqueued: false,
            }),
    {
        MessageHandler {
            torrent,
            queue: Queue::new(torrent),
            state: SessionState::Connecting,
            enqueued: false,
            max_frame,
        }
    }

    /// Where the session stands.
    pub fn state(&self) -> (s: SessionState)
        ensures
            s == self@.state,
    {
        self.state
    }

    /// The blocks in the queue, the next one to be asked for first.
    pub fn queue(&self) -> (r: Vec<PieceBlock>)
        ensures
            r@ == self@.blocks,
    {
        self.queue.snapshot()
    }

    /// Whether the peer chokes us.
    pub fn choked(&self) -> (c: bool)
        ensures
            c == self@.choked,
    {
        self.queue.choked()
    }

    /// Number of blocks in the queue.
    pub fn queued(&self) -> (n: usize)
        ensures
            n == self@.blocks.len(),
    {
        self.queue.len()
    }

    /// The connection stands: the handshake to send, and the session waits
    /// for the peer's.
    pub fn connected(&mut self, peer_id: &ByteBuffer) -> (handshake: Vec<u8>)
        requires
            old(self).wf(),
            old(self)@.state == SessionState::Connecting,
        ensures
            handshake@ == handshake_bytes(
                old(self).torrent().info_hash->0@,
                buffer_bytes(*peer_id),
            ),
            final(self)@ == (SessionView { state: SessionState::Handshaking, ..old(self)@ }),
            final(self).wf(),
            final(self).torrent() == old(self).torrent(),
            final(self).max_frame() == old(self).max_frame(),
    {
        self.state = SessionState::Handshaking;
        let zero: [u8; 20] = [0; 20];
        let handshake = match &self.torrent.info_hash {
            Some(info_hash) => build_peer_handshake(info_hash, peer_id),
            None => build_peer_handshake(&zero, peer_id),
        };
        handshake.to_bytes()
    }

    /// The connection was lost, or the peer sent nothing for too long: the
    /// session closes.
    pub fn lost(&mut self, timed_out: bool) -> (step: Step)
        requires
            old(self).wf(),
        ensures
            step@ == StepView::Fail(
                if timed_out {
                    Error::PeerTimeout
                } else {
                    Error::PeerDisconnected
                },
            ),
            final(self)@ == (SessionView { state: SessionState::Closed, ..old(self)@ }),
            final(self).wf(),
            final(self).torrent() == old(self).torrent(),
            final(self).max_frame() == old(self).max_frame(),
    {
        self.state = SessionState::Closed;
        if timed_out {
            Step::Fail(Error::PeerTimeout)
        } else {
            Step::Fail(Error::PeerDisconnected)
        }
    }

    /// The interested message.
    pub fn interested(&self) -> (bytes: Vec<u8>)
        ensures
            bytes@ == frame(2, Seq::empty()),
    {
        build_interested().to_bytes()
    }

    /// Takes the peer's handshake. One of this protocol and torrent is
    /// answered with the interested message, and the session waits to be
    /// unchoked; any other closes the session as a protocol mismatch.
    pub fn handshake(&mut self, received: &ByteBuffer) -> (step: Step)
        requires
            old(self).wf(),
            old(self)@.state == SessionState::Handshaking,
        ensures
            handshake_ok(buffer_bytes(*received), old(self).torrent().info_hash->0@) ==> step@
                == StepView::Send(frame(2, Seq::empty())) && final(self)@ == (SessionView {
                state: SessionState::AwaitingUnchoke,
                ..old(self)@
            }),
            !handshake_ok(buffer_bytes(*received), old(self).torrent().info_hash->0@) ==> step@
                == StepView::Fail(Error::ProtocolMismatch) && final(self)@ == (SessionView {
                state: SessionState::Closed,
                ..old(self)@
            }),
            final(self).wf(),
            final(self).torrent() == old(self).torrent(),
            final(self).max_frame() == old(self).max_frame(),
    {
        let bytes = received.to_bytes();
        let matches = match &self.torrent.info_hash {
            Some(info_hash) => bytes.len() == 68 && bytes[0] == 19 && check_handshake_msg(
                received,
            ) && same_bytes(&bytes, 28, info_hash.as_slice()),
            None => false,
        };
        if matches {
            self.state = SessionState::AwaitingUnchoke;
            Step::Send(self.interested())
        } else {
            self.state = SessionState::Closed;
            Step::Fail(Error::ProtocolMismatch)
        }
    }
}

/// Whether `part` stands in `bytes` at `from`.
pub fn same_bytes(bytes: &Vec<u8>, from: usize, part: &[u8]) -> (r: bool)
    requires
        from + part@.len() <= bytes@.len(),
    ensures
        r == (bytes@.subrange(from as int, from + part@.len()) == part@),
{
    assert(bytes.len() <= usize::MAX);
    let mut k: usize = 0;
    while k < part.len()
        invariant
            k <= part@.len(),
            from + part@.len() <= bytes@.len() <= usize::MAX,
            forall|m: int| 0 <= m < k ==> bytes@[from + m] == part@[m],
        decreases part@.len() - k,
    {
        if bytes[from + k] != part[k] {
            assert(bytes@.subrange(from as int, from + part@.len())[k as int] != part@[k as int]);
            return false;
        }
        k += 1;
    }
    assert(bytes@.subrange(from as int, from + part@.len()) =~= part@);
    true
}

/// Whether a peer's handshake names this protocol: the 19 bytes behind the
/// first are "BitTorrent protocol".
pub fn check_handshake_msg(msg: &ByteBuffer) -> (r: bool)
    ensures
        r == (buffer_bytes(*msg).len() >= 20 && buffer_bytes(*msg).subrange(1, 20)
            == protocol_name()),
{
    if msg.len() < 20 {
        return false;
    }
    let name: [u8; 19] = [
        66, 105, 116, 84, 111, 114, 114, 101, 110, 116, 32, 112, 114, 111, 116, 111, 99, 111, 108,
    ];
    assert(name@ =~= protocol_name());
    let bytes = msg.to_bytes();
    same_bytes(&bytes, 1, name.as_slice())
}

impl<'a> MessageHandler<'a> {
    /// Request the first block of the queue that the ledger still needs.
    pub fn request_piece(&mut self, pieces: &mut Pieces) -> (step: Step)
        requires
            old(self).wf(),
            old(self).shares(old(pieces)),
        ensures
            (Turn { session: final(self)@, ledger: final(pieces)@, step: step@ }) == request_turn(
                old(self)@,
                old(pieces)@,
            ),
            final(self).wf(),
            final(self).shares(final(pieces)),
            final(self).torrent() == old(self).torrent(),
            final(self).max_frame() == old(self).max_frame(),
    {
        if self.queue.choked() {
            return Step::Wait;
        }
        if self.queue.len() == 0 {
            return Step::Wait;
        }
        let ghost blocks = self.queue.blocks();
        let ghost fresh = pieces@.refreshed();
        let ghost t = *self.torrent;
        let ghost mut k: int = 0;
        while self.queue.len() > 0
            invariant
                0 <= k <= blocks.len(),
                blocks.len() > 0,
                self.wf(),
                self.torrent == old(self).torrent,
                t == *self.torrent,
                self.state == old(self).state,
                self.enqueued == old(self).enqueued,
                self.max_frame == old(self).max_frame,
                !self.queue.is_choked(),
                !old(self).queue.is_choked(),
                blocks == old(self).queue.blocks(),
                self.queue.blocks() == blocks.subrange(k, blocks.len() as int),
                forall|a: int| 0 <= a < blocks.len() ==> valid_block(t, #[trigger] blocks[a]),
                pieces.wf(),
                pieces@.shaped_for(t),
                fresh == old(pieces)@.refreshed(),
                pieces@ == if k == 0 {
                    old(pieces)@
                } else {
                    fresh
                },
                first_needed(fresh, blocks, 0) == first_needed(fresh, blocks, k),
            decreases blocks.len() - k,
        {
            let popped = self.queue.deque();
            let piece_block = match popped {
                Some(b) => b,
                None => {
                    return Step::Wait;
                },
            };
            assert(piece_block == blocks[k]);
            assert(valid_block(t, blocks[k]));
            proof {
                lemma_refresh_once(old(pieces)@);
                lemma_shape_kept(pieces@, t, cell_of(piece_block).0, cell_of(piece_block).1);
                lemma_shape_kept(fresh, t, cell_of(piece_block).0, cell_of(piece_block).1);
                assert(self.queue.blocks() =~= blocks.subrange(k + 1, blocks.len() as int));
                assert forall|a: int| 0 <= a < self.queue.blocks().len() implies valid_block(
                    t,
                    #[trigger] self.queue.blocks()[a],
                ) by {
                    assert(self.queue.blocks()[a] == blocks[k + 1 + a]);
                }
            }
            let ghost cell = cell_of(piece_block);
            if pieces.needed(piece_block) {
                assert(pieces@ == fresh);
                assert(!fresh.requested[cell.0][cell.1]);
                assert(first_needed(fresh, blocks, k) == k);
                let request = build_request(piece_block);
                pieces.add_requested(piece_block);
                let step = Step::Send(request.to_bytes());
                return step;
            }
            proof {
                assert(pieces@ == fresh);
                assert(fresh.requested[cell.0][cell.1]);
                assert(first_needed(fresh, blocks, k) == first_needed(fresh, blocks, k + 1));
                k = k + 1;
            }
        }
        proof {
            assert(self.queue.blocks() =~= Seq::<PieceBlock>::empty());
        }
        Step::Wait
    }

    /// The peer has stopped communication with us.
    pub fn choke(&mut self) -> (step: Step)
        requires
            old(self).wf(),
        ensures
            forall|l: Ledger|
                (Turn { session: final(self)@, ledger: l, step: step@ }) == #[trigger] choke_turn(
                    old(self)@,
                    l,
                ),
            final(self).wf(),
            final(self).torrent() == old(self).torrent(),
            final(self).max_frame() == old(self).max_frame(),
    {
        self.queue.set_choked(true);
        self.state = SessionState::Closed;
        Step::Close
    }

    /// Start to request blocks from the peer.
    pub fn unchoke(&mut self, pieces: &mut Pieces) -> (step: Step)
        requires
            old(self).wf(),
            old(self).shares(old(pieces)),
        ensures
            (Turn { session: final(self)@, ledger: final(pieces)@, step: step@ }) == unchoke_turn(
                old(self)@,
                old(pieces)@,
            ),
            final(self).wf(),
            final(self).shares(final(pieces)),
            final(self).torrent() == old(self).torrent(),
            final(self).max_frame() == old(self).max_frame(),
    {
        self.queue.set_choked(false);
        self.state = SessionState::Active;
        self.request_piece(pieces)
    }

    /// The peer has a piece.
    pub fn have(&mut self, piece_index: u32, pieces: &mut Pieces) -> (step: Step)
        requires
            old(self).wf(),
            old(self).shares(old(pieces)),
        ensures
            (Turn { session: final(self)@, ledger: final(pieces)@, step: step@ }) == have_turn(
                old(self).torrent(),
                old(self)@,
                old(pieces)@,
                piece_index,
            ),
            final(self).wf(),
            final(self).shares(final(pieces)),
            final(self).torrent() == old(self).torrent(),
            final(self).max_frame() == old(self).max_frame(),
    {
        if piece_index as u64 >= self.torrent.get_piece_count() {
            self.state = SessionState::Closed;
            return Step::Fail(Error::ProtocolViolation);
        }
        let queue_empty: bool = self.queue.len() == 0;
        self.enqueue(piece_index);
        if queue_empty {
            self.request_piece(pieces)
        } else {
            Step::Wait
        }
    }

    /// Appends the blocks of a piece of the torrent to the queue.
    fn enqueue(&mut self, piece_index: u32)
        requires
            old(self).wf(),
            piece_index < old(self).torrent().piece_count(),
        ensures
            final(self)@ == (SessionView {
                blocks: old(self)@.blocks + piece_blocks(old(self).torrent(), piece_index as nat),
                enqueued: true,
                ..old(self)@
            }),
            final(self).wf(),
            final(self).torrent() == old(self).torrent(),
            final(self).max_frame() == old(self).max_frame(),
    {
        let ghost before = self.queue.blocks();
        let ghost added = piece_blocks(*self.torrent, piece_index as nat);
        self.queue.queue(piece_index);
        self.enqueued = true;
        proof {
            assert forall|a: int| 0 <= a < self.queue.blocks().len() implies valid_block(
                *self.torrent,
                #[trigger] self.queue.blocks()[a],
            ) by {
                if a >= before.len() {
                    lemma_piece_blocks_valid(*self.torrent, piece_index as nat, a - before.len());
                    assert(self.queue.blocks()[a] == added[a - before.len()]);
                } else {
                    assert(self.queue.blocks()[a] == before[a]);
                }
            }
        }
    }

    /// The peer says which pieces it has.
    pub fn bitfield(&mut self, bitfield: &Vec<u8>) -> (step: Step)
        requires
            old(self).wf(),
        ensures
            forall|l: Ledger|
                (Turn { session: final(self)@, ledger: l, step: step@ })
                    == #[trigger] bitfield_turn(old(self).torrent(), old(self)@, l, bitfield@),
            final(self).wf(),
            final(self).torrent() == old(self).torrent(),
            final(self).max_frame() == old(self).max_frame(),
    {
        if self.enqueued {
            self.state = SessionState::Closed;
            return Step::Fail(Error::ProtocolViolation);
        }
        let count: u64 = self.torrent.get_piece_count();
        let ghost t = *self.torrent;
        let ghost before = self.queue.blocks();
        let mut piece_index: u32 = 0;
        while (piece_index as u64) < count
            invariant
                piece_index <= count,
                count == t.piece_count(),
                count <= 0xFFFF_FFFF,
                self.wf(),
                t == *self.torrent,
                self.torrent == old(self).torrent,
                self.state == old(self).state,
                self.max_frame == old(self).max_frame,
                self.queue.is_choked() == old(self).queue.is_choked(),
                before == old(self).queue.blocks(),
                self.queue.blocks() == before + bitfield_blocks(t, bitfield@, piece_index as nat),
                self.enqueued == (bitfield_blocks(t, bitfield@, piece_index as nat).len() > 0),
            decreases count - piece_index,
        {
            let ghost so_far = bitfield_blocks(t, bitfield@, piece_index as nat);
            if bit_is_set(bitfield, piece_index) {
                proof {
                    t.lemma_piece_len_bounds(piece_index as nat);
                }
                self.enqueue(piece_index);
                assert(self.queue.blocks() =~= before + (so_far + piece_blocks(
                    t,
                    piece_index as nat,
                )));
            } else {
                assert(so_far + Seq::<PieceBlock>::empty() =~= so_far);
            }
            piece_index += 1;
        }
        Step::Wait
    }

    /// A block has arrived: it is marked in the ledger and goes to the
    /// writer.
    pub fn piece(&mut self, index: u32, begin: u32, block: Vec<u8>, pieces: &mut Pieces) -> (step: Step)
        requires
            old(self).wf(),
            old(self).shares(old(pieces)),
            block@.len() <= u32::MAX,
        ensures
            (Turn { session: final(self)@, ledger: final(pieces)@, step: step@ }) == piece_turn(
                old(self).torrent(),
                old(self)@,
                old(pieces)@,
                index,
                begin,
                block@,
            ),
            final(self).wf(),
            final(self).shares(final(pieces)),
            final(self).torrent() == old(self).torrent(),
            final(self).max_frame() == old(self).max_frame(),
    {
        let piece_block = PieceBlock { index, begin, length: block.len() as u32 };
        if !pieces.holds(piece_block) {
            self.state = SessionState::Closed;
            return Step::Fail(Error::ProtocolViolation);
        }
        proof {
            lemma_mul_bound(
                index as int,
                self.torrent.info.piece_length as int,
                0xFFFF_FFFF,
                0xFFFF_FFFF,
            );
            lemma_shape_kept(pieces@, *self.torrent, index as int, begin as int / 16384);
        }
        let offset: u64 = index as u64 * self.torrent.info.piece_length + begin as u64;
        pieces.add_received(piece_block);
        Step::Deliver(PieceChannelPayload { offset, block })
    }

    /// The block that `piece` handed out has gone to the writer: the
    /// download is finished, or the next block is asked for.
    pub fn piece_published(&mut self, pieces: &mut Pieces) -> (step: Step)
        requires
            old(self).wf(),
            old(self).shares(old(pieces)),
        ensures
            (Turn { session: final(self)@, ledger: final(pieces)@, step: step@ })
                == published_turn(old(self)@, old(pieces)@),
            final(self).wf(),
            final(self).shares(final(pieces)),
            final(self).torrent() == old(self).torrent(),
            final(self).max_frame() == old(self).max_frame(),
    {
        if pieces.is_done() {
            self.state = SessionState::Closed;
            Step::Finished
        } else {
            self.request_piece(pieces)
        }
    }

    /// Route and parse a message: what was read from the peer goes to the
    /// handler of the message that it holds.
    ///
    ///     0 : choke
    ///     1 : unchoke
    ///     4 : have
    ///     5 : bitfield
    ///     7 : piece
    ///
    pub fn router(&mut self, msg: &ByteBuffer, pieces: &mut Pieces) -> (step: Step)
        requires
            old(self).wf(),
            old(self).is_open(),
            old(self).shares(old(pieces)),
        ensures
            (Turn { session: final(self)@, ledger: final(pieces)@, step: step@ }) == route_turn(
                old(self).torrent(),
                old(self).max_frame(),
                old(self)@,
                old(pieces)@,
                buffer_bytes(*msg),
            ),
            final(self).wf(),
            final(self).shares(final(pieces)),
            final(self).torrent() == old(self).torrent(),
            final(self).max_frame() == old(self).max_frame(),
    {
        if msg.len() == 0 {
            self.state = SessionState::Closed;
            return Step::Fail(Error::PeerDisconnected);
        }
        let parsed_msg: Msg = match parse(msg, self.torrent.get_piece_count(), self.max_frame) {
            Ok(m) => m,
            Err(_) => {
                self.state = SessionState::Closed;
                return Step::Fail(Error::MalformedFrame);
            },
        };
        if parsed_msg.size == 0 {
            return Step::Wait;
        }
        let id: u8 = parsed_msg.id;
        let payload: GenericPayload = parsed_msg.payload;
        if id == 0 {
            self.choke()
        } else if id == 1 {
            self.unchoke(pieces)
        } else if id == 4 {
            match payload.piece_index {
                Some(piece_index) => self.have(piece_index, pieces),
                None => Step::Wait,
            }
        } else if id == 5 {
            match payload.bitfield {
                Some(bitfield) => self.bitfield(&bitfield),
                None => Step::Wait,
            }
        } else if id == 7 {
            match payload.block {
                Some(block) => self.piece(payload.index, payload.begin, block, pieces),
                None => Step::Wait,
            }
        } else {
            Step::Wait
        }
    }
}

/// What the bytes read so far hold at their front.
pub ghost enum Framing {
    /// Not yet a whole frame.
    Partial,
    /// A whole frame of this many bytes, its length field counted.
    Whole(nat),
    /// A frame that declares more than the session takes.
    TooLong,
}

/// What `pending` holds at its front, for a session that takes frames of
/// up to `max_frame` bytes.
pub open spec fn framing(pending: Seq<u8>, max_frame: u32) -> Framing {
    if pending.len() < 4 {
        Framing::Partial
    } else if be32_value(pending.subrange(0, 4)) > max_frame {
        Framing::TooLong
    } else if pending.len() < 4 + be32_value(pending.subrange(0, 4)) {
        Framing::Partial
    } else {
        Framing::Whole(4 + be32_value(pending.subrange(0, 4)))
    }
}

impl<'a> MessageHandler<'a> {
    /// Get an entire message from what was read from the peer so far: the
    /// first frame, once all of it is there, is taken out of `pending`.
    /// A frame that declares more than the session takes is malformed.
    pub fn get_whole_msg(&self, pending: &mut Vec<u8>) -> (r: Result<Option<ByteBuffer>, Error>)
        ensures
            match framing(old(pending)@, self.max_frame()) {
                Framing::Partial => r matches Ok(None) && final(pending)@ == old(pending)@,
                Framing::TooLong => r matches Err(Error::MalformedFrame) && final(pending)@
                    == old(pending)@,
                Framing::Whole(n) => {
                    &&& r matches Ok(Some(msg))
                    &&& buffer_bytes(msg) == old(pending)@.subrange(0, n as int)
                    &&& final(pending)@ == old(pending)@.subrange(
                        n as int,
                        old(pending)@.len() as int,
                    )
                },
            },
    {
        if pending.len() < 4 {
            return Ok(None);
        }
        let declared: u32 = be32_at(pending.as_slice(), 0);
        if declared > self.max_frame {
            return Err(Error::MalformedFrame);
        }
        if pending.len() - 4 < declared as usize {
            return Ok(None);
        }
        let rest = pending.split_off(declared as usize + 4);
        let mut whole_msg: ByteBuffer = ByteBuffer::new();
        whole_msg.write_bytes(pending.as_slice());
        *pending = rest;
        Ok(Some(whole_msg))
    }
}

} // verus!
