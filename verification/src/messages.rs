use crate::buffer::{be16, be32, be32_at, be32_value, be64, buffer_bytes, fresh};
use crate::errors::Error;
use crate::queue::PieceBlock;
use bytebuffer::ByteBuffer;
use vstd::prelude::*;
use vstd::slice::{slice_subrange, slice_to_vec};

verus! {

/// What a message carries besides its id. Fields that a kind of message does
/// not have are 0 or `None`.
#[derive(Debug)]
pub struct GenericPayload {
    pub index: u32,
    pub begin: u32,
    pub length: Option<u32>,
    pub piece_index: Option<u32>,
    pub block: Option<Vec<u8>>,
    pub bitfield: Option<Vec<u8>>,
    pub port: Option<u16>,
}

/// A decoded frame: its declared length, its id and its payload. The
/// keep-alive has length 0, and then id 0.
#[derive(Debug)]
pub struct Msg {
    pub size: u32,
    pub id: u8,
    pub payload: GenericPayload,
}

/// A payload as a mathematical value.
pub ghost struct PayloadView {
    pub index: u32,
    pub begin: u32,
    pub length: Option<u32>,
    pub piece_index: Option<u32>,
    pub block: Option<Seq<u8>>,
    pub bitfield: Option<Seq<u8>>,
    pub port: Option<u16>,
}

/// A decoded frame as a mathematical value.
pub ghost struct MsgView {
    pub size: u32,
    pub id: u8,
    pub payload: PayloadView,
}

/// The bytes of an optional field.
pub open spec fn bytes_view(v: Option<Vec<u8>>) -> Option<Seq<u8>> {
    match v {
        Some(b) => Some(b@),
        None => None,
    }
}

impl View for GenericPayload {
    type V = PayloadView;

    open spec fn view(&self) -> PayloadView {
        PayloadView {
            index: self.index,
            begin: self.begin,
            length: self.length,
            piece_index: self.piece_index,
            block: bytes_view(self.block),
            bitfield: bytes_view(self.bitfield),
            port: self.port,
        }
    }
}

impl View for Msg {
    type V = MsgView;

    open spec fn view(&self) -> MsgView {
        MsgView { size: self.size, id: self.id, payload: self.payload@ }
    }
}

/// The 19 bytes of "BitTorrent protocol".
pub open spec fn protocol_name() -> Seq<u8> {
    seq![
        66u8, 105, 116, 84, 111, 114, 114, 101, 110, 116, 32, 112, 114, 111, 116, 111, 99, 111, 108,
    ]
}

/// The handshake: the length of the protocol's name, the name, eight reserved
/// bytes of zero, the info hash and the peer id.
pub open spec fn handshake_bytes(info_hash: Seq<u8>, peer_id: Seq<u8>) -> Seq<u8> {
    seq![19u8] + protocol_name() + be64(0) + info_hash + peer_id
}

/// A frame: a big-endian length, the id and the payload. The length counts the
/// id and the payload.
pub open spec fn frame(id: u8, payload: Seq<u8>) -> Seq<u8> {
    be32((payload.len() + 1) as u32) + seq![id] + payload
}

/// The keep-alive: a frame of length 0, with no id.
pub open spec fn keep_alive_frame() -> Seq<u8> {
    be32(0)
}

/// The payload of a request or a cancel: index, begin and length.
pub open spec fn block_fields(index: u32, begin: u32, length: u32) -> Seq<u8> {
    be32(index) + be32(begin) + be32(length)
}

/// Number of bytes of a bitfield for `piece_count` pieces.
pub open spec fn bitfield_len(piece_count: nat) -> nat {
    (piece_count + 7) / 8
}

/// Whether a payload of `n` bytes is one that the message `id` can have.
/// Ids that the protocol does not define go with any payload.
pub open spec fn payload_len_ok(id: u8, n: nat, piece_count: nat) -> bool {
    if id <= 3 {
        n == 0
    } else if id == 4 {
        n == 4
    } else if id == 5 {
        n == bitfield_len(piece_count)
    } else if id == 6 || id == 8 {
        n == 12
    } else if id == 7 {
        n >= 8
    } else if id == 9 {
        n == 2
    } else {
        true
    }
}

/// The length that the first four bytes declare.
pub open spec fn declared_len(bytes: Seq<u8>) -> nat {
    be32_value(bytes.subrange(0, 4))
}

/// Whether `bytes` is exactly one frame that may be decoded: it declares its
/// own length, which is no more than `max_len`, and its payload goes with
/// its id.
pub open spec fn well_framed(bytes: Seq<u8>, piece_count: nat, max_len: nat) -> bool {
    &&& bytes.len() >= 4
    &&& declared_len(bytes) <= max_len
    &&& bytes.len() == 4 + declared_len(bytes)
    &&& bytes.len() > 4 ==> payload_len_ok(bytes[4], (bytes.len() - 5) as nat, piece_count)
}

/// The id of a frame: its fifth byte, or 0 where it has none.
pub open spec fn msg_id(bytes: Seq<u8>) -> u8 {
    if bytes.len() > 4 {
        bytes[4]
    } else {
        0
    }
}

/// The big-endian value of the four bytes of `bytes` from `at` on.
pub open spec fn u32_at(bytes: Seq<u8>, at: int) -> u32 {
    be32_value(bytes.subrange(at, at + 4)) as u32
}

/// What a well-framed frame decodes to.
pub open spec fn decoded(bytes: Seq<u8>) -> MsgView {
    let id = msg_id(bytes);
    let len = bytes.len() as int;
    let blocky = bytes.len() > 4 && 6 <= id <= 8;
    MsgView {
        size: declared_len(bytes) as u32,
        id,
        payload: PayloadView {
            index: if blocky {
                u32_at(bytes, 5)
            } else {
                0
            },
            begin: if blocky {
                u32_at(bytes, 9)
            } else {
                0
            },
            length: if id <= 3 {
                Some(0u32)
            } else if blocky && id != 7 {
                Some(u32_at(bytes, 13))
            } else {
                None
            },
            piece_index: if id == 4 {
                Some(u32_at(bytes, 5))
            } else {
                None
            },
            block: if id == 7 {
                Some(bytes.subrange(13, len))
            } else {
                None
            },
            bitfield: if id == 5 {
                Some(bytes.subrange(5, len))
            } else {
                None
            },
            port: if id == 9 {
                Some((bytes[5] as u16 * 256 + bytes[6] as u16) as u16)
            } else {
                None
            },
        },
    }
}

/// Four bytes stand for a value below 2^32.
pub proof fn lemma_be32_value_bound(s: Seq<u8>)
    ensures
        be32_value(s) <= u32::MAX,
{
}

/// Decoding the big-endian bytes of a value gives the value back.
pub proof fn lemma_be32_round_trip(v: u32)
    ensures
        be32(v).len() == 4,
        be32_value(be32(v)) == v,
{
}

/// The id of a frame, or 0 where the buffer holds no more than a length.
pub fn get_msg_id(msg: &ByteBuffer) -> (id: u8)
    ensures
        id == msg_id(buffer_bytes(*msg)),
{
    if msg.len() > 4 {
        let bytes = msg.to_bytes();
        bytes[4]
    } else {
        0
    }
}

/// A payload with no field set.
fn empty_payload() -> (p: GenericPayload)
    ensures
        p@ == (PayloadView {
            index: 0,
            begin: 0,
            length: None,
            piece_index: None,
            block: None,
            bitfield: None,
            port: None,
        }),
{
    GenericPayload {
        index: 0,
        begin: 0,
        length: None,
        piece_index: None,
        block: None,
        bitfield: None,
        port: None,
    }
}

/// Decodes one frame. The buffer must hold the whole frame and nothing else;
/// `piece_count` decides how long a bitfield is, and `max_len` is the largest
/// length that a frame may declare.
pub fn parse(msg: &ByteBuffer, piece_count: u64, max_len: u32) -> (r: Result<Msg, Error>)
    ensures
        r is Ok <==> well_framed(buffer_bytes(*msg), piece_count as nat, max_len as nat),
        r matches Ok(m) ==> m@ == decoded(buffer_bytes(*msg)),
        r matches Err(e) ==> e == Error::MalformedFrame,
{
    let bytes: Vec<u8> = msg.to_bytes();
    let total: usize = bytes.len();
    if total < 4 {
        return Err(Error::MalformedFrame);
    }
    let size: u32 = be32_at(bytes.as_slice(), 0);
    if size > max_len || total - 4 != size as usize {
        return Err(Error::MalformedFrame);
    }
    let id: u8 = get_msg_id(msg);
    let mut payload = empty_payload();
    if size == 0 {
        payload.length = Some(0);
        return Ok(Msg { size, id, payload });
    }
    let n: usize = total - 5;
    if id <= 3 {
        if n != 0 {
            return Err(Error::MalformedFrame);
        }
        payload.length = Some(0);
    } else if id == 4 {
        if n != 4 {
            return Err(Error::MalformedFrame);
        }
        payload.piece_index = Some(be32_at(bytes.as_slice(), 5));
    } else if id == 5 {
        if n as u64 != piece_count / 8 + (if piece_count % 8 > 0 {
            1u64
        } else {
            0u64
        }) {
            return Err(Error::MalformedFrame);
        }
        payload.bitfield = Some(slice_to_vec(slice_subrange(bytes.as_slice(), 5, total)));
    } else if id == 6 || id == 8 {
        if n != 12 {
            return Err(Error::MalformedFrame);
        }
        payload.index = be32_at(bytes.as_slice(), 5);
        payload.begin = be32_at(bytes.as_slice(), 9);
        payload.length = Some(be32_at(bytes.as_slice(), 13));
    } else if id == 7 {
        if n < 8 {
            return Err(Error::MalformedFrame);
        }
        payload.index = be32_at(bytes.as_slice(), 5);
        payload.begin = be32_at(bytes.as_slice(), 9);
        payload.block = Some(slice_to_vec(slice_subrange(bytes.as_slice(), 13, total)));
    } else if id == 9 {
        if n != 2 {
            return Err(Error::MalformedFrame);
        }
        let hi: u16 = bytes[5] as u16;
        let lo: u16 = bytes[6] as u16;
        payload.port = Some(hi * 256 + lo);
    }
    Ok(Msg { size, id, payload })
}

/// The handshake that opens a connection to a peer.
pub fn build_peer_handshake(info_hash: &[u8; 20], peer_id: &ByteBuffer) -> (handshake: ByteBuffer)
    ensures
        buffer_bytes(handshake) == handshake_bytes(info_hash@, buffer_bytes(*peer_id)),
        fresh(handshake),
{
    let name: [u8; 19] = [
        66, 105, 116, 84, 111, 114, 114, 101, 110, 116, 32, 112, 114, 111, 116, 111, 99, 111, 108,
    ];
    assert(name@ =~= protocol_name());
    let mut handshake: ByteBuffer = ByteBuffer::new();
    handshake.write_u8(19);
    handshake.write_bytes(name.as_slice());
    handshake.write_u64(0);
    handshake.write_bytes(info_hash.as_slice());
    handshake.write_bytes(peer_id.to_bytes().as_slice());
    assert(buffer_bytes(handshake) =~= handshake_bytes(info_hash@, buffer_bytes(*peer_id)));
    handshake
}

/// keep-alive: `<len=0000>`
pub fn build_keep_alive() -> (buf: ByteBuffer)
    ensures
        buffer_bytes(buf) == keep_alive_frame(),
        fresh(buf),
{
    let mut buf: ByteBuffer = ByteBuffer::new();
    buf.write_u32(0);
    assert(buffer_bytes(buf) =~= keep_alive_frame());
    buf
}

/// A frame whose payload is empty.
fn build_bare(id: u8) -> (buf: ByteBuffer)
    ensures
        buffer_bytes(buf) == frame(id, Seq::empty()),
        fresh(buf),
{
    let mut buf: ByteBuffer = ByteBuffer::new();
    buf.write_u32(1);
    buf.write_u8(id);
    assert(buffer_bytes(buf) =~= frame(id, Seq::empty()));
    buf
}

/// choke: `<len=0001><id=0>`
pub fn build_choke() -> (buf: ByteBuffer)
    ensures
        buffer_bytes(buf) == frame(0, Seq::empty()),
        fresh(buf),
{
    build_bare(0)
}

/// unchoke: `<len=0001><id=1>`
pub fn build_unchoke() -> (buf: ByteBuffer)
    ensures
        buffer_bytes(buf) == frame(1, Seq::empty()),
        fresh(buf),
{
    build_bare(1)
}

/// interested: `<len=0001><id=2>`
pub fn build_interested() -> (buf: ByteBuffer)
    ensures
        buffer_bytes(buf) == frame(2, Seq::empty()),
        fresh(buf),
{
    build_bare(2)
}

/// not interested: `<len=0001><id=3>`
pub fn build_not_interested() -> (buf: ByteBuffer)
    ensures
        buffer_bytes(buf) == frame(3, Seq::empty()),
        fresh(buf),
{
    build_bare(3)
}

/// have: `<len=0005><id=4><piece index>`
pub fn build_have(piece_index: u32) -> (buf: ByteBuffer)
    ensures
        buffer_bytes(buf) == frame(4, be32(piece_index)),
        fresh(buf),
{
    let mut buf: ByteBuffer = ByteBuffer::new();
    buf.write_u32(5);
    buf.write_u8(4);
    buf.write_u32(piece_index);
    assert(buffer_bytes(buf) =~= frame(4, be32(piece_index)));
    buf
}

/// bitfield: `<len=0001+X><id=5><bitfield>`
pub fn build_bitfield(bitfield: &ByteBuffer) -> (buf: ByteBuffer)
    requires
        buffer_bytes(*bitfield).len() < u32::MAX,
    ensures
        buffer_bytes(buf) == frame(5, buffer_bytes(*bitfield)),
        fresh(buf),
{
    let mut buf: ByteBuffer = ByteBuffer::new();
    buf.write_u32((bitfield.len() + 1) as u32);
    buf.write_u8(5);
    buf.write_bytes(bitfield.to_bytes().as_slice());
    assert(buffer_bytes(buf) =~= frame(5, buffer_bytes(*bitfield)));
    buf
}

/// A frame that names a block: `<len=0013><id><index><begin><length>`
fn build_block_frame(id: u8, index: u32, begin: u32, length: u32) -> (buf: ByteBuffer)
    ensures
        buffer_bytes(buf) == frame(id, block_fields(index, begin, length)),
        fresh(buf),
{
    let mut buf: ByteBuffer = ByteBuffer::new();
    buf.write_u32(13);
    buf.write_u8(id);
    buf.write_u32(index);
    buf.write_u32(begin);
    buf.write_u32(length);
    assert(buffer_bytes(buf) =~= frame(id, block_fields(index, begin, length)));
    buf
}

/// request: `<len=0013><id=6><index><begin><length>`
pub fn build_request(payload: PieceBlock) -> (buf: ByteBuffer)
    ensures
        buffer_bytes(buf) == frame(
            6,
            block_fields(payload.index, payload.begin, payload.length),
        ),
        fresh(buf),
{
    build_block_frame(6, payload.index, payload.begin, payload.length)
}

/// piece: `<len=0009+X><id=7><index><begin><block>`
pub fn build_piece(payload: &GenericPayload) -> (buf: ByteBuffer)
    requires
        payload.block is Some,
        payload.block->0@.len() + 9 <= u32::MAX,
    ensures
        buffer_bytes(buf) == frame(
            7,
            be32(payload.index) + be32(payload.begin) + payload.block->0@,
        ),
        fresh(buf),
{
    let mut buf: ByteBuffer = ByteBuffer::new();
    match &payload.block {
        Some(block) => {
            buf.write_u32(9 + block.len() as u32);
            buf.write_u8(7);
            buf.write_u32(payload.index);
            buf.write_u32(payload.begin);
            buf.write_bytes(block.as_slice());
        },
        None => {},
    }
    assert(buffer_bytes(buf) =~= frame(
        7,
        be32(payload.index) + be32(payload.begin) + payload.block->0@,
    ));
    buf
}

/// cancel: `<len=0013><id=8><index><begin><length>`, with length 0 where the
/// payload names none.
pub fn build_cancel(payload: GenericPayload) -> (buf: ByteBuffer)
    ensures
        buffer_bytes(buf) == frame(
            8,
            block_fields(
                payload.index,
                payload.begin,
                match payload.length {
                    Some(n) => n,
                    None => 0,
                },
            ),
        ),
        fresh(buf),
{
    let length: u32 = match payload.length {
        Some(n) => n,
        None => 0,
    };
    build_block_frame(8, payload.index, payload.begin, length)
}

/// port: `<len=0003><id=9><listen-port>`
pub fn build_port(port: u16) -> (buf: ByteBuffer)
    ensures
        buffer_bytes(buf) == frame(9, be16(port)),
        fresh(buf),
{
    let mut buf: ByteBuffer = ByteBuffer::new();
    buf.write_u32(3);
    buf.write_u8(9);
    buf.write_u16(port);
    assert(buffer_bytes(buf) =~= frame(9, be16(port)));
    buf
}

/// Encoding the value of four big-endian bytes gives the bytes back.
pub proof fn lemma_be32_bytes_round_trip(s: Seq<u8>)
    requires
        s.len() == 4,
    ensures
        be32(be32_value(s) as u32) == s,
{
    let a = s[0] as int;
    let b = s[1] as int;
    let c = s[2] as int;
    let d = s[3] as int;
    let v = a * 0x100_0000 + b * 0x1_0000 + c * 0x100 + d;
    assert(be32_value(s) == v);
    assert(v / 0x100_0000 == a);
    assert(v / 0x1_0000 == a * 0x100 + b);
    assert(v / 0x100 == a * 0x1_0000 + b * 0x100 + c);
    assert(be32(v as u32) =~= s);
}

/// A framed payload of fitting length is well framed, and decodes to its id
/// and its own length.
pub proof fn lemma_frame_decodes(id: u8, payload: Seq<u8>, piece_count: nat, max_len: nat)
    requires
        payload.len() < max_len <= u32::MAX,
        payload_len_ok(id, payload.len(), piece_count),
    ensures
        well_framed(frame(id, payload), piece_count, max_len),
        decoded(frame(id, payload)).id == id,
        decoded(frame(id, payload)).size == payload.len() + 1,
        frame(id, payload).subrange(5, frame(id, payload).len() as int) == payload,
{
    let f = frame(id, payload);
    let n = (payload.len() + 1) as u32;
    lemma_be32_round_trip(n);
    assert(f.subrange(0, 4) =~= be32(n));
    assert(f.subrange(5, f.len() as int) =~= payload);
}

/// Bitfield round trip: a bitfield of the length that the piece count asks
/// for, once framed, decodes to itself; and a well-framed bitfield frame is
/// the frame of the bitfield it decodes to.
pub proof fn lemma_bitfield_round_trip(bitfield: Seq<u8>, piece_count: nat, max_len: nat)
    requires
        bitfield.len() == bitfield_len(piece_count),
        bitfield.len() < max_len <= u32::MAX,
    ensures
        well_framed(frame(5, bitfield), piece_count, max_len),
        decoded(frame(5, bitfield)).id == 5,
        decoded(frame(5, bitfield)).payload.bitfield == Some(bitfield),
{
    lemma_frame_decodes(5, bitfield, piece_count, max_len);
}

/// A well-framed frame is the frame of its id and of the bytes behind it. For
/// a bitfield message those bytes are the bitfield it decodes to.
pub proof fn lemma_decoded_frames_back(bytes: Seq<u8>, piece_count: nat, max_len: nat)
    requires
        well_framed(bytes, piece_count, max_len),
        bytes.len() > 4,
    ensures
        frame(msg_id(bytes), bytes.subrange(5, bytes.len() as int)) == bytes,
        msg_id(bytes) == 5 ==> decoded(bytes).payload.bitfield == Some(
            bytes.subrange(5, bytes.len() as int),
        ),
{
    let head = bytes.subrange(0, 4);
    lemma_be32_bytes_round_trip(head);
    lemma_be32_value_bound(head);
    assert(frame(msg_id(bytes), bytes.subrange(5, bytes.len() as int)) =~= bytes);
}

/// A request, once framed, decodes to the block it names.
pub proof fn lemma_request_round_trip(block: PieceBlock, piece_count: nat, max_len: nat)
    requires
        12 < max_len <= u32::MAX,
    ensures
        ({
            let f = frame(6, block_fields(block.index, block.begin, block.length));
            &&& well_framed(f, piece_count, max_len)
            &&& decoded(f).id == 6
            &&& decoded(f).payload.index == block.index
            &&& decoded(f).payload.begin == block.begin
            &&& decoded(f).payload.length == Some(block.length)
        }),
{
    let p = block_fields(block.index, block.begin, block.length);
    let f = frame(6, p);
    lemma_frame_decodes(6, p, piece_count, max_len);
    lemma_be32_round_trip(block.index);
    lemma_be32_round_trip(block.begin);
    lemma_be32_round_trip(block.length);
    assert(f.subrange(5, 9) =~= be32(block.index));
    assert(f.subrange(9, 13) =~= be32(block.begin));
    assert(f.subrange(13, 17) =~= be32(block.length));
}

/// A piece message, once framed, decodes to its index, its offset and its
/// block.
pub proof fn lemma_piece_round_trip(
    index: u32,
    begin: u32,
    block: Seq<u8>,
    piece_count: nat,
    max_len: nat,
)
    requires
        block.len() + 8 < max_len <= u32::MAX,
    ensures
        ({
            let f = frame(7, be32(index) + be32(begin) + block);
            &&& well_framed(f, piece_count, max_len)
            &&& decoded(f).id == 7
            &&& decoded(f).payload.index == index
            &&& decoded(f).payload.begin == begin
            &&& decoded(f).payload.block == Some(block)
        }),
{
    let p = be32(index) + be32(begin) + block;
    let f = frame(7, p);
    lemma_frame_decodes(7, p, piece_count, max_len);
    lemma_be32_round_trip(index);
    lemma_be32_round_trip(begin);
    assert(f.subrange(5, 9) =~= be32(index));
    assert(f.subrange(9, 13) =~= be32(begin));
    assert(f.subrange(13, f.len() as int) =~= block);
}

/// A have message, once framed, decodes to the piece it names.
pub proof fn lemma_have_round_trip(piece_index: u32, piece_count: nat, max_len: nat)
    requires
        4 < max_len <= u32::MAX,
    ensures
        ({
            let f = frame(4, be32(piece_index));
            &&& well_framed(f, piece_count, max_len)
            &&& decoded(f).id == 4
            &&& decoded(f).payload.piece_index == Some(piece_index)
        }),
{
    let f = frame(4, be32(piece_index));
    lemma_frame_decodes(4, be32(piece_index), piece_count, max_len);
    lemma_be32_round_trip(piece_index);
    assert(f.subrange(5, 9) =~= be32(piece_index));
}

} // verus!
