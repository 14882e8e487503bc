use crate::buffer::{
    be16, be32, be32_at, be32_value, be64, bits16, bits32, bits64, buffer_bytes, fresh,
};
use crate::errors::Error;
use crate::torrents::Torrent;
use bytebuffer::ByteBuffer;
use crypto::digest::Digest;
use crypto::sha1::Sha1;
use rand::Rng;
use vstd::prelude::*;

verus! {

/// The tracker's answer to a connect request.
#[derive(Debug, Copy, Clone, PartialEq, Eq, Structural)]
pub struct ConnResp {
    pub action: i32,
    pub transaction_id: i32,
    pub connection_id: i64,
}

/// The tracker's answer to an announce request.
#[derive(Debug)]
pub struct AnnounceResp {
    pub action: i32,
    pub transaction_id: i32,
    pub interval: i32,
    pub leechers: i32,
    pub seeders: i32,
    pub peers: Vec<Peer>,
}

/// A peer as the tracker names it: an IPv4 address in host byte order, and
/// a port.
#[derive(Debug, Copy, Clone, PartialEq, Eq, Structural)]
pub struct Peer {
    pub ip_addr: u32,
    pub port: u16,
}

/// The signed value with the bits of `v` in two's complement.
pub open spec fn signed32(v: nat) -> int {
    if v >= 0x8000_0000 {
        v - 0x1_0000_0000
    } else {
        v as int
    }
}

/// The signed value with the bits of `v` in two's complement.
pub open spec fn signed64(v: nat) -> int {
    if v >= 0x8000_0000_0000_0000 {
        v - 0x1_0000_0000_0000_0000
    } else {
        v as int
    }
}

/// The value of the four big-endian bytes of `buf` from `at` on.
pub open spec fn word_at(buf: Seq<u8>, at: int) -> nat {
    be32_value(buf.subrange(at, at + 4))
}

/// The value of the eight big-endian bytes of `buf` from `at` on.
pub open spec fn long_at(buf: Seq<u8>, at: int) -> nat {
    word_at(buf, at) * 0x1_0000_0000 + word_at(buf, at + 4)
}

/// The value of the two big-endian bytes of `buf` from `at` on.
pub open spec fn short_at(buf: Seq<u8>, at: int) -> nat {
    (buf[at] as nat) * 0x100 + buf[at + 1] as nat
}

/// The four big-endian bytes of `buf` from `at` on, as a signed value.
fn read_i32(buf: &[u8], at: usize) -> (v: i32)
    requires
        at + 4 <= buf.len(),
    ensures
        v == signed32(word_at(buf@, at as int)),
{
    let w: i64 = be32_at(buf, at) as i64;
    if w >= 0x8000_0000 {
        (w - 0x1_0000_0000) as i32
    } else {
        w as i32
    }
}

/// The eight big-endian bytes of `buf` from `at` on, as a signed value.
fn read_i64(buf: &[u8], at: usize) -> (v: i64)
    requires
        at + 8 <= buf.len(),
    ensures
        v == signed64(long_at(buf@, at as int)),
{
    let hi: i128 = be32_at(buf, at) as i128;
    let lo: i128 = be32_at(buf, at + 4) as i128;
    let w: i128 = hi * 0x1_0000_0000 + lo;
    if w >= 0x8000_0000_0000_0000 {
        (w - 0x1_0000_0000_0000_0000) as i64
    } else {
        w as i64
    }
}

/// A random 32-bit value from `rand`'s thread-local generator
/// (`Rng::gen::<i32>` on `rand::thread_rng()`): any value may come.
#[verifier::external_body]
fn random_i32() -> i32 {
    rand::thread_rng().gen::<i32>()
}

/// A random 64-bit value from `rand`'s thread-local generator
/// (`Rng::gen::<i64>` on `rand::thread_rng()`): any value may come.
#[verifier::external_body]
fn random_i64() -> i64 {
    rand::thread_rng().gen::<i64>()
}

/// The SHA-1 digest of a byte string: what rust-crypto's `Sha1` computes.
pub uninterp spec fn sha1(data: Seq<u8>) -> Seq<u8>;

/// The SHA-1 digest of `data`, by rust-crypto's `Sha1` (`Sha1::new`,
/// `Digest::input`, `Digest::result`). The digest has 20 bytes. The input's
/// length in bits must fit 64 bits, else `input` panics.
#[verifier::external_body]
fn sha1_digest(data: &[u8]) -> (digest: [u8; 20])
    requires
        data@.len() * 8 <= u64::MAX,
    ensures
        digest@ == sha1(data@),
{
    let mut hasher = Sha1::new();
    hasher.input(data);
    let mut digest: [u8; 20] = [0; 20];
    hasher.result(&mut digest);
    digest
}

/// The first eight bytes of every peer id of this client: "-R~0001-".
pub open spec fn peer_prefix() -> Seq<u8> {
    seq![45u8, 82, 126, 48, 48, 48, 49, 45]
}

/// The peer id made of the client's prefix and twelve more bytes.
pub open spec fn peer_id_bytes(a: i64, b: i32) -> Seq<u8> {
    peer_prefix() + be64(bits64(a)) + be32(bits32(b))
}

/// The peer id made of the client's prefix and of the twelve bytes of `a`
/// and `b`.
pub fn peer_id_from(a: i64, b: i32) -> (peer_id: ByteBuffer)
    ensures
        buffer_bytes(peer_id) == peer_id_bytes(a, b),
        buffer_bytes(peer_id).len() == 20,
        fresh(peer_id),
{
    let prefix: [u8; 8] = [45, 82, 126, 48, 48, 48, 49, 45];
    assert(prefix@ =~= peer_prefix());
    let mut peer_id = ByteBuffer::new();
    peer_id.write_bytes(prefix.as_slice());
    peer_id.write_i64(a);
    peer_id.write_i32(b);
    assert(buffer_bytes(peer_id) =~= peer_id_bytes(a, b));
    peer_id
}

/// A peer id for this run: the client's prefix and twelve random bytes.
pub fn gen_peer_id() -> (peer_id: ByteBuffer)
    ensures
        exists|a: i64, b: i32| buffer_bytes(peer_id) == peer_id_bytes(a, b),
        buffer_bytes(peer_id).len() == 20,
        buffer_bytes(peer_id).subrange(0, 8) == peer_prefix(),
        fresh(peer_id),
{
    let a: i64 = random_i64();
    let b: i32 = random_i32();
    let peer_id = peer_id_from(a, b);
    assert(buffer_bytes(peer_id).subrange(0, 8) =~= peer_prefix());
    peer_id
}

/// The connect request with a given transaction id: the protocol's magic
/// number, the action 0 and the id.
pub open spec fn conn_req_bytes(transaction_id: i32) -> Seq<u8> {
    be64(0x417_2710_1980) + be32(0) + be32(bits32(transaction_id))
}

/// The connect request with a given transaction id.
pub fn conn_req(transaction_id: i32) -> (buffer: ByteBuffer)
    ensures
        buffer_bytes(buffer) == conn_req_bytes(transaction_id),
        buffer_bytes(buffer).len() == 16,
        fresh(buffer),
{
    let mut buffer = ByteBuffer::new();
    let protocol_id: i64 = 0x417_2710_1980;
    let action: i32 = 0;
    buffer.write_i64(protocol_id);
    buffer.write_i32(action);
    buffer.write_i32(transaction_id);
    assert(buffer_bytes(buffer) =~= conn_req_bytes(transaction_id));
    buffer
}

/// A connect request with a random transaction id.
pub fn build_conn_req() -> (buffer: ByteBuffer)
    ensures
        exists|transaction_id: i32| buffer_bytes(buffer) == conn_req_bytes(transaction_id),
        buffer_bytes(buffer).len() == 16,
        fresh(buffer),
{
    conn_req(random_i32())
}

/// Decodes the tracker's answer to a connect request.
pub fn parse_conn_resp(buf: &[u8; 16]) -> (conn_resp: ConnResp)
    ensures
        conn_resp.action == signed32(word_at(buf@, 0)),
        conn_resp.transaction_id == signed32(word_at(buf@, 4)),
        conn_resp.connection_id == signed64(long_at(buf@, 8)),
{
    let bytes: &[u8] = buf.as_slice();
    ConnResp {
        action: read_i32(bytes, 0),
        transaction_id: read_i32(bytes, 4),
        connection_id: read_i64(bytes, 8),
    }
}

/// The announce request: the connection id, the action 1, the transaction
/// id, the info hash, the peer id, no bytes downloaded, the whole payload
/// left, none uploaded, no event, the default address, no key, as many peers
/// as the tracker likes, and the port.
pub open spec fn announce_req_bytes(
    info_hash: Seq<u8>,
    left: u64,
    connection_id: i64,
    transaction_id: i32,
    peer_id: Seq<u8>,
    port: i16,
) -> Seq<u8> {
    be64(bits64(connection_id)) + be32(1) + be32(bits32(transaction_id)) + info_hash + peer_id
        + be64(0) + be64(left) + be64(0) + be32(0) + be32(0) + be32(0) + be32(0xFFFF_FFFF)
        + be16(bits16(port))
}

/// The announce request with a given transaction id.
pub fn announce_req(
    torrent: &Torrent,
    connection_id: i64,
    transaction_id: i32,
    peer_id: &ByteBuffer,
    port: i16,
) -> (announce_req: ByteBuffer)
    requires
        torrent.info_hash is Some,
        torrent.size is Some,
    ensures
        buffer_bytes(announce_req) == announce_req_bytes(
            torrent.info_hash->0@,
            torrent.size->0,
            connection_id,
            transaction_id,
            buffer_bytes(*peer_id),
            port,
        ),
        fresh(announce_req),
{
    let mut announce_req = ByteBuffer::new();
    announce_req.write_i64(connection_id);
    announce_req.write_i32(1);
    announce_req.write_i32(transaction_id);
    match &torrent.info_hash {
        Some(info_hash) => {
            announce_req.write_bytes(info_hash.as_slice());
        },
        None => {},
    }
    announce_req.write_bytes(peer_id.to_bytes().as_slice());
    announce_req.write_i64(0);
    match torrent.size {
        Some(size) => {
            announce_req.write_u64(size);
        },
        None => {},
    }
    announce_req.write_i64(0);
    announce_req.write_i32(0);
    announce_req.write_i32(0);
    announce_req.write_i32(0);
    announce_req.write_i32(-1);
    announce_req.write_i16(port);
    assert(buffer_bytes(announce_req) =~= announce_req_bytes(
        torrent.info_hash->0@,
        torrent.size->0,
        connection_id,
        transaction_id,
        buffer_bytes(*peer_id),
        port,
    ));
    announce_req
}

/// An announce request with a random transaction id.
pub fn build_announce_req(
    torrent: &Torrent,
    connection_id: i64,
    peer_id: &ByteBuffer,
    port: i16,
) -> (announce_req: ByteBuffer)
    requires
        torrent.info_hash is Some,
        torrent.size is Some,
    ensures
        exists|transaction_id: i32|
            buffer_bytes(announce_req) == announce_req_bytes(
                torrent.info_hash->0@,
                torrent.size->0,
                connection_id,
                transaction_id,
                buffer_bytes(*peer_id),
                port,
            ),
        fresh(announce_req),
{
    announce_req(torrent, connection_id, random_i32(), peer_id, port)
}

/// The peer that an announce answer names at `at`: four bytes of address,
/// two of port.
pub open spec fn peer_at(buf: Seq<u8>, at: int) -> Peer {
    Peer { ip_addr: word_at(buf, at) as u32, port: short_at(buf, at + 4) as u16 }
}

/// Whether an announce answer can be decoded: it holds its five header
/// fields, and the buffer holds a peer for each seeder that it counts.
pub open spec fn announce_fits(buf: Seq<u8>, received: nat) -> bool {
    let seeders = signed32(word_at(buf, 16));
    received >= 20 && (seeders <= 0 || 20 + 4 * (seeders - 1) + 6 <= buf.len())
}

/// Decodes the tracker's answer to an announce request: five header fields,
/// then one peer for each seeder that the header counts, each read four
/// bytes behind the one before.
pub fn parse_announce_resp(buf: &[u8; 1000], received: usize) -> (r: Result<AnnounceResp, Error>)
    ensures
        r is Ok <==> announce_fits(buf@, received as nat),
        r matches Err(e) ==> e == Error::TrackerResponse,
        r matches Ok(resp) ==> {
            &&& resp.action == signed32(word_at(buf@, 0))
            &&& resp.transaction_id == signed32(word_at(buf@, 4))
            &&& resp.interval == signed32(word_at(buf@, 8))
            &&& resp.leechers == signed32(word_at(buf@, 12))
            &&& resp.seeders == signed32(word_at(buf@, 16))
            &&& resp.peers@.len() == if resp.seeders > 0 {
                resp.seeders as int
            } else {
                0
            }
            &&& forall|k: int|
                0 <= k < resp.peers@.len() ==> #[trigger] resp.peers@[k] == peer_at(buf@, 20 + 4 * k)
        },
{
    if received < 20 {
        return Err(Error::TrackerResponse);
    }
    let bytes: &[u8] = buf.as_slice();
    let seeders: i32 = read_i32(bytes, 16);
    if seeders > 244 {
        return Err(Error::TrackerResponse);
    }
    let mut peers: Vec<Peer> = Vec::new();
    let mut offset: usize = 20;
    let mut k: i32 = 0;
    while k < seeders
        invariant
            0 <= k,
            seeders > 0 ==> k <= seeders <= 244,
            seeders <= 0 ==> k == 0,
            bytes@ == buf@,
            bytes.len() == 1000,
            offset == 20 + 4 * k,
            peers@.len() == k,
            forall|m: int| 0 <= m < k ==> #[trigger] peers@[m] == peer_at(buf@, 20 + 4 * m),
        decreases seeders - k,
    {
        let hi: u16 = bytes[offset + 4] as u16;
        let lo: u16 = bytes[offset + 5] as u16;
        peers.push(Peer { ip_addr: be32_at(bytes, offset), port: hi * 0x100 + lo });
        offset += 4;
        k += 1;
    }
    Ok(
        AnnounceResp {
            action: read_i32(bytes, 0),
            transaction_id: read_i32(bytes, 4),
            interval: read_i32(bytes, 8),
            leechers: read_i32(bytes, 12),
            seeders,
            peers,
        },
    )
}

/// The info hash of a torrent: the SHA-1 digest of its bencoded `info`
/// dictionary.
pub fn hash_torrent_info(bencoded_info: &[u8]) -> (hashed_info: [u8; 20])
    requires
        bencoded_info@.len() * 8 <= u64::MAX,
    ensures
        hashed_info@ == sha1(bencoded_info@),
{
    sha1_digest(bencoded_info)
}

} // verus!
