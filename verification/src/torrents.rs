use vstd::prelude::*;

verus! {

/// Length in bytes of every block but possibly the last one of a piece.
pub const BLOCK_LEN: u64 = 16384;

/// Largest value that the peer wire protocol can carry in one integer field.
pub const WIRE_MAX: u64 = 0xFFFF_FFFF;

/// One output file of the payload.
#[derive(Debug, Clone)]
pub struct DlFile {
    pub path: Vec<String>,
    pub length: u64,
    pub md5sum: Option<String>,
}

/// The `info` dictionary of a metainfo file.
#[derive(Debug, Clone)]
pub struct Info {
    pub name: String,
    pub pieces: Vec<u8>,
    pub piece_length: u64,
    pub length: Option<u64>,
    pub files: Option<Vec<DlFile>>,
}

/// A torrent: its `info` dictionary together with what is derived from it.
#[derive(Debug, Clone)]
pub struct Torrent {
    pub info: Info,
    pub announce: Option<String>,
    pub size: Option<u64>,
    pub info_hash: Option<[u8; 20]>,
}

/// Sum of the lengths of `files`.
pub open spec fn files_total(files: Seq<DlFile>) -> nat
    decreases files.len(),
{
    if files.len() == 0 {
        0
    } else {
        files_total(files.drop_last()) + files.last().length as nat
    }
}

/// Payload size that an `info` dictionary declares: the sum of its file
/// lengths, or its single `length` where it lists no files.
pub open spec fn declared_size(info: Info) -> nat {
    match info.files {
        Some(files) => files_total(files@),
        None => match info.length {
            Some(n) => n as nat,
            None => 0,
        },
    }
}

/// Number of pieces: one 20-byte digest each.
pub open spec fn piece_count_of(info: Info) -> nat {
    info.pieces@.len() / 20
}

/// Size of piece `i` of a payload of `total` bytes cut into `count` pieces of
/// `piece_length` bytes, the last one holding what is left.
pub open spec fn piece_size(total: nat, piece_length: nat, count: nat, i: nat) -> int {
    if i + 1 < count {
        piece_length as int
    } else {
        total - (count - 1) * piece_length
    }
}

/// Number of blocks needed to hold `size` bytes.
pub open spec fn blocks_for(size: int) -> int {
    (size + 16383) / 16384
}

/// Size of block `j` of a piece of `size` bytes.
pub open spec fn block_size_in(size: int, j: nat) -> int {
    if j + 1 < blocks_for(size) {
        16384
    } else {
        size - j * 16384
    }
}

/// The pieces tile the payload: every piece but the last is full, and the last
/// one holds between one byte and a full piece.
pub open spec fn tiles(total: nat, piece_length: nat, count: nat) -> bool {
    &&& piece_length > 0
    &&& count > 0
    &&& (count - 1) * piece_length < total
    &&& total <= count * piece_length
}

/// Sum of the sizes of the first `n` blocks of a piece of `size` bytes.
pub open spec fn blocks_sum(size: int, n: nat) -> int
    decreases n,
{
    if n == 0 {
        0
    } else {
        blocks_sum(size, (n - 1) as nat) + block_size_in(size, (n - 1) as nat)
    }
}

/// Sum of the sizes of all blocks of the first `n` pieces.
pub open spec fn pieces_sum(total: nat, piece_length: nat, count: nat, n: nat) -> int
    decreases n,
{
    if n == 0 {
        0
    } else {
        let size = piece_size(total, piece_length, count, (n - 1) as nat);
        pieces_sum(total, piece_length, count, (n - 1) as nat) + blocks_sum(
            size,
            blocks_for(size) as nat,
        )
    }
}

/// One more factor adds the other factor once.
proof fn lemma_mul_succ(c: int, p: int)
    ensures
        (c + 1) * p == c * p + p,
{
    assert((c + 1) * p == c * p + p) by (nonlinear_arith);
}

/// A product of bounded factors is bounded by the product of the bounds.
pub proof fn lemma_mul_bound(c: int, p: int, cmax: int, pmax: int)
    requires
        0 <= c <= cmax,
        0 <= p <= pmax,
    ensures
        0 <= c * p <= cmax * pmax,
{
    assert(0 <= c * p <= cmax * pmax) by (nonlinear_arith)
        requires
            0 <= c <= cmax,
            0 <= p <= pmax,
    ;
}

/// All blocks of a piece but the last are full.
proof fn lemma_blocks_prefix(size: int, n: nat)
    requires
        size > 0,
        n < blocks_for(size),
    ensures
        blocks_sum(size, n) == n * 16384,
    decreases n,
{
    if n > 0 {
        lemma_blocks_prefix(size, (n - 1) as nat);
    }
}

/// The blocks of a piece add up to the piece.
pub proof fn lemma_blocks_cover_piece(size: int)
    requires
        size > 0,
    ensures
        blocks_for(size) >= 1,
        blocks_sum(size, blocks_for(size) as nat) == size,
{
    let n = blocks_for(size);
    lemma_blocks_prefix(size, (n - 1) as nat);
}

/// All pieces but the last are full, blocks and all.
proof fn lemma_pieces_prefix(total: nat, piece_length: nat, count: nat, n: nat)
    requires
        tiles(total, piece_length, count),
        n < count,
    ensures
        pieces_sum(total, piece_length, count, n) == n * piece_length,
    decreases n,
{
    if n > 0 {
        let m = (n - 1) as nat;
        lemma_pieces_prefix(total, piece_length, count, m);
        lemma_blocks_cover_piece(piece_length as int);
        lemma_mul_succ(m as int, piece_length as int);
    } else {
        assert(0 * piece_length == 0) by (nonlinear_arith);
    }
}

/// The sizes of all blocks of all pieces add up to the size of the payload.
pub proof fn lemma_blocks_cover_payload(total: nat, piece_length: nat, count: nat)
    requires
        tiles(total, piece_length, count),
    ensures
        pieces_sum(total, piece_length, count, count) == total,
{
    lemma_pieces_prefix(total, piece_length, count, (count - 1) as nat);
    lemma_blocks_cover_piece(total - (count - 1) * piece_length);
}

/// In a payload whose size is no multiple of the piece length the last piece
/// is shorter than the others, and where that piece is no multiple of the
/// block length its last block is shorter than a block.
pub proof fn lemma_short_tail(total: nat, piece_length: nat, count: nat)
    requires
        tiles(total, piece_length, count),
    ensures
        0 < piece_size(total, piece_length, count, (count - 1) as nat) <= piece_length,
        total % piece_length != 0 ==> piece_size(total, piece_length, count, (count - 1) as nat)
            < piece_length,
        ({
            let last = piece_size(total, piece_length, count, (count - 1) as nat);
            let tail = block_size_in(last, (blocks_for(last) - 1) as nat);
            &&& 0 < tail <= 16384
            &&& last % 16384 != 0 ==> tail == last % 16384
        }),
{
    let last = piece_size(total, piece_length, count, (count - 1) as nat);
    lemma_mul_succ(count - 1, piece_length as int);
    if last == piece_length {
        let c = count as int;
        let p = piece_length as int;
        assert((c * p) % p == 0) by (nonlinear_arith)
            requires
                p > 0,
        ;
    }
}

/// Whether an `info` dictionary describes one payload that this client can
/// download: its size fits 64 bits, its digests are as many as its pieces,
/// and its piece length and piece count fit the wire protocol's 32-bit
/// fields.
pub open spec fn describes_payload(info: Info) -> bool {
    &&& tiles(declared_size(info), info.piece_length as nat, piece_count_of(info))
    &&& declared_size(info) <= u64::MAX
    &&& info.piece_length <= WIRE_MAX
    &&& piece_count_of(info) <= WIRE_MAX
}

impl Torrent {
    /// Size of the payload in bytes.
    pub open spec fn total_size(&self) -> nat {
        match self.size {
            Some(n) => n as nat,
            None => 0,
        }
    }

    /// Number of pieces of the payload.
    pub open spec fn piece_count(&self) -> nat {
        piece_count_of(self.info)
    }

    /// The derived size is the declared one, the pieces tile the payload, and
    /// piece indices and offsets within a piece fit the wire protocol's
    /// 32-bit fields.
    pub open spec fn wf(&self) -> bool {
        &&& self.size is Some
        &&& self.total_size() == declared_size(self.info)
        &&& tiles(self.total_size(), self.info.piece_length as nat, self.piece_count())
        &&& self.info.piece_length <= WIRE_MAX
        &&& self.piece_count() <= WIRE_MAX
    }

    /// Size of a piece.
    pub open spec fn spec_piece_len(&self, piece_index: nat) -> int {
        piece_size(
            self.total_size(),
            self.info.piece_length as nat,
            self.piece_count(),
            piece_index,
        )
    }

    /// Number of blocks of a piece.
    pub open spec fn spec_blocks_per_piece(&self, piece_index: nat) -> int {
        blocks_for(self.spec_piece_len(piece_index))
    }

    /// Size of a block of a piece.
    pub open spec fn spec_block_len(&self, piece_index: nat, block_index: nat) -> int {
        block_size_in(self.spec_piece_len(piece_index), block_index)
    }

    /// Every piece holds at least one byte and at most a piece length.
    pub proof fn lemma_piece_len_bounds(&self, piece_index: nat)
        requires
            self.wf(),
        ensures
            0 < self.spec_piece_len(piece_index) <= self.info.piece_length,
            self.spec_blocks_per_piece(piece_index) >= 1,
    {
        lemma_mul_succ(self.piece_count() - 1, self.info.piece_length as int);
    }

    /// The sizes of all blocks of all pieces of a torrent add up to its size.
    pub proof fn lemma_blocks_cover_torrent(&self)
        requires
            self.wf(),
        ensures
            pieces_sum(
                self.total_size(),
                self.info.piece_length as nat,
                self.piece_count(),
                self.piece_count(),
            ) == self.total_size(),
    {
        lemma_blocks_cover_payload(
            self.total_size(),
            self.info.piece_length as nat,
            self.piece_count(),
        );
    }

    /// Builds a torrent from a decoded `info` dictionary, deriving its size.
    /// `None` where the declared sizes overflow, or where the digests, the
    /// piece length and the file lengths do not describe one payload.
    pub fn new(info: Info, announce: Option<String>, info_hash: [u8; 20]) -> (r: Option<
        Torrent,
    >)
        ensures
            r is Some <==> describes_payload(info),
            r matches Some(t) ==> {
                &&& t.wf()
                &&& t.info == info
                &&& t.announce == announce
                &&& t.info_hash == Some(info_hash)
                &&& t.size == Some(declared_size(info) as u64)
            },
    {
        let total = match checked_torrent_size(&info) {
            Some(n) => n,
            None => {
                return None;
            },
        };
        let count: usize = info.pieces.len() / 20;
        let piece_length: u64 = info.piece_length;
        if piece_length == 0 || piece_length > WIRE_MAX || count == 0 || count > 0xFFFF_FFFF {
            return None;
        }
        proof {
            lemma_mul_bound(count - 1, piece_length as int, 0xFFFF_FFFF, 0xFFFF_FFFF);
            lemma_mul_succ(count - 1, piece_length as int);
        }
        let full: u64 = (count as u64 - 1) * piece_length;
        if total <= full || total - full > piece_length {
            return None;
        }
        Some(Torrent { info, announce, size: Some(total), info_hash: Some(info_hash) })
    }

    /// Number of pieces of the payload.
    pub fn get_piece_count(&self) -> (n: u64)
        requires
            self.wf(),
        ensures
            n == self.piece_count(),
    {
        (self.info.pieces.len() / 20) as u64
    }

    /// Size of a piece: the piece length but for the last piece, which holds
    /// what is left of the payload.
    pub fn get_piece_len(&self, piece_index: u64) -> (len: u64)
        requires
            self.wf(),
        ensures
            len == self.spec_piece_len(piece_index as nat),
            0 < len <= self.info.piece_length,
    {
        let count: u64 = self.get_piece_count();
        let piece_length: u64 = self.info.piece_length;
        if piece_index < count - 1 {
            piece_length
        } else {
            let total: u64 = match self.size {
                Some(n) => n,
                None => 0,
            };
            proof {
                lemma_mul_bound(count - 1, piece_length as int, 0xFFFF_FFFF, 0xFFFF_FFFF);
                lemma_mul_succ(count - 1, piece_length as int);
            }
            total - (count - 1) * piece_length
        }
    }

    /// Number of blocks of a piece.
    pub fn get_blocks_per_piece(&self, piece_index: u64) -> (n: u64)
        requires
            self.wf(),
        ensures
            n == self.spec_blocks_per_piece(piece_index as nat),
            n >= 1,
            (n - 1) * 16384 < self.spec_piece_len(piece_index as nat) <= n * 16384,
    {
        let piece_len: u64 = self.get_piece_len(piece_index);
        if piece_len % BLOCK_LEN > 0 {
            piece_len / BLOCK_LEN + 1
        } else {
            piece_len / BLOCK_LEN
        }
    }

    /// Size of a block: the block length but for the last block of a piece,
    /// which holds what is left of the piece.
    pub fn get_block_len(&self, piece_index: u64, block_index: u64) -> (len: u64)
        requires
            self.wf(),
            block_index < self.spec_blocks_per_piece(piece_index as nat),
        ensures
            len == self.spec_block_len(piece_index as nat, block_index as nat),
            0 < len <= BLOCK_LEN,
    {
        let piece_len: u64 = self.get_piece_len(piece_index);
        let blocks: u64 = self.get_blocks_per_piece(piece_index);
        if block_index < blocks - 1 {
            BLOCK_LEN
        } else {
            piece_len - block_index * BLOCK_LEN
        }
    }
}

/// The output file of a torrent that lists none: it is named as the torrent
/// and holds the whole payload. `None` where the torrent lists its files.
pub fn single_file(torrent_info: &Info) -> (r: Option<DlFile>)
    ensures
        r is Some <==> torrent_info.files is None,
        r matches Some(f) ==> {
            &&& f.path@.len() == 1
            &&& f.path@[0]@ == torrent_info.name@
            &&& f.length == declared_size(*torrent_info)
            &&& f.md5sum is None
        },
{
    match &torrent_info.files {
        Some(_) => None,
        None => {
            let mut path: Vec<String> = Vec::new();
            path.push(torrent_info.name.clone());
            let length: u64 = match torrent_info.length {
                Some(n) => n,
                None => 0,
            };
            Some(DlFile { path, length, md5sum: None })
        },
    }
}

/// Sum of the lengths of `files`, `None` where it does not fit 64 bits.
pub fn checked_files_total(files: &Vec<DlFile>) -> (r: Option<u64>)
    ensures
        match r {
            Some(n) => n == files_total(files@),
            None => files_total(files@) > u64::MAX,
        },
{
    let mut size: u64 = 0;
    let mut i: usize = 0;
    while i < files.len()
        invariant
            i <= files.len(),
            size == files_total(files@.take(i as int)),
        decreases files.len() - i,
    {
        assert(files@.take(i + 1).drop_last() =~= files@.take(i as int));
        match size.checked_add(files[i].length) {
            Some(s) => {
                size = s;
            },
            None => {
                proof {
                    lemma_files_total_monotonic(files@, i + 1);
                }
                return None;
            },
        }
        i += 1;
    }
    assert(files@.take(i as int) =~= files@);
    Some(size)
}

/// The lengths of the first `k` files add up to no more than those of all.
pub proof fn lemma_files_total_monotonic(files: Seq<DlFile>, k: int)
    requires
        0 <= k <= files.len(),
    ensures
        files_total(files.take(k)) <= files_total(files),
    decreases files.len(),
{
    if k == files.len() {
        assert(files.take(k) =~= files);
    } else {
        lemma_files_total_monotonic(files.drop_last(), k);
        assert(files.drop_last().take(k) =~= files.take(k));
    }
}

/// Payload size that `info` declares, `None` where it does not fit 64 bits.
pub fn checked_torrent_size(torrent_info: &Info) -> (r: Option<u64>)
    ensures
        match r {
            Some(n) => n == declared_size(*torrent_info),
            None => declared_size(*torrent_info) > u64::MAX,
        },
{
    match &torrent_info.files {
        Some(files) => checked_files_total(files),
        None => match torrent_info.length {
            Some(n) => Some(n),
            None => Some(0),
        },
    }
}

/// Payload size that `info` declares.
pub fn calculate_torrent_size(torrent_info: &Info) -> (size: u64)
    requires
        declared_size(*torrent_info) <= u64::MAX,
    ensures
        size == declared_size(*torrent_info),
{
    match checked_torrent_size(torrent_info) {
        Some(n) => n,
        None => 0,
    }
}

} // verus!
