use crate::torrents::{Torrent, BLOCK_LEN};
use std::collections::VecDeque;
use vstd::prelude::*;

verus! {

/// A block of a piece: the unit that is requested from a peer. Two blocks are
/// the same block where `index` and `begin` agree.
#[derive(Debug, Copy, Clone, PartialEq, Eq, Structural)]
pub struct PieceBlock {
    pub index: u32,
    pub begin: u32,
    pub length: u32,
}

/// The blocks of piece `i` of `t`, in ascending order of their offsets.
pub open spec fn piece_blocks(t: Torrent, i: nat) -> Seq<PieceBlock> {
    Seq::new(
        t.spec_blocks_per_piece(i) as nat,
        |j: int|
            PieceBlock {
                index: i as u32,
                begin: (j * 16384) as u32,
                length: t.spec_block_len(i, j as nat) as u32,
            },
    )
}

/// Job queue which tracks the blocks that are still to be asked of one peer,
/// and whether that peer chokes us.
pub struct Queue<'a> {
    torrent: &'a Torrent,
    choked: bool,
    pieces: VecDeque<PieceBlock>,
}

impl<'a> Queue<'a> {
    /// The blocks waiting, the next one to be asked for first.
    pub closed spec fn blocks(&self) -> Seq<PieceBlock> {
        self.pieces@
    }

    /// Whether the peer chokes us.
    pub closed spec fn is_choked(&self) -> bool {
        self.choked
    }

    /// The torrent whose blocks are queued.
    pub closed spec fn torrent(&self) -> Torrent {
        *self.torrent
    }

    /// The torrent whose blocks are queued is well formed.
    pub open spec fn wf(&self) -> bool {
        self.torrent().wf()
    }

    /// An empty queue for a peer that chokes us.
    pub fn new(torrent: &'a Torrent) -> (q: Queue<'a>)
        requires
            torrent.wf(),
        ensures
            q.wf(),
            q.torrent() == *torrent,
            q.is_choked(),
            q.blocks() == Seq::<PieceBlock>::empty(),
    {
        Queue { choked: true, pieces: VecDeque::new(), torrent }
    }

    /// Appends every block of a piece, in ascending order of their offsets.
    pub fn queue(&mut self, piece_index: u32)
        requires
            old(self).wf(),
        ensures
            final(self).blocks() == old(self).blocks() + piece_blocks(
                old(self).torrent(),
                piece_index as nat,
            ),
            final(self).torrent() == old(self).torrent(),
            final(self).is_choked() == old(self).is_choked(),
            final(self).wf(),
    {
        let num_blocks: u64 = self.torrent.get_blocks_per_piece(piece_index as u64);
        let ghost before = self.pieces@;
        let ghost all = piece_blocks(*self.torrent, piece_index as nat);
        proof {
            self.torrent.lemma_piece_len_bounds(piece_index as nat);
        }
        let mut i: u64 = 0;
        while i < num_blocks
            invariant
                i <= num_blocks,
                self.torrent.wf(),
                self.torrent == old(self).torrent,
                self.choked == old(self).choked,
                before == old(self).pieces@,
                num_blocks == self.torrent.spec_blocks_per_piece(piece_index as nat),
                (num_blocks - 1) * 16384 < self.torrent.spec_piece_len(piece_index as nat),
                self.torrent.spec_piece_len(piece_index as nat) <= self.torrent.info.piece_length,
                all == piece_blocks(*self.torrent, piece_index as nat),
                self.pieces@ == before + all.take(i as int),
            decreases num_blocks - i,
        {
            let length: u64 = self.torrent.get_block_len(piece_index as u64, i);
            let piece_block = PieceBlock {
                index: piece_index,
                begin: (i * BLOCK_LEN) as u32,
                length: length as u32,
            };
            assert(piece_block == all[i as int]);
            assert(all.take(i + 1) =~= all.take(i as int).push(all[i as int]));
            self.pieces.push_back(piece_block);
            i += 1;
        }
        assert(all.take(i as int) =~= all);
    }

    /// Removes the first block of the queue and returns it.
    pub fn deque(&mut self) -> (r: Option<PieceBlock>)
        ensures
            old(self).blocks().len() == 0 ==> r is None && final(self).blocks() == old(
                self,
            ).blocks(),
            old(self).blocks().len() > 0 ==> r == Some(old(self).blocks()[0])
                && final(self).blocks() == old(self).blocks().subrange(
                1,
                old(self).blocks().len() as int,
            ),
            final(self).torrent() == old(self).torrent(),
            final(self).is_choked() == old(self).is_choked(),
    {
        self.pieces.pop_front()
    }

    /// The first block of the queue.
    pub fn peek(&self) -> (r: Option<PieceBlock>)
        ensures
            self.blocks().len() == 0 ==> r is None,
            self.blocks().len() > 0 ==> r == Some(self.blocks()[0]),
    {
        if self.pieces.len() > 0 {
            Some(self.pieces[0])
        } else {
            None
        }
    }

    /// The blocks waiting, the next one to be asked for first.
    pub fn snapshot(&self) -> (r: Vec<PieceBlock>)
        ensures
            r@ == self.blocks(),
    {
        let mut r: Vec<PieceBlock> = Vec::new();
        let mut i: usize = 0;
        while i < self.pieces.len()
            invariant
                i <= self.pieces@.len(),
                r@ == self.pieces@.take(i as int),
            decreases self.pieces@.len() - i,
        {
            r.push(self.pieces[i]);
            assert(self.pieces@.take(i + 1) =~= self.pieces@.take(i as int).push(self.pieces@[i as int]));
            i += 1;
        }
        assert(self.pieces@.take(i as int) =~= self.pieces@);
        r
    }

    /// Number of blocks waiting.
    pub fn len(&self) -> (n: usize)
        ensures
            n == self.blocks().len(),
    {
        self.pieces.len()
    }

    /// Whether the peer chokes us.
    pub fn choked(&self) -> (c: bool)
        ensures
            c == self.is_choked(),
    {
        self.choked
    }

    /// Records whether the peer chokes us.
    pub fn set_choked(&mut self, choked: bool)
        ensures
            final(self).is_choked() == choked,
            final(self).blocks() == old(self).blocks(),
            final(self).torrent() == old(self).torrent(),
    {
        self.choked = choked;
    }
}

} // verus!
