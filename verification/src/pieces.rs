use crate::queue::PieceBlock;
use crate::torrents::{Torrent, BLOCK_LEN};
use vstd::prelude::*;

verus! {

/// The ledger as a mathematical value: for each block of each piece, whether
/// it was asked of some peer and whether it has arrived.
pub ghost struct Ledger {
    pub requested: Seq<Seq<bool>>,
    pub received: Seq<Seq<bool>>,
}

/// Every cell is true.
pub open spec fn all_true(cells: Seq<Seq<bool>>) -> bool {
    forall|i: int, j: int| 0 <= i < cells.len() && 0 <= j < cells[i].len() ==> #[trigger] cells[i][j]
}

/// The cells with the one at row `i`, column `j` set to true.
pub open spec fn marked(cells: Seq<Seq<bool>>, i: int, j: int) -> Seq<Seq<bool>> {
    cells.update(i, cells[i].update(j, true))
}

/// Number of true cells among the first `n` of a row.
pub open spec fn row_count(row: Seq<bool>, n: nat) -> nat
    decreases n,
{
    if n == 0 {
        0
    } else {
        row_count(row, (n - 1) as nat) + if row[n - 1] {
            1nat
        } else {
            0nat
        }
    }
}

/// Number of true cells in the first `n` rows.
pub open spec fn true_count(cells: Seq<Seq<bool>>, n: nat) -> nat
    decreases n,
{
    if n == 0 {
        0
    } else {
        true_count(cells, (n - 1) as nat) + row_count(cells[n - 1], cells[n - 1].len())
    }
}

/// Number of cells in the first `n` rows.
pub open spec fn cell_count(cells: Seq<Seq<bool>>, n: nat) -> nat
    decreases n,
{
    if n == 0 {
        0
    } else {
        cell_count(cells, (n - 1) as nat) + cells[n - 1].len()
    }
}

impl Ledger {
    /// Both tables have a cell for the same blocks.
    pub open spec fn wf(self) -> bool {
        &&& self.requested.len() == self.received.len()
        &&& forall|i: int|
            0 <= i < self.requested.len() ==> (#[trigger] self.requested[i]).len()
                == self.received[i].len()
    }

    /// No more rows than a piece index can name, and no more cells in a row
    /// than a piece of the largest length has blocks.
    pub open spec fn bounded(self) -> bool {
        &&& self.requested.len() <= 0xFFFF_FFFF
        &&& forall|i: int|
            0 <= i < self.requested.len() ==> (#[trigger] self.requested[i]).len() <= 0x4_0000
    }

    /// The ledger has a cell for block `j` of piece `i`.
    pub open spec fn has(self, i: int, j: int) -> bool {
        0 <= i < self.requested.len() && 0 <= j < self.requested[i].len()
    }

    /// The ledger has one row for each piece of `t` and one cell for each of
    /// its blocks.
    pub open spec fn shaped_for(self, t: Torrent) -> bool {
        &&& self.wf()
        &&& self.requested.len() == t.piece_count()
        &&& forall|i: int|
            0 <= i < self.requested.len() ==> (#[trigger] self.requested[i]).len()
                == t.spec_blocks_per_piece(i as nat)
    }

    /// The block was asked of a peer.
    pub open spec fn mark_requested(self, i: int, j: int) -> Ledger {
        Ledger { requested: marked(self.requested, i, j), received: self.received }
    }

    /// The block has arrived.
    pub open spec fn mark_received(self, i: int, j: int) -> Ledger {
        Ledger { requested: self.requested, received: marked(self.received, i, j) }
    }

    /// Whether asking for a block refreshes the ledger first: every block has
    /// been asked for.
    pub open spec fn exhausted(self) -> bool {
        all_true(self.requested)
    }

    /// The ledger after a question whether a block is needed: where every
    /// block has been asked for, only those that arrived still count as
    /// asked for.
    pub open spec fn refreshed(self) -> Ledger {
        if self.exhausted() {
            Ledger { requested: self.received, received: self.received }
        } else {
            self
        }
    }

    /// Whether a block is to be asked for, as `needed` answers.
    pub open spec fn needs(self, i: int, j: int) -> bool {
        !self.refreshed().requested[i][j]
    }

    /// Every block has arrived.
    pub open spec fn done(self) -> bool {
        all_true(self.received)
    }
}

/// Between the moment a block is marked as asked for and the next refresh,
/// the ledger answers that the block is not needed, and the answer changes
/// nothing.
pub proof fn lemma_requested_not_needed(l: Ledger, i: int, j: int)
    requires
        l.wf(),
        l.has(i, j),
        !l.mark_requested(i, j).exhausted(),
    ensures
        !l.mark_requested(i, j).needs(i, j),
        l.mark_requested(i, j).refreshed() == l.mark_requested(i, j),
{
}

/// A block once marked as asked for stays so while other blocks are marked
/// as asked for or as arrived, and the ledger keeps its shape.
pub proof fn lemma_marks_keep_requested(l: Ledger, i: int, j: int, k: int, m: int)
    requires
        l.wf(),
        l.has(i, j),
        l.has(k, m),
        l.requested[i][j],
    ensures
        l.mark_requested(k, m).requested[i][j],
        l.mark_received(k, m).requested[i][j],
        l.mark_requested(k, m).wf(),
        l.mark_received(k, m).wf(),
        l.mark_requested(k, m).has(i, j),
        l.mark_received(k, m).has(i, j),
{
}

/// While a block counts as asked for and no refresh is due, the ledger
/// answers that it is not needed.
pub proof fn lemma_outstanding_not_needed(l: Ledger, i: int, j: int)
    requires
        l.has(i, j),
        l.requested[i][j],
        !l.exhausted(),
    ensures
        !l.needs(i, j),
        l.refreshed() == l,
{
}

/// Once every block has been asked for, a block that has not arrived is
/// needed again, one that has arrived is not, and after the refresh the
/// blocks that count as asked for are those that arrived.
pub proof fn lemma_refresh_reissues(l: Ledger, i: int, j: int)
    requires
        l.wf(),
        l.has(i, j),
        l.exhausted(),
    ensures
        l.needs(i, j) == !l.received[i][j],
        l.refreshed().requested == l.refreshed().received,
        l.refreshed().received == l.received,
{
}

/// A ledger in which every block has arrived is done, whatever was asked
/// for.
pub proof fn lemma_all_received_is_done(l: Ledger)
    requires
        l.wf(),
        forall|i: int, j: int| l.has(i, j) ==> l.received[i][j],
    ensures
        l.done(),
{
    assert forall|i: int, j: int|
        0 <= i < l.received.len() && 0 <= j < l.received[i].len() implies #[trigger] l.received[i][j] by {
        assert(l.requested[i].len() == l.received[i].len());
        assert(l.has(i, j));
    }
}

/// No more cells of a row are true than the row has.
proof fn lemma_row_count_bound(row: Seq<bool>, n: nat)
    ensures
        row_count(row, n) <= n,
    decreases n,
{
    if n > 0 {
        lemma_row_count_bound(row, (n - 1) as nat);
    }
}

/// No more cells are true than there are cells.
pub proof fn lemma_count_bound(cells: Seq<Seq<bool>>, n: nat)
    ensures
        true_count(cells, n) <= cell_count(cells, n),
    decreases n,
{
    if n > 0 {
        lemma_count_bound(cells, (n - 1) as nat);
        lemma_row_count_bound(cells[n - 1], cells[n - 1].len());
    }
}

/// The process-wide record of which blocks were asked of a peer and which
/// have arrived.
#[derive(Debug, Clone)]
pub struct Pieces {
    requested: Vec<Vec<bool>>,
    received: Vec<Vec<bool>>,
}

/// The table as rows of cells.
pub open spec fn cells_of(table: Vec<Vec<bool>>) -> Seq<Seq<bool>> {
    Seq::new(table@.len(), |i: int| table@[i]@)
}

impl View for Pieces {
    type V = Ledger;

    closed spec fn view(&self) -> Ledger {
        Ledger { requested: cells_of(self.requested), received: cells_of(self.received) }
    }
}

/// Whether every cell of the table is true.
fn all_set(table: &Vec<Vec<bool>>) -> (r: bool)
    ensures
        r == all_true(cells_of(*table)),
{
    let ghost cells = cells_of(*table);
    let mut i: usize = 0;
    while i < table.len()
        invariant
            i <= table.len(),
            cells == cells_of(*table),
            forall|a: int, b: int| 0 <= a < i && 0 <= b < cells[a].len() ==> #[trigger] cells[a][b],
        decreases table.len() - i,
    {
        let row = &table[i];
        let mut j: usize = 0;
        while j < row.len()
            invariant
                j <= row.len(),
                i < table.len(),
                cells == cells_of(*table),
                row@ == cells[i as int],
                forall|b: int| 0 <= b < j ==> #[trigger] cells[i as int][b],
            decreases row.len() - j,
        {
            if !row[j] {
                assert(!cells[i as int][j as int]);
                return false;
            }
            j += 1;
        }
        i += 1;
    }
    true
}

/// A row of `n` cells, all false.
fn blank_row(n: usize) -> (row: Vec<bool>)
    ensures
        row@.len() == n,
        forall|j: int| 0 <= j < n ==> !#[trigger] row@[j],
{
    let mut row: Vec<bool> = Vec::new();
    let mut j: usize = 0;
    while j < n
        invariant
            j <= n,
            row@.len() == j,
            forall|k: int| 0 <= k < j ==> !#[trigger] row@[k],
        decreases n - j,
    {
        row.push(false);
        j += 1;
    }
    row
}

/// One row for each piece, one cell for each of its blocks, all false.
fn build_pieces_vec(torrent: &Torrent) -> (table: Vec<Vec<bool>>)
    requires
        torrent.wf(),
    ensures
        cells_of(table).len() == torrent.piece_count(),
        forall|i: int|
            0 <= i < cells_of(table).len() ==> (#[trigger] cells_of(table)[i]).len()
                == torrent.spec_blocks_per_piece(i as nat),
        forall|i: int, j: int|
            0 <= i < cells_of(table).len() && 0 <= j < cells_of(table)[i].len()
                ==> !#[trigger] cells_of(table)[i][j],
{
    let num_pieces: u64 = torrent.get_piece_count();
    let mut table: Vec<Vec<bool>> = Vec::new();
    let mut i: u64 = 0;
    while i < num_pieces
        invariant
            i <= num_pieces,
            torrent.wf(),
            num_pieces == torrent.piece_count(),
            table@.len() == i,
            forall|a: int|
                0 <= a < i ==> (#[trigger] table@[a])@.len() == torrent.spec_blocks_per_piece(
                    a as nat,
                ),
            forall|a: int, b: int|
                0 <= a < i && 0 <= b < table@[a]@.len() ==> !#[trigger] table@[a]@[b],
        decreases num_pieces - i,
    {
        let blocks_per_piece: u64 = torrent.get_blocks_per_piece(i);
        proof {
            torrent.lemma_piece_len_bounds(i as nat);
        }
        let row = blank_row(blocks_per_piece as usize);
        table.push(row);
        i += 1;
    }
    table
}

/// Number of true cells and number of cells of a table.
fn count_cells(table: &Vec<Vec<bool>>) -> (r: (u64, u64))
    requires
        cells_of(*table).len() <= 0xFFFF_FFFF,
        forall|i: int|
            0 <= i < cells_of(*table).len() ==> (#[trigger] cells_of(*table)[i]).len() <= 0x4_0000,
    ensures
        r.0 == true_count(cells_of(*table), cells_of(*table).len()),
        r.1 == cell_count(cells_of(*table), cells_of(*table).len()),
{
    let ghost cells = cells_of(*table);
    let mut downloaded: u64 = 0;
    let mut total: u64 = 0;
    let mut i: usize = 0;
    while i < table.len()
        invariant
            i <= table.len(),
            cells == cells_of(*table),
            cells.len() <= 0xFFFF_FFFF,
            forall|a: int| 0 <= a < cells.len() ==> (#[trigger] cells[a]).len() <= 0x4_0000,
            downloaded == true_count(cells, i as nat),
            total == cell_count(cells, i as nat),
            downloaded <= total <= i * 0x4_0000,
        decreases table.len() - i,
    {
        let row = &table[i];
        let mut in_row: u64 = 0;
        let mut j: usize = 0;
        while j < row.len()
            invariant
                j <= row.len(),
                row@ == cells[i as int],
                in_row == row_count(row@, j as nat),
                in_row <= j,
            decreases row.len() - j,
        {
            if row[j] {
                in_row += 1;
            }
            j += 1;
        }
        downloaded += in_row;
        total += row.len() as u64;
        i += 1;
    }
    (downloaded, total)
}

impl Pieces {
    /// The ledger's two tables have the same shape, within the bounds that a
    /// torrent's geometry keeps.
    pub open spec fn wf(&self) -> bool {
        self@.wf() && self@.bounded()
    }

    /// A ledger for `torrent` in which nothing was asked for and nothing has
    /// arrived.
    pub fn new(torrent: &Torrent) -> (p: Pieces)
        requires
            torrent.wf(),
        ensures
            p.wf(),
            p@.shaped_for(*torrent),
            forall|i: int, j: int| p@.has(i, j) ==> !p@.requested[i][j] && !p@.received[i][j],
    {
        proof {
            assert forall|i: nat| #[trigger] torrent.spec_blocks_per_piece(i) <= 0x4_0000 by {
                torrent.lemma_piece_len_bounds(i);
            }
        }
        Pieces { requested: build_pieces_vec(torrent), received: build_pieces_vec(torrent) }
    }

    /// Whether the ledger has a cell for the block.
    pub fn holds(&self, piece_block: PieceBlock) -> (r: bool)
        requires
            self.wf(),
        ensures
            r == self@.has(piece_block.index as int, piece_block.begin as int / 16384),
    {
        let block_index: usize = (piece_block.begin as u64 / BLOCK_LEN) as usize;
        let index: usize = piece_block.index as usize;
        index < self.requested.len() && block_index < self.requested[index].len()
    }

    /// Flag the block as asked of a peer.
    pub fn add_requested(&mut self, piece_block: PieceBlock)
        requires
            old(self).wf(),
            old(self)@.has(piece_block.index as int, piece_block.begin as int / 16384),
        ensures
            final(self)@ == old(self)@.mark_requested(
                piece_block.index as int,
                piece_block.begin as int / 16384,
            ),
            final(self).wf(),
    {
        let block_index: usize = (piece_block.begin as u64 / BLOCK_LEN) as usize;
        let index: usize = piece_block.index as usize;
        self.requested[index][block_index] = true;
        assert(cells_of(self.requested) =~= marked(
            cells_of(old(self).requested),
            index as int,
            block_index as int,
        ));
    }

    /// Flag the block as arrived.
    pub fn add_received(&mut self, piece_block: PieceBlock)
        requires
            old(self).wf(),
            old(self)@.has(piece_block.index as int, piece_block.begin as int / 16384),
        ensures
            final(self)@ == old(self)@.mark_received(
                piece_block.index as int,
                piece_block.begin as int / 16384,
            ),
            final(self).wf(),
    {
        let block_index: usize = (piece_block.begin as u64 / BLOCK_LEN) as usize;
        let index: usize = piece_block.index as usize;
        self.received[index][block_index] = true;
        assert(cells_of(self.received) =~= marked(
            cells_of(old(self).received),
            index as int,
            block_index as int,
        ));
    }

    /// Whether the block is to be asked of a peer. Where every block has been
    /// asked for, the ledger is refreshed first: only the blocks that arrived
    /// still count as asked for.
    pub fn needed(&mut self, piece_block: PieceBlock) -> (r: bool)
        requires
            old(self).wf(),
            old(self)@.has(piece_block.index as int, piece_block.begin as int / 16384),
        ensures
            final(self)@ == old(self)@.refreshed(),
            r == old(self)@.needs(piece_block.index as int, piece_block.begin as int / 16384),
            final(self).wf(),
    {
        let block_index: usize = (piece_block.begin as u64 / BLOCK_LEN) as usize;
        let index: usize = piece_block.index as usize;
        if all_set(&self.requested) {
            self.requested = self.received.clone();
            assert(cells_of(self.requested) =~= cells_of(self.received));
            assert forall|i: int| 0 <= i < self@.requested.len() implies (
            #[trigger] self@.requested[i]).len() <= 0x4_0000 by {
                assert(old(self)@.requested[i].len() == old(self)@.received[i].len());
            }
        }
        !self.requested[index][block_index]
    }

    /// Number of blocks that have arrived, and number of blocks in all.
    pub fn progress(&self) -> (r: (u64, u64))
        requires
            self.wf(),
        ensures
            r.0 == true_count(self@.received, self@.received.len()),
            r.1 == cell_count(self@.received, self@.received.len()),
            r.0 <= r.1,
    {
        proof {
            lemma_count_bound(self@.received, self@.received.len());
            assert forall|i: int| 0 <= i < self@.received.len() implies (
            #[trigger] self@.received[i]).len() <= 0x4_0000 by {
                assert(self@.requested[i].len() == self@.received[i].len());
            }
        }
        count_cells(&self.received)
    }

    /// Whether every block has arrived.
    pub fn is_done(&self) -> (r: bool)
        ensures
            r == self@.done(),
    {
        all_set(&self.received)
    }
}

} // verus!
