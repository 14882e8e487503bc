use crate::torrents::{
    block_size_in, blocks_for, files_total, lemma_files_total_monotonic, piece_size, tiles, DlFile,
};
use crate::errors::Error;
use crate::pieces::Pieces;
use vstd::prelude::*;

verus! {

/// A block on its way to the output files: where it starts in the payload,
/// and its bytes.
#[derive(Debug, Clone)]
pub struct PieceChannelPayload {
    pub offset: u64,
    pub block: Vec<u8>,
}

/// One write into one output file: `len` bytes of a block, from `start` on,
/// go to file number `file` at `position`.
#[derive(Debug, Copy, Clone, PartialEq, Eq, Structural)]
pub struct FileWrite {
    pub file: usize,
    pub position: u64,
    pub start: usize,
    pub len: usize,
}

/// Offset in the payload of the first byte of file `k`.
pub open spec fn file_start(files: Seq<DlFile>, k: int) -> nat {
    files_total(files.take(k))
}

/// Offset in the payload of the byte behind the last one of file `k`.
pub open spec fn file_end(files: Seq<DlFile>, k: int) -> nat {
    file_start(files, k) + files[k].length as nat
}

/// First payload offset that file `k` and a block of `len` bytes at `offset`
/// share, if they share any.
pub open spec fn share_lo(files: Seq<DlFile>, k: int, offset: nat) -> nat {
    if offset >= file_start(files, k) {
        offset
    } else {
        file_start(files, k)
    }
}

/// The payload offset behind the last one that file `k` and the block share.
pub open spec fn share_hi(files: Seq<DlFile>, k: int, offset: nat, len: nat) -> nat {
    if offset + len <= file_end(files, k) {
        offset + len
    } else {
        file_end(files, k)
    }
}

/// Whether some byte of the block belongs to file `k`.
pub open spec fn touches(files: Seq<DlFile>, k: int, offset: nat, len: nat) -> bool {
    share_lo(files, k, offset) < share_hi(files, k, offset, len)
}

/// Whether `w` is the write that brings to its file all that the block has
/// for it.
pub open spec fn write_covers(files: Seq<DlFile>, w: FileWrite, offset: nat, len: nat) -> bool {
    let k = w.file as int;
    &&& 0 <= k < files.len()
    &&& touches(files, k, offset, len)
    &&& w.position == share_lo(files, k, offset) - file_start(files, k)
    &&& w.start == share_lo(files, k, offset) - offset
    &&& w.len == share_hi(files, k, offset, len) - share_lo(files, k, offset)
}

/// Whether `plan` holds, in the order of the files, one write for each file
/// that the block touches, and no other.
pub open spec fn plan_covers(files: Seq<DlFile>, plan: Seq<FileWrite>, offset: nat, len: nat) -> bool {
    &&& forall|a: int| 0 <= a < plan.len() ==> write_covers(files, #[trigger] plan[a], offset, len)
    &&& forall|a: int, b: int| 0 <= a < b < plan.len() ==> (#[trigger] plan[a]).file < (
    #[trigger] plan[b]).file
    &&& forall|k: int|
        0 <= k < files.len() && #[trigger] touches(files, k, offset, len) ==> exists|a: int|
            0 <= a < plan.len() && (#[trigger] plan[a]).file == k
}

/// The start of a file is the end of the one before it.
pub proof fn lemma_file_start_step(files: Seq<DlFile>, k: int)
    requires
        0 <= k < files.len(),
    ensures
        file_start(files, k + 1) == file_end(files, k),
        file_start(files, 0) == 0,
        file_end(files, k) <= files_total(files),
{
    assert(files.take(k + 1).drop_last() =~= files.take(k));
    assert(files.take(0) =~= Seq::<DlFile>::empty());
    lemma_files_total_monotonic(files, k + 1);
}

/// Splits a block over the output files: for each file that holds some of
/// the block's bytes, in the order of the files, which bytes go where. Bytes
/// behind the end of the last file go nowhere.
pub fn block_writes(files: &Vec<DlFile>, offset: u64, len: usize) -> (plan: Vec<FileWrite>)
    requires
        files_total(files@) <= u64::MAX,
    ensures
        plan_covers(files@, plan@, offset as nat, len as nat),
{
    let mut plan: Vec<FileWrite> = Vec::new();
    let mut file_offset: u64 = 0;
    let mut write_pos: u64 = offset;
    let mut done: usize = 0;
    let mut k: usize = 0;
    let ghost fs = files@;
    let ghost o = offset as nat;
    let ghost l = len as nat;
    while k < files.len() && done < len
        invariant
            k <= files.len(),
            fs == files@,
            o == offset as nat,
            l == len as nat,
            files_total(fs) <= u64::MAX,
            file_offset == file_start(fs, k as int),
            done <= len,
            write_pos == offset + done,
            done < len ==> write_pos >= file_offset,
            done > 0 ==> write_pos <= file_offset,
            forall|a: int| 0 <= a < plan@.len() ==> write_covers(fs, #[trigger] plan@[a], o, l),
            forall|a: int| 0 <= a < plan@.len() ==> (#[trigger] plan@[a]).file < k,
            forall|a: int, b: int|
                0 <= a < b < plan@.len() ==> (#[trigger] plan@[a]).file < (#[trigger] plan@[b]).file,
            forall|j: int|
                0 <= j < k && #[trigger] touches(fs, j, o, l) ==> exists|a: int|
                    0 <= a < plan@.len() && (#[trigger] plan@[a]).file == j,
        decreases files.len() - k,
    {
        proof {
            lemma_file_start_step(fs, k as int);
        }
        let file_end_pos: u64 = files[k].length + file_offset;
        if write_pos < file_end_pos {
            let room: u64 = file_end_pos - write_pos;
            let left: usize = len - done;
            let write_len: usize = if room < left as u64 {
                room as usize
            } else {
                left
            };
            let w = FileWrite {
                file: k,
                position: write_pos - file_offset,
                start: done,
                len: write_len,
            };
            assert(write_covers(fs, w, o, l));
            let ghost before = plan@;
            plan.push(w);
            assert(forall|a: int| 0 <= a < before.len() ==> plan@[a] == before[a]);
            assert(plan@[before.len() as int] == w);
            done = done + write_len;
            write_pos = write_pos + write_len as u64;
        } else {
            assert(!touches(fs, k as int, o, l));
        }
        file_offset = file_end_pos;
        k += 1;
    }
    proof {
        assert forall|j: int| 0 <= j < fs.len() && #[trigger] touches(fs, j, o, l) implies exists|
            a: int,
        |
            0 <= a < plan@.len() && (#[trigger] plan@[a]).file == j by {
            if j >= k {
                lemma_start_monotonic(fs, k as int, j);
            }
        }
    }
    plan
}

/// A later file starts no earlier.
pub proof fn lemma_start_monotonic(files: Seq<DlFile>, a: int, b: int)
    requires
        0 <= a <= b <= files.len(),
    ensures
        file_start(files, a) <= file_start(files, b),
{
    lemma_files_total_monotonic(files.take(b), a);
    assert(files.take(b).take(a) =~= files.take(a));
}

/// The images as sequences of bytes, one for each file.
pub open spec fn rows_of(images: Vec<Vec<u8>>) -> Seq<Seq<u8>> {
    Seq::new(images@.len(), |k: int| images@[k]@)
}

/// Whether there is one image for each file, of the file's length.
pub open spec fn images_fit(files: Seq<DlFile>, images: Seq<Seq<u8>>) -> bool {
    &&& images.len() == files.len()
    &&& forall|k: int| 0 <= k < files.len() ==> (#[trigger] images[k]).len() == files[k].length
}

/// The byte at `p` of file `k` once a block is written at `offset`: the
/// block's byte where the block covers it, else the byte that was there.
pub open spec fn byte_after(
    files: Seq<DlFile>,
    images: Seq<Seq<u8>>,
    k: int,
    p: int,
    offset: nat,
    bytes: Seq<u8>,
) -> u8 {
    let at = file_start(files, k) + p;
    if offset <= at < offset + bytes.len() {
        bytes[at - offset]
    } else {
        images[k][p]
    }
}

/// The files once a block is written at `offset` of the payload.
pub open spec fn images_after(
    files: Seq<DlFile>,
    images: Seq<Seq<u8>>,
    offset: nat,
    bytes: Seq<u8>,
) -> Seq<Seq<u8>> {
    Seq::new(
        images.len(),
        |k: int|
            Seq::new(images[k].len(), |p: int| byte_after(files, images, k, p, offset, bytes)),
    )
}

/// A file that the block does not touch stays as it is.
proof fn lemma_untouched(
    files: Seq<DlFile>,
    images: Seq<Seq<u8>>,
    k: int,
    offset: nat,
    bytes: Seq<u8>,
)
    requires
        images_fit(files, images),
        0 <= k < files.len(),
        !touches(files, k, offset, bytes.len()),
    ensures
        images_after(files, images, offset, bytes)[k] == images[k],
{
    assert(images_after(files, images, offset, bytes)[k] =~= images[k]);
}

/// A file for which a covering plan holds no write is not touched.
proof fn lemma_skipped(files: Seq<DlFile>, plan: Seq<FileWrite>, a: int, k: int, offset: nat, len: nat)
    requires
        plan_covers(files, plan, offset, len),
        0 <= a <= plan.len(),
        0 <= k < files.len(),
        a > 0 ==> plan[a - 1].file < k,
        a < plan.len() ==> k < plan[a].file,
    ensures
        !touches(files, k, offset, len),
{
    if touches(files, k, offset, len) {
        let b = choose|b: int| 0 <= b < plan.len() && (#[trigger] plan[b]).file == k;
        if b < a - 1 {
            assert(plan[b].file < plan[a - 1].file);
        }
        if b > a {
            assert(plan[a].file < plan[b].file);
        }
    }
}

/// Writes a block into the images of the output files, one image for each
/// file and of the file's length: each byte of the block lands in the file
/// that holds its payload offset; bytes behind the last file are dropped.
pub fn write_block_to_file(
    files: &Vec<DlFile>,
    images: &mut Vec<Vec<u8>>,
    payload: &PieceChannelPayload,
)
    requires
        files_total(files@) <= u64::MAX,
        images_fit(files@, rows_of(*old(images))),
    ensures
        rows_of(*final(images)) == images_after(
            files@,
            rows_of(*old(images)),
            payload.offset as nat,
            payload.block@,
        ),
        images_fit(files@, rows_of(*final(images))),
{
    let plan = block_writes(files, payload.offset, payload.block.len());
    let ghost fs = files@;
    let ghost before = rows_of(*images);
    let ghost o = payload.offset as nat;
    let ghost bytes = payload.block@;
    let ghost goal = images_after(fs, before, o, bytes);
    let mut a: usize = 0;
    while a < plan.len()
        invariant
            a <= plan.len(),
            fs == files@,
            bytes == payload.block@,
            o == payload.offset as nat,
            goal == images_after(fs, before, o, bytes),
            images_fit(fs, before),
            plan_covers(fs, plan@, o, bytes.len()),
            images@.len() == fs.len(),
            forall|k: int|
                0 <= k < fs.len() ==> (#[trigger] images@[k])@ == if a > 0 && k <= plan@[a
                    - 1].file {
                    goal[k]
                } else {
                    before[k]
                },
        decreases plan.len() - a,
    {
        let w = plan[a];
        let ghost f = w.file as int;
        assert(write_covers(fs, w, o, bytes.len()));
        let ghost mid = rows_of(*images);
        assert(mid[f] == before[f]) by {
            if a > 0 {
                assert(plan@[a - 1].file < plan@[a as int].file);
            }
        }
        proof {
            lemma_file_start_step(fs, f);
            assert(before[f].len() == fs[f].length);
            assert(images@[f]@.len() == before[f].len());
            assert(images@[f].len() <= usize::MAX);
            assert(payload.block.len() <= usize::MAX);
            assert(w.position + w.len <= before[f].len());
            assert(w.start + w.len <= bytes.len());
        }
        let position: usize = w.position as usize;
        let mut t: usize = 0;
        while t < w.len
            invariant
                t <= w.len,
                0 <= f < fs.len(),
                f == w.file,
                position == w.position,
                position + w.len <= before[f].len() <= usize::MAX,
                payload.block@.len() <= usize::MAX,
                w.start + w.len <= payload.block@.len(),
                images@.len() == fs.len(),
                forall|k: int| 0 <= k < fs.len() && k != f ==> (#[trigger] images@[k])@ == mid[k],
                images@[f]@.len() == before[f].len(),
                forall|p: int|
                    0 <= p < before[f].len() ==> (#[trigger] images@[f]@[p]) == if position <= p
                        < position + t {
                        payload.block@[w.start + p - position]
                    } else {
                        before[f][p]
                    },
            decreases w.len - t,
        {
            let byte: u8 = payload.block[w.start + t];
            images[w.file][position + t] = byte;
            t += 1;
        }
        proof {
            assert(images@[f]@ =~= goal[f]);
            assert forall|k: int| 0 <= k < fs.len() implies (#[trigger] images@[k])@ == if k
                <= plan@[a as int].file {
                goal[k]
            } else {
                before[k]
            } by {
                if k < f && !(a > 0 && k <= plan@[a - 1].file) {
                    lemma_skipped(fs, plan@, a as int, k, o, bytes.len());
                    lemma_untouched(fs, before, k, o, bytes);
                }
            }
        }
        a += 1;
    }
    proof {
        assert forall|k: int| 0 <= k < fs.len() implies (#[trigger] images@[k])@ == goal[k] by {
            if !(a > 0 && k <= plan@[a - 1].file) {
                lemma_skipped(fs, plan@, a as int, k, o, bytes.len());
                lemma_untouched(fs, before, k, o, bytes);
            }
        }
        assert(rows_of(*images) =~= goal);
    }
}

/// Writing the same block twice leaves the files as writing it once does.
pub proof fn lemma_write_idempotent(
    files: Seq<DlFile>,
    images: Seq<Seq<u8>>,
    offset: nat,
    bytes: Seq<u8>,
)
    ensures
        images_after(files, images_after(files, images, offset, bytes), offset, bytes)
            == images_after(files, images, offset, bytes),
{
    let once = images_after(files, images, offset, bytes);
    let twice = images_after(files, once, offset, bytes);
    assert forall|k: int| 0 <= k < once.len() implies #[trigger] twice[k] =~= once[k] by {}
    assert(twice =~= once);
}

/// Every byte of a block that lies within a file is in that file after the
/// write, at the place of its payload offset, and every other byte of the
/// files is as it was.
pub proof fn lemma_write_lands(
    files: Seq<DlFile>,
    images: Seq<Seq<u8>>,
    offset: nat,
    bytes: Seq<u8>,
    k: int,
    p: int,
)
    requires
        0 <= k < images.len(),
        0 <= p < images[k].len(),
    ensures
        ({
            let at = file_start(files, k) + p;
            let after = images_after(files, images, offset, bytes);
            &&& after.len() == images.len()
            &&& after[k].len() == images[k].len()
            &&& offset <= at < offset + bytes.len() ==> after[k][p] == bytes[at - offset]
            &&& !(offset <= at < offset + bytes.len()) ==> after[k][p] == images[k][p]
        }),
{
}

/// The files one behind the other, in their order.
pub open spec fn joined(images: Seq<Seq<u8>>) -> Seq<u8>
    decreases images.len(),
{
    if images.len() == 0 {
        Seq::empty()
    } else {
        joined(images.drop_last()) + images.last()
    }
}

/// Offset in the payload of block `j` of piece `i`.
pub open spec fn block_offset(piece_length: nat, i: nat, j: nat) -> nat {
    i * piece_length + j * 16384
}

/// Whether `(i, j)` names a block of a payload of `total` bytes.
pub open spec fn is_block(total: nat, piece_length: nat, count: nat, b: (nat, nat)) -> bool {
    b.0 < count && b.1 < blocks_for(piece_size(total, piece_length, count, b.0))
}

/// The files after the blocks that `order` names were written, one after the
/// other, each with the bytes that `content` has at the block's place.
pub open spec fn written(
    files: Seq<DlFile>,
    images: Seq<Seq<u8>>,
    content: Seq<u8>,
    piece_length: nat,
    count: nat,
    order: Seq<(nat, nat)>,
) -> Seq<Seq<u8>>
    decreases order.len(),
{
    if order.len() == 0 {
        images
    } else {
        let b = order.last();
        let at = block_offset(piece_length, b.0, b.1);
        let len = block_size_in(piece_size(content.len(), piece_length, count, b.0), b.1);
        images_after(
            files,
            written(files, images, content, piece_length, count, order.drop_last()),
            at,
            content.subrange(at as int, at + len),
        )
    }
}

/// A block lies within the payload.
proof fn lemma_block_within(total: nat, piece_length: nat, count: nat, i: nat, j: nat)
    requires
        tiles(total, piece_length, count),
        is_block(total, piece_length, count, (i, j)),
    ensures
        block_size_in(piece_size(total, piece_length, count, i), j) > 0,
        block_offset(piece_length, i, j) + block_size_in(
            piece_size(total, piece_length, count, i),
            j,
        ) <= total,
{
    let p = piece_length as int;
    let c = count as int;
    let a = i as int;
    assert(a * p <= (c - 1) * p && (c - 1) * p + p == c * p) by (nonlinear_arith)
        requires
            0 <= a <= c - 1,
            p > 0,
    ;
    if a < c - 1 {
        assert(a * p + p <= (c - 1) * p) by (nonlinear_arith)
            requires
                0 <= a < c - 1,
                p > 0,
        ;
    }
    assert(block_offset(piece_length, i, j) == a * p + j * 16384);
}

/// Every byte of the payload lies in one of its blocks.
proof fn lemma_byte_in_block(total: nat, piece_length: nat, count: nat, x: nat) -> (b: (nat, nat))
    requires
        tiles(total, piece_length, count),
        x < total,
    ensures
        is_block(total, piece_length, count, b),
        block_offset(piece_length, b.0, b.1) <= x < block_offset(piece_length, b.0, b.1)
            + block_size_in(piece_size(total, piece_length, count, b.0), b.1),
{
    let p = piece_length as int;
    let c = count as int;
    let xi = x as int;
    let i = xi / p;
    assert(0 <= i && i * p <= xi < i * p + p) by (nonlinear_arith)
        requires
            i == xi / p,
            p > 0,
            xi >= 0,
    ;
    assert(i < c) by (nonlinear_arith)
        requires
            i * p <= xi,
            xi < c * p,
            p > 0,
    ;
    assert((c - 1) * p + p == c * p) by (nonlinear_arith);
    if i < c - 1 {
    } else {
        assert(i == c - 1);
    }
    let j = (xi - i * p) / 16384;
    (i as nat, j as nat)
}

/// A file is, byte for byte, the part of the joined files from its start on.
proof fn lemma_joined_prefix(files: Seq<DlFile>, images: Seq<Seq<u8>>, content: Seq<u8>, m: int)
    requires
        images_fit(files, images),
        content.len() == files_total(files),
        0 <= m <= files.len(),
        forall|k: int, p: int|
            0 <= k < images.len() && 0 <= p < images[k].len() ==> #[trigger] images[k][p]
                == content[file_start(files, k) + p],
    ensures
        joined(images.take(m)) == content.subrange(0, file_start(files, m) as int),
        file_start(files, m) <= content.len(),
    decreases m,
{
    lemma_files_total_monotonic(files, m);
    if m == 0 {
        assert(files.take(0) =~= Seq::<DlFile>::empty());
        assert(joined(images.take(0)) =~= content.subrange(0, 0));
    } else {
        lemma_joined_prefix(files, images, content, m - 1);
        lemma_file_start_step(files, m - 1);
        assert(images.take(m).drop_last() =~= images.take(m - 1));
        assert(images.take(m).last() == images[m - 1]);
        let s = file_start(files, m - 1) as int;
        let e = file_start(files, m) as int;
        assert(images[m - 1] =~= content.subrange(s, e));
        assert(content.subrange(0, s) + content.subrange(s, e) =~= content.subrange(0, e));
    }
}

/// What was written so far is as long as the files, and holds the content's
/// byte wherever one of the blocks written lies.
proof fn lemma_written_holds(
    files: Seq<DlFile>,
    images: Seq<Seq<u8>>,
    content: Seq<u8>,
    piece_length: nat,
    count: nat,
    order: Seq<(nat, nat)>,
)
    requires
        images_fit(files, images),
        content.len() == files_total(files),
        tiles(content.len(), piece_length, count),
        forall|n: int| 0 <= n < order.len() ==> is_block(content.len(), piece_length, count, #[trigger] order[n]),
    ensures
        images_fit(files, written(files, images, content, piece_length, count, order)),
        forall|n: int, k: int, p: int|
            #![trigger order[n], written(files, images, content, piece_length, count, order)[k][p]]
            0 <= n < order.len() && 0 <= k < files.len() && 0 <= p < files[k].length && ({
                let at = block_offset(piece_length, order[n].0, order[n].1);
                let len = block_size_in(
                    piece_size(content.len(), piece_length, count, order[n].0),
                    order[n].1,
                );
                at <= file_start(files, k) + p < at + len
            }) ==> written(files, images, content, piece_length, count, order)[k][p]
                == content[file_start(files, k) + p],
    decreases order.len(),
{
    if order.len() > 0 {
        let rest = order.drop_last();
        lemma_written_holds(files, images, content, piece_length, count, rest);
        let prev = written(files, images, content, piece_length, count, rest);
        let now = written(files, images, content, piece_length, count, order);
        let b = order.last();
        lemma_block_within(content.len(), piece_length, count, b.0, b.1);
        let at = block_offset(piece_length, b.0, b.1);
        let len = block_size_in(piece_size(content.len(), piece_length, count, b.0), b.1);
        let bytes = content.subrange(at as int, at + len);
        assert(now == images_after(files, prev, at, bytes));
        assert forall|k: int| 0 <= k < files.len() implies (#[trigger] now[k]).len()
            == files[k].length by {
            assert(prev[k].len() == files[k].length);
        }
        assert forall|n: int, k: int, p: int|
            #![trigger order[n], now[k][p]]
            0 <= n < order.len() && 0 <= k < files.len() && 0 <= p < files[k].length && ({
                let at = block_offset(piece_length, order[n].0, order[n].1);
                let len = block_size_in(
                    piece_size(content.len(), piece_length, count, order[n].0),
                    order[n].1,
                );
                at <= file_start(files, k) + p < at + len
            }) implies now[k][p] == content[file_start(files, k) + p] by {
            let x = file_start(files, k) + p;
            assert(prev[k].len() == files[k].length);
            assert(now[k][p] == byte_after(files, prev, k, p, at, bytes));
            if at <= x < at + len {
                assert(bytes[x - at] == content[x]);
            } else {
                assert(n < rest.len());
                assert(rest[n] == order[n]);
                assert(prev[k][p] == content[x]);
            }
        }
    }
}

/// Writer completeness: once every block of the payload was written, each
/// with the content's bytes and in whatever order, the output files one
/// behind the other are the content.
pub proof fn lemma_all_blocks_rebuild(
    files: Seq<DlFile>,
    images: Seq<Seq<u8>>,
    content: Seq<u8>,
    piece_length: nat,
    count: nat,
    order: Seq<(nat, nat)>,
)
    requires
        images_fit(files, images),
        content.len() == files_total(files),
        tiles(content.len(), piece_length, count),
        forall|n: int| 0 <= n < order.len() ==> is_block(content.len(), piece_length, count, #[trigger] order[n]),
        forall|b: (nat, nat)| is_block(content.len(), piece_length, count, b) ==> order.contains(b),
    ensures
        joined(written(files, images, content, piece_length, count, order)) == content,
{
    let fin = written(files, images, content, piece_length, count, order);
    lemma_written_holds(files, images, content, piece_length, count, order);
    assert forall|k: int, p: int| 0 <= k < fin.len() && 0 <= p < fin[k].len() implies #[trigger] fin[k][p]
        == content[file_start(files, k) + p] by {
        let x = file_start(files, k) + p;
        lemma_file_start_step(files, k);
        let b = lemma_byte_in_block(content.len(), piece_length, count, x as nat);
        assert(order.contains(b));
        let n = choose|n: int| 0 <= n < order.len() && order[n] == b;
        assert(order[n] == b);
    }
    lemma_joined_prefix(files, fin, content, files.len() as int);
    assert(fin.take(files.len() as int) =~= fin);
    assert(files.take(files.len() as int) =~= files);
    assert(content.subrange(0, content.len() as int) =~= content);
}

/// How the download ended once no session is left: badly where an output
/// file could not be written, else well where every block has arrived.
pub fn download_outcome(pieces: &Pieces, write_failed: bool) -> (r: Result<(), Error>)
    ensures
        write_failed ==> r == Err::<(), Error>(Error::WriteFailed),
        !write_failed && pieces@.done() ==> r == Ok::<(), Error>(()),
        !write_failed && !pieces@.done() ==> r == Err::<(), Error>(Error::DownloadIncomplete),
{
    if write_failed {
        Err(Error::WriteFailed)
    } else if pieces.is_done() {
        Ok(())
    } else {
        Err(Error::DownloadIncomplete)
    }
}

} // verus!
