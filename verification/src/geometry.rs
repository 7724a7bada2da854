//! How a torrent's content is cut into pieces and blocks.

use vstd::prelude::*;
use vstd::arithmetic::div_mod::{lemma_fundamental_div_mod, lemma_fundamental_div_mod_converse};
use crate::utils::BLOCK_SIZE;

verus! {

/// Number of chunks of `size` bytes that cover `len` bytes.
pub open spec fn chunk_count(len: int, size: int) -> int {
    (len + size - 1) / size
}

/// Length of chunk `i` when `len` bytes are cut into chunks of `size` bytes:
/// the last chunk holds what is left, every other chunk `size` bytes.
pub open spec fn chunk_len(len: int, size: int, i: int) -> int {
    if i == chunk_count(len, size) - 1 && len % size != 0 {
        len % size
    } else {
        size
    }
}

/// Number of pieces of a content of `total` bytes.
pub open spec fn piece_count(total: int, piece_size: int) -> int {
    chunk_count(total, piece_size)
}

/// Length of piece `piece`.
pub open spec fn piece_len(total: int, piece_size: int, piece: int) -> int {
    chunk_len(total, piece_size, piece)
}

/// Number of blocks of piece `piece`.
pub open spec fn block_count(total: int, piece_size: int, piece: int) -> int {
    chunk_count(piece_len(total, piece_size, piece), BLOCK_SIZE as int)
}

/// Length of block `block` of piece `piece`.
pub open spec fn block_len(total: int, piece_size: int, piece: int, block: int) -> int {
    chunk_len(piece_len(total, piece_size, piece), BLOCK_SIZE as int, block)
}

/// Offset of block `block` of piece `piece` in the content.
pub open spec fn block_start(piece_size: int, piece: int, block: int) -> int {
    piece * piece_size + block * BLOCK_SIZE
}

/// Sum of the lengths of the chunks `0 .. n`.
pub open spec fn chunks_total(len: int, size: int, n: int) -> int
    decreases n,
{
    if n <= 0 {
        0
    } else {
        chunks_total(len, size, n - 1) + chunk_len(len, size, n - 1)
    }
}

/// Sum of the lengths of the blocks of piece `piece`.
pub open spec fn piece_blocks_total(total: int, piece_size: int, piece: int) -> int {
    chunks_total(
        piece_len(total, piece_size, piece),
        BLOCK_SIZE as int,
        block_count(total, piece_size, piece),
    )
}

/// Sum of the lengths of all blocks of the pieces `0 .. n`.
pub open spec fn blocks_total(total: int, piece_size: int, n: int) -> int
    decreases n,
{
    if n <= 0 {
        0
    } else {
        blocks_total(total, piece_size, n - 1) + piece_blocks_total(total, piece_size, n - 1)
    }
}

/// Facts about cutting `len` bytes into chunks of `size` bytes.
pub proof fn lemma_chunks(len: int, size: int)
    requires
        0 <= len,
        0 < size,
    ensures
        0 <= chunk_count(len, size),
        len == 0 <==> chunk_count(len, size) == 0,
        (chunk_count(len, size) - 1) * size < len || len == 0,
        len <= chunk_count(len, size) * size,
        len > 0 ==> (chunk_count(len, size) - 1) * size + chunk_len(
            len,
            size,
            chunk_count(len, size) - 1,
        ) == len,
        forall|i: int| 0 <= i < chunk_count(len, size) ==> 0 < #[trigger] chunk_len(len, size, i) <= size,
{
    let n = chunk_count(len, size);
    let q = len / size;
    let r = len % size;
    lemma_fundamental_div_mod(len, size);
    assert(size * q == q * size) by (nonlinear_arith);
    assert(len == q * size + r);
    assert(0 <= q) by (nonlinear_arith)
        requires
            len == q * size + r,
            0 <= len,
            0 <= r < size,
    ;
    if r == 0 {
        lemma_fundamental_div_mod_converse(len + size - 1, size, q, size - 1);
        assert(n == q);
        assert((q - 1) * size == q * size - size) by (nonlinear_arith);
        if len > 0 {
            assert(q != 0) by (nonlinear_arith)
                requires
                    len == q * size,
                    len > 0,
            ;
        }
    } else {
        assert((q + 1) * size == q * size + size) by (nonlinear_arith);
        lemma_fundamental_div_mod_converse(len + size - 1, size, q + 1, r - 1);
        assert(n == q + 1);
    }
    assert(q * size >= 0) by (nonlinear_arith)
        requires
            0 <= q,
            0 < size,
    ;
}

/// The chunks `0 .. n` before the last one hold `n * size` bytes, and all
/// chunks together hold `len` bytes.
pub proof fn lemma_chunks_total(len: int, size: int, n: int)
    requires
        0 <= len,
        0 < size,
        0 <= n <= chunk_count(len, size),
    ensures
        n < chunk_count(len, size) ==> chunks_total(len, size, n) == n * size,
        n == chunk_count(len, size) ==> chunks_total(len, size, n) == len,
    decreases n,
{
    lemma_chunks(len, size);
    if n > 0 {
        lemma_chunks_total(len, size, n - 1);
        assert((n - 1) * size + size == n * size) by (nonlinear_arith);
        assert(chunks_total(len, size, n - 1) == (n - 1) * size);
        if n < chunk_count(len, size) {
            assert(chunk_len(len, size, n - 1) == size);
        }
    } else {
        assert(n * size == 0) by (nonlinear_arith)
            requires
                n == 0,
        ;
    }
}

/// The lengths of all blocks of all pieces add up to the length of the
/// content.
pub proof fn lemma_blocks_cover_content(total: int, piece_size: int)
    requires
        0 <= total,
        0 < piece_size,
    ensures
        blocks_total(total, piece_size, piece_count(total, piece_size)) == total,
{
    lemma_blocks_total(total, piece_size, piece_count(total, piece_size));
    lemma_chunks_total(total, piece_size, piece_count(total, piece_size));
}

proof fn lemma_blocks_total(total: int, piece_size: int, n: int)
    requires
        0 <= total,
        0 < piece_size,
        0 <= n <= piece_count(total, piece_size),
    ensures
        blocks_total(total, piece_size, n) == chunks_total(total, piece_size, n),
    decreases n,
{
    if n > 0 {
        lemma_blocks_total(total, piece_size, n - 1);
        lemma_chunks(total, piece_size);
        let len = piece_len(total, piece_size, n - 1);
        lemma_chunks_total(len, BLOCK_SIZE as int, chunk_count(len, BLOCK_SIZE as int));
    }
}


/// Chunk `i` of `len` bytes cut by `size` lies inside the `len` bytes.
pub proof fn lemma_chunk_range(len: int, size: int, i: int)
    requires
        0 <= len,
        0 < size,
        0 <= i < chunk_count(len, size),
    ensures
        0 <= i * size,
        0 < chunk_len(len, size, i) <= size,
        i * size + chunk_len(len, size, i) <= len,
        i * size + chunk_len(len, size, i) <= (i + 1) * size,
{
    lemma_chunks(len, size);
    let n = chunk_count(len, size);
    assert((i + 1) * size == i * size + size) by (nonlinear_arith);
    assert(0 <= i * size) by (nonlinear_arith)
        requires
            0 <= i,
            0 < size,
    ;
    if i < n - 1 {
        assert((i + 1) * size <= (n - 1) * size) by (nonlinear_arith)
            requires
                i + 1 <= n - 1,
                0 < size,
        ;
    }
}

/// A block lies inside its piece, and its piece inside the content.
pub proof fn lemma_block_range(total: int, piece_size: int, piece: int, block: int)
    requires
        0 <= total,
        0 < piece_size,
        0 <= piece < piece_count(total, piece_size),
        0 <= block < block_count(total, piece_size, piece),
    ensures
        0 < block_len(total, piece_size, piece, block) <= BLOCK_SIZE,
        piece * piece_size <= block_start(piece_size, piece, block),
        block_start(piece_size, piece, block) + block_len(total, piece_size, piece, block)
            <= piece * piece_size + piece_len(total, piece_size, piece),
        piece * piece_size + piece_len(total, piece_size, piece) <= total,
        piece * piece_size + piece_len(total, piece_size, piece) <= (piece + 1) * piece_size,
        block_start(piece_size, piece, block) + block_len(total, piece_size, piece, block) <= piece
            * piece_size + (block + 1) * BLOCK_SIZE,
{
    lemma_chunk_range(total, piece_size, piece);
    lemma_chunk_range(piece_len(total, piece_size, piece), BLOCK_SIZE as int, block);
}

/// Two different blocks cover disjoint ranges of the content.
pub proof fn lemma_blocks_disjoint(
    total: int,
    piece_size: int,
    piece: int,
    block: int,
    piece2: int,
    block2: int,
)
    requires
        0 <= total,
        0 < piece_size,
        0 <= piece < piece_count(total, piece_size),
        0 <= block < block_count(total, piece_size, piece),
        0 <= piece2 < piece_count(total, piece_size),
        0 <= block2 < block_count(total, piece_size, piece2),
        piece != piece2 || block != block2,
    ensures
        block_start(piece_size, piece, block) + block_len(total, piece_size, piece, block)
            <= block_start(piece_size, piece2, block2) || block_start(piece_size, piece2, block2)
            + block_len(total, piece_size, piece2, block2) <= block_start(
            piece_size,
            piece,
            block,
        ),
{
    lemma_block_range(total, piece_size, piece, block);
    lemma_block_range(total, piece_size, piece2, block2);
    if piece < piece2 {
        assert((piece + 1) * piece_size <= piece2 * piece_size) by (nonlinear_arith)
            requires
                piece + 1 <= piece2,
                0 < piece_size,
        ;
    } else if piece2 < piece {
        assert((piece2 + 1) * piece_size <= piece * piece_size) by (nonlinear_arith)
            requires
                piece2 + 1 <= piece,
                0 < piece_size,
        ;
    }
}


/// The number of chunks is the quotient, and one more when there is a rest.
pub proof fn lemma_chunk_count_by_rest(len: int, size: int)
    requires
        0 <= len,
        0 < size,
    ensures
        chunk_count(len, size) == len / size + (if len % size == 0 {
            0int
        } else {
            1int
        }),
        0 <= len / size <= len,
        len % size != 0 ==> len / size < len,
{
    let q = len / size;
    let r = len % size;
    lemma_fundamental_div_mod(len, size);
    assert(size * q == q * size) by (nonlinear_arith);
    assert(0 <= q <= len && (r != 0 ==> q < len)) by (nonlinear_arith)
        requires
            len == q * size + r,
            0 <= len,
            0 <= r < size,
    ;
    if r == 0 {
        lemma_fundamental_div_mod_converse(len + size - 1, size, q, size - 1);
    } else {
        assert((q + 1) * size == q * size + size) by (nonlinear_arith);
        lemma_fundamental_div_mod_converse(len + size - 1, size, q + 1, r - 1);
    }
}

/// Sum of the numbers of blocks of the pieces `0 .. n`.
pub open spec fn block_slots(total: int, piece_size: int, n: int) -> int
    decreases n,
{
    if n <= 0 {
        0
    } else {
        block_slots(total, piece_size, n - 1) + block_count(total, piece_size, n - 1)
    }
}

/// There are no more blocks than bytes.
pub proof fn lemma_block_slots_bound(total: int, piece_size: int, n: int)
    requires
        0 <= total,
        0 < piece_size,
        0 <= n <= piece_count(total, piece_size),
    ensures
        0 <= block_slots(total, piece_size, n) <= chunks_total(total, piece_size, n) <= total,
    decreases n,
{
    lemma_chunks(total, piece_size);
    lemma_chunks_total(total, piece_size, n);
    if n > 0 {
        lemma_block_slots_bound(total, piece_size, n - 1);
        lemma_chunks_total(total, piece_size, n - 1);
        let len = piece_len(total, piece_size, n - 1);
        lemma_chunk_count_by_rest(len, BLOCK_SIZE as int);
        lemma_chunks(len, BLOCK_SIZE as int);
    } else {
        assert(n * piece_size == 0) by (nonlinear_arith)
            requires
                n == 0,
        ;
    }
    if n < piece_count(total, piece_size) {
        assert(n * piece_size <= (piece_count(total, piece_size) - 1) * piece_size)
            by (nonlinear_arith)
            requires
                n <= piece_count(total, piece_size) - 1,
                0 < piece_size,
        ;
    }
}

} // verus!
