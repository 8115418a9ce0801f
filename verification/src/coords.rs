//! Coordinates: cells, chunks, and the integer key under which a chunk is stored.

use vstd::prelude::*;

verus! {

/// Side length of a chunk, in cells.
pub const CHUNK_WIDTH: usize = 32;

/// Number of cells in a chunk.
pub const CHUNK_CELLS: usize = 1024;

/// The space character, which every cell holds until it is written.
pub const BLANK: u8 = 32;

/// Largest chunk coordinate that any cell falls into.
pub const MAX_CHUNK: usize = usize::MAX / 32;

/// The chunk that the cell `(x, y)` lies in.
pub open spec fn chunk_of(x: usize, y: usize) -> (usize, usize) {
    ((x / CHUNK_WIDTH) as usize, (y / CHUNK_WIDTH) as usize)
}

/// Where the cell `(x, y)` stands in the cell array of its chunk: row by row.
pub open spec fn cell_index(x: usize, y: usize) -> int {
    (y % CHUNK_WIDTH) * CHUNK_WIDTH + (x % CHUNK_WIDTH)
}

/// The absolute coordinate of offset `rel` in chunk row or column `chunk`.
pub open spec fn absolute(chunk: usize, rel: usize) -> usize {
    (chunk * CHUNK_WIDTH + rel) as usize
}

/// The cells of a chunk that was never written: all blank.
pub open spec fn blank_cells() -> Seq<u8> {
    Seq::new(CHUNK_CELLS as nat, |i: int| BLANK)
}

/// A chunk coordinate as one integer: the column in the high 64 bits, the row
/// in the low 64 bits.
pub open spec fn chunk_key(c: (usize, usize)) -> u128 {
    (c.0 * 0x1_0000_0000_0000_0000 + c.1) as u128
}

/// The chunk coordinate that a key stands for.
pub open spec fn key_chunk(k: u128) -> (usize, usize) {
    ((k / 0x1_0000_0000_0000_0000) as usize, (k % 0x1_0000_0000_0000_0000) as usize)
}

/// Whether `k` is the key of some chunk coordinate.
pub open spec fn is_chunk_key(k: u128) -> bool {
    k / 0x1_0000_0000_0000_0000 <= usize::MAX && k % 0x1_0000_0000_0000_0000 <= usize::MAX
}

/// Unpacking a packed coordinate gives it back.
pub proof fn lemma_key_of_chunk(c: (usize, usize))
    ensures
        key_chunk(chunk_key(c)) == c,
        is_chunk_key(chunk_key(c)),
{
    let k = c.0 * 0x1_0000_0000_0000_0000 + c.1;
    assert(0 <= c.1 < 0x1_0000_0000_0000_0000);
    assert(k / 0x1_0000_0000_0000_0000 == c.0 && k % 0x1_0000_0000_0000_0000 == c.1) by {
        vstd::arithmetic::div_mod::lemma_fundamental_div_mod_converse(
            k,
            0x1_0000_0000_0000_0000,
            c.0 as int,
            c.1 as int,
        );
    }
}

/// Packing the coordinate of a chunk key gives the key back.
pub proof fn lemma_chunk_of_key(k: u128)
    requires
        is_chunk_key(k),
    ensures
        chunk_key(key_chunk(k)) == k,
{
    vstd::arithmetic::div_mod::lemma_fundamental_div_mod(k as int, 0x1_0000_0000_0000_0000);
}

/// Two coordinates with one key are the same coordinate.
pub proof fn lemma_key_injective(a: (usize, usize), b: (usize, usize))
    ensures
        chunk_key(a) == chunk_key(b) <==> a == b,
{
    lemma_key_of_chunk(a);
    lemma_key_of_chunk(b);
}

/// A cell's coordinate is its chunk's origin plus its offset in the chunk.
pub proof fn lemma_split_coordinate(x: usize)
    ensures
        x / CHUNK_WIDTH <= MAX_CHUNK,
        x % CHUNK_WIDTH < CHUNK_WIDTH,
        absolute((x / CHUNK_WIDTH) as usize, (x % CHUNK_WIDTH) as usize) == x,
{
}

/// An offset inside a chunk of the grid names a cell of that chunk.
pub proof fn lemma_join_coordinate(chunk: usize, rel: usize)
    requires
        chunk <= MAX_CHUNK,
        rel < CHUNK_WIDTH,
    ensures
        chunk * CHUNK_WIDTH + rel <= usize::MAX,
        absolute(chunk, rel) / CHUNK_WIDTH == chunk,
        absolute(chunk, rel) % CHUNK_WIDTH == rel,
{
}

/// Two cells of one chunk with one index are the same cell.
pub proof fn lemma_cell_index_injective(x1: usize, y1: usize, x2: usize, y2: usize)
    requires
        chunk_of(x1, y1) == chunk_of(x2, y2),
        cell_index(x1, y1) == cell_index(x2, y2),
    ensures
        x1 == x2,
        y1 == y2,
{
}

/// The key of chunk `(cx, cy)`.
pub fn pack(cx: usize, cy: usize) -> (k: u128)
    ensures
        k == chunk_key((cx, cy)),
        is_chunk_key(k),
        key_chunk(k) == (cx, cy),
{
    proof {
        lemma_key_of_chunk((cx, cy));
    }
    (cx as u128) * 0x1_0000_0000_0000_0000u128 + (cy as u128)
}

/// The chunk coordinate that the key `k` stands for.
pub fn unpack(k: u128) -> (c: (usize, usize))
    requires
        is_chunk_key(k),
    ensures
        c == key_chunk(k),
        chunk_key(c) == k,
{
    proof {
        lemma_chunk_of_key(k);
    }
    ((k / 0x1_0000_0000_0000_0000u128) as usize, (k % 0x1_0000_0000_0000_0000u128) as usize)
}

} // verus!
