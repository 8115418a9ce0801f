//! Chunks: square tiles of cells, each with the cursors that stand in it.

use vstd::prelude::*;
use std::collections::hash_map::Entry;
use std::collections::HashMap;
use vstd::std_specs::iter::IteratorSpec;
use crate::coords::{blank_cells, BLANK, CHUNK_CELLS, CHUNK_WIDTH};
use crate::cursor::{Cursor, CursorView};

verus! {

/// A tile of `CHUNK_WIDTH` by `CHUNK_WIDTH` cells, stored row by row, and the
/// cursors that stand in it, by identity.
pub struct Chunk {
    cells: [u8; CHUNK_CELLS],
    cursors: HashMap<usize, Cursor>,
}

/// What a chunk holds. The positions of its cursors are offsets in the chunk.
pub struct ChunkView {
    pub cells: Seq<u8>,
    pub cursors: Map<usize, CursorView>,
}

impl View for Chunk {
    type V = ChunkView;

    closed spec fn view(&self) -> ChunkView {
        ChunkView {
            cells: self.cells@,
            cursors: Map::new(
                |id: usize| self.cursors@.contains_key(id),
                |id: usize| self.cursors@[id]@,
            ),
        }
    }
}

impl Chunk {
    /// A chunk of blank cells without cursors.
    pub fn new() -> (chunk: Chunk)
        ensures
            chunk@.cells == blank_cells(),
            chunk@.cursors == Map::<usize, CursorView>::empty(),
    {
        let chunk = Chunk { cells: [BLANK; CHUNK_CELLS], cursors: HashMap::new() };
        chunk
    }

    /// The cell at offset `(x, y)`.
    pub fn get(&self, x: usize, y: usize) -> (c: u8)
        requires
            x < CHUNK_WIDTH,
            y < CHUNK_WIDTH,
        ensures
            c == self@.cells[y * CHUNK_WIDTH + x],
    {
        self.cells[y * CHUNK_WIDTH + x]
    }

    /// Writes `c` to the cell at offset `(x, y)`.
    pub fn set(&mut self, x: usize, y: usize, c: u8)
        requires
            x < CHUNK_WIDTH,
            y < CHUNK_WIDTH,
        ensures
            final(self)@.cells == old(self)@.cells.update(y * CHUNK_WIDTH + x, c),
            final(self)@.cursors == old(self)@.cursors,
    {
        self.cells[y * CHUNK_WIDTH + x] = c;
    }

    /// The cells, row by row.
    pub fn cells(&self) -> (cells: &[u8; CHUNK_CELLS])
        ensures
            cells@ == self@.cells,
    {
        &self.cells
    }

    /// The cursors that stand in the chunk, by identity.
    pub fn cursors(&self) -> (cursors: &HashMap<usize, Cursor>)
        ensures
            cursors@.dom() == self@.cursors.dom(),
            forall|id: usize| cursors@.contains_key(id) ==> cursors@[id]@ == self@.cursors[id],
    {
        &self.cursors
    }

    /// The cursor `id`, if it stands in the chunk.
    pub fn cursor(&self, id: usize) -> (cursor: Option<&Cursor>)
        ensures
            match cursor {
                Some(c) => self@.cursors.contains_key(id) && c@ == self@.cursors[id],
                None => !self@.cursors.contains_key(id),
            },
    {
        self.cursors.get(&id)
    }

    /// The cursors that stand in the chunk, each once with its identity, in
    /// the order in which the chunk yields them, which is not specified.
    pub fn cursor_list(&self) -> (list: Vec<(usize, Cursor)>)
        ensures
            list@.len() == self@.cursors.dom().len(),
            forall|i: int, j: int| 0 <= i < j < list@.len() ==> list@[i].0 != list@[j].0,
            forall|i: int|
                0 <= i < list@.len() ==> self@.cursors.contains_key((#[trigger] list@[i]).0)
                    && list@[i].1@ == self@.cursors[list@[i].0],
            forall|id: usize|
                self@.cursors.contains_key(id) ==> exists|i: int|
                    0 <= i < list@.len() && (#[trigger] list@[i]).0 == id,
    {
        let mut list: Vec<(usize, Cursor)> = Vec::new();
        let ghost keys = self.cursors.keys().remaining();
        for id in it: self.cursors.keys()
            invariant
                it.seq() == keys,
                keys.unref().to_set() == self.cursors@.dom(),
                keys.len() == self.cursors@.dom().len(),
                list@.len() == it.index(),
                forall|i: int| 0 <= i < list@.len() ==> (#[trigger] list@[i]).0 == keys[i],
                forall|i: int|
                    0 <= i < list@.len() ==> self@.cursors.contains_key((#[trigger] list@[i]).0)
                        && list@[i].1@ == self@.cursors[list@[i].0],
        {
            proof {
                assert(keys.unref()[it.index()] == *id);
                assert(keys.unref().to_set().contains(*id));
            }
            match self.cursors.get(id) {
                Some(cursor) => {
                    list.push((*id, cursor.clone()));
                },
                None => {},
            }
        }
        proof {
            assert(self@.cursors.dom() =~= self.cursors@.dom());
            assert forall|i: int, j: int| 0 <= i < j < list@.len() implies list@[i].0
                != list@[j].0 by {
                assert(keys[i] != keys[j]);
            }
            assert forall|id: usize| self@.cursors.contains_key(id) implies exists|i: int|
                0 <= i < list@.len() && (#[trigger] list@[i]).0 == id by {
                assert(keys.unref().to_set().contains(id));
                let i = choose|i: int| 0 <= i < keys.unref().len() && keys.unref()[i] == id;
                assert(list@[i].0 == id);
            }
        }
        list
    }

    /// Whether no cursor stands in the chunk.
    pub fn is_vacant(&self) -> (vacant: bool)
        ensures
            vacant <==> self@.cursors.dom() == Set::<usize>::empty(),
    {
        let vacant = self.cursors.is_empty();
        proof {
            assert(self@.cursors.dom() =~= self.cursors@.dom());
        }
        vacant
    }

    /// A chunk has `CHUNK_CELLS` cells.
    pub proof fn lemma_cells_len(&self)
        ensures
            self@.cells.len() == CHUNK_CELLS,
    {
    }

    /// A mutable borrow of the cursor `id`, if it stands in the chunk. What
    /// the borrow holds when it ends is what the chunk then holds under `id`.
    pub(crate) fn cursor_mut(&mut self, id: usize) -> (cursor: Option<&mut Cursor>)
        ensures
            match cursor {
                Some(c) => {
                    &&& old(self)@.cursors.contains_key(id)
                    &&& c@ == old(self)@.cursors[id]
                    &&& final(self)@.cells == old(self)@.cells
                    &&& final(self)@.cursors == old(self)@.cursors.insert(id, final(c)@)
                },
                None => {
                    &&& !old(self)@.cursors.contains_key(id)
                    &&& final(self)@.cells == old(self)@.cells
                    &&& final(self)@.cursors == old(self)@.cursors
                },
            },
    {
        match self.cursors.entry(id) {
            Entry::Occupied(entry) => Some(entry.into_mut()),
            Entry::Vacant(_) => None,
        }
    }

    /// Takes the cursor `id` out of the chunk, if it stands there.
    pub(crate) fn take_cursor(&mut self, id: usize) -> (cursor: Option<Cursor>)
        ensures
            final(self)@.cells == old(self)@.cells,
            final(self)@.cursors == old(self)@.cursors.remove(id),
            match cursor {
                Some(c) => old(self)@.cursors.contains_key(id) && c@ == old(self)@.cursors[id],
                None => !old(self)@.cursors.contains_key(id),
            },
    {
        let cursor = self.cursors.remove(&id);
        cursor
    }

    /// Puts `cursor` into the chunk under `id`, in place of any that stood
    /// there under that identity.
    pub(crate) fn put_cursor(&mut self, id: usize, cursor: Cursor)
        ensures
            final(self)@.cells == old(self)@.cells,
            final(self)@.cursors == old(self)@.cursors.insert(id, cursor@),
    {
        self.cursors.insert(id, cursor);
    }
}

} // verus!
