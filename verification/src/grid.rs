//! The grid store: chunks in two tiers, and the cursors that stand in them.

use vstd::prelude::*;
use vstd::pervasive::unreached;
use std::collections::hash_map::Entry;
use std::collections::HashMap;
use vstd::std_specs::iter::IteratorSpec;
use crate::chunk::Chunk;
use crate::coords::{
    absolute, blank_cells, cell_index, chunk_key, chunk_of, is_chunk_key, key_chunk,
    lemma_cell_index_injective, lemma_join_coordinate, lemma_key_injective, lemma_key_of_chunk,
    lemma_split_coordinate, pack, unpack,
    BLANK, CHUNK_CELLS, CHUNK_WIDTH, MAX_CHUNK,
};
use crate::cursor::{Cursor, CursorView, Direction};
use crate::update::{ActionView, GridUpdate, GridUpdateAction, UpdateView};

verus! {

/// Why an update could not be applied.
#[derive(Clone, Copy, Debug, PartialEq, Eq, Structural)]
pub enum GridError {
    /// The update names a cursor that the grid does not hold.
    UnknownCursor { id: usize },
}

/// A chunk as an observer is shown it: the chunk's coordinate, its cells row
/// by row, and the cursors that stand in it, each with its identity.
#[derive(Debug, PartialEq, Eq)]
pub struct ChunkSnapshot {
    pub x: usize,
    pub y: usize,
    pub cells: Vec<u8>,
    pub cursors: Vec<(usize, Cursor)>,
}

/// The grid as a value: the cells of every allocated chunk, by chunk
/// coordinate, and every cursor, by identity, at its absolute position.
pub struct GridView {
    pub chunks: Map<(usize, usize), Seq<u8>>,
    pub cursors: Map<usize, CursorView>,
}

impl GridView {
    /// The chunk that cursor `id` stands in.
    pub open spec fn home(self, id: usize) -> (usize, usize) {
        chunk_of(self.cursors[id].x, self.cursors[id].y)
    }

    /// What holds of the view of every grid: there are finitely many
    /// cursors, every allocated chunk has all its cells, and every cursor
    /// stands in an allocated chunk.
    pub open spec fn wf(self) -> bool {
        &&& self.cursors.dom().finite()
        &&& forall|c: (usize, usize)| #[trigger]
            self.chunks.contains_key(c) ==> self.chunks[c].len() == CHUNK_CELLS
        &&& forall|id: usize| #[trigger]
            self.cursors.contains_key(id) ==> self.chunks.contains_key(self.home(id))
    }

    /// The cell at `(x, y)`: blank unless its chunk is allocated.
    pub open spec fn cell(self, x: usize, y: usize) -> u8 {
        let c = chunk_of(x, y);
        if self.chunks.contains_key(c) {
            self.chunks[c][cell_index(x, y)]
        } else {
            BLANK
        }
    }

    /// The grid with chunk `c` allocated: blank, if it was not there.
    pub open spec fn allocated(self, c: (usize, usize)) -> GridView {
        if self.chunks.contains_key(c) {
            self
        } else {
            GridView { chunks: self.chunks.insert(c, blank_cells()), ..self }
        }
    }

    /// The grid after `v` is written to the cell `(x, y)`.
    pub open spec fn with_cell(self, x: usize, y: usize, v: u8) -> GridView {
        let c = chunk_of(x, y);
        let g = self.allocated(c);
        GridView { chunks: g.chunks.insert(c, g.chunks[c].update(cell_index(x, y), v)), ..g }
    }

    /// The grid with `cursor` under `id`, in place of any cursor that had
    /// that identity; the chunk it stands in is allocated.
    pub open spec fn with_cursor(self, id: usize, cursor: CursorView) -> GridView {
        let g = self.allocated(chunk_of(cursor.x, cursor.y));
        GridView { cursors: g.cursors.insert(id, cursor), ..g }
    }

    /// The grid without cursor `id`.
    pub open spec fn without_cursor(self, id: usize) -> GridView {
        GridView { cursors: self.cursors.remove(id), ..self }
    }

    /// The cursors that stand in chunk `c`.
    pub open spec fn cursors_in(self, c: (usize, usize)) -> Set<usize> {
        Set::new(|id: usize| self.cursors.contains_key(id) && self.home(id) == c)
    }

    /// How many cursors stand in chunk `c`.
    pub open spec fn cursor_count(self, c: (usize, usize)) -> nat {
        self.cursors_in(c).len()
    }

    /// Whether the grid holds cursor `id`.
    pub open spec fn has_cursor(self, id: usize) -> bool {
        self.cursors.contains_key(id)
    }

    /// The grid after cursor `id` is changed to `cursor`, or the error that
    /// names `id`, if the grid does not hold it.
    pub open spec fn change(self, id: usize, cursor: CursorView) -> Result<GridView, GridError> {
        if self.has_cursor(id) {
            Ok(self.with_cursor(id, cursor))
        } else {
            Err(GridError::UnknownCursor { id })
        }
    }

    /// The grid after cursor `id` is removed, or the error that names `id`,
    /// if the grid does not hold it.
    pub open spec fn destroy(self, id: usize) -> Result<GridView, GridError> {
        if self.has_cursor(id) {
            Ok(self.without_cursor(id))
        } else {
            Err(GridError::UnknownCursor { id })
        }
    }

    /// The grid after `update`, or the reason why it cannot be applied:
    /// every update but a cell write and a spawn needs its cursor to exist.
    pub open spec fn apply(self, update: UpdateView) -> Result<GridView, GridError> {
        match update.action {
            ActionView::UpdateCell { c } => Ok(self.with_cell(update.x, update.y, c)),
            ActionView::SpawnCursor { id, direction, stack, energy, string_mode } => Ok(
                self.with_cursor(
                    id,
                    CursorView { x: update.x, y: update.y, direction, stack, energy, string_mode },
                ),
            ),
            ActionView::MoveCursor { id, to_x, to_y } => self.change(
                id,
                self.cursors[id].at(to_x, to_y),
            ),
            ActionView::DestroyCursor { id } => self.destroy(id),
            ActionView::UpdateStack { id, pop, push } => self.change(
                id,
                self.cursors[id].restacked(pop, push),
            ),
            ActionView::ToggleStringMode { id } => self.change(id, self.cursors[id].toggled()),
            ActionView::ChangeDirection { id, direction } => self.change(
                id,
                self.cursors[id].facing(direction),
            ),
            ActionView::ConsumeEnergy { id, energy } => self.change(
                id,
                self.cursors[id].spent(energy),
            ),
        }
    }

    /// The grid after the updates of `updates` are applied in order, or the
    /// reason why the first of them that cannot be applied cannot.
    pub open spec fn apply_all(self, updates: Seq<UpdateView>) -> Result<GridView, GridError>
        decreases updates.len(),
    {
        if updates.len() == 0 {
            Ok(self)
        } else {
            match self.apply_all(updates.drop_last()) {
                Ok(grid) => grid.apply(updates.last()),
                Err(e) => Err(e),
            }
        }
    }
}

/// Where the pen stands after `text` is read: a line feed takes it to the
/// start of the next row, any other character one column on.
pub open spec fn pen_after(text: Seq<char>) -> (usize, usize)
    decreases text.len(),
{
    if text.len() == 0 {
        (0, 0)
    } else {
        let (x, y) = pen_after(text.drop_last());
        if text.last() == '\n' {
            (0, (y + 1) as usize)
        } else {
            ((x + 1) as usize, y)
        }
    }
}

/// The grid that `text` describes. The text is read row by row from the
/// cell `(0, 0)`: every character but the line feed is written, as the low
/// byte of its code, to the cell where the pen stands.
pub open spec fn loaded(text: Seq<char>) -> GridView
    decreases text.len(),
{
    if text.len() == 0 {
        GridView { chunks: Map::empty(), cursors: Map::empty() }
    } else {
        let grid = loaded(text.drop_last());
        let (x, y) = pen_after(text.drop_last());
        if text.last() == '\n' {
            grid
        } else {
            grid.with_cell(x, y, text.last() as u8)
        }
    }
}

/// The grid store. A chunk is allocated when a cell of it is first written
/// or a cursor first enters it. An allocated chunk is in exactly one of two
/// tiers: active while at least one cursor stands in it, inactive otherwise.
/// An index tells for every cursor which chunk it stands in.
pub struct Grid {
    active: HashMap<u128, Chunk>,
    inactive: HashMap<u128, Chunk>,
    cursor_chunks: HashMap<usize, (usize, usize)>,
}

impl View for Grid {
    type V = GridView;

    closed spec fn view(&self) -> GridView {
        GridView {
            chunks: Map::new(
                |c: (usize, usize)| self.stored(chunk_key(c)),
                |c: (usize, usize)| self.chunk_at(chunk_key(c))@.cells,
            ),
            cursors: Map::new(
                |id: usize| self.cursor_chunks@.contains_key(id),
                |id: usize| self.placed(id),
            ),
        }
    }
}

impl Grid {
    /// Whether a chunk is stored under key `k`, in either tier.
    spec fn stored(&self, k: u128) -> bool {
        self.active@.contains_key(k) || self.inactive@.contains_key(k)
    }

    /// The chunk stored under key `k`.
    spec fn chunk_at(&self, k: u128) -> Chunk {
        if self.active@.contains_key(k) {
            self.active@[k]
        } else {
            self.inactive@[k]
        }
    }

    /// Cursor `id` at its absolute position.
    spec fn placed(&self, id: usize) -> CursorView {
        let c = self.cursor_chunks@[id];
        let cursor = self.active@[chunk_key(c)]@.cursors[id];
        cursor.at(absolute(c.0, cursor.x), absolute(c.1, cursor.y))
    }

    /// Whether chunk `c` is in the active tier.
    pub closed spec fn in_active_tier(&self, c: (usize, usize)) -> bool {
        self.active@.contains_key(chunk_key(c))
    }

    /// Whether chunk `c` is in the inactive tier.
    pub closed spec fn in_inactive_tier(&self, c: (usize, usize)) -> bool {
        self.inactive@.contains_key(chunk_key(c))
    }

    /// The invariant of the store: no chunk is in both tiers; the chunks of
    /// the active tier are those in which a cursor stands; and the index
    /// names for every cursor the chunk that holds it, and holds no other
    /// entry.
    pub closed spec fn wf(&self) -> bool {
        &&& forall|k: u128| #[trigger]
            self.active@.contains_key(k) ==> {
                &&& is_chunk_key(k)
                &&& key_chunk(k).0 <= MAX_CHUNK
                &&& key_chunk(k).1 <= MAX_CHUNK
                &&& !self.inactive@.contains_key(k)
                &&& self.active@[k]@.cursors.dom() != Set::<usize>::empty()
            }
        &&& forall|k: u128| #[trigger]
            self.inactive@.contains_key(k) ==> {
                &&& is_chunk_key(k)
                &&& self.inactive@[k]@.cursors.dom() == Set::<usize>::empty()
            }
        &&& forall|k: u128, id: usize|
            self.active@.contains_key(k) && #[trigger] self.active@[k]@.cursors.contains_key(id)
                ==> {
                &&& self.cursor_chunks@.contains_key(id)
                &&& chunk_key(self.cursor_chunks@[id]) == k
                &&& self.active@[k]@.cursors[id].x < CHUNK_WIDTH
                &&& self.active@[k]@.cursors[id].y < CHUNK_WIDTH
            }
        &&& forall|id: usize| #[trigger]
            self.cursor_chunks@.contains_key(id) ==> {
                &&& self.active@.contains_key(chunk_key(self.cursor_chunks@[id]))
                &&& self.active@[chunk_key(self.cursor_chunks@[id])]@.cursors.contains_key(id)
            }
    }

    /// An empty grid: no chunk is allocated and there is no cursor.
    pub fn new() -> (grid: Grid)
        ensures
            grid.wf(),
            grid@.chunks == Map::<(usize, usize), Seq<u8>>::empty(),
            grid@.cursors == Map::<usize, CursorView>::empty(),
    {
        Grid { active: HashMap::new(), inactive: HashMap::new(), cursor_chunks: HashMap::new() }
    }

    /// The grid that `s` describes: see [`loaded`].
    pub fn new_from_string(s: &str) -> (grid: Grid)
        ensures
            grid.wf(),
            grid@ == loaded(s@),
    {
        let n = s.unicode_len();
        let mut grid = Grid::new();
        let mut x: usize = 0;
        let mut y: usize = 0;
        for c in it: s.chars()
            invariant
                it.seq() == s@,
                n == s@.len(),
                grid.wf(),
                x <= it.index(),
                y <= it.index(),
                pen_after(s@.take(it.index())) == (x, y),
                grid@ == loaded(s@.take(it.index())),
        {
            proof {
                assert(s@.take(it.index() + 1).drop_last() =~= s@.take(it.index()));
            }
            if c == '\n' {
                x = 0;
                y += 1;
            } else {
                grid.set_cell(x, y, c as u8);
                x += 1;
            }
        }
        proof {
            assert(s@.take(s@.len() as int) =~= s@);
        }
        grid
    }

    /// The cell at `(x, y)`. A cell of a chunk that is not allocated is blank.
    pub fn get_cell(&self, x: usize, y: usize) -> (c: u8)
        ensures
            c == self@.cell(x, y),
    {
        let key = pack(x / CHUNK_WIDTH, y / CHUNK_WIDTH);
        match self.active.get(&key) {
            Some(chunk) => chunk.get(x % CHUNK_WIDTH, y % CHUNK_WIDTH),
            None => match self.inactive.get(&key) {
                Some(chunk) => chunk.get(x % CHUNK_WIDTH, y % CHUNK_WIDTH),
                None => BLANK,
            },
        }
    }

    /// Writes `c` to the cell at `(x, y)`. If the chunk of the cell is not
    /// allocated, it is allocated first, in the inactive tier.
    pub fn set_cell(&mut self, x: usize, y: usize, c: u8)
        requires
            old(self).wf(),
        ensures
            final(self).wf(),
            final(self)@ == old(self)@.with_cell(x, y, c),
            forall|at: (usize, usize)|
                final(self).in_active_tier(at) == old(self).in_active_tier(at),
    {
        let chunk = self.get_chunk_mut(x / CHUNK_WIDTH, y / CHUNK_WIDTH);
        chunk.set(x % CHUNK_WIDTH, y % CHUNK_WIDTH, c);
        proof {
            assert(self@.chunks =~= old(self)@.with_cell(x, y, c).chunks);
        }
    }

    /// Whether chunk `(cx, cy)` is in the active tier.
    pub fn is_active(&self, cx: usize, cy: usize) -> (active: bool)
        ensures
            active == self.in_active_tier((cx, cy)),
    {
        let key = pack(cx, cy);
        self.active.contains_key(&key)
    }

    /// Whether chunk `(cx, cy)` is in the inactive tier.
    pub fn is_inactive(&self, cx: usize, cy: usize) -> (inactive: bool)
        ensures
            inactive == self.in_inactive_tier((cx, cy)),
    {
        let key = pack(cx, cy);
        self.inactive.contains_key(&key)
    }

    /// The chunk `(cx, cy)`, if it is allocated.
    pub fn chunk(&self, cx: usize, cy: usize) -> (chunk: Option<&Chunk>)
        requires
            self.wf(),
        ensures
            match chunk {
                Some(chunk) => {
                    &&& self@.chunks.contains_key((cx, cy))
                    &&& chunk@.cells == self@.chunks[(cx, cy)]
                    &&& chunk@.cursors.dom() == self@.cursors_in((cx, cy))
                    &&& forall|id: usize| #[trigger]
                        chunk@.cursors.contains_key(id) ==> {
                            &&& chunk@.cursors[id].x == self@.cursors[id].x % CHUNK_WIDTH
                            &&& chunk@.cursors[id].y == self@.cursors[id].y % CHUNK_WIDTH
                            &&& chunk@.cursors[id].at(self@.cursors[id].x, self@.cursors[id].y)
                                == self@.cursors[id]
                        }
                },
                None => !self@.chunks.contains_key((cx, cy)),
            },
    {
        let key = pack(cx, cy);
        match self.active.get(&key) {
            Some(chunk) => {
                proof {
                    assert forall|id: usize|
                        chunk@.cursors.contains_key(id) == self@.cursors_in((cx, cy)).contains(
                            id,
                        ) by {
                        if self@.cursors.contains_key(id) {
                            self.lemma_index_is_home(id);
                            lemma_key_injective(self.cursor_chunks@[id], (cx, cy));
                        }
                    }
                }
                Some(chunk)
            },
            None => match self.inactive.get(&key) {
                Some(chunk) => {
                    proof {
                        assert forall|id: usize| !self@.cursors_in((cx, cy)).contains(id) by {
                            if self@.cursors.contains_key(id) {
                                self.lemma_index_is_home(id);
                                lemma_key_injective(self.cursor_chunks@[id], (cx, cy));
                            }
                        }
                    }
                    Some(chunk)
                },
                None => None,
            },
        }
    }

    /// Cursor `id` as its chunk stores it, if the grid holds it: its `x`
    /// and `y` are its absolute coordinates modulo the chunk width.
    pub fn get_cursor(&self, id: usize) -> (cursor: Option<&Cursor>)
        requires
            self.wf(),
        ensures
            match cursor {
                Some(cursor) => {
                    &&& self@.cursors.contains_key(id)
                    &&& cursor.x == self@.cursors[id].x % CHUNK_WIDTH
                    &&& cursor.y == self@.cursors[id].y % CHUNK_WIDTH
                    &&& cursor@.at(self@.cursors[id].x, self@.cursors[id].y) == self@.cursors[id]
                },
                None => !self@.cursors.contains_key(id),
            },
    {
        let c = match self.cursor_chunks.get(&id) {
            Some(c) => *c,
            None => {
                return None;
            },
        };
        let key = pack(c.0, c.1);
        proof {
            self.lemma_index_is_home(id);
        }
        match self.active.get(&key) {
            Some(chunk) => chunk.cursor(id),
            None => None,
        }
    }

    /// What an observer is shown of chunk `(cx, cy)`: its cells and the
    /// cursors that stand in it, as the chunk stores them. Of a chunk that is
    /// not allocated, blank cells and no cursor.
    pub fn snapshot(&self, cx: usize, cy: usize) -> (shown: ChunkSnapshot)
        requires
            self.wf(),
        ensures
            shown.x == cx,
            shown.y == cy,
            shown.cells@ == self@.allocated((cx, cy)).chunks[(cx, cy)],
            shown.cursors@.len() == self@.cursor_count((cx, cy)),
            forall|i: int, j: int|
                0 <= i < j < shown.cursors@.len() ==> shown.cursors@[i].0 != shown.cursors@[j].0,
            forall|i: int|
                0 <= i < shown.cursors@.len() ==> {
                    &&& self@.cursors_in((cx, cy)).contains((#[trigger] shown.cursors@[i]).0)
                    &&& shown.cursors@[i].1.x == self@.cursors[shown.cursors@[i].0].x % CHUNK_WIDTH
                    &&& shown.cursors@[i].1.y == self@.cursors[shown.cursors@[i].0].y % CHUNK_WIDTH
                    &&& shown.cursors@[i].1@.at(
                        self@.cursors[shown.cursors@[i].0].x,
                        self@.cursors[shown.cursors@[i].0].y,
                    ) == self@.cursors[shown.cursors@[i].0]
                },
    {
        match self.chunk(cx, cy) {
            Some(chunk) => {
                let mut cells: Vec<u8> = Vec::new();
                let mut k: usize = 0;
                while k < CHUNK_CELLS
                    invariant
                        k <= CHUNK_CELLS,
                        cells@.len() == k,
                        forall|i: int| 0 <= i < k ==> cells@[i] == chunk@.cells[i],
                    decreases CHUNK_CELLS - k,
                {
                    cells.push(chunk.get(k % CHUNK_WIDTH, k / CHUNK_WIDTH));
                    k += 1;
                }
                let cursors = chunk.cursor_list();
                proof {
                    chunk.lemma_cells_len();
                    assert(cells@ =~= chunk@.cells);
                }
                ChunkSnapshot { x: cx, y: cy, cells, cursors }
            },
            None => {
                let mut cells: Vec<u8> = Vec::new();
                let mut k: usize = 0;
                while k < CHUNK_CELLS
                    invariant
                        k <= CHUNK_CELLS,
                        cells@.len() == k,
                        forall|i: int| 0 <= i < k ==> cells@[i] == BLANK,
                    decreases CHUNK_CELLS - k,
                {
                    cells.push(BLANK);
                    k += 1;
                }
                proof {
                    assert(cells@ =~= blank_cells());
                    assert forall|id: usize| !self@.cursors_in((cx, cy)).contains(id) by {
                        if self@.cursors.contains_key(id) {
                            self.lemma_view_wf();
                        }
                    }
                    assert(self@.cursors_in((cx, cy)) =~= Set::<usize>::empty());
                }
                ChunkSnapshot { x: cx, y: cy, cells, cursors: Vec::new() }
            },
        }
    }

    /// A mutable borrow of chunk `(chunk_x, chunk_y)`, which is allocated
    /// first, in the inactive tier, if it is not there. What the borrow
    /// holds when it ends are the cells of the chunk; the cursors that stand
    /// in the chunk must then be those that stood in it.
    pub fn get_chunk_mut(&mut self, chunk_x: usize, chunk_y: usize) -> (chunk: &mut Chunk)
        requires
            old(self).wf(),
        ensures
            chunk@.cells == old(self)@.allocated((chunk_x, chunk_y)).chunks[(chunk_x, chunk_y)],
            chunk@.cursors.dom() == old(self)@.cursors_in((chunk_x, chunk_y)),
            final(chunk)@.cursors == chunk@.cursors ==> {
                &&& final(self).wf()
                &&& final(self)@.cursors == old(self)@.cursors
                &&& final(self)@.chunks == old(self)@.chunks.insert(
                    (chunk_x, chunk_y),
                    final(chunk)@.cells,
                )
                &&& forall|at: (usize, usize)|
                    final(self).in_active_tier(at) == old(self).in_active_tier(at)
            },
    {
        let key = pack(chunk_x, chunk_y);
        let ghost c = (chunk_x, chunk_y);
        proof {
            assert forall|other: (usize, usize)| other != c implies chunk_key(other) != key by {
                lemma_key_injective(other, c);
            }
            assert forall|id: usize|
                old(self)@.cursors_in(c).contains(id) == (old(self).active@.contains_key(key)
                    && old(self).active@[key]@.cursors.contains_key(id)) by {
                if old(self)@.cursors.contains_key(id) {
                    old(self).lemma_index_is_home(id);
                    lemma_key_injective(old(self).cursor_chunks@[id], c);
                }
            }
        }
        match self.active.entry(key) {
            Entry::Occupied(entry) => {
                let chunk = entry.into_mut();
                proof {
                    let next = Grid {
                        active: after_borrow(self.active),
                        inactive: self.inactive,
                        cursor_chunks: self.cursor_chunks,
                    };
                    let kept = final(chunk)@.cursors == chunk@.cursors;
                    assert(kept ==> next@.chunks =~= old(self)@.chunks.insert(
                        c,
                        final(chunk)@.cells,
                    ));
                }
                chunk
            },
            Entry::Vacant(_) => {
                let chunk = match self.inactive.entry(key) {
                    Entry::Occupied(entry) => entry.into_mut(),
                    Entry::Vacant(entry) => entry.insert(Chunk::new()),
                };
                proof {
                    let next = Grid {
                        active: after_borrow(self.active),
                        inactive: after_borrow(self.inactive),
                        cursor_chunks: self.cursor_chunks,
                    };
                    let kept = final(chunk)@.cursors == chunk@.cursors;
                    assert(kept ==> next@.chunks =~= old(self)@.chunks.insert(
                        c,
                        final(chunk)@.cells,
                    ));
                }
                chunk
            },
        }
    }

    /// A mutable borrow of cursor `id` as its chunk stores it, if the grid
    /// holds it. The cursor stays in its chunk: when the borrow ends, its `x`
    /// and `y` must be offsets inside the chunk, and the grid then holds under
    /// `id` what the borrow holds.
    pub fn get_cursor_mut(&mut self, id: usize) -> (cursor: Option<&mut Cursor>)
        requires
            old(self).wf(),
        ensures
            match cursor {
                Some(cursor) => {
                    &&& old(self)@.has_cursor(id)
                    &&& cursor.x == old(self)@.cursors[id].x % CHUNK_WIDTH
                    &&& cursor.y == old(self)@.cursors[id].y % CHUNK_WIDTH
                    &&& cursor@.at(old(self)@.cursors[id].x, old(self)@.cursors[id].y) == old(
                        self,
                    )@.cursors[id]
                    &&& final(cursor).x < CHUNK_WIDTH && final(cursor).y < CHUNK_WIDTH ==> {
                        &&& final(self).wf()
                        &&& final(self)@ == old(self)@.with_cursor(
                            id,
                            final(cursor)@.at(
                                absolute(old(self)@.home(id).0, final(cursor).x),
                                absolute(old(self)@.home(id).1, final(cursor).y),
                            ),
                        )
                    }
                },
                None => !old(self)@.has_cursor(id) && final(self).wf() && final(self)@ == old(
                    self,
                )@,
            },
    {
        let c = match self.cursor_chunks.get(&id) {
            Some(c) => *c,
            None => {
                return None;
            },
        };
        let key = pack(c.0, c.1);
        proof {
            self.lemma_index_is_home(id);
        }
        proof {
            assert forall|other: (usize, usize)| other != c implies chunk_key(other) != key by {
                lemma_key_injective(other, c);
            }
        }
        match self.active.entry(key) {
            Entry::Occupied(entry) => match entry.into_mut().cursor_mut(id) {
                Some(cursor) => {
                    proof {
                        let next = Grid {
                            active: after_borrow(self.active),
                            inactive: self.inactive,
                            cursor_chunks: self.cursor_chunks,
                        };
                        let fits = final(cursor).x < CHUNK_WIDTH && final(cursor).y < CHUNK_WIDTH;
                        let after = final(cursor)@.at(
                            absolute(c.0, final(cursor).x),
                            absolute(c.1, final(cursor).y),
                        );
                        assert(next.active@[key]@.cursors.contains_key(id));
                        assert(fits ==> next@.chunks =~= old(self)@.with_cursor(id, after).chunks);
                        assert(fits ==> next@.cursors =~= old(self)@.with_cursor(id, after).cursors);
                    }
                    Some(cursor)
                },
                None => None,
            },
            Entry::Vacant(_) => None,
        }
    }

    /// The cell that cursor `id` stands on, if the grid holds it.
    pub fn cursor_position(&self, id: usize) -> (position: Option<(usize, usize)>)
        requires
            self.wf(),
        ensures
            match position {
                Some((x, y)) => self@.has_cursor(id) && x == self@.cursors[id].x && y
                    == self@.cursors[id].y,
                None => !self@.has_cursor(id),
            },
    {
        let home = match self.cursor_chunk(id) {
            Some(home) => home,
            None => {
                return None;
            },
        };
        match self.get_cursor(id) {
            Some(cursor) => {
                proof {
                    lemma_split_coordinate(self@.cursors[id].x);
                    lemma_split_coordinate(self@.cursors[id].y);
                }
                Some((home.0 * CHUNK_WIDTH + cursor.x, home.1 * CHUNK_WIDTH + cursor.y))
            },
            None => None,
        }
    }

    /// The chunk that cursor `id` stands in, if the grid holds it.
    pub fn cursor_chunk(&self, id: usize) -> (home: Option<(usize, usize)>)
        requires
            self.wf(),
        ensures
            match home {
                Some(c) => self@.cursors.contains_key(id) && c == self@.home(id),
                None => !self@.cursors.contains_key(id),
            },
    {
        match self.cursor_chunks.get(&id) {
            Some(c) => {
                proof {
                    self.lemma_index_is_home(id);
                }
                Some(*c)
            },
            None => None,
        }
    }

    /// The coordinates of all allocated chunks, each once, in the order in
    /// which the tiers yield them, which is not specified.
    pub fn allocated_chunks(&self) -> (chunks: Vec<(usize, usize)>)
        requires
            self.wf(),
        ensures
            chunks@.no_duplicates(),
            chunks@.to_set() == self@.chunks.dom(),
    {
        let mut chunks: Vec<(usize, usize)> = Vec::new();
        let ghost active = self.active.keys().remaining();
        for key in it: self.active.keys()
            invariant
                self.wf(),
                it.seq() == active,
                active.unref().to_set() == self.active@.dom(),
                chunks@.len() == it.index(),
                forall|i: int|
                    0 <= i < chunks@.len() ==> chunk_key(#[trigger] chunks@[i]) == active[i],
        {
            proof {
                assert(active.unref().to_set().contains(*key));
            }
            chunks.push(unpack(*key));
        }
        let ghost inactive = self.inactive.keys().remaining();
        let ghost first = chunks@;
        for key in it: self.inactive.keys()
            invariant
                self.wf(),
                it.seq() == inactive,
                inactive.unref().to_set() == self.inactive@.dom(),
                first.len() == active.len(),
                chunks@.len() == first.len() + it.index(),
                forall|i: int|
                    0 <= i < first.len() ==> chunk_key(#[trigger] chunks@[i]) == active[i],
                forall|i: int|
                    first.len() <= i < chunks@.len() ==> chunk_key(#[trigger] chunks@[i])
                        == inactive[i - first.len()],
        {
            proof {
                assert(inactive.unref().to_set().contains(*key));
            }
            chunks.push(unpack(*key));
        }
        proof {
            let n = active.len() as int;
            assert forall|i: int, j: int| 0 <= i < j < chunks@.len() implies chunks@[i]
                != chunks@[j] by {
                if i < n && j >= n {
                    assert(active.unref()[i] == *active[i]);
                    assert(self.active@.dom().contains(*active[i]));
                    assert(inactive.unref()[j - n] == *inactive[j - n]);
                }
            }
            assert forall|c: (usize, usize)| chunks@.to_set().contains(c)
                == self@.chunks.dom().contains(c) by {
                let k = chunk_key(c);
                if chunks@.contains(c) {
                    let i = choose|i: int| 0 <= i < chunks@.len() && chunks@[i] == c;
                    if i < n {
                        assert(active.unref()[i] == *active[i]);
                    } else {
                        assert(inactive.unref()[i - n] == *inactive[i - n]);
                    }
                }
                if self.active@.contains_key(k) {
                    let i = choose|i: int| 0 <= i < active.unref().len() && active.unref()[i] == k;
                    lemma_key_injective(chunks@[i], c);
                }
                if self.inactive@.contains_key(k) {
                    let i = choose|i: int|
                        0 <= i < inactive.unref().len() && inactive.unref()[i] == k;
                    lemma_key_injective(chunks@[n + i], c);
                }
            }
        }
        chunks
    }

    /// The identities of all cursors, each once, in ascending order.
    pub fn cursor_ids(&self) -> (ids: Vec<usize>)
        ensures
            ascending(ids@),
            ids@.no_duplicates(),
            ids@.to_set() == self@.cursors.dom(),
    {
        let mut ids: Vec<usize> = Vec::new();
        let ghost keys = self.cursor_chunks.keys().remaining();
        for id in it: self.cursor_chunks.keys()
            invariant
                it.seq() == keys,
                ids@.len() == it.index(),
                ids@ == keys.take(it.index()).unref(),
        {
            ids.push(*id);
        }
        proof {
            assert(keys.take(keys.len() as int) =~= keys);
            assert forall|i: int, j: int| 0 <= i < j < ids@.len() implies ids@[i] != ids@[j] by {}
        }
        sort_ids(ids)
    }

    /// Creates cursor `id` on the cell `(x, y)` and returns `id`. The chunk of
    /// the cell is allocated if need be and is in the active tier afterwards.
    /// A cursor that had this identity is replaced, wherever it stood.
    pub fn spawn_cursor(
        &mut self,
        id: usize,
        x: usize,
        y: usize,
        direction: Direction,
        stack: Vec<i64>,
        energy: usize,
        string_mode: bool,
    ) -> (spawned: usize)
        requires
            old(self).wf(),
        ensures
            final(self).wf(),
            spawned == id,
            final(self)@ == old(self)@.with_cursor(
                id,
                CursorView { x, y, direction, stack: stack@, energy, string_mode },
            ),
    {
        let ghost cursor = CursorView { x, y, direction, stack: stack@, energy, string_mode };
        let _ = self.take_cursor(id);
        proof {
            lemma_split_coordinate(x);
            lemma_split_coordinate(y);
        }
        self.place_cursor(
            id,
            (x / CHUNK_WIDTH, y / CHUNK_WIDTH),
            Cursor { x: x % CHUNK_WIDTH, y: y % CHUNK_WIDTH, direction, stack, energy, string_mode },
        );
        proof {
            assert(self@.cursors =~= old(self)@.with_cursor(id, cursor).cursors);
        }
        id
    }

    /// Moves cursor `id` to the cell `(to_x, to_y)`. Inside one chunk only its
    /// offsets change. Across chunks it leaves the one and enters the other:
    /// the chunk it leaves goes to the inactive tier if no cursor is left in
    /// it, and the chunk it enters is allocated if need be and is in the
    /// active tier afterwards.
    pub fn move_cursor(&mut self, id: usize, to_x: usize, to_y: usize) -> (done: Result<
        (),
        GridError,
    >)
        requires
            old(self).wf(),
        ensures
            final(self).wf(),
            match old(self)@.change(id, old(self)@.cursors[id].at(to_x, to_y)) {
                Ok(grid) => done is Ok && final(self)@ == grid,
                Err(e) => done == Err::<(), GridError>(e) && final(self)@ == old(self)@,
            },
    {
        let home = match self.cursor_chunks.get(&id) {
            Some(c) => *c,
            None => {
                return Err(GridError::UnknownCursor { id });
            },
        };
        let ghost before = old(self)@.cursors[id];
        proof {
            self.lemma_index_is_home(id);
            lemma_split_coordinate(to_x);
            lemma_split_coordinate(to_y);
        }
        if home.0 == to_x / CHUNK_WIDTH && home.1 == to_y / CHUNK_WIDTH {
            if let Some(cursor) = self.get_cursor_mut(id) {
                cursor.x = to_x % CHUNK_WIDTH;
                cursor.y = to_y % CHUNK_WIDTH;
            }
        } else {
            if let Some((cursor, _)) = self.take_cursor(id) {
                let mut cursor = cursor;
                cursor.x = to_x % CHUNK_WIDTH;
                cursor.y = to_y % CHUNK_WIDTH;
                self.place_cursor(id, (to_x / CHUNK_WIDTH, to_y / CHUNK_WIDTH), cursor);
                proof {
                    let moved = before.at(to_x, to_y);
                    assert(self@.cursors =~= old(self)@.with_cursor(id, moved).cursors);
                }
            }
        }
        Ok(())
    }

    /// Removes cursor `id`. Its chunk goes to the inactive tier if no cursor
    /// is left in it.
    pub fn destroy_cursor(&mut self, id: usize) -> (done: Result<(), GridError>)
        requires
            old(self).wf(),
        ensures
            final(self).wf(),
            match old(self)@.destroy(id) {
                Ok(grid) => done is Ok && final(self)@ == grid,
                Err(e) => done == Err::<(), GridError>(e) && final(self)@ == old(self)@,
            },
    {
        match self.take_cursor(id) {
            Some(_) => Ok(()),
            None => {
                assert(self@.cursors =~= old(self)@.cursors);
                Err(GridError::UnknownCursor { id })
            },
        }
    }

    /// Pops `pop` items off the stack of cursor `id`, or all of them if
    /// there are fewer, then pushes the items of `push` in order.
    pub fn update_stack(&mut self, id: usize, pop: usize, push: Vec<i64>) -> (done: Result<
        (),
        GridError,
    >)
        requires
            old(self).wf(),
        ensures
            final(self).wf(),
            match old(self)@.change(id, old(self)@.cursors[id].restacked(pop, push@)) {
                Ok(grid) => done is Ok && final(self)@ == grid,
                Err(e) => done == Err::<(), GridError>(e) && final(self)@ == old(self)@,
            },
    {
        match self.get_cursor_mut(id) {
            Some(cursor) => {
                let mut push = push;
                let keep = if pop >= cursor.stack.len() {
                    0
                } else {
                    cursor.stack.len() - pop
                };
                cursor.stack.truncate(keep);
                cursor.stack.append(&mut push);
                Ok(())
            },
            None => Err(GridError::UnknownCursor { id }),
        }
    }

    /// Makes cursor `id` face `direction`.
    pub fn change_direction(&mut self, id: usize, direction: Direction) -> (done: Result<
        (),
        GridError,
    >)
        requires
            old(self).wf(),
        ensures
            final(self).wf(),
            match old(self)@.change(id, old(self)@.cursors[id].facing(direction)) {
                Ok(grid) => done is Ok && final(self)@ == grid,
                Err(e) => done == Err::<(), GridError>(e) && final(self)@ == old(self)@,
            },
    {
        match self.get_cursor_mut(id) {
            Some(cursor) => {
                cursor.direction = direction;
                Ok(())
            },
            None => Err(GridError::UnknownCursor { id }),
        }
    }

    /// Takes `amount` units of energy from cursor `id`, or all that it has
    /// if it has less.
    pub fn consume_energy(&mut self, id: usize, amount: usize) -> (done: Result<(), GridError>)
        requires
            old(self).wf(),
        ensures
            final(self).wf(),
            match old(self)@.change(id, old(self)@.cursors[id].spent(amount)) {
                Ok(grid) => done is Ok && final(self)@ == grid,
                Err(e) => done == Err::<(), GridError>(e) && final(self)@ == old(self)@,
            },
    {
        match self.get_cursor_mut(id) {
            Some(cursor) => {
                cursor.energy = if amount >= cursor.energy {
                    0
                } else {
                    cursor.energy - amount
                };
                Ok(())
            },
            None => Err(GridError::UnknownCursor { id }),
        }
    }

    /// Switches the string mode of cursor `id`.
    pub fn toggle_string_mode(&mut self, id: usize) -> (done: Result<(), GridError>)
        requires
            old(self).wf(),
        ensures
            final(self).wf(),
            match old(self)@.change(id, old(self)@.cursors[id].toggled()) {
                Ok(grid) => done is Ok && final(self)@ == grid,
                Err(e) => done == Err::<(), GridError>(e) && final(self)@ == old(self)@,
            },
    {
        match self.get_cursor_mut(id) {
            Some(cursor) => {
                cursor.string_mode = !cursor.string_mode;
                Ok(())
            },
            None => Err(GridError::UnknownCursor { id }),
        }
    }

    /// Applies `update`. An update that names a cursor which the grid does
    /// not hold is refused and leaves the grid as it was; a spawn and a cell
    /// write are never refused.
    pub fn apply(&mut self, update: GridUpdate) -> (done: Result<(), GridError>)
        requires
            old(self).wf(),
        ensures
            final(self).wf(),
            match old(self)@.apply(update@) {
                Ok(grid) => done is Ok && final(self)@ == grid,
                Err(e) => done == Err::<(), GridError>(e) && final(self)@ == old(self)@,
            },
    {
        let x = update.x;
        let y = update.y;
        match update.action {
            GridUpdateAction::UpdateCell { c } => {
                self.set_cell(x, y, c);
                Ok(())
            },
            GridUpdateAction::MoveCursor { id, to_x, to_y } => self.move_cursor(id, to_x, to_y),
            GridUpdateAction::SpawnCursor { id, direction, stack, energy, string_mode } => {
                self.spawn_cursor(id, x, y, direction, stack, energy, string_mode);
                Ok(())
            },
            GridUpdateAction::DestroyCursor { id } => self.destroy_cursor(id),
            GridUpdateAction::UpdateStack { id, pop, push } => self.update_stack(id, pop, push),
            GridUpdateAction::ChangeDirection { id, direction } => self.change_direction(
                id,
                direction,
            ),
            GridUpdateAction::ConsumeEnergy { id, energy } => self.consume_energy(id, energy),
            GridUpdateAction::ToggleStringMode { id } => self.toggle_string_mode(id),
        }
    }

    /// The view of a grid is well formed.
    pub proof fn lemma_view_wf(&self)
        requires
            self.wf(),
        ensures
            self@.wf(),
    {
        assert(self@.cursors.dom() =~= self.cursor_chunks@.dom());
        assert forall|c: (usize, usize)| #[trigger] self@.chunks.contains_key(c) implies self@.chunks[c].len()
            == CHUNK_CELLS by {
            self.chunk_at(chunk_key(c)).lemma_cells_len();
        }
        assert forall|id: usize| #[trigger] self@.cursors.contains_key(id) implies self@.chunks.contains_key(
            self@.home(id),
        ) by {
            self.lemma_index_is_home(id);
        }
    }

    /// The tiers are right: a chunk is in the active tier if and only if at
    /// least one cursor stands in it, and in the inactive tier if and only
    /// if it is allocated and no cursor stands in it. So no chunk is in both.
    pub proof fn lemma_tiers(&self, c: (usize, usize))
        requires
            self.wf(),
        ensures
            self.in_active_tier(c) <==> self@.cursor_count(c) >= 1,
            self.in_inactive_tier(c) <==> self@.chunks.contains_key(c) && self@.cursor_count(c) == 0,
            !(self.in_active_tier(c) && self.in_inactive_tier(c)),
    {
        let here = self@.cursors_in(c);
        let k = chunk_key(c);
        lemma_key_of_chunk(c);
        assert(self@.cursors.dom() =~= self.cursor_chunks@.dom());
        vstd::set_lib::lemma_len_subset(here, self@.cursors.dom());
        assert forall|id: usize| here.contains(id) implies self.active@.contains_key(k)
            && self.active@[k]@.cursors.contains_key(id) by {
            self.lemma_index_is_home(id);
        }
        if self.active@.contains_key(k) {
            let ids = self.active@[k]@.cursors.dom();
            assert(exists|id: usize| ids.contains(id)) by {
                if forall|id: usize| !ids.contains(id) {
                    assert(ids =~= Set::<usize>::empty());
                }
            }
            let id = choose|id: usize| ids.contains(id);
            self.lemma_index_is_home(id);
            lemma_key_injective(self.cursor_chunks@[id], c);
            assert(here.contains(id));
        }
        if here.len() >= 1 {
            assert(here.contains(here.choose()));
        }
    }

    /// A cursor that moves to another chunk makes the chunk it enters
    /// active, and leaves the chunk it came from inactive if it was the only
    /// cursor there.
    pub proof fn lemma_cross_chunk_move(
        before: &Grid,
        after: &Grid,
        id: usize,
        to_x: usize,
        to_y: usize,
    )
        requires
            before.wf(),
            after.wf(),
            before@.has_cursor(id),
            after@ == before@.with_cursor(id, before@.cursors[id].at(to_x, to_y)),
            chunk_of(to_x, to_y) != before@.home(id),
        ensures
            after.in_active_tier(chunk_of(to_x, to_y)),
            before.in_active_tier(before@.home(id)),
            before@.cursor_count(before@.home(id)) == 1 ==> after.in_inactive_tier(
                before@.home(id),
            ),
            before@.cursor_count(before@.home(id)) > 1 ==> after.in_active_tier(before@.home(id)),
    {
        let from = before@.home(id);
        let to = chunk_of(to_x, to_y);
        before.lemma_tiers(from);
        after.lemma_tiers(from);
        after.lemma_tiers(to);
        before.lemma_view_wf();
        after.lemma_view_wf();
        let left = before@.cursors_in(from);
        let rest = after@.cursors_in(from);
        vstd::set_lib::lemma_len_subset(left, before@.cursors.dom());
        assert(rest =~= left.remove(id));
        assert(after@.cursors_in(to).contains(id));
        vstd::set_lib::lemma_len_subset(after@.cursors_in(to), after@.cursors.dom());
    }

    /// The index is right: it names for every cursor the chunk that its
    /// position lies in.
    proof fn lemma_index_is_home(&self, id: usize)
        requires
            self.wf(),
            self.cursor_chunks@.contains_key(id),
        ensures
            self@.cursors.contains_key(id),
            self@.home(id) == self.cursor_chunks@[id],
            self.active@.contains_key(chunk_key(self.cursor_chunks@[id])),
            self@.cursors[id].x % CHUNK_WIDTH
                == self.active@[chunk_key(self.cursor_chunks@[id])]@.cursors[id].x,
            self@.cursors[id].y % CHUNK_WIDTH
                == self.active@[chunk_key(self.cursor_chunks@[id])]@.cursors[id].y,
            key_chunk(chunk_key(self.cursor_chunks@[id])) == self.cursor_chunks@[id],
    {
        let c = self.cursor_chunks@[id];
        let cursor = self.active@[chunk_key(c)]@.cursors[id];
        lemma_key_of_chunk(c);
        lemma_join_coordinate(c.0, cursor.x);
        lemma_join_coordinate(c.1, cursor.y);
    }

    /// Takes cursor `id` out of the grid, with the chunk it stood in. A chunk
    /// that loses its last cursor goes to the inactive tier.
    fn take_cursor(&mut self, id: usize) -> (taken: Option<(Cursor, (usize, usize))>)
        requires
            old(self).wf(),
        ensures
            final(self).wf(),
            final(self)@.chunks == old(self)@.chunks,
            final(self)@.cursors == old(self)@.cursors.remove(id),
            match taken {
                Some((cursor, c)) => {
                    &&& old(self)@.cursors.contains_key(id)
                    &&& cursor.x < CHUNK_WIDTH
                    &&& cursor.y < CHUNK_WIDTH
                    &&& c.0 <= MAX_CHUNK
                    &&& c.1 <= MAX_CHUNK
                    &&& old(self)@.cursors[id] == cursor@.at(
                        absolute(c.0, cursor.x),
                        absolute(c.1, cursor.y),
                    )
                },
                None => !old(self)@.cursors.contains_key(id),
            },
    {
        let c = match self.cursor_chunks.remove(&id) {
            Some(c) => c,
            None => {
                return None;
            },
        };
        let key = pack(c.0, c.1);
        proof {
            lemma_key_of_chunk(c);
        }
        let chunk = match self.active.entry(key) {
            Entry::Occupied(entry) => entry.into_mut(),
            Entry::Vacant(_) => unreached(),
        };
        let cursor = chunk.take_cursor(id).unwrap();
        if chunk.is_vacant() {
            let chunk = self.active.remove(&key).unwrap();
            self.inactive.insert(key, chunk);
        }
        Some((cursor, c))
    }

    /// Puts `cursor` under `id` into chunk `c`, which is allocated if need be
    /// and is in the active tier afterwards.
    fn place_cursor(&mut self, id: usize, c: (usize, usize), cursor: Cursor)
        requires
            old(self).wf(),
            !old(self)@.cursors.contains_key(id),
            cursor.x < CHUNK_WIDTH,
            cursor.y < CHUNK_WIDTH,
            c.0 <= MAX_CHUNK,
            c.1 <= MAX_CHUNK,
        ensures
            final(self).wf(),
            final(self)@ == old(self)@.with_cursor(
                id,
                cursor@.at(absolute(c.0, cursor.x), absolute(c.1, cursor.y)),
            ),
    {
        let key = pack(c.0, c.1);
        let ghost placed = cursor@.at(absolute(c.0, cursor.x), absolute(c.1, cursor.y));
        proof {
            lemma_key_of_chunk(c);
            lemma_join_coordinate(c.0, cursor.x);
            lemma_join_coordinate(c.1, cursor.y);
        }
        match self.active.entry(key) {
            Entry::Occupied(entry) => {
                entry.into_mut().put_cursor(id, cursor);
            },
            Entry::Vacant(entry) => {
                let mut chunk = match self.inactive.remove(&key) {
                    Some(chunk) => chunk,
                    None => Chunk::new(),
                };
                chunk.put_cursor(id, cursor);
                entry.insert(chunk);
            },
        }
        self.cursor_chunks.insert(id, c);
        proof {
            assert(self.active@[key]@.cursors.contains_key(id));
            assert forall|other: (usize, usize)| other != c implies chunk_key(other) != key by {
                lemma_key_injective(other, c);
            }
            assert(self@.chunks =~= old(self)@.with_cursor(id, placed).chunks);
            assert(self@.cursors =~= old(self)@.with_cursor(id, placed).cursors);
        }
    }
}

/// After a cell is written it holds what was written, and every other cell
/// holds what it held before.
pub proof fn lemma_write_then_read(grid: GridView, x: usize, y: usize, v: u8)
    requires
        grid.wf(),
    ensures
        grid.with_cell(x, y, v).cell(x, y) == v,
        forall|x2: usize, y2: usize|
            (x2, y2) != (x, y) ==> #[trigger] grid.with_cell(x, y, v).cell(x2, y2) == grid.cell(
                x2,
                y2,
            ),
{
    assert forall|x2: usize, y2: usize| (x2, y2) != (x, y) implies #[trigger] grid.with_cell(
        x,
        y,
        v,
    ).cell(x2, y2) == grid.cell(x2, y2) by {
        if chunk_of(x2, y2) == chunk_of(x, y) {
            if cell_index(x2, y2) == cell_index(x, y) {
                lemma_cell_index_injective(x, y, x2, y2);
            }
        }
    }
}

/// Whether `ids` ascends: each item is less than all that follow it.
pub open spec fn ascending(ids: Seq<usize>) -> bool {
    forall|i: int, j: int| 0 <= i < j < ids.len() ==> ids[i] < ids[j]
}

/// The set of the first `n + 1` items is that of the first `n` with item `n`.
proof fn lemma_take_one_more(ids: Seq<usize>, n: int)
    requires
        0 <= n < ids.len(),
    ensures
        ids.take(n + 1).to_set() == ids.take(n).to_set().insert(ids[n]),
{
    let longer = ids.take(n + 1);
    let shorter = ids.take(n);
    assert forall|id: usize| longer.to_set().contains(id) == shorter.to_set().insert(
        ids[n],
    ).contains(id) by {
        if longer.contains(id) {
            let i = choose|i: int| 0 <= i < longer.len() && longer[i] == id;
            if i < n {
                assert(shorter[i] == id);
            }
        }
        if shorter.contains(id) {
            let i = choose|i: int| 0 <= i < shorter.len() && shorter[i] == id;
            assert(longer[i] == id);
        }
        if id == ids[n] {
            assert(longer[n] == id);
        }
    }
    assert(longer.to_set() =~= shorter.to_set().insert(ids[n]));
}

/// The items of two ascending lists that share no item, in one ascending list.
fn merge_ids(left: &Vec<usize>, right: &Vec<usize>) -> (merged: Vec<usize>)
    requires
        ascending(left@),
        ascending(right@),
        left@.to_set().disjoint(right@.to_set()),
    ensures
        ascending(merged@),
        merged@.to_set() == left@.to_set().union(right@.to_set()),
{
    let mut merged: Vec<usize> = Vec::new();
    let mut i: usize = 0;
    let mut j: usize = 0;
    proof {
        assert(merged@.to_set() =~= left@.take(0).to_set().union(right@.take(0).to_set()));
    }
    while i < left.len() || j < right.len()
        invariant
            i <= left.len(),
            j <= right.len(),
            ascending(left@),
            ascending(right@),
            left@.to_set().disjoint(right@.to_set()),
            ascending(merged@),
            merged@.to_set() == left@.take(i as int).to_set().union(
                right@.take(j as int).to_set(),
            ),
            forall|k: int|
                0 <= k < merged@.len() && i < left@.len() ==> #[trigger] merged@[k] < left@[i as int],
            forall|k: int|
                0 <= k < merged@.len() && j < right@.len() ==> #[trigger] merged@[k]
                    < right@[j as int],
        decreases left.len() - i + right.len() - j,
    {
        let ghost before = merged@;
        if j >= right.len() || (i < left.len() && left[i] < right[j]) {
            merged.push(left[i]);
            proof {
                lemma_take_one_more(left@, i as int);
                assert(merged@.to_set() =~= before.to_set().insert(left@[i as int])) by {
                    assert forall|id: usize|
                        merged@.to_set().contains(id) == before.to_set().insert(
                            left@[i as int],
                        ).contains(id) by {
                        if merged@.contains(id) {
                            let k = choose|k: int| 0 <= k < merged@.len() && merged@[k] == id;
                            if k < before.len() {
                                assert(before[k] == id);
                            }
                        }
                        if before.contains(id) {
                            let k = choose|k: int| 0 <= k < before.len() && before[k] == id;
                            assert(merged@[k] == id);
                        }
                        if id == left@[i as int] {
                            assert(merged@[before.len() as int] == id);
                        }
                    }
                }
            }
            i += 1;
        } else {
            proof {
                if i < left.len() {
                    assert(left@.to_set().contains(left@[i as int]));
                    assert(right@.to_set().contains(right@[j as int]));
                }
            }
            merged.push(right[j]);
            proof {
                lemma_take_one_more(right@, j as int);
                assert(merged@.to_set() =~= before.to_set().insert(right@[j as int])) by {
                    assert forall|id: usize|
                        merged@.to_set().contains(id) == before.to_set().insert(
                            right@[j as int],
                        ).contains(id) by {
                        if merged@.contains(id) {
                            let k = choose|k: int| 0 <= k < merged@.len() && merged@[k] == id;
                            if k < before.len() {
                                assert(before[k] == id);
                            }
                        }
                        if before.contains(id) {
                            let k = choose|k: int| 0 <= k < before.len() && before[k] == id;
                            assert(merged@[k] == id);
                        }
                        if id == right@[j as int] {
                            assert(merged@[before.len() as int] == id);
                        }
                    }
                }
            }
            j += 1;
        }
    }
    proof {
        assert(left@.take(left@.len() as int) =~= left@);
        assert(right@.take(right@.len() as int) =~= right@);
    }
    merged
}

/// The items of `ids`, which holds no item twice, in ascending order.
fn sort_ids(ids: Vec<usize>) -> (sorted: Vec<usize>)
    requires
        ids@.no_duplicates(),
    ensures
        ascending(sorted@),
        sorted@.to_set() == ids@.to_set(),
    decreases ids@.len(),
{
    if ids.len() <= 1 {
        return ids;
    }
    let middle = ids.len() / 2;
    let mut left: Vec<usize> = Vec::new();
    let mut right: Vec<usize> = Vec::new();
    let mut k: usize = 0;
    while k < ids.len()
        invariant
            k <= ids.len(),
            middle == ids.len() / 2,
            left@ == ids@.take(if k < middle { k as int } else { middle as int }),
            right@ == ids@.subrange(middle as int, if k < middle { middle as int } else { k as int }),
        decreases ids.len() - k,
    {
        if k < middle {
            left.push(ids[k]);
            assert(left@ =~= ids@.take(k + 1));
        } else {
            right.push(ids[k]);
            assert(right@ =~= ids@.subrange(middle as int, k + 1));
        }
        k += 1;
    }
    proof {
        assert(left@ =~= ids@.take(middle as int));
        assert(right@ =~= ids@.skip(middle as int));
        assert forall|a: int, b: int| 0 <= a < b < left@.len() implies left@[a] != left@[b] by {
            assert(ids@[a] != ids@[b]);
        }
        assert forall|a: int, b: int| 0 <= a < b < right@.len() implies right@[a] != right@[b] by {
            assert(ids@[middle + a] != ids@[middle + b]);
        }
        assert forall|id: usize| !(left@.to_set().contains(id) && right@.to_set().contains(id)) by {
            if left@.contains(id) && right@.contains(id) {
                let a = choose|a: int| 0 <= a < left@.len() && left@[a] == id;
                let b = choose|b: int| 0 <= b < right@.len() && right@[b] == id;
                assert(ids@[a] == ids@[middle + b]);
            }
        }
        assert forall|id: usize|
            ids@.to_set().contains(id) == left@.to_set().union(right@.to_set()).contains(id) by {
            if ids@.contains(id) {
                let a = choose|a: int| 0 <= a < ids@.len() && ids@[a] == id;
                if a < middle {
                    assert(left@[a] == id);
                } else {
                    assert(right@[a - middle] == id);
                }
            }
            if left@.contains(id) {
                let a = choose|a: int| 0 <= a < left@.len() && left@[a] == id;
                assert(ids@[a] == id);
            }
            if right@.contains(id) {
                let b = choose|b: int| 0 <= b < right@.len() && right@[b] == id;
                assert(ids@[middle + b] == id);
            }
        }
        assert(ids@.to_set() =~= left@.to_set().union(right@.to_set()));
    }
    let left = sort_ids(left);
    let right = sort_ids(right);
    merge_ids(&left, &right)
}

} // verus!
