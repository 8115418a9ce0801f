//! The grid as text: the smallest rectangle that holds everything written,
//! row by row, with the cells on which cursors stand highlighted.

use vstd::prelude::*;
use std::collections::HashSet;
use crate::coords::{
    cell_index, chunk_key, chunk_of, lemma_join_coordinate, lemma_key_injective,
    lemma_split_coordinate, pack, BLANK, CHUNK_CELLS, CHUNK_WIDTH, MAX_CHUNK,
};
use crate::grid::{Grid, GridView};

verus! {

/// A rectangle of cells, with its edges.
#[derive(Clone, Copy, Debug, PartialEq, Eq, Structural)]
pub struct Frame {
    pub min_x: usize,
    pub max_x: usize,
    pub min_y: usize,
    pub max_y: usize,
}

impl Frame {
    /// Whether the cell `(x, y)` lies in the rectangle.
    pub open spec fn holds(self, x: usize, y: usize) -> bool {
        self.min_x <= x <= self.max_x && self.min_y <= y <= self.max_y
    }

    /// The smallest rectangle that holds this one and the cell `(x, y)`.
    pub open spec fn with(self, x: usize, y: usize) -> Frame {
        Frame {
            min_x: if x < self.min_x {
                x
            } else {
                self.min_x
            },
            max_x: if x > self.max_x {
                x
            } else {
                self.max_x
            },
            min_y: if y < self.min_y {
                y
            } else {
                self.min_y
            },
            max_y: if y > self.max_y {
                y
            } else {
                self.max_y
            },
        }
    }
}

impl GridView {
    /// Whether the cell `(x, y)` is written on: it is not blank.
    pub open spec fn inked(self, x: usize, y: usize) -> bool {
        self.cell(x, y) != BLANK
    }

    /// Whether every cell is blank.
    pub open spec fn blank(self) -> bool {
        forall|x: usize, y: usize| !self.inked(x, y)
    }

    /// Whether `frame` is the smallest rectangle that holds every cell that
    /// is written on: it holds them all, and one of them lies on each of its
    /// four edges.
    pub open spec fn framed_by(self, frame: Frame) -> bool {
        &&& forall|x: usize, y: usize| self.inked(x, y) ==> frame.holds(x, y)
        &&& exists|y: usize| self.inked(frame.min_x, y)
        &&& exists|y: usize| self.inked(frame.max_x, y)
        &&& exists|x: usize| self.inked(x, frame.min_y)
        &&& exists|x: usize| self.inked(x, frame.max_y)
    }
}

impl GridView {
    /// Whether a cursor stands on the cell `(x, y)`.
    pub open spec fn cursor_at(self, x: usize, y: usize) -> bool {
        exists|id: usize| self.stands_on(id, x, y)
    }

    /// Whether cursor `id` stands on the cell `(x, y)`.
    pub open spec fn stands_on(self, id: usize, x: usize, y: usize) -> bool {
        self.has_cursor(id) && self.cursors[id].x == x && self.cursors[id].y == y
    }

    /// The cell `(x, y)` as text: its character, and around it, if a cursor
    /// stands on the cell, the marks that switch highlighting on and off.
    pub open spec fn glyph(self, x: usize, y: usize) -> Seq<char> {
        if self.cursor_at(x, y) {
            highlight_on().push(self.cell(x, y) as char) + highlight_off()
        } else {
            seq![self.cell(x, y) as char]
        }
    }

    /// The cells of row `y` from column `from` up to, but without, column
    /// `upto`, as text.
    pub open spec fn row(self, y: usize, from: int, upto: int) -> Seq<char>
        decreases upto - from,
    {
        if upto <= from {
            Seq::empty()
        } else {
            self.row(y, from, upto - 1) + self.glyph((upto - 1) as usize, y)
        }
    }

    /// The rows of `frame` up to, but without, row `upto`, as text: each row
    /// ends with a line feed.
    pub open spec fn rows(self, frame: Frame, upto: int) -> Seq<char>
        decreases upto - frame.min_y,
    {
        if upto <= frame.min_y {
            Seq::empty()
        } else {
            self.rows(frame, upto - 1) + self.row(
                (upto - 1) as usize,
                frame.min_x as int,
                frame.max_x + 1,
            ).push('\n')
        }
    }

    /// The cells of `frame` as text, row by row.
    pub open spec fn picture(self, frame: Frame) -> Seq<char> {
        self.rows(frame, frame.max_y + 1)
    }
}

/// The mark that switches highlighting on: escape, `[7m`.
pub open spec fn highlight_on() -> Seq<char> {
    seq!['\u{1b}', '[', '7', 'm']
}

/// The mark that switches highlighting off: escape, `[0m`.
pub open spec fn highlight_off() -> Seq<char> {
    seq!['\u{1b}', '[', '0', 'm']
}

/// `String::push`: appends the character `c` to `text`.
#[verifier::external_body]
fn push_char(text: &mut String, c: char)
    ensures
        final(text)@ == old(text)@.push(c),
{
    text.push(c)
}

/// A rectangle that is the smallest for a grid is the only such.
pub proof fn lemma_one_frame(grid: GridView, first: Frame, second: Frame)
    requires
        grid.framed_by(first),
        grid.framed_by(second),
    ensures
        first == second,
{
    let left = choose|y: usize| grid.inked(first.min_x, y);
    assert(second.holds(first.min_x, left));
    let right = choose|y: usize| grid.inked(first.max_x, y);
    assert(second.holds(first.max_x, right));
    let top = choose|x: usize| grid.inked(x, first.min_y);
    assert(second.holds(top, first.min_y));
    let bottom = choose|x: usize| grid.inked(x, first.max_y);
    assert(second.holds(bottom, first.max_y));
    let left2 = choose|y: usize| grid.inked(second.min_x, y);
    assert(first.holds(second.min_x, left2));
    let right2 = choose|y: usize| grid.inked(second.max_x, y);
    assert(first.holds(second.max_x, right2));
    let top2 = choose|x: usize| grid.inked(x, second.min_y);
    assert(first.holds(top2, second.min_y));
    let bottom2 = choose|x: usize| grid.inked(x, second.max_y);
    assert(first.holds(bottom2, second.max_y));
}

/// Whether `found` accounts for the cell `(x, y)` of `grid`: if the cell is
/// written on, a rectangle is found and holds it.
spec fn covers(grid: GridView, found: Option<Frame>, x: usize, y: usize) -> bool {
    grid.inked(x, y) ==> found is Some && found->Some_0.holds(x, y)
}

/// Whether the scan has been over the cell `(x, y)` when it stands before
/// cell `k` of chunk `i` of `chunks`.
spec fn scanned(chunks: Seq<(usize, usize)>, i: int, k: int, x: usize, y: usize) -> bool {
    exists|j: int|
        0 <= j < chunks.len() && #[trigger] chunks[j] == chunk_of(x, y) && (j < i || (j == i
            && cell_index(x, y) < k))
}

/// Whether the cells of `marks` are written on and lie on the four edges of
/// `found`, in the order left, right, top, bottom.
spec fn on_edges(grid: GridView, found: Option<Frame>, marks: Seq<(usize, usize)>) -> bool {
    found matches Some(frame) ==> {
        &&& marks.len() == 4
        &&& grid.inked(marks[0].0, marks[0].1) && marks[0].0 == frame.min_x
        &&& grid.inked(marks[1].0, marks[1].1) && marks[1].0 == frame.max_x
        &&& grid.inked(marks[2].0, marks[2].1) && marks[2].1 == frame.min_y
        &&& grid.inked(marks[3].0, marks[3].1) && marks[3].1 == frame.max_y
    }
}

impl Grid {
    /// The smallest rectangle that holds every cell that is written on, or
    /// `None` if every cell is blank.
    pub fn frame(&self) -> (found: Option<Frame>)
        requires
            self.wf(),
        ensures
            match found {
                Some(frame) => self@.framed_by(frame),
                None => self@.blank(),
            },
    {
        let chunks = self.allocated_chunks();
        let mut found: Option<Frame> = None;
        let ghost mut marks: Seq<(usize, usize)> = Seq::empty();
        let mut i: usize = 0;
        while i < chunks.len()
            invariant
                self.wf(),
                i <= chunks.len(),
                chunks@.to_set() == self@.chunks.dom(),
                on_edges(self@, found, marks),
                forall|x: usize, y: usize| #[trigger]
                    scanned(chunks@, i as int, 0, x, y) ==> covers(self@, found, x, y),
            decreases chunks.len() - i,
        {
            let (cx, cy) = chunks[i];
            if cx <= MAX_CHUNK && cy <= MAX_CHUNK {
                if let Some(chunk) = self.chunk(cx, cy) {
                    let mut k: usize = 0;
                    while k < CHUNK_CELLS
                        invariant
                            self.wf(),
                            i < chunks.len(),
                            chunks@[i as int] == (cx, cy),
                            cx <= MAX_CHUNK,
                            cy <= MAX_CHUNK,
                            k <= CHUNK_CELLS,
                            self@.chunks.contains_key((cx, cy)),
                            chunk@.cells == self@.chunks[(cx, cy)],
                            on_edges(self@, found, marks),
                            forall|x: usize, y: usize| #[trigger]
                                scanned(chunks@, i as int, k as int, x, y) ==> covers(
                                    self@,
                                    found,
                                    x,
                                    y,
                                ),
                        decreases CHUNK_CELLS - k,
                    {
                        let rx = k % CHUNK_WIDTH;
                        let ry = k / CHUNK_WIDTH;
                        proof {
                            lemma_join_coordinate(cx, rx);
                            lemma_join_coordinate(cy, ry);
                        }
                        let x = cx * CHUNK_WIDTH + rx;
                        let y = cy * CHUNK_WIDTH + ry;
                        let ghost before = found;
                        if chunk.get(rx, ry) != BLANK {
                            assert(self@.inked(x, y));
                            match found {
                                None => {
                                    found = Some(Frame { min_x: x, max_x: x, min_y: y, max_y: y });
                                    proof {
                                        marks = seq![(x, y), (x, y), (x, y), (x, y)];
                                    }
                                },
                                Some(frame) => {
                                    found = Some(
                                        Frame {
                                            min_x: if x < frame.min_x {
                                                x
                                            } else {
                                                frame.min_x
                                            },
                                            max_x: if x > frame.max_x {
                                                x
                                            } else {
                                                frame.max_x
                                            },
                                            min_y: if y < frame.min_y {
                                                y
                                            } else {
                                                frame.min_y
                                            },
                                            max_y: if y > frame.max_y {
                                                y
                                            } else {
                                                frame.max_y
                                            },
                                        },
                                    );
                                    proof {
                                        if x < frame.min_x {
                                            marks = marks.update(0, (x, y));
                                        }
                                        if x > frame.max_x {
                                            marks = marks.update(1, (x, y));
                                        }
                                        if y < frame.min_y {
                                            marks = marks.update(2, (x, y));
                                        }
                                        if y > frame.max_y {
                                            marks = marks.update(3, (x, y));
                                        }
                                    }
                                },
                            }
                        }
                        proof {
                            assert forall|x2: usize, y2: usize| #[trigger]
                                scanned(chunks@, i as int, k + 1, x2, y2) implies covers(
                                self@,
                                found,
                                x2,
                                y2,
                            ) by {
                                if scanned(chunks@, i as int, k as int, x2, y2) {
                                    assert(covers(self@, before, x2, y2));
                                } else {
                                    assert(chunk_of(x2, y2) == (cx, cy));
                                    assert(cell_index(x2, y2) == k);
                                    lemma_split_coordinate(x2);
                                    lemma_split_coordinate(y2);
                                    assert(x2 == x && y2 == y);
                                }
                            }
                        }
                        k += 1;
                    }
                    proof {
                        assert forall|x: usize, y: usize| #[trigger]
                            scanned(chunks@, i + 1, 0, x, y) implies covers(self@, found, x, y) by {
                            assert(scanned(chunks@, i as int, CHUNK_CELLS as int, x, y)) by {
                                let j = choose|j: int|
                                    0 <= j < chunks@.len() && #[trigger] chunks@[j] == chunk_of(
                                        x,
                                        y,
                                    ) && (j < i + 1 || (j == i + 1 && cell_index(x, y) < 0));
                                assert(chunks@[j] == chunk_of(x, y));
                            }
                        }
                    }
                }
            } else {
                proof {
                    assert forall|x: usize, y: usize| #[trigger]
                        scanned(chunks@, i + 1, 0, x, y) implies covers(self@, found, x, y) by {
                        lemma_split_coordinate(x);
                        lemma_split_coordinate(y);
                        let j = choose|j: int|
                            0 <= j < chunks@.len() && #[trigger] chunks@[j] == chunk_of(x, y) && (j
                                < i + 1 || (j == i + 1 && cell_index(x, y) < 0));
                        assert(j < i);
                        assert(scanned(chunks@, i as int, 0, x, y));
                    }
                }
            }
            i += 1;
        }
        proof {
            assert forall|x: usize, y: usize| self@.inked(x, y) implies found is Some
                && found->Some_0.holds(x, y) by {
                let c = chunk_of(x, y);
                assert(self@.chunks.dom().contains(c));
                assert(chunks@.to_set().contains(c));
                let j = choose|j: int| 0 <= j < chunks@.len() && chunks@[j] == c;
                assert(chunks@[j] == chunk_of(x, y));
                assert(scanned(chunks@, chunks@.len() as int, 0, x, y));
            }
        }
        found
    }

    /// The cells on which cursors stand, each as the key of its coordinate.
    fn cursor_cells(&self) -> (cells: HashSet<u128>)
        requires
            self.wf(),
        ensures
            forall|x: usize, y: usize|
                cells@.contains(#[trigger] chunk_key((x, y))) == self@.cursor_at(x, y),
    {
        let ids = self.cursor_ids();
        let mut cells: HashSet<u128> = HashSet::new();
        let mut i: usize = 0;
        while i < ids.len()
            invariant
                self.wf(),
                i <= ids.len(),
                ids@.to_set() == self@.cursors.dom(),
                forall|x: usize, y: usize|
                    cells@.contains(#[trigger] chunk_key((x, y))) == exists|j: int|
                        0 <= j < i && self@.stands_on(#[trigger] ids@[j], x, y),
            decreases ids.len() - i,
        {
            let ghost before = cells@;
            assert(ids@.to_set().contains(ids@[i as int]));
            let (at_x, at_y) = self.cursor_position(ids[i]).unwrap();
            cells.insert(pack(at_x, at_y));
            proof {
                assert forall|x: usize, y: usize|
                    cells@.contains(#[trigger] chunk_key((x, y))) == exists|j: int|
                        0 <= j < i + 1 && self@.stands_on(#[trigger] ids@[j], x, y) by {
                    lemma_key_injective((x, y), (at_x, at_y));
                    if exists|j: int| 0 <= j < i && self@.stands_on(#[trigger] ids@[j], x, y) {
                        let j = choose|j: int|
                            0 <= j < i && self@.stands_on(#[trigger] ids@[j], x, y);
                        assert(0 <= j < i + 1 && self@.stands_on(ids@[j], x, y));
                    }
                    if (x, y) == (at_x, at_y) {
                        assert(self@.stands_on(ids@[i as int], x, y));
                    }
                    if exists|j: int| 0 <= j < i + 1 && self@.stands_on(#[trigger] ids@[j], x, y) {
                        let j = choose|j: int|
                            0 <= j < i + 1 && self@.stands_on(#[trigger] ids@[j], x, y);
                        if j < i {
                            assert(before.contains(chunk_key((x, y))));
                        }
                    }
                }
            }
            i += 1;
        }
        proof {
            assert forall|x: usize, y: usize|
                cells@.contains(#[trigger] chunk_key((x, y))) == self@.cursor_at(x, y) by {
                if self@.cursor_at(x, y) {
                    let id = choose|id: usize| self@.stands_on(id, x, y);
                    assert(ids@.to_set().contains(id));
                    let j = choose|j: int| 0 <= j < ids@.len() && ids@[j] == id;
                    assert(self@.stands_on(ids@[j], x, y));
                }
            }
        }
        cells
    }

    /// The grid as text: the cells of the smallest rectangle that holds
    /// every cell that is written on, row by row, each row ended by a line
    /// feed; a cell on which a cursor stands is highlighted. A grid that is
    /// blank all over gives the empty text.
    pub fn render(&self) -> (text: String)
        requires
            self.wf(),
        ensures
            self@.blank() ==> text@ == Seq::<char>::empty(),
            forall|frame: Frame| self@.framed_by(frame) ==> text@ == self@.picture(frame),
    {
        let mut text = String::new();
        let frame = match self.frame() {
            Some(frame) => frame,
            None => {
                return text;
            },
        };
        proof {
            assert forall|other: Frame| self@.framed_by(other) implies other == frame by {
                lemma_one_frame(self@, other, frame);
            }
            let x = choose|x: usize| self@.inked(x, frame.min_y);
            assert(frame.holds(x, frame.min_y));
        }
        let marked = self.cursor_cells();
        let mut y = frame.min_y;
        loop
            invariant_except_break
                frame.min_y <= y <= frame.max_y,
                text@ == self@.rows(frame, y as int),
            invariant
                frame.min_x <= frame.max_x,
                forall|x: usize, y: usize|
                    marked@.contains(#[trigger] chunk_key((x, y))) == self@.cursor_at(x, y),
            ensures
                text@ == self@.rows(frame, frame.max_y + 1),
            decreases frame.max_y - y,
        {
            let ghost above = text@;
            let mut x = frame.min_x;
            loop
                invariant_except_break
                    frame.min_x <= x <= frame.max_x,
                    text@ == above + self@.row(y, frame.min_x as int, x as int),
                invariant
                    forall|x: usize, y: usize|
                        marked@.contains(#[trigger] chunk_key((x, y))) == self@.cursor_at(x, y),
                ensures
                    text@ == above + self@.row(y, frame.min_x as int, frame.max_x + 1),
                decreases frame.max_x - x,
            {
                let c = self.get_cell(x, y) as char;
                let ghost left = text@;
                if marked.contains(&pack(x, y)) {
                    push_char(&mut text, '\u{1b}');
                    push_char(&mut text, '[');
                    push_char(&mut text, '7');
                    push_char(&mut text, 'm');
                    push_char(&mut text, c);
                    push_char(&mut text, '\u{1b}');
                    push_char(&mut text, '[');
                    push_char(&mut text, '0');
                    push_char(&mut text, 'm');
                } else {
                    push_char(&mut text, c);
                }
                proof {
                    assert(text@ =~= left + self@.glyph(x, y));
                    assert(text@ =~= above + self@.row(y, frame.min_x as int, x + 1));
                }
                if x == frame.max_x {
                    break ;
                }
                x += 1;
            }
            push_char(&mut text, '\n');
            proof {
                assert(text@ =~= self@.rows(frame, y + 1));
            }
            if y == frame.max_y {
                break ;
            }
            y += 1;
        }
        text
    }
}

} // verus!
