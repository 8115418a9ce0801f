//! The interpreter: what one cursor does in one tick.

use vstd::prelude::*;
use rand::rngs::SmallRng;
use crate::coords::{blank_cells, chunk_of, lemma_split_coordinate, CHUNK_WIDTH};
use crate::cursor::{Cursor, CursorView, Direction};
use crate::grid::{ascending, Grid, GridError, GridView};
use crate::rng::draw_turn;
use crate::update::{views, ActionView, GridUpdate, GridUpdateAction, UpdateView};

verus! {

/// Cell that makes a cursor face up: `^`.
pub const TURN_UP: u8 = 94;

/// Cell that makes a cursor face down: `v`.
pub const TURN_DOWN: u8 = 118;

/// Cell that makes a cursor face left: `<`.
pub const TURN_LEFT: u8 = 60;

/// Cell that makes a cursor face right: `>`.
pub const TURN_RIGHT: u8 = 62;

/// Cell that makes a cursor face a way drawn at random: `?`.
pub const TURN_RANDOM: u8 = 63;

/// Cell that switches string mode on and off: `"`.
pub const QUOTE: u8 = 34;

/// The direction that a drawn number stands for.
pub open spec fn drawn_direction(draw: int) -> Direction {
    if draw == 0 {
        Direction::Up
    } else if draw == 1 {
        Direction::Down
    } else if draw == 2 {
        Direction::Left
    } else {
        Direction::Right
    }
}

/// The direction that `cell` gives a cursor in command mode, if it gives one.
/// `draw` is the number drawn for this step; only the random turn reads it.
pub open spec fn turn(cell: u8, draw: int) -> Option<Direction> {
    if cell == TURN_UP {
        Some(Direction::Up)
    } else if cell == TURN_DOWN {
        Some(Direction::Down)
    } else if cell == TURN_LEFT {
        Some(Direction::Left)
    } else if cell == TURN_RIGHT {
        Some(Direction::Right)
    } else if cell == TURN_RANDOM {
        Some(drawn_direction(draw))
    } else {
        None
    }
}

/// Whether a cursor on `cell` needs a random number for its step.
pub open spec fn needs_draw(string_mode: bool, cell: u8) -> bool {
    !string_mode && cell == TURN_RANDOM
}

/// The cell one step from `(x, y)` in `direction`. Up and down change `y`
/// only, left and right change `x` only. The coordinate space ends at 0 and
/// at `usize::MAX`: a step across either edge is clamped, so the cursor
/// stays on the edge cell.
pub open spec fn ahead(x: usize, y: usize, direction: Direction) -> (usize, usize) {
    match direction {
        Direction::Left => (if x > 0 { (x - 1) as usize } else { x }, y),
        Direction::Right => (if x < usize::MAX { (x + 1) as usize } else { x }, y),
        Direction::Up => (x, if y > 0 { (y - 1) as usize } else { y }),
        Direction::Down => (x, if y < usize::MAX { (y + 1) as usize } else { y }),
    }
}

/// What the cell under the cursor makes of it, before it moves: in string
/// mode the quote leaves string mode and any other cell is pushed as a
/// number; in command mode a turn cell changes the direction and any other
/// cell does nothing.
pub open spec fn cell_effect(id: usize, cursor: CursorView, cell: u8, draw: int) -> Seq<
    UpdateView,
> {
    if cursor.string_mode {
        if cell == QUOTE {
            seq![UpdateView { action: ActionView::ToggleStringMode { id }, x: cursor.x, y: cursor.y }]
        } else {
            seq![
                UpdateView {
                    action: ActionView::UpdateStack { id, pop: 0, push: seq![cell as i64] },
                    x: cursor.x,
                    y: cursor.y,
                },
            ]
        }
    } else {
        match turn(cell, draw) {
            Some(direction) => seq![
                UpdateView {
                    action: ActionView::ChangeDirection { id, direction },
                    x: cursor.x,
                    y: cursor.y,
                },
            ],
            None => Seq::empty(),
        }
    }
}

/// The way the cursor faces once the cell under it has had its effect.
pub open spec fn heading(cursor: CursorView, cell: u8, draw: int) -> Direction {
    if cursor.string_mode {
        cursor.direction
    } else {
        match turn(cell, draw) {
            Some(direction) => direction,
            None => cursor.direction,
        }
    }
}

/// How the step ends: a cursor without energy is destroyed and does not
/// move; any other moves one cell the way it now faces and pays one unit.
pub open spec fn advance(id: usize, cursor: CursorView, direction: Direction) -> Seq<UpdateView> {
    if cursor.energy == 0 {
        seq![UpdateView { action: ActionView::DestroyCursor { id }, x: cursor.x, y: cursor.y }]
    } else {
        let to = ahead(cursor.x, cursor.y, direction);
        seq![
            UpdateView {
                action: ActionView::MoveCursor { id, to_x: to.0, to_y: to.1 },
                x: cursor.x,
                y: cursor.y,
            },
            UpdateView {
                action: ActionView::ConsumeEnergy { id, energy: 1 },
                x: cursor.x,
                y: cursor.y,
            },
        ]
    }
}

/// The updates of one step of cursor `id`, which stands on `cell` at the
/// position that `cursor` holds: the effect of the cell, then the end of the
/// step. Every update is anchored where the cursor stands.
pub open spec fn cursor_step(id: usize, cursor: CursorView, cell: u8, draw: int) -> Seq<
    UpdateView,
> {
    cell_effect(id, cursor, cell, draw) + advance(id, cursor, heading(cursor, cell, draw))
}

/// The direction that the drawn number `draw` stands for.
pub fn direction_of_draw(draw: i32) -> (direction: Direction)
    ensures
        direction == drawn_direction(draw as int),
{
    if draw == 0 {
        Direction::Up
    } else if draw == 1 {
        Direction::Down
    } else if draw == 2 {
        Direction::Left
    } else {
        Direction::Right
    }
}

/// Appends to `updates` what `cell` makes of cursor `id`, which stands on it
/// at `(x, y)`, and returns the way the cursor faces afterwards.
fn emit_cell_effect(
    updates: &mut Vec<GridUpdate>,
    id: usize,
    x: usize,
    y: usize,
    cursor: &Cursor,
    cell: u8,
    draw: i32,
) -> (direction: Direction)
    ensures
        views(final(updates)@) == views(old(updates)@) + cell_effect(
            id,
            cursor@.at(x, y),
            cell,
            draw as int,
        ),
        direction == heading(cursor@.at(x, y), cell, draw as int),
{
    let ghost before = views(updates@);
    let ghost here = cursor@.at(x, y);
    let mut direction = cursor.direction;
    if cursor.string_mode {
        if cell == QUOTE {
            updates.push(GridUpdate { x, y, action: GridUpdateAction::ToggleStringMode { id } });
        } else {
            let mut push: Vec<i64> = Vec::new();
            push.push(cell as i64);
            assert(push@ =~= seq![cell as i64]);
            updates.push(
                GridUpdate { x, y, action: GridUpdateAction::UpdateStack { id, pop: 0, push } },
            );
        }
    } else {
        let turned = if cell == TURN_UP {
            Some(Direction::Up)
        } else if cell == TURN_DOWN {
            Some(Direction::Down)
        } else if cell == TURN_LEFT {
            Some(Direction::Left)
        } else if cell == TURN_RIGHT {
            Some(Direction::Right)
        } else if cell == TURN_RANDOM {
            Some(direction_of_draw(draw))
        } else {
            None
        };
        match turned {
            Some(d) => {
                direction = d;
                updates.push(
                    GridUpdate { x, y, action: GridUpdateAction::ChangeDirection { id, direction } },
                );
            },
            None => {},
        }
    }
    assert(views(updates@) =~= before + cell_effect(id, here, cell, draw as int));
    direction
}

/// Appends to `updates` the end of the step of cursor `id`, which stands at
/// `(x, y)` and faces `direction`.
fn emit_advance(
    updates: &mut Vec<GridUpdate>,
    id: usize,
    x: usize,
    y: usize,
    cursor: &Cursor,
    direction: Direction,
)
    ensures
        views(final(updates)@) == views(old(updates)@) + advance(id, cursor@.at(x, y), direction),
{
    let ghost before = views(updates@);
    if cursor.energy == 0 {
        updates.push(GridUpdate { x, y, action: GridUpdateAction::DestroyCursor { id } });
    } else {
        let to_x = match direction {
            Direction::Left => if x > 0 {
                x - 1
            } else {
                x
            },
            Direction::Right => if x < usize::MAX {
                x + 1
            } else {
                x
            },
            _ => x,
        };
        let to_y = match direction {
            Direction::Up => if y > 0 {
                y - 1
            } else {
                y
            },
            Direction::Down => if y < usize::MAX {
                y + 1
            } else {
                y
            },
            _ => y,
        };
        updates.push(GridUpdate { x, y, action: GridUpdateAction::MoveCursor { id, to_x, to_y } });
        updates.push(
            GridUpdate { x, y, action: GridUpdateAction::ConsumeEnergy { id, energy: 1 } },
        );
    }
    assert(views(updates@) =~= before + advance(id, cursor@.at(x, y), direction));
}

/// Appends to `updates` the step of cursor `id`, which stands at `(x, y)` on
/// `cell`; `cursor` holds its state and `draw` is the number drawn for it.
pub fn emit_step(
    updates: &mut Vec<GridUpdate>,
    id: usize,
    x: usize,
    y: usize,
    cursor: &Cursor,
    cell: u8,
    draw: i32,
)
    ensures
        views(final(updates)@) == views(old(updates)@) + cursor_step(
            id,
            cursor@.at(x, y),
            cell,
            draw as int,
        ),
{
    let direction = emit_cell_effect(updates, id, x, y, cursor, cell, draw);
    emit_advance(updates, id, x, y, cursor, direction);
}

/// The updates of one step of cursor `id` of `grid`, read off the grid as it
/// stands: the cursor's state and the cell under it.
pub open spec fn step_of(grid: GridView, id: usize, draw: int) -> Seq<UpdateView> {
    let cursor = grid.cursors[id];
    cursor_step(id, cursor, grid.cell(cursor.x, cursor.y), draw)
}

/// The updates of one tick: the steps of the cursors of `order`, in that
/// order, each read off the same `grid`. `draws` holds for each cursor the
/// number drawn for its step.
pub open spec fn tick_updates(grid: GridView, order: Seq<usize>, draws: Map<usize, int>) -> Seq<
    UpdateView,
>
    decreases order.len(),
{
    if order.len() == 0 {
        Seq::empty()
    } else {
        tick_updates(grid, order.drop_last(), draws) + step_of(
            grid,
            order.last(),
            draws[order.last()],
        )
    }
}

/// Whether `order` lists every cursor of `grid` once.
pub open spec fn lists_cursors(grid: GridView, order: Seq<usize>) -> bool {
    order.no_duplicates() && order.to_set() == grid.cursors.dom()
}

/// Whether `order` and `draws` can be those of a tick of `grid`: the cursors
/// step in ascending order of their identities, each once, and the number
/// drawn for each stands for a direction.
pub open spec fn tick_inputs(grid: GridView, order: Seq<usize>, draws: Map<usize, int>) -> bool {
    &&& ascending(order)
    &&& lists_cursors(grid, order)
    &&& forall|id: usize| #[trigger]
        grid.has_cursor(id) ==> draws.contains_key(id) && 0 <= draws[id] < 4
}

/// The cursor once the cell under it has had its effect.
pub open spec fn after_cell(cursor: CursorView, cell: u8, draw: int) -> CursorView {
    if cursor.string_mode {
        if cell == QUOTE {
            cursor.toggled()
        } else {
            cursor.restacked(0, seq![cell as i64])
        }
    } else {
        match turn(cell, draw) {
            Some(direction) => cursor.facing(direction),
            None => cursor,
        }
    }
}

/// The cursor after one step on `cell`, or `None` if the step destroys it:
/// a cursor with energy left takes the effect of the cell, moves one cell
/// the way it then faces, and has one unit of energy less.
pub open spec fn stepped(cursor: CursorView, cell: u8, draw: int) -> Option<CursorView> {
    if cursor.energy == 0 {
        None
    } else {
        let to = ahead(cursor.x, cursor.y, heading(cursor, cell, draw));
        Some(after_cell(cursor, cell, draw).at(to.0, to.1).spent(1))
    }
}

impl GridView {
    /// Cursor `id` after its step, or `None` if the step destroys it.
    pub open spec fn next_of(self, id: usize, draw: int) -> Option<CursorView> {
        let cursor = self.cursors[id];
        stepped(cursor, self.cell(cursor.x, cursor.y), draw)
    }

    /// Whether the step of cursor `id` takes it to a cell of chunk `c`.
    pub open spec fn enters(self, id: usize, draw: int, c: (usize, usize)) -> bool {
        self.next_of(id, draw) matches Some(next) && chunk_of(next.x, next.y) == c
    }

    /// Whether the step of a cursor of `done` takes it to a cell of chunk `c`.
    pub open spec fn entered(
        self,
        done: Set<usize>,
        draws: Map<usize, int>,
        c: (usize, usize),
    ) -> bool {
        exists|id: usize| done.contains(id) && self.has_cursor(id) && #[trigger] self.enters(
            id,
            draws[id],
            c,
        )
    }

    /// The grid after the cursors of `done` have each taken one step, all
    /// read off this grid: each of them is where its step took it, or gone
    /// if its step destroyed it; every other cursor is as it was; the cells
    /// are as they were; and the chunks that a cursor of `done` entered are
    /// allocated.
    pub open spec fn ticked(self, done: Set<usize>, draws: Map<usize, int>) -> GridView {
        GridView {
            chunks: Map::new(
                |c: (usize, usize)| self.chunks.contains_key(c) || self.entered(done, draws, c),
                |c: (usize, usize)|
                    if self.chunks.contains_key(c) {
                        self.chunks[c]
                    } else {
                        blank_cells()
                    },
            ),
            cursors: Map::new(
                |id: usize|
                    self.has_cursor(id) && (done.contains(id) ==> self.next_of(id, draws[id])
                        is Some),
                |id: usize|
                    if done.contains(id) {
                        self.next_of(id, draws[id])->Some_0
                    } else {
                        self.cursors[id]
                    },
            ),
        }
    }
}

/// One tick in the making: the grid as it stands at the start of the tick,
/// the random source, and the updates produced so far.
pub struct SimulationStep<'g> {
    pub updates: Vec<GridUpdate>,
    pub rng: &'g mut SmallRng,
    pub grid: &'g Grid,
}

impl<'g> SimulationStep<'g> {
    /// Appends the step of cursor `id`, which stands in chunk `chunk_pos`. A
    /// number is drawn from the random source if and only if the cursor
    /// stands on a random turn in command mode.
    pub fn step_cursor(&mut self, id: usize, chunk_pos: (usize, usize))
        requires
            old(self).grid.wf(),
            old(self).grid@.has_cursor(id),
            chunk_pos == old(self).grid@.home(id),
        ensures
            final(self).grid == old(self).grid,
            exists|draw: int|
                0 <= draw < 4 && views(final(self).updates@) == views(old(self).updates@)
                    + #[trigger] step_of(old(self).grid@, id, draw),
    {
        proof {
            self.grid.lemma_view_wf();
            lemma_split_coordinate(self.grid@.cursors[id].x);
            lemma_split_coordinate(self.grid@.cursors[id].y);
        }
        let chunk = self.grid.chunk(chunk_pos.0, chunk_pos.1).unwrap();
        let cursor = chunk.cursor(id).unwrap();
        let abs_x = cursor.x + chunk_pos.0 * CHUNK_WIDTH;
        let abs_y = cursor.y + chunk_pos.1 * CHUNK_WIDTH;
        let cell = chunk.get(cursor.x, cursor.y);
        let draw = if !cursor.string_mode && cell == TURN_RANDOM {
            draw_turn(self.rng)
        } else {
            0
        };
        emit_step(&mut self.updates, id, abs_x, abs_y, cursor, cell, draw);
        assert(views(self.updates@) == views(old(self).updates@) + step_of(
            self.grid@,
            id,
            draw as int,
        ));
    }

    /// Appends the steps of all cursors, each read off the grid as it
    /// stands, in ascending order of the cursors' identities.
    pub fn step_grid(&mut self)
        requires
            old(self).grid.wf(),
        ensures
            final(self).grid == old(self).grid,
            exists|order: Seq<usize>, draws: Map<usize, int>|
                tick_inputs(old(self).grid@, order, draws) && views(final(self).updates@) == views(
                    old(self).updates@,
                ) + #[trigger] tick_updates(old(self).grid@, order, draws),
    {
        let ids = self.grid.cursor_ids();
        let ghost start = views(self.updates@);
        let ghost grid = self.grid@;
        let ghost mut draws: Map<usize, int> = Map::empty();
        let mut i: usize = 0;
        assert(start + tick_updates(grid, ids@.take(0), draws) =~= start);
        while i < ids.len()
            invariant
                self.grid == old(self).grid,
                self.grid.wf(),
                grid == self.grid@,
                i <= ids.len(),
                ascending(ids@),
                ids@.no_duplicates(),
                ids@.to_set() == grid.cursors.dom(),
                forall|j: int|
                    0 <= j < i ==> draws.contains_key(#[trigger] ids@[j]) && 0 <= draws[ids@[j]]
                        < 4,
                views(self.updates@) == start + tick_updates(grid, ids@.take(i as int), draws),
            decreases ids.len() - i,
        {
            let ghost before = views(self.updates@);
            assert(ids@.to_set().contains(ids@[i as int]));
            let chunk_pos = self.grid.cursor_chunk(ids[i]).unwrap();
            self.step_cursor(ids[i], chunk_pos);
            proof {
                let id = ids@[i as int];
                let draw = choose|draw: int|
                    0 <= draw < 4 && views(self.updates@) == before + #[trigger] step_of(
                        grid,
                        id,
                        draw,
                    );
                let order = ids@.take(i + 1);
                assert(order.drop_last() =~= ids@.take(i as int));
                lemma_draws_agree(grid, ids@.take(i as int), draws, draws.insert(id, draw));
                draws = draws.insert(id, draw);
                assert(views(self.updates@) =~= start + tick_updates(grid, order, draws));
            }
            i += 1;
        }
        proof {
            assert(ids@.take(ids@.len() as int) =~= ids@);
            assert forall|id: usize| #[trigger] grid.has_cursor(id) implies draws.contains_key(id)
                && 0 <= draws[id] < 4 by {
                assert(ids@.to_set().contains(id));
                let j = choose|j: int| 0 <= j < ids@.len() && ids@[j] == id;
                assert(draws.contains_key(ids@[j]));
            }
        }
    }
}

/// A grid with the random source that its cursors draw from.
pub struct Simulation {
    pub rng: SmallRng,
    pub grid: Grid,
}

impl Simulation {
    /// A simulation of `grid` that draws from `rng`.
    pub fn new(grid: Grid, rng: SmallRng) -> (simulation: Simulation)
        ensures
            simulation.grid == grid,
            simulation.rng == rng,
    {
        Simulation { rng, grid }
    }

    /// Runs one tick and returns its updates. First every cursor takes one
    /// step against the grid as it stands at the start of the tick; then the
    /// updates are applied in the order in which they were produced. None of
    /// them is refused, and the grid that results does not depend on the
    /// order in which the cursors took their steps.
    pub fn step(&mut self) -> (updates: Vec<GridUpdate>)
        requires
            old(self).grid.wf(),
        ensures
            final(self).grid.wf(),
            exists|order: Seq<usize>, draws: Map<usize, int>|
                {
                    &&& tick_inputs(old(self).grid@, order, draws)
                    &&& views(updates@) == #[trigger] tick_updates(old(self).grid@, order, draws)
                    &&& final(self).grid@ == old(self).grid@.ticked(
                        old(self).grid@.cursors.dom(),
                        draws,
                    )
                },
            old(self).grid@.apply_all(views(updates@)) == Ok::<GridView, GridError>(
                final(self).grid@,
            ),
    {
        let mut step = SimulationStep { updates: Vec::new(), rng: &mut self.rng, grid: &self.grid };
        assert(views(step.updates@) =~= Seq::empty());
        step.step_grid();
        let updates = step.updates;
        let ghost start = self.grid@;
        let ghost all = views(updates@);
        let ghost (order, draws) = choose|order: Seq<usize>, draws: Map<usize, int>|
            tick_inputs(start, order, draws) && all == Seq::<UpdateView>::empty()
                + #[trigger] tick_updates(start, order, draws);
        proof {
            self.grid.lemma_view_wf();
            assert forall|i: int| 0 <= i < order.len() implies start.has_cursor(
                #[trigger] order[i],
            ) by {
                assert(order.to_set().contains(order[i]));
            }
            lemma_tick_commits(start, order, draws);
            assert(all =~= tick_updates(start, order, draws));
        }
        let mut i: usize = 0;
        assert(all.take(0) =~= Seq::empty());
        while i < updates.len()
            invariant
                i <= updates.len(),
                self.grid.wf(),
                all == views(updates@),
                start.apply_all(all) is Ok,
                start.apply_all(all.take(i as int)) == Ok::<GridView, GridError>(self.grid@),
            decreases updates.len() - i,
        {
            proof {
                lemma_applied_prefix(start, all, i + 1);
                assert(all.take(i + 1).drop_last() =~= all.take(i as int));
            }
            let applied = self.grid.apply(updates[i].clone());
            assert(applied is Ok);
            i += 1;
        }
        proof {
            assert(all.take(all.len() as int) =~= all);
            assert(tick_inputs(start, order, draws) && all == tick_updates(start, order, draws)
                && self.grid@ == start.ticked(start.cursors.dom(), draws));
        }
        updates
    }
}

/// Applying `first + second` is applying `first`, then `second`.
pub proof fn lemma_apply_all_concat(grid: GridView, first: Seq<UpdateView>, second: Seq<UpdateView>)
    ensures
        grid.apply_all(first + second) == match grid.apply_all(first) {
            Ok(next) => next.apply_all(second),
            Err(e) => Err(e),
        },
    decreases second.len(),
{
    if second.len() == 0 {
        assert(first + second =~= first);
    } else {
        assert((first + second).drop_last() =~= first + second.drop_last());
        lemma_apply_all_concat(grid, first, second.drop_last());
    }
}

/// If all of `updates` can be applied, so can its first `n`.
pub proof fn lemma_applied_prefix(grid: GridView, updates: Seq<UpdateView>, n: int)
    requires
        0 <= n <= updates.len(),
        grid.apply_all(updates) is Ok,
    ensures
        grid.apply_all(updates.take(n)) is Ok,
    decreases updates.len(),
{
    if n == updates.len() {
        assert(updates.take(n) =~= updates);
    } else {
        assert(updates.drop_last().take(n) =~= updates.take(n));
        lemma_applied_prefix(grid, updates.drop_last(), n);
    }
}

/// The updates of a tick depend on the numbers drawn for its cursors only.
pub proof fn lemma_draws_agree(
    grid: GridView,
    order: Seq<usize>,
    first: Map<usize, int>,
    second: Map<usize, int>,
)
    requires
        forall|i: int| 0 <= i < order.len() ==> first[#[trigger] order[i]] == second[order[i]],
    ensures
        tick_updates(grid, order, first) == tick_updates(grid, order, second),
    decreases order.len(),
{
    if order.len() > 0 {
        assert forall|i: int| 0 <= i < order.drop_last().len() implies first[
            #[trigger] order.drop_last()[i]] == second[order.drop_last()[i]] by {
            assert(order.drop_last()[i] == order[i]);
        }
        lemma_draws_agree(grid, order.drop_last(), first, second);
        assert(first[order[order.len() - 1]] == second[order[order.len() - 1]]);
    }
}

/// Applying one update is applying it.
pub proof fn lemma_apply_one(grid: GridView, update: UpdateView)
    ensures
        grid.apply_all(seq![update]) == grid.apply(update),
{
    reveal_with_fuel(GridView::apply_all, 2);
    assert(seq![update].drop_last() =~= Seq::<UpdateView>::empty());
}

/// Applying two updates is applying the first, then the second.
pub proof fn lemma_apply_two(grid: GridView, first: UpdateView, second: UpdateView)
    ensures
        grid.apply_all(seq![first, second]) == match grid.apply(first) {
            Ok(next) => next.apply(second),
            Err(e) => Err(e),
        },
{
    assert(seq![first, second].drop_last() =~= seq![first]);
    lemma_apply_one(grid, first);
}

/// The effect of the cell under a cursor, applied to a grid that holds the
/// cursor as the step saw it, leaves the cursor as [`after_cell`] says.
proof fn lemma_effect_result(grid: GridView, id: usize, cell: u8, draw: int)
    requires
        grid.has_cursor(id),
        grid.chunks.contains_key(grid.home(id)),
    ensures
        grid.apply_all(cell_effect(id, grid.cursors[id], cell, draw)) == Ok::<GridView, GridError>(
            grid.with_cursor(id, after_cell(grid.cursors[id], cell, draw)),
        ),
{
    let cursor = grid.cursors[id];
    let effect = cell_effect(id, cursor, cell, draw);
    let after = grid.with_cursor(id, after_cell(cursor, cell, draw));
    if effect.len() == 0 {
        assert(after.cursors =~= grid.cursors);
    } else {
        assert(effect =~= seq![effect[0]]);
        lemma_apply_one(grid, effect[0]);
    }
}

/// The end of a cursor's step, applied to a grid that holds the cursor where
/// the step saw it and with the energy that the step saw, destroys the
/// cursor if it has no energy, and else moves it and takes one unit.
proof fn lemma_advance_result(grid: GridView, id: usize, direction: Direction)
    requires
        grid.has_cursor(id),
        grid.chunks.contains_key(grid.home(id)),
    ensures
        grid.apply_all(advance(id, grid.cursors[id], direction)) == Ok::<GridView, GridError>(
            if grid.cursors[id].energy == 0 {
                grid.without_cursor(id)
            } else {
                let to = ahead(grid.cursors[id].x, grid.cursors[id].y, direction);
                grid.with_cursor(id, grid.cursors[id].at(to.0, to.1).spent(1))
            },
        ),
{
    let cursor = grid.cursors[id];
    let rest = advance(id, cursor, direction);
    if cursor.energy == 0 {
        assert(rest =~= seq![rest[0]]);
        lemma_apply_one(grid, rest[0]);
    } else {
        let to = ahead(cursor.x, cursor.y, direction);
        let moved = grid.with_cursor(id, cursor.at(to.0, to.1));
        let paid = moved.with_cursor(id, cursor.at(to.0, to.1).spent(1));
        let wanted = grid.with_cursor(id, cursor.at(to.0, to.1).spent(1));
        assert(rest =~= seq![rest[0], rest[1]]);
        lemma_apply_two(grid, rest[0], rest[1]);
        assert(grid.apply(rest[0]) == Ok::<GridView, GridError>(moved));
        assert(moved.apply(rest[1]) == Ok::<GridView, GridError>(paid));
        assert(paid.cursors =~= wanted.cursors);
        assert(paid.chunks =~= wanted.chunks);
    }
}

/// The step of a cursor, applied to a grid that holds the cursor as the step
/// saw it, leaves the cursor as [`stepped`] says, and all else as it was.
pub proof fn lemma_step_result(grid: GridView, id: usize, cell: u8, draw: int)
    requires
        grid.has_cursor(id),
        grid.chunks.contains_key(grid.home(id)),
    ensures
        grid.apply_all(cursor_step(id, grid.cursors[id], cell, draw)) == Ok::<GridView, GridError>(
            match stepped(grid.cursors[id], cell, draw) {
                Some(next) => grid.with_cursor(id, next),
                None => grid.without_cursor(id),
            },
        ),
{
    let cursor = grid.cursors[id];
    let direction = heading(cursor, cell, draw);
    let effect = cell_effect(id, cursor, cell, draw);
    let turned = after_cell(cursor, cell, draw);
    let middle = grid.with_cursor(id, turned);
    lemma_apply_all_concat(grid, effect, advance(id, cursor, direction));
    lemma_effect_result(grid, id, cell, draw);
    assert(middle.cursors[id] == turned);
    assert(advance(id, turned, direction) == advance(id, cursor, direction));
    lemma_advance_result(middle, id, direction);
    match stepped(cursor, cell, draw) {
        Some(next) => {
            let done = middle.with_cursor(id, next);
            let wanted = grid.with_cursor(id, next);
            assert(done.cursors =~= wanted.cursors);
            assert(done.chunks =~= wanted.chunks);
        },
        None => {
            let done = middle.without_cursor(id);
            let wanted = grid.without_cursor(id);
            assert(done.cursors =~= wanted.cursors);
            assert(done.chunks =~= wanted.chunks);
        },
    }
}

/// The updates of a tick can be applied in the order in which they were
/// produced, whatever the order of the cursors, and leave the grid as
/// [`GridView::ticked`] says.
pub proof fn lemma_tick_commits(grid: GridView, order: Seq<usize>, draws: Map<usize, int>)
    requires
        grid.wf(),
        order.no_duplicates(),
        forall|i: int| 0 <= i < order.len() ==> grid.has_cursor(#[trigger] order[i]),
    ensures
        grid.apply_all(tick_updates(grid, order, draws)) == Ok::<GridView, GridError>(
            grid.ticked(order.to_set(), draws),
        ),
    decreases order.len(),
{
    if order.len() == 0 {
        let same = grid.ticked(order.to_set(), draws);
        assert(same.cursors =~= grid.cursors);
        assert(same.chunks =~= grid.chunks);
    } else {
        let id = order.last();
        let earlier = order.drop_last();
        lemma_tick_commits(grid, earlier, draws);
        let before = grid.ticked(earlier.to_set(), draws);
        let after = grid.ticked(order.to_set(), draws);
        let cursor = grid.cursors[id];
        let cell = grid.cell(cursor.x, cursor.y);
        assert(grid.has_cursor(order[order.len() - 1]));
        assert(!earlier.contains(id)) by {
            if earlier.contains(id) {
                let j = choose|j: int| 0 <= j < earlier.len() && earlier[j] == id;
                assert(order[j] == order[order.len() - 1]);
            }
        }
        assert forall|other: usize| order.to_set().contains(other) == (earlier.to_set().contains(
            other,
        ) || other == id) by {
            if earlier.contains(other) {
                let j = choose|j: int| 0 <= j < earlier.len() && earlier[j] == other;
                assert(order[j] == other);
            }
            if order.contains(other) {
                let j = choose|j: int| 0 <= j < order.len() && order[j] == other;
                if j < earlier.len() {
                    assert(earlier[j] == other);
                }
            }
            if other == id {
                assert(order[order.len() - 1] == other);
            }
        }
        assert(before.cursors[id] == cursor);
        assert(before.chunks.contains_key(before.home(id)));
        lemma_apply_all_concat(grid, tick_updates(grid, earlier, draws), step_of(grid, id, draws[id]));
        lemma_step_result(before, id, cell, draws[id]);
        let next = stepped(cursor, cell, draws[id]);
        let result = match next {
            Some(next) => before.with_cursor(id, next),
            None => before.without_cursor(id),
        };
        assert(result.cursors =~= after.cursors);
        assert forall|c: (usize, usize)| result.chunks.contains_key(c) == after.chunks.contains_key(
            c,
        ) by {
            if grid.entered(earlier.to_set(), draws, c) {
                let other = choose|other: usize|
                    earlier.to_set().contains(other) && grid.has_cursor(other)
                        && #[trigger] grid.enters(other, draws[other], c);
                assert(order.to_set().contains(other) && grid.enters(other, draws[other], c));
            }
            if grid.entered(order.to_set(), draws, c) {
                let other = choose|other: usize|
                    order.to_set().contains(other) && grid.has_cursor(other)
                        && #[trigger] grid.enters(other, draws[other], c);
                if other != id {
                    assert(earlier.to_set().contains(other) && grid.enters(other, draws[other], c));
                }
            }
            if grid.enters(id, draws[id], c) {
                assert(order.to_set().contains(id) && grid.enters(id, draws[id], c));
            }
        }
        assert(result.chunks =~= after.chunks);
    }
}

/// The grid that a tick leaves does not depend on the order in which its
/// cursors took their steps.
pub proof fn lemma_order_is_immaterial(
    grid: GridView,
    first: Seq<usize>,
    second: Seq<usize>,
    draws: Map<usize, int>,
)
    requires
        grid.wf(),
        lists_cursors(grid, first),
        lists_cursors(grid, second),
    ensures
        grid.apply_all(tick_updates(grid, first, draws)) == grid.apply_all(
            tick_updates(grid, second, draws),
        ),
{
    assert forall|i: int| 0 <= i < first.len() implies grid.has_cursor(#[trigger] first[i]) by {
        assert(first.to_set().contains(first[i]));
    }
    assert forall|i: int| 0 <= i < second.len() implies grid.has_cursor(#[trigger] second[i]) by {
        assert(second.to_set().contains(second[i]));
    }
    lemma_tick_commits(grid, first, draws);
    lemma_tick_commits(grid, second, draws);
}

} // verus!
