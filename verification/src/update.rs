//! Updates: the atomic changes that a grid undergoes.

use vstd::prelude::*;
use crate::coords::{chunk_of, CHUNK_WIDTH};
use crate::cursor::Direction;

verus! {

/// What an update does. Cursors are named by their identity.
#[derive(Debug, PartialEq, Eq)]
pub enum GridUpdateAction {
    /// Write `c` to the anchor cell.
    UpdateCell { c: u8 },
    /// Move cursor `id` to the cell `(to_x, to_y)`.
    MoveCursor { id: usize, to_x: usize, to_y: usize },
    /// Create cursor `id` on the anchor cell.
    SpawnCursor { id: usize, direction: Direction, stack: Vec<i64>, energy: usize, string_mode: bool },
    /// Remove cursor `id`.
    DestroyCursor { id: usize },
    /// Pop `pop` items off the stack of cursor `id`, then push those of `push`.
    UpdateStack { id: usize, pop: usize, push: Vec<i64> },
    /// Switch the string mode of cursor `id`.
    ToggleStringMode { id: usize },
    /// Make cursor `id` face `direction`.
    ChangeDirection { id: usize, direction: Direction },
    /// Take `energy` units of energy from cursor `id`.
    ConsumeEnergy { id: usize, energy: usize },
}

/// One change, anchored at the cell `(x, y)`.
#[derive(Debug, PartialEq, Eq)]
pub struct GridUpdate {
    pub action: GridUpdateAction,
    pub x: usize,
    pub y: usize,
}

/// An action with its stacks as sequences.
pub enum ActionView {
    UpdateCell { c: u8 },
    MoveCursor { id: usize, to_x: usize, to_y: usize },
    SpawnCursor { id: usize, direction: Direction, stack: Seq<i64>, energy: usize, string_mode: bool },
    DestroyCursor { id: usize },
    UpdateStack { id: usize, pop: usize, push: Seq<i64> },
    ToggleStringMode { id: usize },
    ChangeDirection { id: usize, direction: Direction },
    ConsumeEnergy { id: usize, energy: usize },
}

/// An update with its stacks as sequences.
pub struct UpdateView {
    pub action: ActionView,
    pub x: usize,
    pub y: usize,
}

impl View for GridUpdateAction {
    type V = ActionView;

    open spec fn view(&self) -> ActionView {
        match *self {
            GridUpdateAction::UpdateCell { c } => ActionView::UpdateCell { c },
            GridUpdateAction::MoveCursor { id, to_x, to_y } => ActionView::MoveCursor {
                id,
                to_x,
                to_y,
            },
            GridUpdateAction::SpawnCursor { id, direction, stack, energy, string_mode } => {
                ActionView::SpawnCursor { id, direction, stack: stack@, energy, string_mode }
            },
            GridUpdateAction::DestroyCursor { id } => ActionView::DestroyCursor { id },
            GridUpdateAction::UpdateStack { id, pop, push } => ActionView::UpdateStack {
                id,
                pop,
                push: push@,
            },
            GridUpdateAction::ToggleStringMode { id } => ActionView::ToggleStringMode { id },
            GridUpdateAction::ChangeDirection { id, direction } => ActionView::ChangeDirection {
                id,
                direction,
            },
            GridUpdateAction::ConsumeEnergy { id, energy } => ActionView::ConsumeEnergy {
                id,
                energy,
            },
        }
    }
}

impl View for GridUpdate {
    type V = UpdateView;

    open spec fn view(&self) -> UpdateView {
        UpdateView { action: self.action@, x: self.x, y: self.y }
    }
}

impl Clone for GridUpdateAction {
    fn clone(&self) -> (r: GridUpdateAction)
        ensures
            r@ == self@,
    {
        match self {
            GridUpdateAction::UpdateCell { c } => GridUpdateAction::UpdateCell { c: *c },
            GridUpdateAction::MoveCursor { id, to_x, to_y } => GridUpdateAction::MoveCursor {
                id: *id,
                to_x: *to_x,
                to_y: *to_y,
            },
            GridUpdateAction::SpawnCursor { id, direction, stack, energy, string_mode } => {
                GridUpdateAction::SpawnCursor {
                    id: *id,
                    direction: *direction,
                    stack: stack.clone(),
                    energy: *energy,
                    string_mode: *string_mode,
                }
            },
            GridUpdateAction::DestroyCursor { id } => GridUpdateAction::DestroyCursor { id: *id },
            GridUpdateAction::UpdateStack { id, pop, push } => GridUpdateAction::UpdateStack {
                id: *id,
                pop: *pop,
                push: push.clone(),
            },
            GridUpdateAction::ToggleStringMode { id } => GridUpdateAction::ToggleStringMode {
                id: *id,
            },
            GridUpdateAction::ChangeDirection { id, direction } => {
                GridUpdateAction::ChangeDirection { id: *id, direction: *direction }
            },
            GridUpdateAction::ConsumeEnergy { id, energy } => GridUpdateAction::ConsumeEnergy {
                id: *id,
                energy: *energy,
            },
        }
    }
}

impl Clone for GridUpdate {
    fn clone(&self) -> (r: GridUpdate)
        ensures
            r@ == self@,
    {
        GridUpdate { action: self.action.clone(), x: self.x, y: self.y }
    }
}

impl UpdateView {
    /// The chunk that the update is anchored in.
    pub open spec fn anchor_chunk(self) -> (usize, usize) {
        chunk_of(self.x, self.y)
    }

    /// The chunk that the cursor arrives in, for a move that leaves the
    /// chunk of its anchor.
    pub open spec fn arrival_chunk(self) -> Option<(usize, usize)> {
        match self.action {
            ActionView::MoveCursor { id, to_x, to_y } => if chunk_of(to_x, to_y)
                != self.anchor_chunk() {
                Some(chunk_of(to_x, to_y))
            } else {
                None
            },
            _ => None,
        }
    }

    /// The chunks that the update affects, in the order in which they are
    /// visited: the anchor's chunk, then, for a move that leaves it, the chunk
    /// that the cursor arrives in.
    pub open spec fn chunks(self) -> Seq<(usize, usize)> {
        match self.arrival_chunk() {
            Some(c) => seq![self.anchor_chunk(), c],
            None => seq![self.anchor_chunk()],
        }
    }

    /// Whether the update affects chunk `c`.
    pub open spec fn touches(self, c: (usize, usize)) -> bool {
        c == self.anchor_chunk() || self.arrival_chunk() == Some(c)
    }

    /// Whether the update affects a chunk of `interest`.
    pub open spec fn concerns(self, interest: Set<(usize, usize)>) -> bool {
        exists|c: (usize, usize)| self.touches(c) && interest.contains(c)
    }
}

/// The views of a sequence of updates, in order.
pub open spec fn views(updates: Seq<GridUpdate>) -> Seq<UpdateView> {
    updates.map_values(|u: GridUpdate| u@)
}

impl GridUpdate {
    /// The chunks that the update affects, in visiting order.
    pub fn chunks(&self) -> (r: Vec<(usize, usize)>)
        ensures
            r@ == self@.chunks(),
    {
        let anchor = (self.x / CHUNK_WIDTH, self.y / CHUNK_WIDTH);
        let mut r: Vec<(usize, usize)> = Vec::new();
        r.push(anchor);
        match self.action {
            GridUpdateAction::MoveCursor { to_x, to_y, .. } => {
                let target = (to_x / CHUNK_WIDTH, to_y / CHUNK_WIDTH);
                if target.0 != anchor.0 || target.1 != anchor.1 {
                    r.push(target);
                }
            },
            _ => {},
        }
        r
    }

    /// Calls `cond` on each chunk that the update affects, in visiting order.
    pub fn visit_chunks<F: FnMut(usize, usize)>(&self, mut cond: F)
        requires
            forall|cx: usize, cy: usize| cond.requires((cx, cy)),
    {
        let chunks = self.chunks();
        let mut i: usize = 0;
        while i < chunks.len()
            invariant
                forall|cx: usize, cy: usize| cond.requires((cx, cy)),
            decreases chunks.len() - i,
        {
            cond(chunks[i].0, chunks[i].1);
            i += 1;
        }
    }
}

} // verus!
