//! Cursors: the mobile interpreters that walk the grid.

use vstd::prelude::*;

verus! {

/// The way a cursor faces.
#[derive(Clone, Copy, Debug, PartialEq, Eq, Structural)]
pub enum Direction {
    Up,
    Down,
    Left,
    Right,
}

/// A cursor as its chunk stores it: `x` and `y` are offsets inside the chunk.
#[derive(Debug, PartialEq, Eq)]
pub struct Cursor {
    pub x: usize,
    pub y: usize,
    pub direction: Direction,
    pub stack: Vec<i64>,
    pub energy: usize,
    pub string_mode: bool,
}

/// What a cursor holds, with its stack as a sequence whose last item is the top.
pub struct CursorView {
    pub x: usize,
    pub y: usize,
    pub direction: Direction,
    pub stack: Seq<i64>,
    pub energy: usize,
    pub string_mode: bool,
}

impl View for Cursor {
    type V = CursorView;

    open spec fn view(&self) -> CursorView {
        CursorView {
            x: self.x,
            y: self.y,
            direction: self.direction,
            stack: self.stack@,
            energy: self.energy,
            string_mode: self.string_mode,
        }
    }
}

impl Clone for Cursor {
    fn clone(&self) -> (r: Cursor)
        ensures
            r@ == self@,
    {
        Cursor {
            x: self.x,
            y: self.y,
            direction: self.direction,
            stack: self.stack.clone(),
            energy: self.energy,
            string_mode: self.string_mode,
        }
    }
}

impl CursorView {
    /// The same cursor at another position.
    pub open spec fn at(self, x: usize, y: usize) -> CursorView {
        CursorView { x, y, ..self }
    }

    /// The same cursor facing `direction`.
    pub open spec fn facing(self, direction: Direction) -> CursorView {
        CursorView { direction, ..self }
    }

    /// The cursor after `amount` units of energy are spent; energy never
    /// falls below zero.
    pub open spec fn spent(self, amount: usize) -> CursorView {
        CursorView {
            energy: if amount >= self.energy {
                0
            } else {
                (self.energy - amount) as usize
            },
            ..self
        }
    }

    /// The cursor after its string mode is switched.
    pub open spec fn toggled(self) -> CursorView {
        CursorView { string_mode: !self.string_mode, ..self }
    }

    /// The cursor after `pop` items leave the top of its stack (as many as
    /// there are, if fewer) and the items of `push` are pushed in order.
    pub open spec fn restacked(self, pop: usize, push: Seq<i64>) -> CursorView {
        CursorView { stack: popped(self.stack, pop) + push, ..self }
    }
}

/// A stack without its `pop` topmost items, or empty if it has no more than `pop`.
pub open spec fn popped(stack: Seq<i64>, pop: usize) -> Seq<i64> {
    if pop >= stack.len() {
        Seq::empty()
    } else {
        stack.take(stack.len() - pop)
    }
}

} // verus!
