//! A tick-driven simulation on an unbounded grid of byte cells.
//!
//! Cursors walk the grid and run the program written in its cells. The grid
//! is stored in chunks of 32 by 32 cells that are allocated on first use and
//! kept in two tiers, so that a tick only visits chunks that hold a cursor.
//! Every change is described by a [`GridUpdate`]; a tick first computes the
//! updates of all cursors against the grid as it stood, then commits them,
//! and the [`SubscriptionManager`] hands each observer the updates that touch
//! the chunks it watches.

pub mod chunk;
pub mod coords;
pub mod cursor;
pub mod grid;
pub mod interest;
pub mod render;
pub mod rng;
pub mod step;
pub mod subscription;
pub mod update;

pub use chunk::{Chunk, ChunkView};
pub use coords::{BLANK, CHUNK_CELLS, CHUNK_WIDTH};
pub use cursor::{Cursor, CursorView, Direction};
pub use grid::{ChunkSnapshot, Grid, GridError, GridView};
pub use render::Frame;
pub use step::{Simulation, SimulationStep};
pub use subscription::{Subscriber, SubscriptionManager};
pub use update::{ActionView, GridUpdate, GridUpdateAction, UpdateView};
