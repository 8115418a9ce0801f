use gridsim::{Chunk, Cursor, Direction, Grid, GridError, GridUpdate, GridUpdateAction};

fn spawn(id: usize, x: usize, y: usize, energy: usize) -> GridUpdate {
    GridUpdate {
        x,
        y,
        action: GridUpdateAction::SpawnCursor {
            id,
            direction: Direction::Right,
            stack: vec![],
            energy,
            string_mode: false,
        },
    }
}

fn act(action: GridUpdateAction) -> GridUpdate {
    GridUpdate { x: 0, y: 0, action }
}

#[test]
fn new_chunk_is_blank() {
    let chunk = Chunk::new();
    assert_eq!(chunk.get(0, 0), b' ');
    assert_eq!(chunk.get(31, 31), b' ');
    assert!(chunk.cells().iter().all(|c| *c == b' '));
    assert!(chunk.cursors().is_empty());
    assert!(chunk.is_vacant());
}

#[test]
fn chunk_set_then_get() {
    let mut chunk = Chunk::new();
    chunk.set(3, 2, b'x');
    assert_eq!(chunk.get(3, 2), b'x');
    assert_eq!(chunk.get(2, 3), b' ');
    assert_eq!(chunk.cells()[2 * 32 + 3], b'x');
}

#[test]
fn unallocated_cell_reads_blank() {
    let grid = Grid::new();
    assert_eq!(grid.get_cell(0, 0), b' ');
    assert_eq!(grid.get_cell(123_456, 7), b' ');
    assert_eq!(grid.get_cell(usize::MAX, usize::MAX), b' ');
    assert!(grid.chunk(0, 0).is_none());
}

#[test]
fn set_cell_then_get_cell() {
    let mut grid = Grid::new();
    grid.set_cell(5, 7, b'a');
    assert_eq!(grid.get_cell(5, 7), b'a');
    grid.set_cell(40, 7, b'b');
    grid.set_cell(5, 39, b'c');
    grid.set_cell(usize::MAX, usize::MAX, b'd');
    assert_eq!(grid.get_cell(5, 7), b'a');
    assert_eq!(grid.get_cell(40, 7), b'b');
    assert_eq!(grid.get_cell(5, 39), b'c');
    assert_eq!(grid.get_cell(usize::MAX, usize::MAX), b'd');
    assert_eq!(grid.get_cell(7, 5), b' ');
    assert_eq!(grid.get_cell(8, 7), b' ');
    grid.set_cell(5, 7, b'z');
    assert_eq!(grid.get_cell(5, 7), b'z');
    assert_eq!(grid.get_cell(40, 7), b'b');
}

#[test]
fn set_cell_allocates_in_the_inactive_tier() {
    let mut grid = Grid::new();
    assert!(!grid.is_active(1, 0));
    assert!(!grid.is_inactive(1, 0));
    grid.set_cell(40, 7, b'b');
    assert!(grid.is_inactive(1, 0));
    assert!(!grid.is_active(1, 0));
    assert!(!grid.is_inactive(0, 0));
    let chunk = grid.chunk(1, 0).unwrap();
    assert_eq!(chunk.get(8, 7), b'b');
    assert!(chunk.is_vacant());
}

#[test]
fn set_cell_in_an_active_chunk_keeps_it_active() {
    let mut grid = Grid::new();
    grid.apply(spawn(1, 3, 3, 5)).unwrap();
    grid.set_cell(4, 4, b'q');
    assert!(grid.is_active(0, 0));
    assert!(!grid.is_inactive(0, 0));
    assert_eq!(grid.get_cell(4, 4), b'q');
    assert!(grid.get_cursor(1).is_some());
}

#[test]
fn new_from_string_writes_rows_and_columns() {
    let grid = Grid::new_from_string("ab\ncd e\n\nf");
    assert_eq!(grid.get_cell(0, 0), b'a');
    assert_eq!(grid.get_cell(1, 0), b'b');
    assert_eq!(grid.get_cell(2, 0), b' ');
    assert_eq!(grid.get_cell(0, 1), b'c');
    assert_eq!(grid.get_cell(1, 1), b'd');
    assert_eq!(grid.get_cell(2, 1), b' ');
    assert_eq!(grid.get_cell(3, 1), b'e');
    assert_eq!(grid.get_cell(0, 2), b' ');
    assert_eq!(grid.get_cell(0, 3), b'f');
    assert!(grid.cursor_ids().is_empty());
    assert!(grid.is_inactive(0, 0));
}

#[test]
fn new_from_string_of_nothing_allocates_nothing() {
    let grid = Grid::new_from_string("");
    assert!(grid.chunk(0, 0).is_none());
    let only_feeds = Grid::new_from_string("\n\n");
    assert!(only_feeds.chunk(0, 0).is_none());
}

#[test]
fn new_from_string_crosses_chunks() {
    let line: String = "x".repeat(40);
    let grid = Grid::new_from_string(&line);
    assert_eq!(grid.get_cell(31, 0), b'x');
    assert_eq!(grid.get_cell(39, 0), b'x');
    assert_eq!(grid.get_cell(40, 0), b' ');
    assert!(grid.is_inactive(0, 0));
    assert!(grid.is_inactive(1, 0));
}

#[test]
fn spawn_makes_the_chunk_active() {
    let mut grid = Grid::new();
    let id = grid.spawn_cursor(7, 33, 65, Direction::Up, vec![1, 2], 9, true);
    assert_eq!(id, 7);
    assert!(grid.is_active(1, 2));
    assert!(!grid.is_inactive(1, 2));
    assert_eq!(grid.cursor_chunk(7), Some((1, 2)));
    let cursor = grid.get_cursor(7).unwrap();
    assert_eq!(
        *cursor,
        Cursor { x: 1, y: 1, direction: Direction::Up, stack: vec![1, 2], energy: 9, string_mode: true }
    );
    assert_eq!(grid.cursor_ids(), vec![7]);
    assert_eq!(grid.get_cell(33, 65), b' ');
}

#[test]
fn spawn_promotes_an_inactive_chunk() {
    let mut grid = Grid::new();
    grid.set_cell(1, 1, b'>');
    assert!(grid.is_inactive(0, 0));
    grid.apply(spawn(0, 0, 0, 3)).unwrap();
    assert!(grid.is_active(0, 0));
    assert!(!grid.is_inactive(0, 0));
    assert_eq!(grid.get_cell(1, 1), b'>');
}

#[test]
fn spawn_under_a_used_identity_replaces_the_cursor() {
    let mut grid = Grid::new();
    grid.apply(spawn(1, 0, 0, 3)).unwrap();
    grid.apply(spawn(1, 100, 0, 8)).unwrap();
    assert_eq!(grid.cursor_ids(), vec![1]);
    assert_eq!(grid.cursor_chunk(1), Some((3, 0)));
    assert_eq!(grid.get_cursor(1).unwrap().energy, 8);
    assert!(grid.is_inactive(0, 0));
    assert!(grid.is_active(3, 0));
    assert!(grid.chunk(0, 0).unwrap().is_vacant());
}

#[test]
fn tiers_follow_the_cursor_count() {
    let mut grid = Grid::new();
    grid.apply(spawn(1, 0, 0, 3)).unwrap();
    grid.apply(spawn(2, 1, 0, 3)).unwrap();
    assert!(grid.is_active(0, 0));
    grid.destroy_cursor(1).unwrap();
    assert!(grid.is_active(0, 0));
    assert!(!grid.is_inactive(0, 0));
    grid.destroy_cursor(2).unwrap();
    assert!(!grid.is_active(0, 0));
    assert!(grid.is_inactive(0, 0));
    assert!(grid.cursor_ids().is_empty());
}

#[test]
fn cross_chunk_move_changes_tiers() {
    let mut grid = Grid::new();
    grid.apply(spawn(4, 31, 5, 3)).unwrap();
    assert!(grid.is_active(0, 0));
    grid.move_cursor(4, 32, 5).unwrap();
    assert!(grid.is_inactive(0, 0));
    assert!(!grid.is_active(0, 0));
    assert!(grid.is_active(1, 0));
    assert_eq!(grid.cursor_chunk(4), Some((1, 0)));
    let cursor = grid.get_cursor(4).unwrap();
    assert_eq!(cursor.x, 32 % 32);
    assert_eq!(cursor.y, 5 % 32);
    assert_eq!(cursor.energy, 3);
}

#[test]
fn cross_chunk_move_leaves_a_shared_chunk_active() {
    let mut grid = Grid::new();
    grid.apply(spawn(1, 0, 0, 3)).unwrap();
    grid.apply(spawn(2, 1, 1, 3)).unwrap();
    grid.apply(act(GridUpdateAction::MoveCursor { id: 1, to_x: 70, to_y: 200 })).unwrap();
    assert!(grid.is_active(0, 0));
    assert!(grid.is_active(2, 6));
    let cursor = grid.get_cursor(1).unwrap();
    assert_eq!((cursor.x, cursor.y), (70 % 32, 200 % 32));
    assert_eq!(grid.cursor_chunk(2), Some((0, 0)));
}

#[test]
fn move_inside_a_chunk_keeps_the_tiers() {
    let mut grid = Grid::new();
    grid.apply(spawn(1, 0, 0, 3)).unwrap();
    grid.move_cursor(1, 31, 31).unwrap();
    assert!(grid.is_active(0, 0));
    assert!(!grid.is_inactive(0, 0));
    let cursor = grid.get_cursor(1).unwrap();
    assert_eq!((cursor.x, cursor.y), (31, 31));
}

#[test]
fn move_to_the_far_corner() {
    let mut grid = Grid::new();
    grid.apply(spawn(1, 0, 0, 3)).unwrap();
    grid.move_cursor(1, usize::MAX, usize::MAX).unwrap();
    assert_eq!(grid.cursor_chunk(1), Some((usize::MAX / 32, usize::MAX / 32)));
    let cursor = grid.get_cursor(1).unwrap();
    assert_eq!((cursor.x, cursor.y), (31, 31));
}

#[test]
fn unknown_cursor_is_refused() {
    let mut grid = Grid::new();
    grid.apply(spawn(1, 0, 0, 3)).unwrap();
    let unknown = Err(GridError::UnknownCursor { id: 9 });
    assert_eq!(grid.move_cursor(9, 1, 1), unknown);
    assert_eq!(grid.destroy_cursor(9), unknown);
    assert_eq!(grid.update_stack(9, 0, vec![1]), unknown);
    assert_eq!(grid.change_direction(9, Direction::Up), unknown);
    assert_eq!(grid.consume_energy(9, 1), unknown);
    assert_eq!(grid.toggle_string_mode(9), unknown);
    assert_eq!(grid.apply(act(GridUpdateAction::DestroyCursor { id: 9 })), unknown);
    assert_eq!(grid.apply(act(GridUpdateAction::ToggleStringMode { id: 9 })), unknown);
    assert!(grid.get_cursor(9).is_none());
    assert_eq!(grid.cursor_chunk(9), None);
    assert_eq!(grid.cursor_ids(), vec![1]);
    assert!(grid.is_active(0, 0));
    assert_eq!(grid.get_cursor(1).unwrap().energy, 3);
}

#[test]
fn destroyed_cursor_is_unknown() {
    let mut grid = Grid::new();
    grid.apply(spawn(1, 0, 0, 3)).unwrap();
    assert_eq!(grid.apply(act(GridUpdateAction::DestroyCursor { id: 1 })), Ok(()));
    assert_eq!(
        grid.apply(act(GridUpdateAction::ConsumeEnergy { id: 1, energy: 1 })),
        Err(GridError::UnknownCursor { id: 1 })
    );
}

#[test]
fn update_stack_pops_then_pushes() {
    let mut grid = Grid::new();
    grid.spawn_cursor(1, 0, 0, Direction::Right, vec![1, 2, 3, 4], 3, false);
    grid.update_stack(1, 2, vec![9, 8]).unwrap();
    assert_eq!(grid.get_cursor(1).unwrap().stack, vec![1, 2, 9, 8]);
    grid.apply(act(GridUpdateAction::UpdateStack { id: 1, pop: 0, push: vec![7] })).unwrap();
    assert_eq!(grid.get_cursor(1).unwrap().stack, vec![1, 2, 9, 8, 7]);
    grid.update_stack(1, 5, vec![]).unwrap();
    assert_eq!(grid.get_cursor(1).unwrap().stack, Vec::<i64>::new());
}

#[test]
fn update_stack_pops_no_more_than_there_is() {
    let mut grid = Grid::new();
    grid.spawn_cursor(1, 0, 0, Direction::Right, vec![1, 2], 3, false);
    grid.update_stack(1, 10, vec![5]).unwrap();
    assert_eq!(grid.get_cursor(1).unwrap().stack, vec![5]);
    grid.update_stack(1, usize::MAX, vec![]).unwrap();
    assert_eq!(grid.get_cursor(1).unwrap().stack, Vec::<i64>::new());
}

#[test]
fn consume_energy_stops_at_zero() {
    let mut grid = Grid::new();
    grid.apply(spawn(1, 0, 0, 5)).unwrap();
    grid.consume_energy(1, 2).unwrap();
    assert_eq!(grid.get_cursor(1).unwrap().energy, 3);
    grid.apply(act(GridUpdateAction::ConsumeEnergy { id: 1, energy: 3 })).unwrap();
    assert_eq!(grid.get_cursor(1).unwrap().energy, 0);
    grid.consume_energy(1, 4).unwrap();
    assert_eq!(grid.get_cursor(1).unwrap().energy, 0);
    assert!(grid.get_cursor(1).is_some());
}

#[test]
fn direction_and_string_mode_change_in_place() {
    let mut grid = Grid::new();
    grid.apply(spawn(1, 40, 40, 5)).unwrap();
    grid.change_direction(1, Direction::Down).unwrap();
    grid.toggle_string_mode(1).unwrap();
    let cursor = grid.get_cursor(1).unwrap();
    assert_eq!(cursor.direction, Direction::Down);
    assert!(cursor.string_mode);
    assert_eq!((cursor.x, cursor.y), (8, 8));
    grid.apply(act(GridUpdateAction::ChangeDirection { id: 1, direction: Direction::Left })).unwrap();
    grid.apply(act(GridUpdateAction::ToggleStringMode { id: 1 })).unwrap();
    let cursor = grid.get_cursor(1).unwrap();
    assert_eq!(cursor.direction, Direction::Left);
    assert!(!cursor.string_mode);
    assert!(grid.is_active(1, 1));
}

#[test]
fn apply_update_cell_writes_the_anchor() {
    let mut grid = Grid::new();
    let update = GridUpdate { x: 65, y: 2, action: GridUpdateAction::UpdateCell { c: b'#' } };
    assert_eq!(grid.apply(update), Ok(()));
    assert_eq!(grid.get_cell(65, 2), b'#');
    assert!(grid.is_inactive(2, 0));
}

#[test]
fn chunk_shows_its_cursors() {
    let mut grid = Grid::new();
    grid.apply(spawn(1, 33, 1, 5)).unwrap();
    grid.apply(spawn(2, 34, 2, 6)).unwrap();
    grid.apply(spawn(3, 0, 0, 7)).unwrap();
    let chunk = grid.chunk(1, 0).unwrap();
    assert_eq!(chunk.cursors().len(), 2);
    assert_eq!(chunk.cursor(1).unwrap().x, 1);
    assert_eq!(chunk.cursor(2).unwrap().energy, 6);
    assert!(chunk.cursor(3).is_none());
    assert!(!chunk.is_vacant());
    assert_eq!(grid.cursor_ids(), vec![1, 2, 3]);
}

#[test]
fn cursor_clone_keeps_every_field() {
    let cursor =
        Cursor { x: 1, y: 2, direction: Direction::Left, stack: vec![3, -4], energy: 5, string_mode: true };
    assert_eq!(cursor.clone(), cursor);
}

#[test]
fn allocated_chunks_lists_both_tiers() {
    let mut grid = Grid::new();
    assert!(grid.allocated_chunks().is_empty());
    grid.set_cell(0, 0, b'a');
    grid.set_cell(64, 0, b'b');
    grid.apply(spawn(1, 0, 96, 3)).unwrap();
    let mut chunks = grid.allocated_chunks();
    chunks.sort();
    assert_eq!(chunks, vec![(0, 0), (0, 3), (2, 0)]);
}

#[test]
fn cursor_position_is_absolute() {
    let mut grid = Grid::new();
    grid.apply(spawn(1, 1000, 2000, 3)).unwrap();
    assert_eq!(grid.cursor_position(1), Some((1000, 2000)));
    assert_eq!(grid.cursor_position(2), None);
    grid.move_cursor(1, usize::MAX, 0).unwrap();
    assert_eq!(grid.cursor_position(1), Some((usize::MAX, 0)));
    let cursor = grid.get_cursor(1).unwrap();
    assert_eq!((cursor.x, cursor.y), (usize::MAX % 32, 0));
}

#[test]
fn get_chunk_mut_allocates_in_the_inactive_tier() {
    let mut grid = Grid::new();
    grid.get_chunk_mut(2, 3).set(1, 1, b'k');
    assert!(grid.is_inactive(2, 3));
    assert_eq!(grid.get_cell(65, 97), b'k');
    assert_eq!(grid.get_chunk_mut(2, 3).get(1, 1), b'k');
    grid.get_chunk_mut(2, 3).set(1, 2, b'l');
    assert_eq!(grid.get_cell(65, 97), b'k');
    assert_eq!(grid.get_cell(65, 98), b'l');
}

#[test]
fn get_chunk_mut_finds_an_active_chunk() {
    let mut grid = Grid::new();
    grid.apply(spawn(1, 70, 100, 3)).unwrap();
    grid.get_chunk_mut(2, 3).set(0, 0, b'm');
    assert!(grid.is_active(2, 3));
    assert!(!grid.is_inactive(2, 3));
    assert_eq!(grid.get_cell(64, 96), b'm');
    assert_eq!(grid.cursor_position(1), Some((70, 100)));
}

#[test]
fn get_cursor_mut_changes_the_cursor_in_place() {
    let mut grid = Grid::new();
    grid.apply(spawn(1, 70, 100, 3)).unwrap();
    {
        let cursor = grid.get_cursor_mut(1).unwrap();
        assert_eq!((cursor.x, cursor.y), (6, 4));
        cursor.energy = 50;
        cursor.stack.push(12);
        cursor.x = 7;
    }
    let cursor = grid.get_cursor(1).unwrap();
    assert_eq!(cursor.energy, 50);
    assert_eq!(cursor.stack, vec![12]);
    assert_eq!(grid.cursor_position(1), Some((71, 100)));
    assert!(grid.get_cursor_mut(2).is_none());
    assert!(grid.is_active(2, 3));
}

#[test]
fn snapshot_of_an_unallocated_chunk_is_blank() {
    let grid = Grid::new();
    let shown = grid.snapshot(4, 5);
    assert_eq!((shown.x, shown.y), (4, 5));
    assert_eq!(shown.cells, vec![b' '; 1024]);
    assert!(shown.cursors.is_empty());
    assert!(grid.chunk(4, 5).is_none());
}

#[test]
fn snapshot_shows_cells_and_cursors() {
    let mut grid = Grid::new();
    grid.set_cell(33, 1, b'x');
    grid.set_cell(63, 31, b'y');
    grid.apply(spawn(7, 34, 2, 5)).unwrap();
    grid.apply(spawn(8, 0, 0, 6)).unwrap();
    let shown = grid.snapshot(1, 0);
    assert_eq!((shown.x, shown.y), (1, 0));
    assert_eq!(shown.cells.len(), 1024);
    assert_eq!(shown.cells[1 * 32 + 1], b'x');
    assert_eq!(shown.cells[1023], b'y');
    assert_eq!(shown.cells.iter().filter(|c| **c != b' ').count(), 2);
    assert_eq!(
        shown.cursors,
        vec![(7, Cursor { x: 2, y: 2, direction: Direction::Right, stack: vec![], energy: 5, string_mode: false })]
    );
    let other = grid.snapshot(0, 0);
    assert_eq!(other.cells, vec![b' '; 1024]);
    assert_eq!(other.cursors.len(), 1);
    assert_eq!(other.cursors[0].0, 8);
}

#[test]
fn cursor_list_holds_every_cursor_once() {
    let mut grid = Grid::new();
    grid.apply(spawn(1, 1, 1, 5)).unwrap();
    grid.apply(spawn(2, 2, 2, 6)).unwrap();
    grid.apply(spawn(3, 3, 3, 7)).unwrap();
    let mut list = grid.chunk(0, 0).unwrap().cursor_list();
    list.sort_by_key(|(id, _)| *id);
    assert_eq!(list.len(), 3);
    assert_eq!(list.iter().map(|(id, _)| *id).collect::<Vec<_>>(), vec![1, 2, 3]);
    assert_eq!(list.iter().map(|(_, cursor)| cursor.energy).collect::<Vec<_>>(), vec![5, 6, 7]);
    assert!(Chunk::new().cursor_list().is_empty());
}

#[test]
fn cursor_ids_ascend() {
    let mut grid = Grid::new();
    assert!(grid.cursor_ids().is_empty());
    let ids = [13usize, 2, 8, 21, 1, 5, 34, 3, 0, 55, 89, 144, 233, 377, 610, 987, 4, 6, 7];
    for id in ids {
        grid.apply(spawn(id, id, 1000 - id, 3)).unwrap();
    }
    let mut expected = ids.to_vec();
    expected.sort();
    assert_eq!(grid.cursor_ids(), expected);
    grid.destroy_cursor(21).unwrap();
    grid.destroy_cursor(0).unwrap();
    expected.retain(|id| *id != 21 && *id != 0);
    assert_eq!(grid.cursor_ids(), expected);
    grid.apply(spawn(usize::MAX, 0, 0, 3)).unwrap();
    expected.push(usize::MAX);
    assert_eq!(grid.cursor_ids(), expected);
}
