use gridsim::step::{direction_of_draw, emit_step, Simulation, SimulationStep};
use gridsim::{Cursor, Direction, Grid, GridUpdate, GridUpdateAction};
use rand::rngs::SmallRng;
use rand::SeedableRng;

fn cursor(direction: Direction, energy: usize, string_mode: bool) -> Cursor {
    Cursor { x: 0, y: 0, direction, stack: vec![], energy, string_mode }
}

fn step(id: usize, x: usize, y: usize, cursor: &Cursor, cell: u8, draw: i32) -> Vec<GridUpdate> {
    let mut updates = Vec::new();
    emit_step(&mut updates, id, x, y, cursor, cell, draw);
    updates
}

fn at(x: usize, y: usize, action: GridUpdateAction) -> GridUpdate {
    GridUpdate { x, y, action }
}

fn spawn_right(grid: &mut Grid, id: usize, x: usize, y: usize, energy: usize) {
    grid.spawn_cursor(id, x, y, Direction::Right, vec![], energy, false);
}

fn step_cursor(grid: &Grid, rng: &mut SmallRng, id: usize) -> Vec<GridUpdate> {
    let chunk_pos = grid.cursor_chunk(id).unwrap();
    let mut step = SimulationStep { updates: Vec::new(), rng, grid };
    step.step_cursor(id, chunk_pos);
    step.updates
}

fn step_grid(grid: &Grid, rng: &mut SmallRng) -> Vec<GridUpdate> {
    let mut step = SimulationStep { updates: Vec::new(), rng, grid };
    step.step_grid();
    step.updates
}

#[test]
fn plain_cell_moves_the_way_the_cursor_faces() {
    let updates = step(4, 10, 20, &cursor(Direction::Down, 2, false), b' ', 0);
    assert_eq!(
        updates,
        vec![
            at(10, 20, GridUpdateAction::MoveCursor { id: 4, to_x: 10, to_y: 21 }),
            at(10, 20, GridUpdateAction::ConsumeEnergy { id: 4, energy: 1 }),
        ]
    );
}

#[test]
fn turn_cells_change_direction_before_the_move() {
    let start = cursor(Direction::Right, 1, false);
    let expect = |direction: Direction, to_x: usize, to_y: usize| {
        vec![
            at(5, 5, GridUpdateAction::ChangeDirection { id: 1, direction }),
            at(5, 5, GridUpdateAction::MoveCursor { id: 1, to_x, to_y }),
            at(5, 5, GridUpdateAction::ConsumeEnergy { id: 1, energy: 1 }),
        ]
    };
    assert_eq!(step(1, 5, 5, &start, b'^', 0), expect(Direction::Up, 5, 4));
    assert_eq!(step(1, 5, 5, &start, b'v', 0), expect(Direction::Down, 5, 6));
    assert_eq!(step(1, 5, 5, &start, b'<', 0), expect(Direction::Left, 4, 5));
    assert_eq!(step(1, 5, 5, &start, b'>', 0), expect(Direction::Right, 6, 5));
}

#[test]
fn random_turn_follows_the_draw() {
    let start = cursor(Direction::Right, 1, false);
    let turned = |draw: i32| match &step(1, 5, 5, &start, b'?', draw)[0].action {
        GridUpdateAction::ChangeDirection { direction, .. } => *direction,
        other => panic!("no turn: {:?}", other),
    };
    assert_eq!(turned(0), Direction::Up);
    assert_eq!(turned(1), Direction::Down);
    assert_eq!(turned(2), Direction::Left);
    assert_eq!(turned(3), Direction::Right);
    assert_eq!(direction_of_draw(0), Direction::Up);
    assert_eq!(direction_of_draw(1), Direction::Down);
    assert_eq!(direction_of_draw(2), Direction::Left);
    assert_eq!(direction_of_draw(3), Direction::Right);
    let moved = step(1, 5, 5, &start, b'?', 2);
    assert_eq!(moved[1], at(5, 5, GridUpdateAction::MoveCursor { id: 1, to_x: 4, to_y: 5 }));
}

#[test]
fn draw_is_ignored_off_the_random_turn() {
    let start = cursor(Direction::Left, 1, false);
    assert_eq!(step(1, 5, 5, &start, b'>', 0), step(1, 5, 5, &start, b'>', 3));
    assert_eq!(step(1, 5, 5, &start, b'x', 0), step(1, 5, 5, &start, b'x', 2));
    let quoting = cursor(Direction::Left, 1, true);
    assert_eq!(step(1, 5, 5, &quoting, b'?', 0), step(1, 5, 5, &quoting, b'?', 1));
}

#[test]
fn string_mode_pushes_the_cell() {
    let quoting = cursor(Direction::Up, 7, true);
    assert_eq!(
        step(2, 3, 9, &quoting, b'A', 0),
        vec![
            at(3, 9, GridUpdateAction::UpdateStack { id: 2, pop: 0, push: vec![65] }),
            at(3, 9, GridUpdateAction::MoveCursor { id: 2, to_x: 3, to_y: 8 }),
            at(3, 9, GridUpdateAction::ConsumeEnergy { id: 2, energy: 1 }),
        ]
    );
    let turn = step(2, 3, 9, &quoting, b'>', 0);
    assert_eq!(turn[0], at(3, 9, GridUpdateAction::UpdateStack { id: 2, pop: 0, push: vec![62] }));
    assert_eq!(turn[1], at(3, 9, GridUpdateAction::MoveCursor { id: 2, to_x: 3, to_y: 8 }));
    let high = step(2, 3, 9, &quoting, 200, 0);
    assert_eq!(high[0], at(3, 9, GridUpdateAction::UpdateStack { id: 2, pop: 0, push: vec![200] }));
}

#[test]
fn quote_leaves_string_mode() {
    let quoting = cursor(Direction::Right, 7, true);
    assert_eq!(
        step(2, 3, 9, &quoting, b'"', 0),
        vec![
            at(3, 9, GridUpdateAction::ToggleStringMode { id: 2 }),
            at(3, 9, GridUpdateAction::MoveCursor { id: 2, to_x: 4, to_y: 9 }),
            at(3, 9, GridUpdateAction::ConsumeEnergy { id: 2, energy: 1 }),
        ]
    );
}

#[test]
fn quote_does_nothing_in_command_mode() {
    let start = cursor(Direction::Right, 7, false);
    assert_eq!(
        step(2, 3, 9, &start, b'"', 0),
        vec![
            at(3, 9, GridUpdateAction::MoveCursor { id: 2, to_x: 4, to_y: 9 }),
            at(3, 9, GridUpdateAction::ConsumeEnergy { id: 2, energy: 1 }),
        ]
    );
}

#[test]
fn cursor_without_energy_is_destroyed() {
    let spent = cursor(Direction::Right, 0, false);
    assert_eq!(step(9, 1, 1, &spent, b' ', 0), vec![at(1, 1, GridUpdateAction::DestroyCursor { id: 9 })]);
    assert_eq!(
        step(9, 1, 1, &spent, b'v', 0),
        vec![
            at(1, 1, GridUpdateAction::ChangeDirection { id: 9, direction: Direction::Down }),
            at(1, 1, GridUpdateAction::DestroyCursor { id: 9 }),
        ]
    );
    let quoting = cursor(Direction::Right, 0, true);
    assert_eq!(
        step(9, 1, 1, &quoting, b'"', 0),
        vec![
            at(1, 1, GridUpdateAction::ToggleStringMode { id: 9 }),
            at(1, 1, GridUpdateAction::DestroyCursor { id: 9 }),
        ]
    );
}

#[test]
fn steps_are_clamped_at_the_edges() {
    let left = step(1, 0, 4, &cursor(Direction::Left, 1, false), b' ', 0);
    assert_eq!(left[0], at(0, 4, GridUpdateAction::MoveCursor { id: 1, to_x: 0, to_y: 4 }));
    assert_eq!(left[1], at(0, 4, GridUpdateAction::ConsumeEnergy { id: 1, energy: 1 }));
    let up = step(1, 4, 0, &cursor(Direction::Up, 1, false), b' ', 0);
    assert_eq!(up[0], at(4, 0, GridUpdateAction::MoveCursor { id: 1, to_x: 4, to_y: 0 }));
    let right = step(1, usize::MAX, 4, &cursor(Direction::Right, 1, false), b' ', 0);
    assert_eq!(right[0], at(usize::MAX, 4, GridUpdateAction::MoveCursor { id: 1, to_x: usize::MAX, to_y: 4 }));
    let down = step(1, 4, usize::MAX, &cursor(Direction::Down, 1, false), b' ', 0);
    assert_eq!(down[0], at(4, usize::MAX, GridUpdateAction::MoveCursor { id: 1, to_x: 4, to_y: usize::MAX }));
    let turned = step(1, 0, 0, &cursor(Direction::Right, 1, false), b'<', 0);
    assert_eq!(turned[1], at(0, 0, GridUpdateAction::MoveCursor { id: 1, to_x: 0, to_y: 0 }));
}

#[test]
fn emit_step_appends() {
    let mut updates = vec![at(0, 0, GridUpdateAction::UpdateCell { c: 1 })];
    emit_step(&mut updates, 1, 2, 2, &cursor(Direction::Right, 0, false), b' ', 0);
    assert_eq!(
        updates,
        vec![
            at(0, 0, GridUpdateAction::UpdateCell { c: 1 }),
            at(2, 2, GridUpdateAction::DestroyCursor { id: 1 }),
        ]
    );
}

#[test]
fn step_cursor_reads_the_grid() {
    let mut grid = Grid::new_from_string("  v");
    spawn_right(&mut grid, 5, 2, 0, 4);
    let mut rng = SmallRng::seed_from_u64(1);
    let updates = step_cursor(&grid, &mut rng, 5);
    assert_eq!(
        updates,
        vec![
            at(2, 0, GridUpdateAction::ChangeDirection { id: 5, direction: Direction::Down }),
            at(2, 0, GridUpdateAction::MoveCursor { id: 5, to_x: 2, to_y: 1 }),
            at(2, 0, GridUpdateAction::ConsumeEnergy { id: 5, energy: 1 }),
        ]
    );
    assert_eq!(grid.get_cursor(5).unwrap().direction, Direction::Right);
}

#[test]
fn step_cursor_in_a_far_chunk_uses_absolute_coordinates() {
    let mut grid = Grid::new();
    grid.set_cell(1000, 2000, b'^');
    spawn_right(&mut grid, 5, 1000, 2000, 4);
    let mut rng = SmallRng::seed_from_u64(1);
    let updates = step_cursor(&grid, &mut rng, 5);
    assert_eq!(
        updates,
        vec![
            at(1000, 2000, GridUpdateAction::ChangeDirection { id: 5, direction: Direction::Up }),
            at(1000, 2000, GridUpdateAction::MoveCursor { id: 5, to_x: 1000, to_y: 1999 }),
            at(1000, 2000, GridUpdateAction::ConsumeEnergy { id: 5, energy: 1 }),
        ]
    );
}

#[test]
fn step_grid_steps_every_cursor_once() {
    let mut grid = Grid::new_from_string(">v");
    spawn_right(&mut grid, 1, 0, 0, 4);
    spawn_right(&mut grid, 2, 1, 0, 0);
    let mut rng = SmallRng::seed_from_u64(1);
    let updates = step_grid(&grid, &mut rng);
    let first = vec![
        at(0, 0, GridUpdateAction::ChangeDirection { id: 1, direction: Direction::Right }),
        at(0, 0, GridUpdateAction::MoveCursor { id: 1, to_x: 1, to_y: 0 }),
        at(0, 0, GridUpdateAction::ConsumeEnergy { id: 1, energy: 1 }),
    ];
    let second = vec![
        at(1, 0, GridUpdateAction::ChangeDirection { id: 2, direction: Direction::Down }),
        at(1, 0, GridUpdateAction::DestroyCursor { id: 2 }),
    ];
    let one_then_two: Vec<GridUpdate> = first.iter().chain(second.iter()).cloned().collect();
    assert_eq!(updates, one_then_two);
    assert_eq!(grid.cursor_ids(), vec![1, 2]);
}

#[test]
fn step_grid_without_cursors_is_empty() {
    let grid = Grid::new_from_string(">>>>");
    let mut rng = SmallRng::seed_from_u64(1);
    assert_eq!(step_grid(&grid, &mut rng), Vec::<GridUpdate>::new());
}

#[test]
fn energy_runs_out_and_the_cursor_is_destroyed() {
    let mut grid = Grid::new_from_string(">>>>>>>>");
    spawn_right(&mut grid, 0, 0, 0, 3);
    let mut simulation = Simulation::new(grid, SmallRng::seed_from_u64(7));
    for (tick, energy) in [(1usize, 2usize), (2, 1), (3, 0)] {
        let updates = simulation.step();
        assert_eq!(
            updates,
            vec![
                at(tick - 1, 0, GridUpdateAction::ChangeDirection { id: 0, direction: Direction::Right }),
                at(tick - 1, 0, GridUpdateAction::MoveCursor { id: 0, to_x: tick, to_y: 0 }),
                at(tick - 1, 0, GridUpdateAction::ConsumeEnergy { id: 0, energy: 1 }),
            ]
        );
        let cursor = simulation.grid.get_cursor(0).unwrap();
        assert_eq!((cursor.x, cursor.y), (tick, 0));
        assert_eq!(cursor.energy, energy);
        assert_eq!(cursor.direction, Direction::Right);
    }
    let updates = simulation.step();
    assert_eq!(
        updates,
        vec![
            at(3, 0, GridUpdateAction::ChangeDirection { id: 0, direction: Direction::Right }),
            at(3, 0, GridUpdateAction::DestroyCursor { id: 0 }),
        ]
    );
    assert!(simulation.grid.get_cursor(0).is_none());
    assert!(simulation.grid.is_inactive(0, 0));
    assert!(!simulation.grid.is_active(0, 0));
    assert_eq!(simulation.step(), Vec::<GridUpdate>::new());
}

fn run_random_walk(seed: u64, ticks: usize) -> Vec<Vec<GridUpdate>> {
    let row = "?".repeat(64);
    let text = vec![row; 64].join("\n");
    let mut grid = Grid::new_from_string(&text);
    spawn_right(&mut grid, 0, 32, 32, 1000);
    let mut simulation = Simulation::new(grid, SmallRng::seed_from_u64(seed));
    (0..ticks).map(|_| simulation.step()).collect()
}

fn turns(run: &[Vec<GridUpdate>]) -> Vec<Direction> {
    run.iter()
        .flatten()
        .filter_map(|update| match &update.action {
            GridUpdateAction::ChangeDirection { direction, .. } => Some(*direction),
            _ => None,
        })
        .collect()
}

#[test]
fn a_seed_fixes_the_random_walk() {
    let first = run_random_walk(42, 30);
    let second = run_random_walk(42, 30);
    assert_eq!(first, second);
    assert_eq!(turns(&first), turns(&second));
    assert_eq!(turns(&first).len(), 30);
}

#[test]
fn random_turns_vary() {
    let run = turns(&run_random_walk(3, 30));
    assert_eq!(run.len(), 30);
    assert!(run.iter().any(|direction| *direction != run[0]));
}

#[test]
fn tick_moves_cursors_across_chunks() {
    let mut grid = Grid::new();
    spawn_right(&mut grid, 1, 31, 0, 2);
    let mut simulation = Simulation::new(grid, SmallRng::seed_from_u64(0));
    simulation.step();
    assert!(simulation.grid.is_inactive(0, 0));
    assert!(simulation.grid.is_active(1, 0));
    assert_eq!(simulation.grid.cursor_chunk(1), Some((1, 0)));
    assert_eq!(simulation.grid.get_cursor(1).unwrap().x, 0);
}

#[test]
fn tick_runs_a_string() {
    let mut grid = Grid::new_from_string("\"hi\">");
    spawn_right(&mut grid, 1, 0, 0, 10);
    let mut simulation = Simulation::new(grid, SmallRng::seed_from_u64(0));
    simulation.step();
    assert!(simulation.grid.get_cursor(1).unwrap().string_mode == false);
    let mut grid = Grid::new_from_string("hi\"v");
    grid.spawn_cursor(1, 0, 0, Direction::Right, vec![], 10, true);
    let mut simulation = Simulation::new(grid, SmallRng::seed_from_u64(0));
    for _ in 0..4 {
        simulation.step();
    }
    let cursor = simulation.grid.get_cursor(1).unwrap();
    assert_eq!(cursor.stack, vec![104, 105]);
    assert!(!cursor.string_mode);
    assert_eq!(cursor.direction, Direction::Down);
    assert_eq!((cursor.x, cursor.y), (3, 1));
    assert_eq!(cursor.energy, 6);
}

#[test]
fn tick_steps_all_cursors_against_the_start_of_the_tick() {
    let mut grid = Grid::new_from_string("> <");
    spawn_right(&mut grid, 1, 0, 0, 5);
    spawn_right(&mut grid, 2, 2, 0, 5);
    let mut simulation = Simulation::new(grid, SmallRng::seed_from_u64(0));
    let updates = simulation.step();
    assert_eq!(updates.len(), 6);
    let first = simulation.grid.get_cursor(1).unwrap();
    assert_eq!((first.x, first.direction, first.energy), (1, Direction::Right, 4));
    let second = simulation.grid.get_cursor(2).unwrap();
    assert_eq!((second.x, second.direction, second.energy), (1, Direction::Left, 4));
}

#[test]
fn commit_order_does_not_matter() {
    let build = || {
        let mut grid = Grid::new_from_string("v\"<  ^");
        spawn_right(&mut grid, 1, 0, 0, 2);
        grid.spawn_cursor(2, 1, 0, Direction::Right, vec![4], 3, true);
        spawn_right(&mut grid, 3, 5, 0, 0);
        spawn_right(&mut grid, 4, 31, 0, 1);
        grid
    };
    let start = build();
    let mut rng = SmallRng::seed_from_u64(5);
    let steps: Vec<Vec<GridUpdate>> = [1usize, 2, 3, 4]
        .iter()
        .map(|id| step_cursor(&start, &mut rng, *id))
        .collect();
    let commit = |order: [usize; 4]| {
        let mut grid = build();
        for i in order {
            for update in steps[i].iter() {
                grid.apply(update.clone()).unwrap();
            }
        }
        let cursors: Vec<Option<Cursor>> = (1..=4).map(|id| grid.get_cursor(id).cloned()).collect();
        let positions: Vec<Option<(usize, usize)>> = (1..=4).map(|id| grid.cursor_position(id)).collect();
        let tiers = (grid.is_active(0, 0), grid.is_inactive(0, 0), grid.is_active(1, 0), grid.is_inactive(1, 0));
        let mut chunks = grid.allocated_chunks();
        chunks.sort();
        (cursors, positions, tiers, chunks, grid.render())
    };
    let forward = commit([0, 1, 2, 3]);
    assert_eq!(commit([3, 2, 1, 0]), forward);
    assert_eq!(commit([2, 0, 3, 1]), forward);
    assert_eq!(forward.1, vec![Some((0, 1)), Some((2, 0)), None, Some((32, 0))]);
    assert_eq!(forward.2, (true, false, true, false));
    assert_eq!(forward.3, vec![(0, 0), (1, 0)]);
    let first = forward.0[0].as_ref().unwrap();
    assert_eq!((first.direction, first.energy), (Direction::Down, 1));
    let second = forward.0[1].as_ref().unwrap();
    assert_eq!((second.string_mode, second.energy, second.stack.clone()), (false, 2, vec![4]));
}

#[test]
fn step_in_the_making_appends_to_its_updates() {
    let mut grid = Grid::new_from_string(">");
    spawn_right(&mut grid, 1, 0, 0, 0);
    let mut rng = SmallRng::seed_from_u64(1);
    let mut step = SimulationStep {
        updates: vec![at(9, 9, GridUpdateAction::UpdateCell { c: 1 })],
        rng: &mut rng,
        grid: &grid,
    };
    step.step_grid();
    assert_eq!(
        step.updates,
        vec![
            at(9, 9, GridUpdateAction::UpdateCell { c: 1 }),
            at(0, 0, GridUpdateAction::ChangeDirection { id: 1, direction: Direction::Right }),
            at(0, 0, GridUpdateAction::DestroyCursor { id: 1 }),
        ]
    );
}

#[test]
fn cursors_step_in_ascending_order_of_identity() {
    let mut grid = Grid::new();
    for id in [40usize, 7, 1000, 3, 512, 0, 99, 8, 64, 5] {
        spawn_right(&mut grid, id, id * 3, id * 5, 1);
    }
    let mut simulation = Simulation::new(grid, SmallRng::seed_from_u64(0));
    let updates = simulation.step();
    let moved: Vec<usize> = updates
        .iter()
        .filter_map(|update| match update.action {
            GridUpdateAction::MoveCursor { id, .. } => Some(id),
            _ => None,
        })
        .collect();
    assert_eq!(moved, vec![0, 3, 5, 7, 8, 40, 64, 99, 512, 1000]);
    assert_eq!(updates.len(), 20);
}

#[test]
fn a_seed_fixes_the_walk_of_many_cursors() {
    let run = |seed: u64| {
        let row = "?".repeat(64);
        let text = vec![row; 64].join("\n");
        let mut grid = Grid::new_from_string(&text);
        for id in [9usize, 2, 31, 4, 17] {
            spawn_right(&mut grid, id, 20 + id, 30, 50);
        }
        let mut simulation = Simulation::new(grid, SmallRng::seed_from_u64(seed));
        (0..10).map(|_| simulation.step()).collect::<Vec<_>>()
    };
    assert_eq!(run(11), run(11));
    assert_eq!(run(11).iter().map(|updates| updates.len()).sum::<usize>(), 150);
}
