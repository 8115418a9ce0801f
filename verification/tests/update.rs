use gridsim::{Direction, GridUpdate, GridUpdateAction};

fn moved(x: usize, y: usize, to_x: usize, to_y: usize) -> GridUpdate {
    GridUpdate { x, y, action: GridUpdateAction::MoveCursor { id: 1, to_x, to_y } }
}

fn visited(update: &GridUpdate) -> Vec<(usize, usize)> {
    let mut seen = Vec::new();
    update.visit_chunks(|cx, cy| seen.push((cx, cy)));
    seen
}

#[test]
fn update_affects_its_anchor_chunk() {
    let update = GridUpdate { x: 70, y: 31, action: GridUpdateAction::UpdateCell { c: b'a' } };
    assert_eq!(update.chunks(), vec![(2, 0)]);
    assert_eq!(visited(&update), vec![(2, 0)]);
    let destroy = GridUpdate { x: 0, y: 64, action: GridUpdateAction::DestroyCursor { id: 3 } };
    assert_eq!(destroy.chunks(), vec![(0, 2)]);
}

#[test]
fn move_inside_a_chunk_affects_one_chunk() {
    let update = moved(0, 0, 31, 31);
    assert_eq!(update.chunks(), vec![(0, 0)]);
    assert_eq!(visited(&update), vec![(0, 0)]);
}

#[test]
fn move_across_chunks_affects_both() {
    let update = moved(31, 0, 32, 0);
    assert_eq!(update.chunks(), vec![(0, 0), (1, 0)]);
    assert_eq!(visited(&update), vec![(0, 0), (1, 0)]);
    let up = moved(5, 64, 5, 63);
    assert_eq!(up.chunks(), vec![(0, 2), (0, 1)]);
}

#[test]
fn update_clone_is_equal() {
    let spawn = GridUpdate {
        x: 3,
        y: 4,
        action: GridUpdateAction::SpawnCursor {
            id: 2,
            direction: Direction::Down,
            stack: vec![1, 2, 3],
            energy: 10,
            string_mode: true,
        },
    };
    assert_eq!(spawn.clone(), spawn);
    let stack = GridUpdate { x: 0, y: 0, action: GridUpdateAction::UpdateStack { id: 1, pop: 2, push: vec![7] } };
    assert_eq!(stack.clone(), stack);
    assert_ne!(stack.clone(), spawn);
    for action in [
        GridUpdateAction::UpdateCell { c: 1 },
        GridUpdateAction::MoveCursor { id: 1, to_x: 2, to_y: 3 },
        GridUpdateAction::DestroyCursor { id: 1 },
        GridUpdateAction::ToggleStringMode { id: 1 },
        GridUpdateAction::ChangeDirection { id: 1, direction: Direction::Up },
        GridUpdateAction::ConsumeEnergy { id: 1, energy: 4 },
    ] {
        assert_eq!(action.clone(), action);
    }
}
