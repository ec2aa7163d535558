use columns::block::{Block, BlockKind};
use columns::column::Column;
use columns::pit::{CardinalAxis, Pit, PitStage, PitState};
use columns::{Point, NUM_COLS, NUM_ROWS};

type Heap = [[Block; 3]; 3];

fn point(x: usize, y: usize) -> Point {
    Point::new(x, y)
}

#[test]
fn test_update_stable_stage() {
    let mut pit = Pit::default();

    assert!(pit.stable());

    let mut col = Column::from([
        Block::default(),
        Block::new(Some(BlockKind::Cyan)),
        Block::new(Some(BlockKind::Cyan)),
    ]);
    for _ in 1..NUM_ROWS {
        col.move_down(&pit.heap);
    }

    pit.update(&mut col, 0);

    assert!(pit.stable());
}

#[test]
fn test_update_matching_stage() {
    let mut pit = Pit::default();

    assert!(pit.stable());

    let mut col = Column::from([
        Block::new(Some(BlockKind::Cyan)),
        Block::new(Some(BlockKind::Cyan)),
        Block::new(Some(BlockKind::Cyan)),
    ]);
    for _ in 1..NUM_ROWS {
        col.move_down(&pit.heap);
    }
    pit.update(&mut col, Column::MOVE_MILLIS);

    assert!(!pit.stable());
}

#[test]
fn test_collect_matching_empty() {
    let pit_state = PitState::default();
    let mut heap: [[Block; 3]; 3] = Pit::new_heap(None);
    let origins = [point(0, 0), point(0, 1)];
    for origin in origins.iter() {
        heap[origin.x][origin.y] = Block::new(Some(BlockKind::Cyan));
    }
    let items = pit_state.collect_matching_at(&heap, &origins, &mut 0);

    assert!(items.is_empty());
}

#[test]
fn test_collect_matching_north_south() {
    let assert_items = |pit_state: &PitState, heap: &Heap, origins: &[Point]| {
        let items = pit_state.collect_matching_at(heap, origins, &mut 0);

        assert_eq!(items.len(), 3);

        for origin in origins {
            assert!(items.contains(origin));
            assert!(items.contains(&point(origin.x, (origin.y + 1) % 3)));
            assert!(items.contains(&point(origin.x, (origin.y + 2) % 3)));
        }
    };
    let pit_state = PitState::default();
    let mut heap = Pit::new_heap(None);
    let origins = [point(0, 0), point(0, 1), point(0, 2)];
    for origin in origins.iter() {
        heap[origin.x][origin.y] = Block::new(Some(BlockKind::Cyan));
    }

    assert_items(&pit_state, &heap, &origins);
}

#[test]
fn test_collect_matching_east_west() {
    let assert_items = |pit_state: &PitState, heap: &Heap, origins: &[Point]| {
        let items = pit_state.collect_matching_at(heap, origins, &mut 0);

        assert_eq!(items.len(), 3);

        for origin in origins {
            assert!(items.contains(origin));
            assert!(items.contains(&point((origin.x + 1) % 3, origin.y)));
            assert!(items.contains(&point((origin.x + 2) % 3, origin.y)));
        }
    };
    let pit_state = PitState::default();
    let mut heap = Pit::new_heap(None);
    let origins = [point(0, 1), point(1, 1), point(2, 1)];
    for origin in origins.iter() {
        heap[origin.x][origin.y] = Block::new(Some(BlockKind::Cyan));
    }

    assert_items(&pit_state, &heap, &origins);
}

#[test]
fn test_collect_matching_north_east() {
    let assert_items = |pit_state: &PitState, heap: &Heap, origins: &[Point]| {
        let items = pit_state.collect_matching_at(heap, origins, &mut 0);

        assert_eq!(items.len(), 3);

        for origin in origins {
            assert!(items.contains(origin));
            assert!(items.contains(&point((origin.x + 1) % 3, (origin.y + 1) % 3)));
            assert!(items.contains(&point((origin.x + 2) % 3, (origin.y + 2) % 3)));
        }
    };
    let pit_state = PitState::default();
    let mut heap = Pit::new_heap(None);
    let origins = [point(0, 0), point(1, 1), point(2, 2)];
    for origin in origins.iter() {
        heap[origin.x][origin.y] = Block::new(Some(BlockKind::Cyan));
    }

    assert_items(&pit_state, &heap, &origins);
}

#[test]
fn test_collect_matching_south_west() {
    let assert_items = |pit_state: &PitState, heap: &Heap, origins: &[Point]| {
        let items = pit_state.collect_matching_at(heap, origins, &mut 0);

        assert_eq!(items.len(), 3);

        for origin in origins {
            assert!(items.contains(origin));
            assert!(items.contains(&point((origin.x + 1) % 3, (origin.y + 2) % 3)));
            assert!(items.contains(&point((origin.x + 2) % 3, (origin.y + 1) % 3)));
        }
    };
    let pit_state = PitState::default();
    let mut heap = Pit::new_heap(None);
    let origins = [point(2, 0), point(1, 1), point(0, 2)];
    for origin in origins.iter() {
        heap[origin.x][origin.y] = Block::new(Some(BlockKind::Orange));
    }

    assert_items(&pit_state, &heap, &origins);
}

#[test]
fn test_collect_matching_all_directions() {
    let assert_items_for_matches = |pit_state: &PitState,
                                    heap: &Heap,
                                    origins: &[Point],
                                    matches: &[Point; 6]|
     -> Vec<Point> {
        let mut partial_score = 0;
        let items = pit_state.collect_matching_at(heap, origins, &mut partial_score);

        let num_axes = 3;
        assert_eq!(items.len() * PitState::SCORE_MUL * num_axes, partial_score);

        for origin in origins {
            assert!(items.contains(origin));
        }
        for item in matches {
            assert!(items.contains(item));
        }

        items
    };

    let pit_state = PitState::default();
    let heap = Pit::new_heap(Some(BlockKind::Cyan));
    let origins = [point(0, 0), point(2, 2)];
    let matches = [
        [
            point(1, 0),
            point(2, 0),
            point(0, 1),
            point(0, 2),
            point(1, 1),
            point(2, 2),
        ],
        [
            point(0, 0),
            point(2, 0),
            point(1, 1),
            point(2, 2),
            point(0, 2),
            point(1, 2),
        ],
    ];

    let items = assert_items_for_matches(&pit_state, &heap, &origins[..1], &matches[0]);
    assert_eq!(items.len(), 1 + matches[0].len());

    let items = assert_items_for_matches(&pit_state, &heap, &origins[1..], &matches[1]);
    assert_eq!(items.len(), 1 + matches[0].len());

    let items = pit_state.collect_matching_at(&heap, &origins, &mut 0);
    assert_eq!(items.len(), 9);
}

fn create_and_populate_heap_for_dropping() -> (Heap, [Point; 5], [Point; 2]) {
    let mut heap: [[Block; 3]; 3] = Pit::new_heap(None);
    let origins = [point(0, 0), point(0, 1), point(1, 1), point(2, 1), point(2, 2)];
    let cyan = [point(1, 0), point(2, 0)];
    let orange = [point(0, 2), point(1, 2)];
    let dropping = [point(1, 0), point(2, 0)];

    for origin in cyan {
        heap[origin.x][origin.y].update(Some(BlockKind::Cyan));
    }
    for origin in orange {
        heap[origin.x][origin.y].update(Some(BlockKind::Orange));
    }
    (heap, origins, dropping)
}

#[test]
fn test_collect_dropping_at() {
    let (heap, origins, dropping) = create_and_populate_heap_for_dropping();
    let items = PitState::default().collect_dropping_at(&heap, &origins);

    for item in dropping {
        assert!(items.contains(&item));
    }
}

#[test]
fn test_update_dropping_at() {
    let (mut heap, _, mut dropping) = create_and_populate_heap_for_dropping();
    let pit_state = PitState::default();
    let mut drop_times = 0;

    loop {
        if !pit_state.update_dropping_at(&mut heap, &mut dropping) {
            break;
        }
        drop_times += 1;
    }

    assert_eq!(drop_times, 2);
    assert!(&heap[0][0].empty());
    assert!(&heap[1][0].empty());
    assert!(&heap[2][0].empty());
    assert!(&heap[0][1].empty());
    assert!(&heap[2][1].empty());
    assert!(!&heap[1][1].empty());
    assert!(!&heap[0][2].empty());
    assert!(!&heap[1][2].empty());
    assert!(!&heap[2][2].empty());
}

#[test]
fn cardinal_axis_order() {
    assert_eq!(
        CardinalAxis::iter(),
        vec![CardinalAxis::NxS, CardinalAxis::ExW, CardinalAxis::NExSW, CardinalAxis::NWxSE]
    );
}

#[test]
fn run_of_three_scores_one_axis_per_cell() {
    let pit_state = PitState::default();
    let mut heap: [[Block; 5]; 5] = Pit::new_heap(None);
    for x in 1..4 {
        heap[x][2] = Block::new(Some(BlockKind::Red));
    }
    let mut score = 0;
    let items = pit_state.collect_matching_at(&heap, &[point(2, 2)], &mut score);
    assert_eq!(items, vec![point(1, 2), point(3, 2), point(2, 2)]);
    assert_eq!(score, 30);
}

#[test]
fn overlapping_runs_score_per_origin() {
    // an L of five cells: column 0 rows 0..3 and row 2 columns 0..3
    let pit_state = PitState::default();
    let mut heap: [[Block; 3]; 3] = Pit::new_heap(None);
    for p in [point(0, 0), point(0, 1), point(0, 2), point(1, 2), point(2, 2)] {
        heap[p.x][p.y] = Block::new(Some(BlockKind::Yellow));
    }
    let mut score = 0;
    let items = pit_state.collect_matching_at(&heap, &[point(0, 2)], &mut score);
    assert_eq!(items.len(), 5);
    // two axes for each of the five cells
    assert_eq!(score, 100);

    let mut score = 0;
    let items = pit_state.collect_matching_at(&heap, &[point(0, 0), point(0, 2)], &mut score);
    assert_eq!(items.len(), 5);
    // (0, 0) matches one axis for its three cells, (0, 2) two axes for the two new ones
    assert_eq!(score, 3 * 10 + 2 * 20);
}

#[test]
fn lone_cell_never_matches() {
    let pit_state = PitState::default();
    let mut heap: [[Block; 3]; 3] = Pit::new_heap(Some(BlockKind::Cyan));
    heap[1][1] = Block::new(Some(BlockKind::Red));
    let items = pit_state.collect_matching_at(&heap, &[point(1, 1)], &mut 0);
    assert!(items.is_empty());
    let items = pit_state.collect_matching_at(&heap, &[point(0, 0), point(2, 2)], &mut 0);
    assert!(!items.contains(&point(1, 1)));
    assert_eq!(items.len(), 8);
}

#[test]
fn empty_origin_matches_nothing() {
    let pit_state = PitState::default();
    let heap: [[Block; 3]; 3] = Pit::new_heap(None);
    let mut score = 7;
    let items = pit_state.collect_matching_at(&heap, &[point(1, 1)], &mut score);
    assert!(items.is_empty());
    assert_eq!(score, 7);
}

#[test]
fn dropping_cells_sorted_by_descending_row() {
    let pit_state = PitState::default();
    let mut heap: [[Block; 3]; 4] = Pit::new_heap(None);
    // column 0: two cells above a gap at row 2; column 3: one cell above a gap at row 1
    heap[0][0] = Block::new(Some(BlockKind::Red));
    heap[0][1] = Block::new(Some(BlockKind::Red));
    heap[3][0] = Block::new(Some(BlockKind::Cyan));
    let items = pit_state.collect_dropping_at(&heap, &[point(3, 1), point(0, 2)]);
    assert_eq!(items, vec![point(0, 1), point(3, 0), point(0, 0)]);
}

#[test]
fn dropping_cells_kept_once_per_origin() {
    let pit_state = PitState::default();
    let mut heap: [[Block; 3]; 1] = Pit::new_heap(None);
    heap[0][1] = Block::new(Some(BlockKind::Red));
    let items = pit_state.collect_dropping_at(&heap, &[point(0, 2), point(0, 2)]);
    assert_eq!(items, vec![point(0, 1), point(0, 1)]);

    heap[0][0] = Block::new(Some(BlockKind::Cyan));
    let items = pit_state.collect_dropping_at(&heap, &[point(0, 2), point(0, 1)]);
    assert_eq!(items, vec![point(0, 1), point(0, 0), point(0, 0)]);
}

#[test]
fn gravity_on_one_cell_above_a_gap_of_two() {
    let pit_state = PitState::default();
    let mut heap: [[Block; 3]; 1] = Pit::new_heap(None);
    heap[0][0] = Block::new(Some(BlockKind::Orange));
    let mut cells = [point(0, 0)];
    assert!(pit_state.update_dropping_at(&mut heap, &mut cells));
    assert!(pit_state.update_dropping_at(&mut heap, &mut cells));
    assert!(!pit_state.update_dropping_at(&mut heap, &mut cells));
    assert_eq!(cells, [point(0, 2)]);
    assert_eq!(heap[0][2].kind, Some(BlockKind::Orange));
    assert!(heap[0][0].empty() && heap[0][1].empty());
}

fn fill(pit: &mut Pit, cells: &[(usize, usize)], kind: BlockKind) {
    for &(x, y) in cells {
        pit.heap[x][y] = Block::new(Some(kind));
    }
}

#[test]
fn vertical_run_cleared_end_to_end() {
    let mut pit = Pit::default();
    let bottom = NUM_ROWS - 1;
    fill(&mut pit, &[(0, bottom), (0, bottom - 1), (0, bottom - 2)], BlockKind::Cyan);
    pit.state.stage = PitStage::Matching;
    pit.active_origins = vec![point(0, bottom)];
    let mut col = Column::new();

    let (score, cleared) = pit.update(&mut col, 0);
    assert_eq!(cleared, 3);
    assert_eq!(score, 30);
    assert_eq!(pit.state.stage, PitStage::Collecting);
    for p in [point(0, bottom), point(0, bottom - 1), point(0, bottom - 2)] {
        assert!(pit.active_origins.contains(&p));
    }

    // three flashes: on, off, on
    pit.update(&mut col, Column::MOVE_MILLIS);
    assert!(pit.heap[0][bottom].exploding);
    pit.update(&mut col, Column::MOVE_MILLIS);
    assert!(!pit.heap[0][bottom].exploding);
    pit.update(&mut col, Column::MOVE_MILLIS);
    assert!(pit.heap[0][bottom].exploding);
    // then the cells are cleared and nothing is above them
    pit.update(&mut col, 0);
    assert!(pit.stable());
    assert!(pit.active_origins.is_empty());
    for y in bottom - 2..=bottom {
        assert!(pit.heap[0][y].empty());
        assert!(!pit.heap[0][y].exploding);
    }
}

#[test]
fn full_grid_diagonals_clear_all_nine() {
    let pit_state = PitState::default();
    let heap: [[Block; 3]; 3] = Pit::new_heap(Some(BlockKind::Red));
    let mut score = 0;
    let items = pit_state.collect_matching_at(&heap, &[point(0, 0), point(2, 2)], &mut score);
    assert_eq!(items.len(), 9);
    for x in 0..3 {
        for y in 0..3 {
            assert!(items.contains(&point(x, y)));
        }
    }
    // (0, 0) matches three axes for seven cells, (2, 2) three axes for the two left
    assert_eq!(score, 7 * 30 + 2 * 30);
}

#[test]
fn cascade_drops_then_matches_again() {
    let mut pit = Pit::default();
    let b = NUM_ROWS - 1;
    // a red run along the bottom row, orange / cyan / orange above it and a
    // cyan row on top: once the red run clears, the cyan cells fall into a row
    fill(&mut pit, &[(0, b), (1, b), (2, b)], BlockKind::Red);
    fill(&mut pit, &[(0, b - 1), (2, b - 1)], BlockKind::Orange);
    fill(&mut pit, &[(1, b - 1), (1, b - 2)], BlockKind::Cyan);
    fill(&mut pit, &[(0, b - 2), (2, b - 2)], BlockKind::Cyan);
    pit.state.stage = PitStage::Matching;
    pit.active_origins = vec![point(1, b)];
    let mut col = Column::new();
    let mut ticks = 0;
    pit.update(&mut col, 0);
    assert_eq!(pit.blocks_score, 3);
    while !pit.stable() && ticks < 100 {
        pit.update(&mut col, Column::MOVE_MILLIS);
        ticks += 1;
    }
    assert!(pit.stable());
    // the cyan cells fell into row b - 1 and were cleared too
    assert_eq!(pit.blocks_score, 6);
    assert!(pit.heap[1][b].kind == Some(BlockKind::Cyan));
    assert!(pit.heap[0][b].kind == Some(BlockKind::Orange));
    assert!(pit.heap[2][b].kind == Some(BlockKind::Orange));
}

#[test]
fn topped_up_only_when_stable() {
    let mut pit = Pit::default();
    assert!(!pit.topped_up());
    for x in 0..NUM_COLS {
        for y in 1..NUM_ROWS {
            pit.heap[x][y] = Block::new(Some(if (x + y) % 2 == 0 { BlockKind::Red } else { BlockKind::Cyan }));
        }
    }
    assert!(!pit.topped_up());
    pit.heap[NUM_COLS - 1][0] = Block::new(Some(BlockKind::Yellow));
    assert!(pit.topped_up());
    pit.state.stage = PitStage::Dropping;
    pit.active_origins = vec![point(0, 1)];
    assert!(!pit.topped_up());
}

#[test]
fn stable_pit_waits_for_landing() {
    let mut pit = Pit::default();
    let mut col = Column::new();
    let (score, cleared) = pit.update(&mut col, Column::MOVE_MILLIS);
    assert_eq!((score, cleared), (0, 0));
    assert!(pit.stable());
    assert!(col.dropping);
}

#[test]
fn three_by_three_vertical_run_leaves_nothing_to_drop() {
    let pit_state = PitState::default();
    let mut heap: Heap = Pit::new_heap(None);
    for y in 0..3 {
        heap[0][y] = Block::new(Some(BlockKind::Red));
    }
    let mut score = 0;
    let items = pit_state.collect_matching_at(&heap, &[point(0, 0), point(0, 1), point(0, 2)], &mut score);
    assert_eq!(items.len(), 3);
    for y in 0..3 {
        assert!(items.contains(&point(0, y)));
        heap[0][y].update(None);
    }
    assert!(pit_state.collect_dropping_at(&heap, &items).is_empty());
}
