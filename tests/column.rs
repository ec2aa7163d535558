use columns::block::{Block, BlockKind};
use columns::column::{Column, STARTING_X, STARTING_Y};
use columns::pit::{Heap, Pit};
use columns::{Point, NUM_COLS, NUM_ROWS};

const DELTA: u64 = Column::MOVE_MILLIS;

#[test]
fn test_new() {
    let col = Column::new();

    assert_eq!(col.pos.x, STARTING_X);
    assert_eq!(col.pos.y, STARTING_Y);
    assert!(col.dropping);

    const MAX_COUNT: u8 = 5;
    let mut count_cmp = MAX_COUNT;
    loop {
        let shaft_cmp = &Column::new().shaft;
        let different = col
            .shaft
            .iter()
            .enumerate()
            .any(|(i, block)| block != &shaft_cmp[i]);

        if different {
            break;
        }
        count_cmp -= 1;

        assert!(
            count_cmp > 0,
            "two columns instances were equal after {MAX_COUNT} comparisons"
        );
    }
}

#[test]
fn test_cycle() {
    let mut col = Column::new();
    let shaft_copy = col.shaft;
    col.cycle();
    let shaft = col.shaft;

    assert_eq!(shaft_copy[0], shaft[1]);
    assert_eq!(shaft_copy[1], shaft[2]);
    assert_eq!(shaft_copy[2], shaft[0]);
}

#[test]
fn test_update() {
    let heap: Heap = Pit::new_heap(None);
    let mut col = Column::new();

    col.update(&heap, Column::MOVE_MILLIS - 1);
    assert_eq!(col.pos.y, 0);
    col.update(&heap, 1);
    assert_eq!(col.pos.y, 1);
}

#[test]
fn test_landing_on_heap() {
    let mut heap: Heap = Pit::new_heap(None);
    let mut col = Column::new();

    assert_eq!(col.detect_landing(&mut heap, DELTA), None);

    heap[STARTING_X][STARTING_Y + 1] = Block::new(Some(BlockKind::Cyan));

    assert_eq!(
        col.detect_landing(&mut heap, DELTA),
        Some(vec![Point::new(STARTING_X, STARTING_Y)])
    );
}

#[test]
fn test_landing_reached_bottom() {
    let mut heap: Heap = Pit::new_heap(None);
    let mut col = Column::new();

    assert_eq!(col.detect_landing(&mut heap, DELTA), None);

    for _ in 1..NUM_ROWS {
        col.move_down(&heap);
    }

    assert_eq!(
        col.detect_landing(&mut heap, DELTA),
        Some(vec![
            Point::new(STARTING_X, NUM_ROWS - 1),
            Point::new(STARTING_X, NUM_ROWS - 2),
            Point::new(STARTING_X, NUM_ROWS - 3)
        ])
    );
}

fn shaft_of(kinds: [BlockKind; 3]) -> [Block; 3] {
    [
        Block::new(Some(kinds[0])),
        Block::new(Some(kinds[1])),
        Block::new(Some(kinds[2])),
    ]
}

#[test]
fn landing_needs_a_full_grace_period() {
    let mut heap: Heap = Pit::new_heap(None);
    let mut col = Column::from(shaft_of([BlockKind::Red, BlockKind::Cyan, BlockKind::Yellow]));
    for _ in 1..NUM_ROWS {
        col.move_down(&heap);
    }
    assert_eq!(col.pos.y, NUM_ROWS - 1);
    assert_eq!(col.detect_landing(&mut heap, DELTA - 1), None);
    assert!(col.dropping);
    assert!(heap[STARTING_X][NUM_ROWS - 1].empty());
    let landed = col.detect_landing(&mut heap, DELTA).unwrap();
    assert_eq!(landed.len(), 3);
    assert!(!col.dropping);
    assert_eq!(heap[STARTING_X][NUM_ROWS - 1].kind, Some(BlockKind::Yellow));
    assert_eq!(heap[STARTING_X][NUM_ROWS - 2].kind, Some(BlockKind::Cyan));
    assert_eq!(heap[STARTING_X][NUM_ROWS - 3].kind, Some(BlockKind::Red));
    // once landed the piece takes no part any more
    assert_eq!(col.detect_landing(&mut heap, DELTA), None);
}

#[test]
fn landing_at_top_drops_cells_above_the_grid() {
    let mut heap: Heap = Pit::new_heap(None);
    let mut col = Column::from(shaft_of([BlockKind::Red, BlockKind::Cyan, BlockKind::Yellow]));
    heap[STARTING_X][1] = Block::new(Some(BlockKind::Orange));
    let landed = col.detect_landing(&mut heap, DELTA).unwrap();
    assert_eq!(landed, vec![Point::new(STARTING_X, 0)]);
    assert_eq!(heap[STARTING_X][0].kind, Some(BlockKind::Yellow));
}

#[test]
fn moves_stop_at_walls() {
    let heap: Heap = Pit::new_heap(None);
    let mut col = Column::new();
    for _ in 0..NUM_COLS + 2 {
        col.move_left(&heap);
    }
    assert_eq!(col.pos.x, 0);
    for _ in 0..NUM_COLS + 2 {
        col.move_right(&heap);
    }
    assert_eq!(col.pos.x, NUM_COLS - 1);
    for _ in 0..NUM_ROWS + 2 {
        col.move_down(&heap);
    }
    assert_eq!(col.pos.y, NUM_ROWS - 1);
}

#[test]
fn moves_blocked_by_filled_cells() {
    let mut heap: Heap = Pit::new_heap(None);
    heap[STARTING_X - 1][STARTING_Y] = Block::new(Some(BlockKind::Red));
    heap[STARTING_X + 1][STARTING_Y] = Block::new(Some(BlockKind::Red));
    heap[STARTING_X][STARTING_Y + 1] = Block::new(Some(BlockKind::Red));
    let mut col = Column::new();
    col.move_left(&heap);
    col.move_right(&heap);
    col.move_down(&heap);
    assert_eq!(col.pos, Point::new(STARTING_X, STARTING_Y));
}

#[test]
fn cycle_does_nothing_once_landed() {
    let mut heap: Heap = Pit::new_heap(None);
    let mut col = Column::from(shaft_of([BlockKind::Red, BlockKind::Cyan, BlockKind::Yellow]));
    for _ in 1..NUM_ROWS {
        col.move_down(&heap);
    }
    col.detect_landing(&mut heap, DELTA).unwrap();
    col.cycle();
    assert_eq!(col.shaft[0].kind, Some(BlockKind::Red));
    assert_eq!(col.shaft[2].kind, Some(BlockKind::Yellow));
}

#[test]
fn new_column_holds_three_coloured_cells() {
    for _ in 0..20 {
        let col = Column::new();
        assert!(col.shaft.iter().all(|b| !b.empty() && !b.exploding));
        assert!(!col.stand_by);
    }
}

#[test]
fn grace_time_accumulates_while_blocked() {
    let mut heap: Heap = Pit::new_heap(None);
    let mut col = Column::from(shaft_of([BlockKind::Red, BlockKind::Cyan, BlockKind::Yellow]));
    for _ in 1..NUM_ROWS {
        col.move_down(&heap);
    }
    assert_eq!(col.detect_landing(&mut heap, DELTA / 2), None);
    assert_eq!(col.land_timer.remaining, DELTA - DELTA / 2);
    assert!(col.dropping);
    assert!(col.detect_landing(&mut heap, DELTA / 2).is_some());
    assert!(!col.dropping);
}

#[test]
fn grace_time_untouched_while_falling() {
    let mut heap: Heap = Pit::new_heap(None);
    let mut col = Column::new();
    assert_eq!(col.detect_landing(&mut heap, DELTA - 1), None);
    assert_eq!(col.land_timer.remaining, DELTA);
}

#[test]
fn column_from_indices() {
    let col = Column::from_indices(1, 3, 4);
    assert_eq!(col.shaft[0].kind, Some(BlockKind::Yellow));
    assert_eq!(col.shaft[1].kind, Some(BlockKind::Red));
    assert_eq!(col.shaft[2].kind, Some(BlockKind::Cyan));
    assert_eq!(col.pos, Point::new(STARTING_X, STARTING_Y));
    assert!(col.dropping);
}
