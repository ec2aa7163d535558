use columns::block::{Block, BlockKind};
use columns::board::Board;
use columns::column::Column;
use columns::frame::{changed_cells, new_frame, Drawable, Pixel, Shade, BLOCK_CHAR};
use columns::game::{Command, Game};
use columns::pit::Pit;
use columns::renderer::{check_screen_size, RendererError};
use columns::{Point, NUM_ROWS, PIT_STARTING_X, WIDTH};

#[test]
fn block_pixels() {
    assert_eq!(Block::new(None).to_pixel(), Pixel::default());
    assert_eq!(Pixel::default().grapheme, ' ');
    let red = Block::new(Some(BlockKind::Red)).to_pixel();
    assert_eq!(red.grapheme, BLOCK_CHAR);
    assert_eq!(red.color, Shade::Ansi(196));
    assert_eq!(Block::new(Some(BlockKind::Yellow)).to_pixel().color, Shade::Ansi(226));
    assert_eq!(Block::new(Some(BlockKind::Orange)).to_pixel().color, Shade::Ansi(214));
    assert_eq!(Block::new(Some(BlockKind::Cyan)).to_pixel().color, Shade::Ansi(51));
    let mut flashing = Block::new(Some(BlockKind::Red));
    flashing.exploding = true;
    assert_eq!(flashing.to_pixel().grapheme, '*');
    assert_eq!(flashing.to_pixel().color, Shade::White);
}

#[test]
fn changed_cells_lists_differences_in_screen_order() {
    let last = new_frame();
    assert!(changed_cells(&last, &last).is_empty());
    let mut frame = new_frame();
    frame[5][7].grapheme = 'x';
    frame[1][9].color = Shade::White;
    frame[5][2].background = Shade::Ansi(3);
    assert_eq!(
        changed_cells(&last, &frame),
        vec![Point::new(1, 9), Point::new(5, 2), Point::new(5, 7)]
    );
}

#[test]
fn pit_draws_into_its_area() {
    let mut pit = Pit::default();
    pit.heap[0][NUM_ROWS - 1] = Block::new(Some(BlockKind::Cyan));
    let mut frame = new_frame();
    frame[0][0].grapheme = 'k';
    pit.draw(&mut frame);
    assert_eq!(frame[PIT_STARTING_X][NUM_ROWS - 1].color, Shade::Ansi(51));
    assert_eq!(frame[PIT_STARTING_X][0], Pixel::default());
    assert_eq!(frame[0][0].grapheme, 'k');
    assert_eq!(frame.len(), WIDTH);
}

#[test]
fn column_draws_visible_cells_only() {
    let mut col = Column::from([
        Block::new(Some(BlockKind::Red)),
        Block::new(Some(BlockKind::Cyan)),
        Block::new(Some(BlockKind::Yellow)),
    ]);
    let mut frame = new_frame();
    col.draw(&mut frame);
    let x = PIT_STARTING_X + col.pos.x;
    assert_eq!(frame[x][0].color, Shade::Ansi(226));
    assert_eq!(frame[x][1], Pixel::default());

    col.stand_by = true;
    let mut frame = new_frame();
    col.draw(&mut frame);
    assert_eq!(frame[PIT_STARTING_X - 2][3].color, Shade::Ansi(226));
    assert_eq!(frame[PIT_STARTING_X - 2][2].color, Shade::Ansi(51));
    assert_eq!(frame[PIT_STARTING_X - 2][1].color, Shade::Ansi(196));
}

#[test]
fn screen_size_check() {
    assert_eq!(check_screen_size(16, 13), Ok(()));
    assert_eq!(check_screen_size(80, 24), Ok(()));
    assert_eq!(
        check_screen_size(15, 40),
        Err(RendererError::MinimumSize(WIDTH, NUM_ROWS))
    );
    assert_eq!(
        check_screen_size(40, 12),
        Err(RendererError::MinimumSize(WIDTH, NUM_ROWS))
    );
}

#[test]
fn board_takes_totals() {
    let mut board = Board::default();
    board.update(40, 3);
    assert_eq!((board.score, board.blocks_score), (40, 3));
}

#[test]
fn game_commands_move_the_piece() {
    let mut game = Game::new();
    let x = game.column.pos.x;
    assert!(!game.command(Command::MoveLeft));
    assert_eq!(game.column.pos.x, x - 1);
    assert!(!game.command(Command::MoveRight));
    assert!(!game.command(Command::MoveDown));
    assert_eq!(game.column.pos, Point::new(x, 1));
    let shaft = game.column.shaft;
    assert!(!game.command(Command::Rotate));
    assert_eq!(game.column.shaft[0], shaft[2]);
    assert!(game.command(Command::Quit));
}

#[test]
fn game_renews_landed_piece() {
    let mut game = Game::new();
    let waiting = game.upcoming.shaft;
    for _ in 0..NUM_ROWS - 1 {
        game.command(Command::MoveDown);
    }
    let mut ticks = 0;
    while game.pit.stable() && ticks < 10 {
        assert!(!game.tick(Column::MOVE_MILLIS));
        ticks += 1;
    }
    // the piece landed; run the pit until it settles
    while !game.pit.stable() && ticks < 100 {
        game.tick(Column::MOVE_MILLIS);
        ticks += 1;
    }
    assert!(game.pit.stable());
    assert!(game.column.dropping);
    assert!(!game.column.stand_by);
    assert!(game.upcoming.stand_by);
    assert_eq!(game.column.shaft, waiting);
    assert_eq!(game.board.score, game.pit.score);
}

#[test]
fn game_tops_out_on_a_full_column() {
    let mut game = Game::new();
    let mut ticks = 0;
    let mut topped = false;
    while !topped && ticks < 10_000 {
        topped = game.tick(Column::MOVE_MILLIS);
        ticks += 1;
    }
    assert!(topped);
    assert!(game.pit.stable());
}
