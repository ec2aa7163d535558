//! Screen snapshots: how cells and pieces are drawn, and which screen
//! cells changed between two snapshots.
use crate::block::{Block, BlockKind};
use crate::column::Column;
use crate::matching::in_grid;
use crate::pit::Pit;
use crate::{Point, NUM_COLS, NUM_ROWS, PIT_STARTING_X, WIDTH};
use vstd::prelude::*;

verus! {

/// A terminal colour: black, white, or an entry of the 256-colour palette.
#[derive(Debug, Clone, Copy, PartialEq, Eq, Structural)]
pub enum Shade {
    Black,
    White,
    Ansi(u8),
}

/// One character cell of the screen.
#[derive(Debug, Clone, Copy, PartialEq, Eq, Structural)]
pub struct Pixel {
    pub grapheme: char,
    pub color: Shade,
    pub background: Shade,
}

/// A full screen snapshot, indexed by screen column then row.
pub type Frame = [[Pixel; NUM_ROWS]; WIDTH];

/// The character drawn for a filled cell (a dark shade block).
pub const BLOCK_CHAR: char = '\u{2593}';

/// Something that draws itself into a frame.
pub trait Drawable {
    fn draw(&self, frame: &mut Frame);
}

/// A blank pixel.
pub open spec fn blank() -> Pixel {
    Pixel { grapheme: ' ', color: Shade::Black, background: Shade::Black }
}

/// How a cell looks: a star while flashing, a block in its kind's colour,
/// or blank when empty.
pub open spec fn pixel_of(b: Block) -> Pixel {
    if b.exploding {
        Pixel { grapheme: '*', color: Shade::White, background: Shade::Black }
    } else {
        match b.kind {
            Some(BlockKind::Yellow) => Pixel { grapheme: BLOCK_CHAR, color: Shade::Ansi(226), background: Shade::Black },
            Some(BlockKind::Orange) => Pixel { grapheme: BLOCK_CHAR, color: Shade::Ansi(214), background: Shade::Black },
            Some(BlockKind::Red) => Pixel { grapheme: BLOCK_CHAR, color: Shade::Ansi(196), background: Shade::Black },
            Some(BlockKind::Cyan) => Pixel { grapheme: BLOCK_CHAR, color: Shade::Ansi(51), background: Shade::Black },
            None => blank(),
        }
    }
}

impl Default for Pixel {
    fn default() -> (r: Pixel)
        ensures
            r == blank(),
    {
        Pixel { grapheme: ' ', color: Shade::Black, background: Shade::Black }
    }
}

impl Block {
    pub fn to_pixel(&self) -> (r: Pixel)
        ensures
            r == pixel_of(*self),
    {
        if self.exploding {
            return Pixel { grapheme: '*', color: Shade::White, background: Shade::Black };
        }
        match self.kind {
            Some(BlockKind::Yellow) => Pixel { grapheme: BLOCK_CHAR, color: Shade::Ansi(226), background: Shade::Black },
            Some(BlockKind::Orange) => Pixel { grapheme: BLOCK_CHAR, color: Shade::Ansi(214), background: Shade::Black },
            Some(BlockKind::Red) => Pixel { grapheme: BLOCK_CHAR, color: Shade::Ansi(196), background: Shade::Black },
            Some(BlockKind::Cyan) => Pixel { grapheme: BLOCK_CHAR, color: Shade::Ansi(51), background: Shade::Black },
            None => Pixel::default(),
        }
    }
}

/// A blank frame.
pub fn new_frame() -> (r: Frame)
    ensures
        forall|x: int, y: int| 0 <= x < WIDTH && 0 <= y < NUM_ROWS ==> #[trigger] r@[x]@[y] == blank(),
{
    [[Pixel::default(); NUM_ROWS]; WIDTH]
}

/// Screen order: by column, then by row.
pub open spec fn screen_order(a: Point, b: Point) -> bool {
    a.x < b.x || (a.x == b.x && a.y < b.y)
}

/// The screen cells where `frame` differs from `last`, by column then row.
pub fn changed_cells(last: &Frame, frame: &Frame) -> (r: Vec<Point>)
    ensures
        forall|k: int| 0 <= k < r@.len() ==> #[trigger] in_grid::<NUM_ROWS, WIDTH>(r@[k].x as int, r@[k].y as int),
        forall|i: int, j: int| 0 <= i < j < r@.len() ==> screen_order(r@[i], r@[j]),
        forall|p: Point|
            in_grid::<NUM_ROWS, WIDTH>(p.x as int, p.y as int) ==> (r@.contains(p) <==> last@[p.x as int]@[p.y as int]
                != frame@[p.x as int]@[p.y as int]),
{
    let mut items: Vec<Point> = Vec::new();
    let mut x: usize = 0;
    while x < WIDTH
        invariant
            x <= WIDTH,
            forall|k: int| 0 <= k < items@.len() ==> #[trigger] in_grid::<NUM_ROWS, WIDTH>(items@[k].x as int, items@[k].y as int),
            forall|k: int| 0 <= k < items@.len() ==> #[trigger] items@[k].x < x,
            forall|i: int, j: int| 0 <= i < j < items@.len() ==> screen_order(items@[i], items@[j]),
            forall|p: Point|
                in_grid::<NUM_ROWS, WIDTH>(p.x as int, p.y as int) ==> (items@.contains(p) <==> (p.x < x
                    && last@[p.x as int]@[p.y as int] != frame@[p.x as int]@[p.y as int])),
        decreases WIDTH - x,
    {
        let mut y: usize = 0;
        while y < NUM_ROWS
            invariant
                x < WIDTH,
                y <= NUM_ROWS,
                forall|k: int| 0 <= k < items@.len() ==> #[trigger] in_grid::<NUM_ROWS, WIDTH>(items@[k].x as int, items@[k].y as int),
                forall|k: int| 0 <= k < items@.len() ==> #[trigger] items@[k].x < x || (items@[k].x == x && items@[k].y < y),
                forall|i: int, j: int| 0 <= i < j < items@.len() ==> screen_order(items@[i], items@[j]),
                forall|p: Point|
                    in_grid::<NUM_ROWS, WIDTH>(p.x as int, p.y as int) ==> (items@.contains(p) <==> ((p.x < x || (p.x
                        == x && p.y < y)) && last@[p.x as int]@[p.y as int] != frame@[p.x as int]@[p.y as int])),
            decreases NUM_ROWS - y,
        {
            let ghost before = items@;
            let ghost here = Point { x, y };
            if last[x][y] != frame[x][y] {
                items.push(Point { x, y });
            }
            assert forall|p: Point| in_grid::<NUM_ROWS, WIDTH>(p.x as int, p.y as int) implies (items@.contains(p) <==> ((
            p.x < x || (p.x == x && p.y < y + 1)) && last@[p.x as int]@[p.y as int] != frame@[p.x as int]@[p.y as int])) by {
                assert(before.contains(p) <==> ((p.x < x || (p.x == x && p.y < y)) && last@[p.x as int]@[p.y as int]
                    != frame@[p.x as int]@[p.y as int]));
                if items@.len() > before.len() {
                    assert(items@ == before.push(here));
                    assert(items@[before.len() as int] == here);
                    if items@.contains(p) && p != here {
                        let k = choose|k: int| 0 <= k < items@.len() && items@[k] == p;
                        assert(before[k] == p);
                    }
                    if before.contains(p) {
                        let k = choose|k: int| 0 <= k < before.len() && before[k] == p;
                        assert(items@[k] == p);
                    }
                }
            }
            y += 1;
        }
        x += 1;
    }
    items
}

impl Pit {
    /// Draws the grid into the pit's area of the frame.
    pub fn draw_grid(&self, frame: &mut Frame)
        ensures
            forall|x: int, y: int|
                0 <= x < WIDTH && 0 <= y < NUM_ROWS ==> #[trigger] final(frame)@[x]@[y] == if PIT_STARTING_X <= x {
                    pixel_of(self.heap@[x - PIT_STARTING_X]@[y])
                } else {
                    old(frame)@[x]@[y]
                },
    {
        let ghost f0 = *frame;
        let mut x: usize = 0;
        while x < NUM_COLS
            invariant
                x <= NUM_COLS,
                forall|sx: int, y: int|
                    0 <= sx < WIDTH && 0 <= y < NUM_ROWS ==> #[trigger] frame@[sx]@[y] == if PIT_STARTING_X <= sx < PIT_STARTING_X
                        + x {
                        pixel_of(self.heap@[sx - PIT_STARTING_X]@[y])
                    } else {
                        f0@[sx]@[y]
                    },
            decreases NUM_COLS - x,
        {
            let mut column = frame[x + PIT_STARTING_X];
            let mut y: usize = 0;
            while y < NUM_ROWS
                invariant
                    x < NUM_COLS,
                    y <= NUM_ROWS,
                    forall|r: int| 0 <= r < NUM_ROWS ==> #[trigger] column@[r] == if r < y {
                        pixel_of(self.heap@[x as int]@[r])
                    } else {
                        frame@[x + PIT_STARTING_X]@[r]
                    },
                decreases NUM_ROWS - y,
            {
                column[y] = self.heap[x][y].to_pixel();
                y += 1;
            }
            frame[x + PIT_STARTING_X] = column;
            x += 1;
        }
    }
}

impl Column {
    /// Where the piece is drawn: beside the pit while waiting, else at its
    /// place in the pit.
    pub open spec fn draw_anchor(self) -> (int, int) {
        if self.stand_by {
            (PIT_STARTING_X - 2, 3)
        } else {
            (self.pos.x + PIT_STARTING_X, self.pos.y as int)
        }
    }

    /// Draws a falling piece: its cells from the anchor upward, leaving out
    /// those above the top row. A landed piece draws nothing.
    pub fn draw_piece(&self, frame: &mut Frame)
        requires
            self.pos.x < NUM_COLS,
            self.pos.y < NUM_ROWS,
        ensures
            forall|x: int, y: int|
                0 <= x < WIDTH && 0 <= y < NUM_ROWS ==> #[trigger] final(frame)@[x]@[y] == if self.dropping && x
                    == self.draw_anchor().0 && self.draw_anchor().1 - 3 < y <= self.draw_anchor().1 {
                    pixel_of(self.shaft@[2 - (self.draw_anchor().1 - y)])
                } else {
                    old(frame)@[x]@[y]
                },
    {
        if self.dropping {
            let (x, y) = if self.stand_by {
                (PIT_STARTING_X - 2, 3)
            } else {
                (self.pos.x + PIT_STARTING_X, self.pos.y)
            };
            let ghost f0 = *frame;
            let mut column = frame[x];
            let mut i: usize = 0;
            while i < 3 && i <= y
                invariant
                    x < WIDTH,
                    y < NUM_ROWS,
                    (x as int, y as int) == self.draw_anchor(),
                    i <= 3,
                    i <= y + 1,
                    forall|r: int| 0 <= r < NUM_ROWS ==> #[trigger] column@[r] == if y - i < r <= y {
                        pixel_of(self.shaft@[2 - (y - r)])
                    } else {
                        f0@[x as int]@[r]
                    },
                decreases 3 - i,
            {
                column[y - i] = self.shaft[2 - i].to_pixel();
                i += 1;
            }
            frame[x] = column;
        }
    }
}

impl Drawable for Pit {
    fn draw(&self, frame: &mut Frame) {
        self.draw_grid(frame);
    }
}

impl Drawable for Column {
    /// Draws the piece when its anchor lies in the grid.
    fn draw(&self, frame: &mut Frame) {
        if self.pos.x < NUM_COLS && self.pos.y < NUM_ROWS {
            self.draw_piece(frame);
        }
    }
}

} // verus!
