//! The falling piece: movement, rotation, gravity and landing.
use crate::block::{Block, BlockKind};
use crate::gravity::grid_of;
use crate::matching::kind_at;
use crate::pit::Heap;
use crate::timer::Timer;
use crate::{Point, NUM_COLS, NUM_ROWS};
use rand::Rng;
use vstd::prelude::*;

verus! {

/// Column where a new piece appears.
pub const STARTING_X: usize = 2;

/// Row where a new piece's lowest cell appears.
pub const STARTING_Y: usize = 0;

/// A falling piece: three cells stacked in a shaft (index 0 on top), whose
/// lowest cell stands at `pos`. `move_timer` paces its fall; `land_timer`
/// counts the grace time spent blocked before it lands.
#[derive(Debug, Clone, Copy)]
pub struct Column {
    pub shaft: [Block; 3],
    pub pos: Point,
    pub dropping: bool,
    pub move_timer: Timer,
    pub land_timer: Timer,
    pub stand_by: bool,
}

/// Relies on rand's `thread_rng` and `Uniform::new_inclusive(1, 4)`: the
/// sample lies in the closed range from 1 to 4.
#[verifier::external_body]
fn random_kind_index() -> (r: u8)
    ensures
        1 <= r <= 4,
{
    rand::thread_rng().sample(rand::distributions::Uniform::new_inclusive(1u8, 4u8))
}

impl Column {
    /// Drop period, and landing grace, in milliseconds.
    pub const MOVE_MILLIS: u64 = 1000;

    /// The anchor lies in the grid and both timers keep the drop period.
    pub open spec fn wf(self) -> bool {
        &&& self.pos.x < NUM_COLS
        &&& self.pos.y < NUM_ROWS
        &&& self.move_timer.millis == Column::MOVE_MILLIS
        &&& self.land_timer.millis == Column::MOVE_MILLIS
    }

    /// A piece of the given cells at the starting place, falling, with a
    /// fresh drop timer.
    pub open spec fn spec_from(shaft: [Block; 3]) -> Column {
        Column {
            shaft,
            pos: Point { x: STARTING_X, y: STARTING_Y },
            dropping: true,
            move_timer: Timer::fresh(Column::MOVE_MILLIS),
            land_timer: Timer::fresh(Column::MOVE_MILLIS),
            stand_by: false,
        }
    }

    /// The piece is falling and the floor or a filled cell is right below it.
    pub open spec fn hit_down(self, heap: Heap) -> bool {
        self.dropping && (self.pos.y == NUM_ROWS - 1 || kind_at(heap, self.pos.x as int, self.pos.y + 1).is_some())
    }

    /// The piece is falling and the left wall or a filled cell is beside it.
    pub open spec fn hit_left(self, heap: Heap) -> bool {
        self.dropping && (self.pos.x == 0 || kind_at(heap, self.pos.x - 1, self.pos.y as int).is_some())
    }

    /// The piece is falling and the right wall or a filled cell is beside it.
    pub open spec fn hit_right(self, heap: Heap) -> bool {
        self.dropping && (self.pos.x == NUM_COLS - 1 || kind_at(heap, self.pos.x + 1, self.pos.y as int).is_some())
    }

    /// The piece after a move down: one row lower if falling and not blocked.
    pub open spec fn moved_down(self, heap: Heap) -> Column {
        if self.dropping && !self.hit_down(heap) {
            Column { pos: Point { x: self.pos.x, y: (self.pos.y + 1) as usize }, ..self }
        } else {
            self
        }
    }

    /// The piece after a move left: one column left if falling and not blocked.
    pub open spec fn moved_left(self, heap: Heap) -> Column {
        if self.dropping && !self.hit_left(heap) {
            Column { pos: Point { x: (self.pos.x - 1) as usize, y: self.pos.y }, ..self }
        } else {
            self
        }
    }

    /// The piece after a move right: one column right if falling and not blocked.
    pub open spec fn moved_right(self, heap: Heap) -> Column {
        if self.dropping && !self.hit_right(heap) {
            Column { pos: Point { x: (self.pos.x + 1) as usize, y: self.pos.y }, ..self }
        } else {
            self
        }
    }

    /// The piece after a rotation, when falling: top to middle, middle to
    /// bottom, bottom to top.
    pub open spec fn cycled(self) -> Column {
        if self.dropping {
            Column { shaft: [self.shaft@[2], self.shaft@[0], self.shaft@[1]], ..self }
        } else {
            self
        }
    }

    /// The piece after `delta` milliseconds of falling: the drop timer
    /// advances, and when it is ready it restarts and the piece tries a
    /// move down.
    pub open spec fn stepped(self, heap: Heap, delta: u64) -> Column {
        let t = self.move_timer.advanced(delta);
        if t.ready {
            Column { move_timer: Timer::fresh(self.move_timer.millis), ..self }.moved_down(heap)
        } else {
            Column { move_timer: t, ..self }
        }
    }

    /// Whether a landing check with `delta` lands the piece: it is blocked
    /// below and its grace timer, advanced by `delta`, is ready.
    pub open spec fn lands(self, heap: Heap, delta: u64) -> bool {
        self.hit_down(heap) && self.land_timer.advanced(delta).ready
    }

    /// The piece after a landing check: while blocked its grace timer
    /// advances by `delta`, and once that timer is ready it stops falling.
    pub open spec fn landing_checked(self, heap: Heap, delta: u64) -> Column {
        if self.hit_down(heap) {
            Column { land_timer: self.land_timer.advanced(delta), dropping: !self.land_timer.advanced(delta).ready, ..self }
        } else {
            self
        }
    }

    /// How many of the piece's cells lie in the grid.
    pub open spec fn cells_in_grid(self) -> nat {
        if self.pos.y >= 2 {
            3
        } else {
            (self.pos.y + 1) as nat
        }
    }

    /// Where the piece's cells land, from the anchor upward.
    pub open spec fn landing_cells(self) -> Seq<Point> {
        Seq::new(self.cells_in_grid(), |i: int| Point { x: self.pos.x, y: (self.pos.y - i) as usize })
    }

    /// The grid with the lowest `k` cells of the piece written into it: the
    /// cell `i` rows above the anchor is shaft entry `2 - i`.
    pub open spec fn placed(self, g: Seq<Seq<Block>>, k: int) -> Seq<Seq<Block>> {
        let x = self.pos.x as int;
        let y = self.pos.y as int;
        g.update(x, Seq::new(g[x].len(), |r: int| if y - k < r <= y { self.shaft@[2 - (y - r)] } else { g[x][r] }))
    }

    pub fn new() -> (r: Column)
        ensures
            r == Column::spec_from(r.shaft),
            forall|i: int| 0 <= i < 3 ==> (#[trigger] r.shaft@[i]).kind.is_some() && !r.shaft@[i].exploding,
    {
        let i0 = random_kind_index();
        let i1 = random_kind_index();
        let i2 = random_kind_index();
        Column::from_indices(i0, i1, i2)
    }

    /// A piece whose cells, top to bottom, are the kinds numbered `i0`,
    /// `i1` and `i2` (see `BlockKind::from_index`).
    pub fn from_indices(i0: u8, i1: u8, i2: u8) -> (r: Column)
        requires
            1 <= i0 <= 4,
            1 <= i1 <= 4,
            1 <= i2 <= 4,
        ensures
            r == Column::spec_from(
                [
                    Block { kind: BlockKind::spec_from_index(i0), exploding: false },
                    Block { kind: BlockKind::spec_from_index(i1), exploding: false },
                    Block { kind: BlockKind::spec_from_index(i2), exploding: false },
                ],
            ),
    {
        let a = Block::new(BlockKind::from_index(i0));
        let b = Block::new(BlockKind::from_index(i1));
        let c = Block::new(BlockKind::from_index(i2));
        Column::from([a, b, c])
    }

    pub fn from(shaft: [Block; 3]) -> (r: Column)
        ensures
            r == Column::spec_from(shaft),
    {
        Column {
            shaft,
            pos: Point { x: STARTING_X, y: STARTING_Y },
            dropping: true,
            move_timer: Timer::from_millis(Column::MOVE_MILLIS),
            land_timer: Timer::from_millis(Column::MOVE_MILLIS),
            stand_by: false,
        }
    }

    /// Rotates the cells of a falling piece: top to middle, middle to
    /// bottom, bottom to top.
    pub fn cycle(&mut self)
        ensures
            *final(self) == old(self).cycled(),
    {
        if self.dropping {
            let s = self.shaft;
            self.shaft = [s[2], s[0], s[1]];
        }
    }

    /// One row down, unless the piece is not falling, or the floor or a
    /// filled cell is below it.
    pub fn move_down(&mut self, heap: &Heap)
        requires
            old(self).wf(),
        ensures
            *final(self) == old(self).moved_down(*heap),
            final(self).wf(),
    {
        if self.dropping && !self.detect_hit_downwards(heap) {
            self.pos.y = self.pos.y + 1;
        }
    }

    /// One column left, unless the piece is not falling, or the wall or a
    /// filled cell is beside it.
    pub fn move_left(&mut self, heap: &Heap)
        requires
            old(self).wf(),
        ensures
            *final(self) == old(self).moved_left(*heap),
            final(self).wf(),
    {
        if self.dropping && !self.detect_hit_leftwards(heap) {
            self.pos.x = self.pos.x - 1;
        }
    }

    /// One column right, unless the piece is not falling, or the wall or a
    /// filled cell is beside it.
    pub fn move_right(&mut self, heap: &Heap)
        requires
            old(self).wf(),
        ensures
            *final(self) == old(self).moved_right(*heap),
            final(self).wf(),
    {
        if self.dropping && !self.detect_hit_rightwards(heap) {
            self.pos.x = self.pos.x + 1;
        }
    }

    /// While the piece is blocked below, advances its grace timer by
    /// `delta`; once that timer is ready the piece lands: its cells are
    /// written into the grid from the anchor upward, leaving out those above
    /// the top row, and their coordinates are returned in that order.
    /// Otherwise the grid is unchanged and the result is `None`.
    pub fn detect_landing(&mut self, heap: &mut Heap, delta: u64) -> (r: Option<Vec<Point>>)
        requires
            old(self).wf(),
        ensures
            *final(self) == old(self).landing_checked(*old(heap), delta),
            old(self).lands(*old(heap), delta) ==> {
                &&& r is Some
                &&& r->0@ == old(self).landing_cells()
                &&& grid_of(*final(heap)) == old(self).placed(grid_of(*old(heap)), old(self).cells_in_grid() as int)
            },
            !old(self).lands(*old(heap), delta) ==> {
                &&& r is None
                &&& *final(heap) == *old(heap)
            },
            final(self).wf(),
    {
        if self.detect_hit_downwards(heap) {
            if self.land_timer.update(delta) {
                self.dropping = false;
                let ghost g0 = grid_of(*heap);
                let x = self.pos.x;
                let y = self.pos.y;
                let mut origins: Vec<Point> = Vec::new();
                let mut i: usize = 0;
                assert(g0[x as int].len() == NUM_ROWS);
                assert(self.placed(g0, 0) =~~= g0);
                while i < 3 && i <= y
                    invariant
                        i <= 3,
                        i <= y + 1,
                        x == self.pos.x,
                        y == self.pos.y,
                        self.wf(),
                        g0.len() == NUM_COLS,
                        g0[x as int].len() == NUM_ROWS,
                        origins@ == self.landing_cells().take(i as int),
                        grid_of(*heap) == self.placed(g0, i as int),
                    decreases 3 - i,
                {
                    let ghost prev = grid_of(*heap);
                    let mut column = heap[x];
                    column[y - i] = self.shaft[2 - i];
                    heap[x] = column;
                    origins.push(Point { x, y: y - i });
                    proof {
                        let next = self.placed(g0, i as int + 1);
                        assert(grid_of(*heap) == prev.update(x as int, prev[x as int].update(y - i, self.shaft@[2 - i]))) by {
                            assert(grid_of(*heap) =~~= prev.update(x as int, prev[x as int].update(y - i, self.shaft@[2 - i])));
                        }
                        assert(prev[x as int] =~= self.placed(g0, i as int)[x as int]);
                        assert forall|r: int| 0 <= r < NUM_ROWS implies #[trigger] grid_of(*heap)[x as int][r] == next[x as int][r] by {}
                        assert(grid_of(*heap) =~~= next);
                        assert(origins@ =~= self.landing_cells().take(i as int + 1));
                    }
                    i += 1;
                }
                proof {
                    assert(origins@ =~= self.landing_cells());
                }
                return Some(origins);
            }
        }
        None
    }

    /// Advances the drop timer by `delta`; when it is ready, restarts it and
    /// tries a move down. Returns whether the piece is still falling.
    pub fn update(&mut self, heap: &Heap, delta: u64) -> (r: bool)
        requires
            old(self).wf(),
        ensures
            *final(self) == old(self).stepped(*heap, delta),
            final(self).wf(),
            r == old(self).dropping,
    {
        if self.move_timer.update(delta) {
            self.move_timer.reset();
            self.move_down(heap);
        }
        self.dropping
    }

    fn detect_hit_downwards(&self, heap: &Heap) -> (r: bool)
        requires
            self.wf(),
        ensures
            r == self.hit_down(*heap),
    {
        self.dropping && (self.pos.y == NUM_ROWS - 1 || !heap[self.pos.x][self.pos.y + 1].empty())
    }

    fn detect_hit_leftwards(&self, heap: &Heap) -> (r: bool)
        requires
            self.wf(),
        ensures
            r == self.hit_left(*heap),
    {
        self.dropping && (self.pos.x == 0 || !heap[self.pos.x - 1][self.pos.y].empty())
    }

    fn detect_hit_rightwards(&self, heap: &Heap) -> (r: bool)
        requires
            self.wf(),
        ensures
            r == self.hit_right(*heap),
    {
        self.dropping && (self.pos.x == NUM_COLS - 1 || !heap[self.pos.x + 1][self.pos.y].empty())
    }
}

impl Default for Column {
    fn default() -> (r: Column)
        ensures
            r == Column::spec_from(r.shaft),
            forall|i: int| 0 <= i < 3 ==> #[trigger] r.shaft@[i] == (Block { kind: None, exploding: false }),
    {
        Column::from([Block::new(None), Block::new(None), Block::new(None)])
    }
}

/// A falling piece on the bottom row is blocked; after landing checks that
/// took `spent` milliseconds of grace in all, less than a period, the next
/// check with `delta` lands it exactly when `spent + delta` reaches a full
/// period, and it lands on the bottom three rows of its column, lowest
/// first.
pub proof fn lemma_landing_at_bottom(col: Column, heap: Heap, spent: u64, delta: u64)
    requires
        col.wf(),
        col.dropping,
        col.pos.y == NUM_ROWS - 1,
        spent < Column::MOVE_MILLIS,
        col.land_timer == Timer::fresh(Column::MOVE_MILLIS).advanced(spent),
    ensures
        col.hit_down(heap),
        col.lands(heap, delta) <==> spent + delta >= Column::MOVE_MILLIS,
        col.landing_cells() == seq![
            Point { x: col.pos.x, y: (NUM_ROWS - 1) as usize },
            Point { x: col.pos.x, y: (NUM_ROWS - 2) as usize },
            Point { x: col.pos.x, y: (NUM_ROWS - 3) as usize },
        ],
{
    assert(col.landing_cells() =~= seq![
        Point { x: col.pos.x, y: (NUM_ROWS - 1) as usize },
        Point { x: col.pos.x, y: (NUM_ROWS - 2) as usize },
        Point { x: col.pos.x, y: (NUM_ROWS - 3) as usize },
    ]);
}

} // verus!
