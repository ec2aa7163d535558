//! The pit's stage machine: stable, matching, collecting, dropping.
use crate::block::{Block, BlockKind};
use crate::column::Column;
use crate::gravity::{
    cleared, flashed, gravity_pass, grid_of, lemma_distinct_cells, lemma_gravity_pass_shape,
    lemma_insert_multiset, lemma_stacks_len, stack_from, stacks_above,
};
use crate::matching::{
    add_new, axes_upto, axis_run, collect_matching, hits_upto, in_grid, kind_at, lemma_add_new,
    lemma_add_new_prefix, lemma_add_new_present, lemma_collect_members, lemma_run_of_three,
    lemma_run_of_three_alone, no_neighbour_along, run_cell, lemma_matches_in_grid, lemma_matching_score_prefix, lemma_pass_bounds,
    matched_axes, matches_at, matching_score, scan,
};
use crate::timer::Timer;
use crate::{Point, NUM_COLS, NUM_ROWS};
use vstd::prelude::*;

pub use crate::matching::{CardinalAxis, Direction};

verus! {

/// The pit's grid: `NUM_COLS` columns of `NUM_ROWS` cells, row 0 on top.
pub type Heap = [[Block; NUM_ROWS]; NUM_COLS];

#[derive(Debug, Clone, Copy, PartialEq, Eq, Structural)]
pub enum PitStage {
    Stable,
    Matching,
    Collecting,
    Dropping,
}

/// The pit's stage machine: its stage, the pacing timer and the count of
/// flashes in the current clearing.
#[derive(Debug, Clone, Copy)]
pub struct PitState {
    pub stage: PitStage,
    pub move_timer: Timer,
    pub times: u8,
}

impl PitState {
    /// Stable, with a fresh pacing timer and no flashes counted.
    pub open spec fn default_spec() -> PitState {
        PitState { stage: PitStage::Stable, move_timer: Timer::fresh(PitState::MOVE_MILLIS), times: 0 }
    }
}

impl Default for PitState {
    fn default() -> (r: PitState)
        ensures
            r == PitState::default_spec(),
    {
        PitState { stage: PitStage::Stable, move_timer: Timer::from_millis(PitState::MOVE_MILLIS), times: 0 }
    }
}

impl PitState {
    /// Period of the pacing timer, in milliseconds.
    pub const MOVE_MILLIS: u64 = 1000;

    /// Points per matched axis and cell.
    pub const SCORE_MUL: usize = 10;

    /// The cells that match from `origin`, and the number of matched axes.
    fn matching_at<const R: usize, const C: usize>(
        &self,
        heap: &[[Block; R]; C],
        origin: &Point,
    ) -> (r: (Vec<Point>, usize))
        requires
            origin.x < C,
            origin.y < R,
        ensures
            r.0@ == matches_at(*heap, *origin),
            r.1 == matched_axes(*heap, *origin),
            r.1 <= 4,
    {
        let mut items: Vec<Point> = Vec::new();
        let mut matched_axes: usize = 0;
        let origin_item = heap[origin.x][origin.y];

        if !origin_item.empty() {
            let axes = CardinalAxis::iter();
            let mut i: usize = 0;
            while i < axes.len()
                invariant
                    axes@ == CardinalAxis::seek_order(),
                    i <= 4,
                    origin.x < C,
                    origin.y < R,
                    origin_item == heap@[origin.x as int]@[origin.y as int],
                    items@ == hits_upto(*heap, *origin, i as nat),
                    matched_axes == axes_upto(*heap, *origin, i as nat),
                    matched_axes <= i,
                decreases 4 - i,
            {
                let (first, second) = axes[i].directions();
                let mut matches: Vec<Point> = Vec::new();
                scan(heap, origin_item, origin.x, origin.y, first, &mut matches);
                scan(heap, origin_item, origin.x, origin.y, second, &mut matches);
                assert(matches@ =~= axis_run(*heap, *origin, axes@[i as int]));
                if matches.len() >= 2 {
                    matched_axes += 1;
                    items.append(&mut matches);
                }
                i += 1;
            }
            if !items.is_empty() {
                items.push(*origin);
            }
        }
        (items, matched_axes)
    }

    /// The cells matched from all `origins`, each once, in order of first
    /// appearance; `partial_score` grows by the pass's score.
    pub fn collect_matching_at<const R: usize, const C: usize>(
        &self,
        heap: &[[Block; R]; C],
        origins: &[Point],
        partial_score: &mut usize,
    ) -> (r: Vec<Point>)
        requires
            forall|i: int| 0 <= i < origins@.len() ==> #[trigger] in_grid::<R, C>(origins@[i].x as int, origins@[i].y as int),
            *old(partial_score) + matching_score(*heap, origins@) <= usize::MAX,
        ensures
            r@ == collect_matching(*heap, origins@),
            *final(partial_score) == *old(partial_score) + matching_score(*heap, origins@),
    {
        let ghost start = *partial_score;
        let mut items: Vec<Point> = Vec::new();
        let mut cache = [[false; R]; C];
        let mut i: usize = 0;
        proof {
            lemma_matching_score_prefix(*heap, origins@, 0);
            assert(origins@.take(0) =~= Seq::<Point>::empty());
        }
        while i < origins.len()
            invariant
                i <= origins@.len(),
                forall|k: int| 0 <= k < origins@.len() ==> #[trigger] in_grid::<R, C>(origins@[k].x as int, origins@[k].y as int),
                items@ == collect_matching(*heap, origins@.take(i as int)),
                *partial_score == start + matching_score(*heap, origins@.take(i as int)),
                start + matching_score(*heap, origins@) <= usize::MAX,
                forall|x: int, y: int| 0 <= x < C && 0 <= y < R ==> (#[trigger] cache@[x]@[y] <==> items@.contains(Point { x: x as usize, y: y as usize })),
                forall|k: int| 0 <= k < items@.len() ==> #[trigger] in_grid::<R, C>(items@[k].x as int, items@[k].y as int),
            decreases origins@.len() - i,
        {
            let origin = origins[i];
            assert(in_grid::<R, C>(origins@[i as int].x as int, origins@[i as int].y as int));
            let (matches, number_axes) = self.matching_at(heap, &origin);
            let ghost prev = items@;
            let ghost base = *partial_score;
            proof {
                lemma_matches_in_grid(*heap, origin);
                lemma_matching_score_prefix(*heap, origins@, i as int + 1);
                assert(origins@.take(i as int + 1).drop_last() =~= origins@.take(i as int));
                assert(origins@.take(i as int + 1).last() == origin);
                lemma_add_new(prev, matches@);
            }
            let mut j: usize = 0;
            while j < matches.len()
                invariant
                    j <= matches@.len(),
                    matches@ == matches_at(*heap, origin),
                    number_axes == matched_axes(*heap, origin),
                    number_axes <= 4,
                    items@ == add_new(prev, matches@.take(j as int)),
                    prev.len() <= items@.len(),
                    *partial_score == base + number_axes * 10 * (items@.len() - prev.len()),
                    base + number_axes * 10 * (add_new(prev, matches@).len() - prev.len()) <= usize::MAX,
                    forall|k: int| 0 <= k < matches@.len() ==> #[trigger] in_grid::<R, C>(matches@[k].x as int, matches@[k].y as int),
                    forall|x: int, y: int| 0 <= x < C && 0 <= y < R ==> (#[trigger] cache@[x]@[y] <==> items@.contains(Point { x: x as usize, y: y as usize })),
                    forall|k: int| 0 <= k < items@.len() ==> #[trigger] in_grid::<R, C>(items@[k].x as int, items@[k].y as int),
                decreases matches@.len() - j,
            {
                let item = matches[j];
                proof {
                    assert(matches@.take(j as int + 1).drop_last() =~= matches@.take(j as int));
                    assert(matches@.take(j as int + 1).last() == item);
                    assert(in_grid::<R, C>(matches@[j as int].x as int, matches@[j as int].y as int));
                    lemma_add_new_prefix(prev, matches@, j as int + 1);
                    lemma_add_new(prev, matches@.take(j as int + 1));
                    lemma_add_new(prev, matches@.take(j as int));
                }
                if !cache[item.x][item.y] {
                    let mut column = cache[item.x];
                    column[item.y] = true;
                    cache[item.x] = column;
                    items.push(item);
                    assert(number_axes * 10 * (items@.len() - prev.len()) == number_axes * 10 * (items@.len() - 1 - prev.len()) + number_axes * 10) by (nonlinear_arith);
                    assert(number_axes * 10 * (items@.len() - prev.len()) <= number_axes * 10 * (add_new(prev, matches@).len() - prev.len())) by (nonlinear_arith)
                        requires items@.len() <= add_new(prev, matches@).len();
                    *partial_score += number_axes * Self::SCORE_MUL;
                    assert forall|x: int, y: int| 0 <= x < C && 0 <= y < R implies (#[trigger] cache@[x]@[y] <==> items@.contains(Point { x: x as usize, y: y as usize })) by {
                        let p = Point { x: x as usize, y: y as usize };
                        if items@.contains(p) && p != item {
                            let k = choose|k: int| 0 <= k < items@.len() && items@[k] == p;
                            assert(items@.drop_last()[k] == items@[k]);
                        }
                        if items@.drop_last().contains(p) {
                            let k = choose|k: int| 0 <= k < items@.len() - 1 && items@.drop_last()[k] == p;
                            assert(items@[k] == items@.drop_last()[k]);
                        }
                        assert(items@[items@.len() - 1] == item);
                    }
                }
                j += 1;
            }
            proof {
                assert(matches@.take(matches@.len() as int) =~= matches@);
            }
            i += 1;
        }
        proof {
            assert(origins@.take(origins@.len() as int) =~= origins@);
        }
        items
    }

    /// The filled cells stacked right above each origin, one list per
    /// origin in order, brought into descending row order by a stable sort.
    pub fn collect_dropping_at<const R: usize, const C: usize>(
        &self,
        heap: &[[Block; R]; C],
        origins: &[Point],
    ) -> (r: Vec<Point>)
        requires
            forall|i: int| 0 <= i < origins@.len() ==> #[trigger] in_grid::<R, C>(origins@[i].x as int, origins@[i].y as int),
        ensures
            forall|k: int| 0 <= k < r@.len() ==> #[trigger] in_grid::<R, C>(r@[k].x as int, r@[k].y as int),
            forall|i: int, j: int| 0 <= i < j < r@.len() ==> r@[i].y >= r@[j].y,
            r@.to_multiset() == stacks_above(*heap, origins@).to_multiset(),
    {
        let mut items: Vec<Point> = Vec::new();
        let mut i: usize = 0;
        while i < origins.len()
            invariant
                i <= origins@.len(),
                forall|k: int| 0 <= k < origins@.len() ==> #[trigger] in_grid::<R, C>(origins@[k].x as int, origins@[k].y as int),
                items@ == stacks_above(*heap, origins@.take(i as int)),
                forall|k: int| 0 <= k < items@.len() ==> #[trigger] in_grid::<R, C>(items@[k].x as int, items@[k].y as int),
            decreases origins@.len() - i,
        {
            let origin = origins[i];
            assert(in_grid::<R, C>(origins@[i as int].x as int, origins@[i as int].y as int));
            let ghost base = items@;
            let ghost full = stack_from(*heap, origin.x as int, origin.y - 1);
            let mut y: usize = origin.y;
            while y > 0 && !heap[origin.x][y - 1].empty()
                invariant
                    origin.x < C,
                    origin.y < R,
                    y <= origin.y,
                    items@ + stack_from(*heap, origin.x as int, y - 1) == base + full,
                    forall|k: int| 0 <= k < items@.len() ==> #[trigger] in_grid::<R, C>(items@[k].x as int, items@[k].y as int),
                decreases y,
            {
                let ghost rest = stack_from(*heap, origin.x as int, y - 2);
                items.push(Point { x: origin.x, y: y - 1 });
                assert(stack_from(*heap, origin.x as int, y - 1) == seq![Point { x: origin.x, y: (y - 1) as usize }] + rest);
                assert(items@ + rest =~= (items@.drop_last() + seq![Point { x: origin.x, y: (y - 1) as usize }]) + rest);
                y -= 1;
            }
            assert(stack_from(*heap, origin.x as int, y - 1) == Seq::<Point>::empty());
            assert(items@ =~= items@ + Seq::<Point>::empty());
            proof {
                assert(origins@.take(i as int + 1).drop_last() =~= origins@.take(i as int));
                assert(origins@.take(i as int + 1).last() == origin);
            }
            i += 1;
        }
        assert(origins@.take(origins@.len() as int) =~= origins@);
        let mut sorted: Vec<Point> = Vec::new();
        let mut k: usize = 0;
        assert(sorted@ =~= items@.take(0));
        while k < items.len()
            invariant
                k <= items@.len(),
                items@ == stacks_above(*heap, origins@),
                forall|j: int| 0 <= j < items@.len() ==> #[trigger] in_grid::<R, C>(items@[j].x as int, items@[j].y as int),
                forall|j: int| 0 <= j < sorted@.len() ==> #[trigger] in_grid::<R, C>(sorted@[j].x as int, sorted@[j].y as int),
                forall|a: int, b: int| 0 <= a < b < sorted@.len() ==> sorted@[a].y >= sorted@[b].y,
                sorted@.to_multiset() == items@.take(k as int).to_multiset(),
            decreases items@.len() - k,
        {
            let item = items[k];
            assert(in_grid::<R, C>(items@[k as int].x as int, items@[k as int].y as int));
            let mut pos: usize = 0;
            while pos < sorted.len() && sorted[pos].y >= item.y
                invariant
                    pos <= sorted@.len(),
                    forall|j: int| 0 <= j < pos ==> #[trigger] sorted@[j].y >= item.y,
                decreases sorted@.len() - pos,
            {
                pos += 1;
            }
            let ghost before = sorted@;
            sorted.insert(pos, item);
            proof {
                lemma_insert_multiset(before, pos as int, item);
                assert(items@.take(k as int + 1) =~= items@.take(k as int).push(item));
                vstd::seq_lib::to_multiset_build(items@.take(k as int), item);
                assert forall|a: int, b: int| 0 <= a < b < sorted@.len() implies sorted@[a].y >= sorted@[b].y by {
                    if pos < before.len() {
                        assert(before[pos as int].y < item.y);
                    }
                    if a < pos && b > pos {
                        assert(sorted@[a] == before[a]);
                        assert(sorted@[b] == before[b - 1]);
                    }
                }
                assert forall|j: int| 0 <= j < sorted@.len() implies #[trigger] in_grid::<R, C>(sorted@[j].x as int, sorted@[j].y as int) by {
                    if j < pos {
                        assert(sorted@[j] == before[j]);
                    } else if j > pos {
                        assert(sorted@[j] == before[j - 1]);
                    }
                }
            }
            k += 1;
        }
        assert(items@.take(items@.len() as int) =~= items@);
        sorted
    }

    /// Moves each followed cell one row down where the cell below it is
    /// empty, in order, and reports whether any moved.
    pub fn update_dropping_at<const R: usize, const C: usize>(
        &self,
        heap: &mut [[Block; R]; C],
        origins: &mut [Point],
    ) -> (r: bool)
        requires
            forall|i: int| 0 <= i < old(origins)@.len() ==> #[trigger] in_grid::<R, C>(old(origins)@[i].x as int, old(origins)@[i].y as int),
        ensures
            (grid_of(*final(heap)), final(origins)@, r) == gravity_pass(grid_of(*old(heap)), R as int, old(origins)@),
    {
        let ghost g0 = grid_of(*heap);
        let ghost pts = origins@;
        let mut something_dropped = false;
        let mut i: usize = 0;
        while i < origins.len()
            invariant
                pts.len() == origins@.len(),
                i <= pts.len(),
                forall|k: int| 0 <= k < pts.len() ==> #[trigger] in_grid::<R, C>(pts[k].x as int, pts[k].y as int),
                (grid_of(*heap), origins@.take(i as int), something_dropped) == gravity_pass(g0, R as int, pts.take(i as int)),
                origins@.skip(i as int) == pts.skip(i as int),
            decreases pts.len() - i,
        {
            let origin = origins[i];
            proof {
                assert(pts.take(i as int + 1).drop_last() =~= pts.take(i as int));
                assert(pts.take(i as int + 1).last() == origin) by {
                    assert(pts.skip(i as int)[0] == pts[i as int]);
                    assert(origins@.skip(i as int)[0] == origins@[i as int]);
                }
                assert(in_grid::<R, C>(pts[i as int].x as int, pts[i as int].y as int));
            }
            let ghost before = origins@;
            if origin.y < R - 1 && heap[origin.x][origin.y + 1].empty() {
                let new_item = heap[origin.x][origin.y];
                let mut emptied = new_item;
                emptied.update(None);
                let mut column = heap[origin.x];
                column[origin.y] = emptied;
                column[origin.y + 1] = new_item;
                heap[origin.x] = column;
                origins[i] = Point { x: origin.x, y: origin.y + 1 };
                something_dropped = true;
            }
            proof {
                let prev = gravity_pass(g0, R as int, pts.take(i as int));
                assert(grid_of(*heap) =~~= gravity_pass(g0, R as int, pts.take(i as int + 1)).0);
                assert(origins@.take(i as int + 1) =~= gravity_pass(g0, R as int, pts.take(i as int + 1)).1);
                assert forall|k: int| 0 <= k < pts.len() - i - 1 implies #[trigger] origins@.skip(i as int + 1)[k] == pts.skip(i as int + 1)[k] by {
                    assert(origins@[i + 1 + k] == before[i + 1 + k]);
                    assert(before[i + 1 + k] == before.skip(i as int)[k + 1]);
                    assert(pts[i + 1 + k] == pts.skip(i as int)[k + 1]);
                }
                assert(origins@.skip(i as int + 1) =~= pts.skip(i as int + 1));
            }
            i += 1;
        }
        proof {
            assert(origins@.take(pts.len() as int) =~= origins@);
            assert(pts.take(pts.len() as int) =~= pts);
        }
        something_dropped
    }
}

/// Upper bound on the number of active cells while matching or dropping:
/// the stacks above at most every cell of the grid.
pub const MAX_ACTIVE: usize = 1014;

/// Upper bound on the score that one matching pass over at most
/// `MAX_ACTIVE` origins can add.
pub const MAX_PASS_SCORE: usize = 6205680;

/// Upper bound on the cells that one matching pass over at most
/// `MAX_ACTIVE` origins can clear.
pub const MAX_PASS_CLEARED: usize = 155142;

/// The pit: the grid of settled cells, the stage machine that clears runs
/// and lets cells fall, the cells it is working on, and the totals.
pub struct Pit {
    pub heap: Heap,
    pub state: PitState,
    pub active_origins: Vec<Point>,
    pub score: usize,
    pub blocks_score: usize,
}

impl Pit {
    /// The active set is empty exactly while stable, holds grid cells, is
    /// small enough to bound a pass, holds each cell once while collecting,
    /// and the flash count stays within three.
    pub open spec fn wf(self) -> bool {
        &&& (self.state.stage == PitStage::Stable) == (self.active_origins@.len() == 0)
        &&& forall|i: int|
            0 <= i < self.active_origins@.len() ==> #[trigger] in_grid::<NUM_ROWS, NUM_COLS>(
                self.active_origins@[i].x as int,
                self.active_origins@[i].y as int,
            )
        &&& (self.state.stage == PitStage::Matching || self.state.stage == PitStage::Dropping)
            ==> self.active_origins@.len() <= MAX_ACTIVE
        &&& self.state.stage == PitStage::Collecting ==> self.active_origins@.no_duplicates()
        &&& self.state.times <= 3
    }

    /// A grid of `C` columns of `R` cells, each holding `block_kind`.
    pub fn new_heap<const R: usize, const C: usize>(block_kind: Option<BlockKind>) -> (r: [[Block; R]; C])
        ensures
            forall|x: int, y: int| 0 <= x < C && 0 <= y < R ==> #[trigger] r@[x]@[y] == (Block { kind: block_kind, exploding: false }),
    {
        [[Block::new(block_kind); R]; C]
    }

    /// Whether the stage machine is idle.
    pub fn stable(&self) -> (r: bool)
        ensures
            r == (self.state.stage == PitStage::Stable),
    {
        self.state.stage == PitStage::Stable
    }

    /// The pit is stable and some column's top cell is filled.
    pub fn topped_up(&self) -> (r: bool)
        ensures
            r == (self.state.stage == PitStage::Stable && exists|x: int|
                0 <= x < NUM_COLS && (#[trigger] kind_at(self.heap, x, 0)).is_some()),
    {
        if !self.stable() {
            return false;
        }
        let mut x: usize = 0;
        while x < NUM_COLS
            invariant
                x <= NUM_COLS,
                self.state.stage == PitStage::Stable,
                forall|c: int| 0 <= c < x ==> (#[trigger] kind_at(self.heap, c, 0)).is_none(),
            decreases NUM_COLS - x,
        {
            if !self.heap[x][0].empty() {
                assert(kind_at(self.heap, x as int, 0).is_some());
                return true;
            }
            x += 1;
        }
        false
    }

    /// Stable: the piece's landing is checked; a landing piece's cells
    /// become the active set and matching is due at once; otherwise the pit
    /// is unchanged.
    pub open spec fn stable_step(self, new: Pit, col: Column, new_col: Column, delta: u64) -> bool {
        &&& new_col == col.landing_checked(self.heap, delta)
        &&& if col.lands(self.heap, delta) {
            &&& new.state == (PitState {
                stage: PitStage::Matching,
                move_timer: Timer { ready: true, millis: self.state.move_timer.millis, remaining: 0 },
                times: self.state.times,
            })
            &&& new.active_origins@ == col.landing_cells()
            &&& grid_of(new.heap) == col.placed(grid_of(self.heap), col.cells_in_grid() as int)
            &&& new.score == self.score
            &&& new.blocks_score == self.blocks_score
        } else {
            new == self
        }
    }

    /// Matching: the matched cells replace the active set and are added to
    /// the totals; the stage goes on to collecting, or back to stable when
    /// nothing matched.
    pub open spec fn matching_step(self, new: Pit) -> bool {
        let items = collect_matching(self.heap, self.active_origins@);
        &&& new.heap == self.heap
        &&& new.active_origins@ == items
        &&& new.score == self.score + matching_score(self.heap, self.active_origins@)
        &&& new.blocks_score == self.blocks_score + items.len()
        &&& new.state == (PitState {
            stage: if items.len() == 0 { PitStage::Stable } else { PitStage::Collecting },
            move_timer: Timer::fresh(self.state.move_timer.millis),
            times: self.state.times,
        })
    }

    /// Collecting: after three flashes the active cells are emptied and the
    /// cells stacked above them become the active set; before that, each
    /// time the pacing timer fires the active cells flash on, off, on.
    pub open spec fn collecting_step(self, new: Pit, delta: u64) -> bool {
        let t = self.state.move_timer.advanced(delta);
        if self.state.times == 3 {
            &&& grid_of(new.heap) == cleared(grid_of(self.heap), self.active_origins@)
            &&& forall|k: int|
                0 <= k < new.active_origins@.len() ==> #[trigger] in_grid::<NUM_ROWS, NUM_COLS>(
                    new.active_origins@[k].x as int,
                    new.active_origins@[k].y as int,
                )
            &&& forall|i: int, j: int|
                0 <= i < j < new.active_origins@.len() ==> new.active_origins@[i].y >= new.active_origins@[j].y
            &&& new.active_origins@.to_multiset() == stacks_above(new.heap, self.active_origins@).to_multiset()
            &&& new.state == (PitState {
                stage: if new.active_origins@.len() == 0 { PitStage::Stable } else { PitStage::Dropping },
                move_timer: Timer::fresh(self.state.move_timer.millis),
                times: 0,
            })
            &&& new.score == self.score
            &&& new.blocks_score == self.blocks_score
        } else if t.ready {
            &&& grid_of(new.heap) == flashed(grid_of(self.heap), self.active_origins@, (self.state.times + 1) % 2 != 0)
            &&& new.active_origins@ == self.active_origins@
            &&& new.state == (PitState {
                stage: self.state.stage,
                move_timer: Timer::fresh(self.state.move_timer.millis),
                times: (self.state.times + 1) as u8,
            })
            &&& new.score == self.score
            &&& new.blocks_score == self.blocks_score
        } else {
            new == (Pit { state: PitState { move_timer: t, ..self.state }, ..self })
        }
    }

    /// Dropping: each time the pacing timer fires, one gravity step over
    /// the active set; once nothing moves, back to matching.
    pub open spec fn dropping_step(self, new: Pit, delta: u64) -> bool {
        let t = self.state.move_timer.advanced(delta);
        if t.ready {
            let pass = gravity_pass(grid_of(self.heap), NUM_ROWS as int, self.active_origins@);
            &&& grid_of(new.heap) == pass.0
            &&& new.active_origins@ == pass.1
            &&& new.state == (PitState {
                stage: if pass.2 { PitStage::Dropping } else { PitStage::Matching },
                move_timer: Timer::fresh(self.state.move_timer.millis),
                times: self.state.times,
            })
            &&& new.score == self.score
            &&& new.blocks_score == self.blocks_score
        } else {
            new == (Pit { state: PitState { move_timer: t, ..self.state }, ..self })
        }
    }

    /// One tick of the stage machine; returns the score and the number of
    /// cleared cells so far.
    pub fn update(&mut self, column: &mut Column, delta: u64) -> (r: (usize, usize))
        requires
            old(self).wf(),
            old(column).wf(),
            old(self).score <= usize::MAX - MAX_PASS_SCORE,
            old(self).blocks_score <= usize::MAX - MAX_PASS_CLEARED,
        ensures
            final(self).wf(),
            final(column).wf(),
            r == (final(self).score, final(self).blocks_score),
            old(self).state.stage == PitStage::Stable ==> old(self).stable_step(*final(self), *old(column), *final(column), delta),
            old(self).state.stage != PitStage::Stable ==> *final(column) == *old(column),
            old(self).state.stage == PitStage::Matching ==> old(self).matching_step(*final(self)),
            old(self).state.stage == PitStage::Collecting ==> old(self).collecting_step(*final(self), delta),
            old(self).state.stage == PitStage::Dropping ==> old(self).dropping_step(*final(self), delta),
    {
        match self.state.stage {
            PitStage::Stable => self.update_stable(column, delta),
            PitStage::Matching => self.update_matching(),
            PitStage::Collecting => self.update_collecting(delta),
            PitStage::Dropping => self.update_dropping(delta),
        }
        (self.score, self.blocks_score)
    }

    fn update_stable(&mut self, column: &mut Column, delta: u64)
        requires
            old(self).wf(),
            old(column).wf(),
            old(self).state.stage == PitStage::Stable,
        ensures
            final(self).wf(),
            final(column).wf(),
            old(self).stable_step(*final(self), *old(column), *final(column), delta),
    {
        if let Some(origins) = column.detect_landing(&mut self.heap, delta) {
            self.active_origins = origins;
            self.state.stage = PitStage::Matching;
            self.state.move_timer.finish();
        }
    }

    fn update_matching(&mut self)
        requires
            old(self).wf(),
            old(self).state.stage == PitStage::Matching,
            old(self).score <= usize::MAX - MAX_PASS_SCORE,
            old(self).blocks_score <= usize::MAX - MAX_PASS_CLEARED,
        ensures
            final(self).wf(),
            old(self).matching_step(*final(self)),
    {
        proof {
            lemma_pass_bounds(self.heap, self.active_origins@);
            let n = self.active_origins@.len();
            assert(40 * (8 * (NUM_ROWS + NUM_COLS) + 1) * n <= MAX_PASS_SCORE) by (nonlinear_arith)
                requires
                    n <= 1014,
            ;
            assert((8 * (NUM_ROWS + NUM_COLS) + 1) * n <= MAX_PASS_CLEARED) by (nonlinear_arith)
                requires
                    n <= 1014,
            ;
            lemma_collect_members(self.heap, self.active_origins@, Point { x: 0, y: 0 });
        }
        let mut partial_score: usize = 0;
        let items = self.state.collect_matching_at(&self.heap, self.active_origins.as_slice(), &mut partial_score);
        self.score = self.score + partial_score;
        self.blocks_score = self.blocks_score + items.len();
        self.active_origins = items;
        self.state.stage = if self.active_origins.len() == 0 {
            PitStage::Stable
        } else {
            PitStage::Collecting
        };
        self.state.move_timer.reset();
    }

    fn update_collecting(&mut self, delta: u64)
        requires
            old(self).wf(),
            old(self).state.stage == PitStage::Collecting,
        ensures
            final(self).wf(),
            old(self).collecting_step(*final(self), delta),
    {
        let ghost g0 = grid_of(self.heap);
        let ghost active = self.active_origins@;
        let ghost score = self.score;
        let ghost blocks_score = self.blocks_score;
        if self.state.times == 3 {
            self.state.times = 0;
            let mut i: usize = 0;
            assert(cleared(g0, active.take(0)) =~~= g0);
            let ghost st = self.state;
            while i < self.active_origins.len()
                invariant
                    i <= active.len(),
                    self.state == st,
                    self.score == score,
                    self.blocks_score == blocks_score,
                    self.active_origins@ == active,
                    g0.len() == NUM_COLS,
                    forall|x: int| 0 <= x < NUM_COLS ==> #[trigger] g0[x].len() == NUM_ROWS,
                    forall|k: int| 0 <= k < active.len() ==> #[trigger] in_grid::<NUM_ROWS, NUM_COLS>(active[k].x as int, active[k].y as int),
                    grid_of(self.heap) == cleared(g0, active.take(i as int)),
                decreases active.len() - i,
            {
                let item = self.active_origins[i];
                assert(in_grid::<NUM_ROWS, NUM_COLS>(active[i as int].x as int, active[i as int].y as int));
                let ghost prev = grid_of(self.heap);
                let mut column = self.heap[item.x];
                column[item.y] = Block::new(None);
                self.heap[item.x] = column;
                proof {
                    let empty_block = Block { kind: None, exploding: false };
                    assert(grid_of(self.heap) =~~= prev.update(item.x as int, prev[item.x as int].update(item.y as int, empty_block)));
                    let next = cleared(g0, active.take(i as int + 1));
                    assert(active.take(i as int + 1) =~= active.take(i as int).push(item));
                    assert forall|x: int, y: int| 0 <= x < NUM_COLS && 0 <= y < NUM_ROWS implies #[trigger] grid_of(self.heap)[x][y] == next[x][y] by {
                        let p = Point { x: x as usize, y: y as usize };
                        assert(active.take(i as int + 1).contains(p) <==> (active.take(i as int).contains(p) || p == item)) by {
                            if active.take(i as int + 1).contains(p) && p != item {
                                let k = choose|k: int| 0 <= k < i + 1 && #[trigger] active.take(i as int + 1)[k] == p;
                                assert(active.take(i as int)[k] == p);
                            }
                            if active.take(i as int).contains(p) {
                                let k = choose|k: int| 0 <= k < i && #[trigger] active.take(i as int)[k] == p;
                                assert(active.take(i as int + 1)[k] == p);
                            }
                            assert(active.take(i as int + 1)[i as int] == item);
                        }
                    }
                    assert(grid_of(self.heap) =~~= next);
                }
                i += 1;
            }
            assert(active.take(active.len() as int) =~= active);
            let dropping = self.state.collect_dropping_at(&self.heap, self.active_origins.as_slice());
            proof {
                lemma_distinct_cells(active);
                lemma_stacks_len(self.heap, active);
                broadcast use vstd::seq_lib::group_to_multiset_ensures;
                assert(dropping@.len() == dropping@.to_multiset().len());
                assert(stacks_above(self.heap, active).len() == stacks_above(self.heap, active).to_multiset().len());
                let n = active.len();
                assert(n * NUM_ROWS <= MAX_ACTIVE) by (nonlinear_arith)
                    requires
                        n <= 78,
                ;
            }
            self.active_origins = dropping;
            self.state.stage = if self.active_origins.len() == 0 {
                PitStage::Stable
            } else {
                PitStage::Dropping
            };
            self.state.move_timer.reset();
        } else if self.state.move_timer.update(delta) {
            self.state.move_timer.reset();
            self.state.times = self.state.times + 1;
            let exploding = self.state.times % 2 != 0;
            let mut i: usize = 0;
            assert(flashed(g0, active.take(0), exploding) =~~= g0);
            let ghost st = self.state;
            while i < self.active_origins.len()
                invariant
                    i <= active.len(),
                    self.state == st,
                    self.score == score,
                    self.blocks_score == blocks_score,
                    self.active_origins@ == active,
                    g0.len() == NUM_COLS,
                    forall|x: int| 0 <= x < NUM_COLS ==> #[trigger] g0[x].len() == NUM_ROWS,
                    forall|k: int| 0 <= k < active.len() ==> #[trigger] in_grid::<NUM_ROWS, NUM_COLS>(active[k].x as int, active[k].y as int),
                    grid_of(self.heap) == flashed(g0, active.take(i as int), exploding),
                decreases active.len() - i,
            {
                let item = self.active_origins[i];
                assert(in_grid::<NUM_ROWS, NUM_COLS>(active[i as int].x as int, active[i as int].y as int));
                let ghost prev = grid_of(self.heap);
                let mut column = self.heap[item.x];
                let mut cell = column[item.y];
                cell.exploding = exploding;
                column[item.y] = cell;
                self.heap[item.x] = column;
                proof {
                    assert(grid_of(self.heap) =~~= prev.update(item.x as int, prev[item.x as int].update(item.y as int, cell)));
                    let next = flashed(g0, active.take(i as int + 1), exploding);
                    assert forall|x: int, y: int| 0 <= x < NUM_COLS && 0 <= y < NUM_ROWS implies #[trigger] grid_of(self.heap)[x][y] == next[x][y] by {
                        let p = Point { x: x as usize, y: y as usize };
                        assert(active.take(i as int + 1).contains(p) <==> (active.take(i as int).contains(p) || p == item)) by {
                            if active.take(i as int + 1).contains(p) && p != item {
                                let k = choose|k: int| 0 <= k < i + 1 && #[trigger] active.take(i as int + 1)[k] == p;
                                assert(active.take(i as int)[k] == p);
                            }
                            if active.take(i as int).contains(p) {
                                let k = choose|k: int| 0 <= k < i && #[trigger] active.take(i as int)[k] == p;
                                assert(active.take(i as int + 1)[k] == p);
                            }
                            assert(active.take(i as int + 1)[i as int] == item);
                        }
                    }
                    assert(grid_of(self.heap) =~~= next);
                }
                i += 1;
            }
            assert(active.take(active.len() as int) =~= active);
        }
    }

    fn update_dropping(&mut self, delta: u64)
        requires
            old(self).wf(),
            old(self).state.stage == PitStage::Dropping,
        ensures
            final(self).wf(),
            old(self).dropping_step(*final(self), delta),
    {
        if self.state.move_timer.update(delta) {
            self.state.move_timer.reset();
            proof {
                lemma_gravity_pass_shape(grid_of(self.heap), self.active_origins@);
            }
            if !self.state.update_dropping_at(&mut self.heap, self.active_origins.as_mut_slice()) {
                self.state.stage = PitStage::Matching;
            }
        }
    }
}

impl Default for Pit {
    fn default() -> (r: Pit)
        ensures
            r.wf(),
            r.state == PitState::default_spec(),
            r.active_origins@.len() == 0,
            r.score == 0,
            r.blocks_score == 0,
            forall|x: int, y: int| 0 <= x < NUM_COLS && 0 <= y < NUM_ROWS ==> #[trigger] r.heap@[x]@[y] == (Block { kind: None, exploding: false }),
    {
        Pit {
            heap: Pit::new_heap(None),
            state: PitState::default(),
            active_origins: Vec::new(),
            score: 0,
            blocks_score: 0,
        }
    }
}

/// Origins with nothing stacked above any of them have no stacks.
proof fn lemma_no_stacks(heap: Heap, origins: Seq<Point>)
    requires
        forall|k: int| 0 <= k < origins.len() ==> #[trigger] stack_from(heap, origins[k].x as int, origins[k].y - 1).len() == 0,
    ensures
        stacks_above(heap, origins).len() == 0,
    decreases origins.len(),
{
    if origins.len() > 0 {
        let init = origins.drop_last();
        assert forall|k: int| 0 <= k < init.len() implies #[trigger] stack_from(heap, init[k].x as int, init[k].y - 1).len() == 0 by {
            assert(init[k] == origins[k]);
        }
        lemma_no_stacks(heap, init);
        assert(stack_from(heap, origins[origins.len() - 1].x as int, origins[origins.len() - 1].y - 1).len() == 0);
    }
}

/// Clearing a vertical run of three cells with nothing stacked above it
/// leaves nothing to drop: after the third flash the run's cells are
/// empty and the pit is stable again with an empty active set.
pub proof fn lemma_clear_with_nothing_above(pit: Pit, new: Pit, delta: u64, x: usize, r: usize)
    requires
        pit.state.stage == PitStage::Collecting,
        pit.state.times == 3,
        pit.collecting_step(new, delta),
        x < NUM_COLS,
        2 <= r < NUM_ROWS,
        forall|k: int|
            0 <= k < pit.active_origins@.len() ==> #[trigger] pit.active_origins@[k] == (Point { x, y: r })
                || pit.active_origins@[k] == (Point { x, y: (r - 1) as usize })
                || pit.active_origins@[k] == (Point { x, y: (r - 2) as usize }),
        pit.active_origins@.contains(Point { x, y: r }),
        pit.active_origins@.contains(Point { x, y: (r - 1) as usize }),
        pit.active_origins@.contains(Point { x, y: (r - 2) as usize }),
        r < 3 || kind_at(pit.heap, x as int, r - 3).is_none(),
    ensures
        new.active_origins@.len() == 0,
        new.state.stage == PitStage::Stable,
        kind_at(new.heap, x as int, r as int).is_none(),
        kind_at(new.heap, x as int, r - 1).is_none(),
        kind_at(new.heap, x as int, r - 2).is_none(),
        (new.score, new.blocks_score) == (pit.score, pit.blocks_score),
{
    broadcast use vstd::seq_lib::group_to_multiset_ensures;
    let active = pit.active_origins@;
    let g = grid_of(new.heap);
    let g0 = grid_of(pit.heap);
    assert(g == cleared(g0, active));
    assert(kind_at(new.heap, x as int, r as int) == g[x as int][r as int].kind);
    assert(kind_at(new.heap, x as int, r - 1) == g[x as int][r - 1].kind);
    assert(kind_at(new.heap, x as int, r - 2) == g[x as int][r - 2].kind);
    if r >= 3 {
        assert(!active.contains(Point { x, y: (r - 3) as usize })) by {
            if active.contains(Point { x, y: (r - 3) as usize }) {
                let k = choose|k: int| 0 <= k < active.len() && active[k] == Point { x, y: (r - 3) as usize };
                assert(active[k] == (Point { x, y: r }) || active[k] == (Point { x, y: (r - 1) as usize }) || active[k] == (Point { x, y: (r - 2) as usize }));
            }
        }
        assert(kind_at(new.heap, x as int, r - 3) == g[x as int][r - 3].kind);
        assert(g[x as int][r - 3] == g0[x as int][r - 3]);
    }
    assert forall|k: int| 0 <= k < active.len() implies #[trigger] stack_from(new.heap, active[k].x as int, active[k].y - 1).len() == 0 by {
        assert(active[k] == (Point { x, y: r }) || active[k] == (Point { x, y: (r - 1) as usize }) || active[k] == (Point { x, y: (r - 2) as usize }));
    }
    lemma_no_stacks(new.heap, active);
    assert(new.active_origins@.len() == new.active_origins@.to_multiset().len());
    assert(stacks_above(new.heap, active).len() == stacks_above(new.heap, active).to_multiset().len());
}

/// A landed vertical run of exactly three cells of one kind, with no other
/// cell of that kind next to any of them, matches in one pass: the active
/// set becomes exactly those three cells, three cells are cleared and
/// thirty points scored, and the pit goes on to collecting.
pub proof fn lemma_vertical_run_matched(pit: Pit, new: Pit, x: usize, r: usize)
    requires
        pit.matching_step(new),
        x < NUM_COLS,
        2 <= r < NUM_ROWS,
        pit.active_origins@ == seq![Point { x, y: r }, Point { x, y: (r - 1) as usize }, Point { x, y: (r - 2) as usize }],
        kind_at(pit.heap, x as int, r as int).is_some(),
        kind_at(pit.heap, x as int, r - 1) == kind_at(pit.heap, x as int, r as int),
        kind_at(pit.heap, x as int, r - 2) == kind_at(pit.heap, x as int, r as int),
        r < 3 || kind_at(pit.heap, x as int, r - 3) != kind_at(pit.heap, x as int, r as int),
        r + 1 == NUM_ROWS || kind_at(pit.heap, x as int, r + 1) != kind_at(pit.heap, x as int, r as int),
        forall|k: int, a: CardinalAxis|
            0 <= k < 3 && a != CardinalAxis::NxS ==> #[trigger] no_neighbour_along(pit.heap, pit.active_origins@[k], a),
    ensures
        new.active_origins@.len() == 3,
        new.active_origins@.contains(Point { x, y: r }),
        new.active_origins@.contains(Point { x, y: (r - 1) as usize }),
        new.active_origins@.contains(Point { x, y: (r - 2) as usize }),
        new.blocks_score == pit.blocks_score + 3,
        new.score == pit.score + 30,
        new.state.stage == PitStage::Collecting,
{
    let heap = pit.heap;
    let active = pit.active_origins@;
    let o0 = Point { x, y: r };
    let o1 = Point { x, y: (r - 1) as usize };
    let o2 = Point { x, y: (r - 2) as usize };
    let north = CardinalAxis::NxS.first();
    let south = CardinalAxis::NxS.second();
    assert(active[0] == o0 && active[1] == o1 && active[2] == o2);
    assert forall|a: CardinalAxis| a != CardinalAxis::NxS implies #[trigger] no_neighbour_along(heap, o0, a) by {
        assert(no_neighbour_along(heap, active[0], a));
    }
    assert forall|a: CardinalAxis| a != CardinalAxis::NxS implies #[trigger] no_neighbour_along(heap, o1, a) by {
        assert(no_neighbour_along(heap, active[1], a));
    }
    assert forall|a: CardinalAxis| a != CardinalAxis::NxS implies #[trigger] no_neighbour_along(heap, o2, a) by {
        assert(no_neighbour_along(heap, active[2], a));
    }
    assert(run_cell(heap, o0, north, 1) && run_cell(heap, o0, north, 2) && !run_cell(heap, o0, north, 3));
    assert(!run_cell(heap, o0, south, 1));
    lemma_run_of_three_alone(heap, o0, CardinalAxis::NxS, 2);
    lemma_run_of_three(heap, o0, CardinalAxis::NxS, 2);
    assert(run_cell(heap, o1, north, 1) && !run_cell(heap, o1, north, 2));
    assert(run_cell(heap, o1, south, 1) && !run_cell(heap, o1, south, 2));
    lemma_run_of_three_alone(heap, o1, CardinalAxis::NxS, 1);
    lemma_run_of_three(heap, o1, CardinalAxis::NxS, 1);
    assert(!run_cell(heap, o2, north, 1));
    assert(run_cell(heap, o2, south, 1) && run_cell(heap, o2, south, 2) && !run_cell(heap, o2, south, 3));
    lemma_run_of_three_alone(heap, o2, CardinalAxis::NxS, 0);
    lemma_run_of_three(heap, o2, CardinalAxis::NxS, 0);
    let m0 = matches_at(heap, o0);
    let m1 = matches_at(heap, o1);
    let m2 = matches_at(heap, o2);
    assert(m0.contains(o0) && m0.contains(o1) && m0.contains(o2));
    assert(m1.contains(o0) && m1.contains(o1) && m1.contains(o2));
    assert(m2.contains(o0) && m2.contains(o1) && m2.contains(o2));
    // the first origin brings all three cells, each once
    let c1 = collect_matching(heap, active.take(1));
    assert(active.take(1).drop_last() =~= Seq::<Point>::empty());
    assert(active.take(1).last() == o0);
    assert(collect_matching(heap, active.take(1).drop_last()) == Seq::<Point>::empty());
    assert(c1 == add_new(Seq::<Point>::empty(), m0));
    lemma_add_new(Seq::<Point>::empty(), m0);
    assert(c1.contains(o0) && c1.contains(o1) && c1.contains(o2));
    let i0 = choose|i: int| 0 <= i < c1.len() && c1[i] == o0;
    let i1 = choose|i: int| 0 <= i < c1.len() && c1[i] == o1;
    let i2 = choose|i: int| 0 <= i < c1.len() && c1[i] == o2;
    assert(c1.len() == 3);
    // the others bring nothing new
    assert forall|k: int| 0 <= k < m1.len() implies c1.contains(#[trigger] m1[k]) by {
        assert(m1.contains(m1[k]));
        assert(m0.contains(m1[k])) by {
            assert(m1.len() == 3);
            assert(m1[k] == o0 || m1[k] == o1 || m1[k] == o2) by {
                assert(m1.contains(o0) && m1.contains(o1) && m1.contains(o2));
                let j0 = choose|j: int| 0 <= j < m1.len() && m1[j] == o0;
                let j1 = choose|j: int| 0 <= j < m1.len() && m1[j] == o1;
                let j2 = choose|j: int| 0 <= j < m1.len() && m1[j] == o2;
            }
        }
    }
    lemma_add_new_present(c1, m1);
    let c2 = collect_matching(heap, active.take(2));
    assert(active.take(2).drop_last() =~= active.take(1));
    assert(active.take(2).last() == o1);
    assert(c2 == c1);
    assert forall|k: int| 0 <= k < m2.len() implies c2.contains(#[trigger] m2[k]) by {
        assert(m2[k] == o0 || m2[k] == o1 || m2[k] == o2) by {
            let j0 = choose|j: int| 0 <= j < m2.len() && m2[j] == o0;
            let j1 = choose|j: int| 0 <= j < m2.len() && m2[j] == o1;
            let j2 = choose|j: int| 0 <= j < m2.len() && m2[j] == o2;
        }
    }
    lemma_add_new_present(c2, m2);
    assert(active.take(3) =~= active);
    assert(active.take(3).drop_last() =~= active.take(2));
    assert(active.last() == o2);
    let c3 = collect_matching(heap, active);
    assert(c3 == c1);
    assert(matching_score(heap, active.take(1)) == 30) by {
        assert(matching_score(heap, Seq::<Point>::empty()) == 0);
    }
    assert(matching_score(heap, active.take(2)) == matching_score(heap, active.take(1)) + matched_axes(heap, o1) * 10 * (
    c2.len() - c1.len()));
    assert(matching_score(heap, active.take(2)) == 30);
    assert(matching_score(heap, active) == matching_score(heap, active.take(2)) + matched_axes(heap, o2) * 10 * (
    c3.len() - c2.len()));
    assert(matching_score(heap, active) == 30);
}

} // verus!
