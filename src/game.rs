//! One session: commands applied to the falling piece and the per-tick
//! decisions that drive the pit and renew pieces.
use crate::block::Block;
use crate::board::Board;
use crate::column::Column;
use crate::matching::kind_at;
use crate::pit::{Pit, PitStage, PitState, MAX_PASS_CLEARED, MAX_PASS_SCORE};
use crate::{NUM_COLS, NUM_ROWS};
use vstd::prelude::*;

verus! {

/// A player's command, applied to the falling piece.
#[derive(Debug, Clone, Copy, PartialEq, Eq, Structural)]
pub enum Command {
    MoveLeft,
    MoveRight,
    MoveDown,
    Rotate,
    Quit,
}

/// A session: the pit, the falling piece, the next piece shown beside the
/// pit, and the side panel's totals.
pub struct Game {
    pub pit: Pit,
    pub column: Column,
    pub upcoming: Column,
    pub board: Board,
}

impl Game {
    pub open spec fn wf(self) -> bool {
        self.pit.wf() && self.column.wf() && self.upcoming.wf() && self.upcoming.stand_by
    }

    /// The pit is stable and some column's top cell is filled.
    pub open spec fn topped_out(pit: Pit) -> bool {
        pit.state.stage == PitStage::Stable && exists|x: int| 0 <= x < NUM_COLS && (#[trigger] kind_at(pit.heap, x, 0)).is_some()
    }

    /// An empty pit, a falling piece and a waiting one.
    pub fn new() -> (r: Game)
        ensures
            r.wf(),
            r.pit.state == PitState::default_spec(),
            r.pit.active_origins@.len() == 0,
            r.pit.score == 0,
            r.pit.blocks_score == 0,
            forall|x: int, y: int|
                0 <= x < NUM_COLS && 0 <= y < NUM_ROWS ==> #[trigger] r.pit.heap@[x]@[y] == (Block { kind: None, exploding: false }),
            r.column == Column::spec_from(r.column.shaft),
            r.upcoming == (Column { stand_by: true, ..Column::spec_from(r.upcoming.shaft) }),
            forall|i: int|
                0 <= i < 3 ==> (#[trigger] r.column.shaft@[i]).kind.is_some() && !r.column.shaft@[i].exploding
                    && r.upcoming.shaft@[i].kind.is_some() && !r.upcoming.shaft@[i].exploding,
            r.board == (Board { score: 0, blocks_score: 0 }),
    {
        let mut upcoming = Column::new();
        upcoming.stand_by = true;
        Game { pit: Pit::default(), column: Column::new(), upcoming, board: Board { score: 0, blocks_score: 0 } }
    }

    /// Applies one command to the falling piece; returns whether it asks
    /// to quit.
    pub fn command(&mut self, cmd: Command) -> (quit: bool)
        requires
            old(self).wf(),
        ensures
            final(self).wf(),
            quit == (cmd == Command::Quit),
            final(self).pit == old(self).pit,
            final(self).upcoming == old(self).upcoming,
            final(self).board == old(self).board,
            final(self).column == match cmd {
                Command::MoveLeft => old(self).column.moved_left(old(self).pit.heap),
                Command::MoveRight => old(self).column.moved_right(old(self).pit.heap),
                Command::MoveDown => old(self).column.moved_down(old(self).pit.heap),
                Command::Rotate => old(self).column.cycled(),
                Command::Quit => old(self).column,
            },
    {
        match cmd {
            Command::MoveLeft => self.column.move_left(&self.pit.heap),
            Command::MoveRight => self.column.move_right(&self.pit.heap),
            Command::MoveDown => self.column.move_down(&self.pit.heap),
            Command::Rotate => self.column.cycle(),
            Command::Quit => {},
        }
        cmd == Command::Quit
    }

    /// One tick: the pit's stage machine runs; while the pit is stable the
    /// piece falls, and a piece that has landed is replaced by the waiting
    /// one, a new piece waiting in its place. The side panel takes the
    /// pit's totals. Returns whether the pit has topped out.
    pub fn tick(&mut self, delta: u64) -> (topped_out: bool)
        requires
            old(self).wf(),
            old(self).pit.score <= usize::MAX - MAX_PASS_SCORE,
            old(self).pit.blocks_score <= usize::MAX - MAX_PASS_CLEARED,
        ensures
            final(self).wf(),
            topped_out == Game::topped_out(final(self).pit),
            final(self).board == (Board { score: final(self).pit.score, blocks_score: final(self).pit.blocks_score }),
            final(self).pit.state.stage != PitStage::Stable ==> final(self).upcoming == old(self).upcoming,
            final(self).pit.state.stage != PitStage::Stable ==> final(self).column.shaft == old(self).column.shaft,
            old(self).pit.state.stage == PitStage::Matching ==> old(self).pit.matching_step(final(self).pit),
            old(self).pit.state.stage == PitStage::Collecting ==> old(self).pit.collecting_step(final(self).pit, delta),
            old(self).pit.state.stage == PitStage::Dropping ==> old(self).pit.dropping_step(final(self).pit, delta),
            old(self).pit.state.stage != PitStage::Stable && final(self).pit.state.stage == PitStage::Stable
                && !old(self).column.dropping ==> final(self).column == (Column { stand_by: false, ..old(self).upcoming }),
            old(self).pit.state.stage == PitStage::Stable ==> old(self).pit.stable_step(
                final(self).pit,
                old(self).column,
                old(self).column.landing_checked(old(self).pit.heap, delta),
                delta,
            ),
            old(self).pit.state.stage == PitStage::Stable && old(self).column.lands(old(self).pit.heap, delta)
                ==> final(self).column == old(self).column.landing_checked(old(self).pit.heap, delta),
            old(self).pit.state.stage == PitStage::Stable && !old(self).column.lands(old(self).pit.heap, delta)
                && old(self).column.dropping ==> final(self).column == old(self).column.landing_checked(
                old(self).pit.heap,
                delta,
            ).stepped(old(self).pit.heap, delta),
            old(self).pit.state.stage == PitStage::Stable && !old(self).column.dropping ==> final(self).column == (
            Column { stand_by: false, ..old(self).upcoming }),
    {
        let (score, blocks_score) = self.pit.update(&mut self.column, delta);
        if self.pit.stable() {
            let dropping = self.column.update(&self.pit.heap, delta);
            if !dropping {
                let mut next = Column::new();
                next.stand_by = true;
                self.column = self.upcoming;
                self.column.stand_by = false;
                self.upcoming = next;
            }
        }
        self.board.update(score, blocks_score);
        self.pit.topped_up()
    }
}

} // verus!
