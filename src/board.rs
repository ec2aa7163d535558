//! The totals shown beside the pit.
use vstd::prelude::*;

verus! {

/// The side panel's figures: the score and the number of cleared cells.
#[derive(Debug, Default, Clone, Copy)]
pub struct Board {
    pub score: usize,
    pub blocks_score: usize,
}

impl Board {
    pub fn update(&mut self, score: usize, blocks_score: usize)
        ensures
            final(self).score == score,
            final(self).blocks_score == blocks_score,
    {
        self.score = score;
        self.blocks_score = blocks_score;
    }
}

} // verus!
