//! Grid cells and their kinds.
use vstd::prelude::*;

verus! {

/// The four colours a cell can hold.
#[derive(Debug, Clone, Copy, PartialEq, Eq, Structural)]
pub enum BlockKind {
    Yellow,
    Orange,
    Red,
    Cyan,
}

impl BlockKind {
    /// The kind numbered `index` among the four, counting from 1.
    pub open spec fn spec_from_index(index: u8) -> Option<BlockKind> {
        if index == 1 {
            Some(BlockKind::Yellow)
        } else if index == 2 {
            Some(BlockKind::Orange)
        } else if index == 3 {
            Some(BlockKind::Red)
        } else if index == 4 {
            Some(BlockKind::Cyan)
        } else {
            None
        }
    }

    pub fn from_index(index: u8) -> (r: Option<BlockKind>)
        ensures
            r == BlockKind::spec_from_index(index),
    {
        match index {
            1 => Some(BlockKind::Yellow),
            2 => Some(BlockKind::Orange),
            3 => Some(BlockKind::Red),
            4 => Some(BlockKind::Cyan),
            _ => None,
        }
    }
}

/// One grid slot: an optional kind, and whether it is flashing before
/// being cleared. Two blocks are equal when their kinds are.
#[derive(Debug, Clone, Copy)]
pub struct Block {
    pub kind: Option<BlockKind>,
    pub exploding: bool,
}

impl Block {
    pub fn new(kind: Option<BlockKind>) -> (r: Block)
        ensures
            r == (Block { kind, exploding: false }),
    {
        Block { kind, exploding: false }
    }

    /// Sets the kind and keeps the flashing flag.
    pub fn update(&mut self, kind: Option<BlockKind>)
        ensures
            *final(self) == (Block { kind, exploding: old(self).exploding }),
    {
        self.kind = kind;
    }

    pub fn empty(&self) -> (r: bool)
        ensures
            r == self.kind.is_none(),
    {
        self.kind.is_none()
    }

    pub fn same_kind(&self, other: &Block) -> (r: bool)
        ensures
            r == (self.kind == other.kind),
    {
        match (self.kind, other.kind) {
            (None, None) => true,
            (Some(a), Some(b)) => a == b,
            _ => false,
        }
    }
}

impl Default for Block {
    fn default() -> (r: Block)
        ensures
            r == (Block { kind: None, exploding: false }),
    {
        Block::new(None)
    }
}

impl PartialEq for Block {
    fn eq(&self, other: &Block) -> (r: bool) {
        self.same_kind(other)
    }
}

impl vstd::std_specs::cmp::PartialEqSpecImpl for Block {
    open spec fn obeys_eq_spec() -> bool {
        true
    }

    open spec fn eq_spec(&self, other: &Block) -> bool {
        self.kind == other.kind
    }
}

} // verus!
