//! The screen-size requirement.
use crate::{NUM_ROWS, WIDTH};
use vstd::prelude::*;

verus! {

/// Why the screen cannot show the game: its size could not be read, or it
/// is smaller than the given minimum columns and rows.
#[derive(Debug, Clone, Copy, PartialEq, Eq, Structural)]
pub enum RendererError {
    Size,
    MinimumSize(usize, usize),
}

/// Accepts a screen of `cols` columns and `rows` rows when it can hold a
/// full frame.
pub fn check_screen_size(cols: u16, rows: u16) -> (r: Result<(), RendererError>)
    ensures
        r == if cols < WIDTH || rows < NUM_ROWS {
            Err(RendererError::MinimumSize(WIDTH, NUM_ROWS))
        } else {
            Ok::<(), RendererError>(())
        },
{
    if (cols as usize) < WIDTH || (rows as usize) < NUM_ROWS {
        return Err(RendererError::MinimumSize(WIDTH, NUM_ROWS));
    }
    Ok(())
}

} // verus!
