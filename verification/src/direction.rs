//! The four directions a slide can take.

use vstd::prelude::*;

verus! {

/// Selects the scan axis (rows for `Left`/`Right`, columns for `Up`/`Down`)
/// and the edge the tiles compact toward.
#[derive(Clone, Copy, Debug, PartialEq, Eq, Structural)]
pub enum Direction {
    Up,
    Down,
    Left,
    Right,
}

impl Direction {
    /// True when the slide works on rows; false when it works on columns.
    pub open spec fn spec_is_horizontal(self) -> bool {
        self matches Direction::Left || self matches Direction::Right
    }

    /// True when the scan runs from the high end of the line toward index 0,
    /// that is for `Right` and `Down`.
    pub open spec fn spec_is_reversed(self) -> bool {
        self matches Direction::Right || self matches Direction::Down
    }
}

} // verus!
