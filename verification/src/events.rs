//! The record a slide emits for every tile that moves or merges.

use vstd::prelude::*;

verus! {

/// Describes one input tile of a slide for animation purposes: where it
/// started, where it ended, the value it carried as it left its source cell,
/// and, when it took part in a merge, the doubled value it became part of.
///
/// Two tiles that merge each emit their own event with their own pre-merge
/// value and the same destination coordinate.
#[derive(Clone, Debug, PartialEq, Eq)]
pub struct MoveEvent {
    pub from_row: usize,
    pub from_col: usize,
    pub to_row: usize,
    pub to_col: usize,
    pub value: u32,
    pub merged_into_value: Option<u32>,
}

} // verus!
