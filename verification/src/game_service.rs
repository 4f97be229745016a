//! The session facade: one grid plus its score, behind the calls an input
//! layer and a renderer need.

use vstd::prelude::*;

use crate::board::{
    count_occupied, gains_upto, slide_events, slide_moves, slide_ok, slide_result, spawn_step,
    Board, Tile,
};
use crate::direction::Direction;
use crate::events::MoveEvent;

verus! {

/// Owns one board for the life of a game session.
pub struct GameService {
    pub board: Board,
}

impl GameService {
    /// The session is usable while its board is well formed.
    pub open spec fn wf(self) -> bool {
        self.board.wf()
    }

    /// A fresh session on a `size`-sided board, seeded with two random
    /// tiles and a zero score.
    pub fn new(size: usize) -> (s: GameService)
        requires
            2 <= size,
            size * size <= usize::MAX,
        ensures
            s.wf(),
            s.board.size == size,
            s.board.score == 0,
            count_occupied(s.board.cells@) == 2,
            forall|k: int|
                0 <= k < s.board.cells@.len() && (#[trigger] s.board.cells@[k]) is Some
                    ==> s.board.cells@[k] == Some(Tile { value: 2u32, merged: false })
                    || s.board.cells@[k] == Some(Tile { value: 4u32, merged: false }),
    {
        GameService { board: Board::new(size) }
    }

    /// Read-only view of the grid for rendering.
    pub fn board(&self) -> (b: &Board)
        ensures
            b == &self.board,
    {
        &self.board
    }

    /// The game is over once no slide can change the grid: no empty cell
    /// and no equal adjacent pair is left.
    pub fn is_over(&self) -> (r: bool)
        requires
            self.wf(),
        ensures
            r == !self.board.spec_can_move(),
    {
        !self.board.can_move()
    }

    /// True once some tile has reached the win threshold.
    pub fn is_won(&self) -> (r: bool)
        requires
            self.wf(),
        ensures
            r == self.board.spec_is_won(),
    {
        self.board.is_won()
    }

    /// The session score: the sum of every merged value so far.
    pub fn score(&self) -> (s: u32)
        ensures
            s == self.board.score,
    {
        self.board.score
    }

    /// Discard the grid and reseed: same side length, two fresh tiles,
    /// score back to zero.
    pub fn reset(&mut self)
        requires
            old(self).wf(),
        ensures
            final(self).wf(),
            final(self).board.size == old(self).board.size,
            final(self).board.score == 0,
            count_occupied(final(self).board.cells@) == 2,
            forall|k: int|
                0 <= k < final(self).board.cells@.len() && (#[trigger] final(self).board.cells@[k])
                    is Some ==> final(self).board.cells@[k] == Some(
                    Tile { value: 2u32, merged: false },
                ) || final(self).board.cells@[k] == Some(Tile { value: 4u32, merged: false }),
    {
        let size = self.board.size;
        let _len: usize = self.board.cells.len();
        self.board = Board::new(size);
    }

    /// Slide in `dir`, spawn one random tile if the grid changed, and
    /// report whether it did. The score never drops, and on a blocked
    /// slide nothing changes at all.
    pub fn slide(&mut self, dir: Direction) -> (moved: bool)
        requires
            old(self).wf(),
            slide_ok(old(self).board, dir),
        ensures
            final(self).wf(),
            final(self).board.size == old(self).board.size,
            moved == slide_moves(old(self).board, dir),
            old(self).board.score <= final(self).board.score,
            final(self).board.score == old(self).board.score + gains_upto(
                old(self).board,
                dir,
                old(self).board.size as int,
            ),
            !moved ==> slide_result(old(self).board, final(self).board, dir)
                && final(self).board.score == old(self).board.score,
            moved ==> exists|mid: Board|
                slide_result(old(self).board, mid, dir) && #[trigger] spawn_step(
                    mid,
                    final(self).board,
                ),
    {
        self.board.slide(dir)
    }

    /// Slide without spawning and hand the animation events to the caller:
    /// one event per tile that moved or merged. Events come back exactly
    /// when the grid changed.
    pub fn slide_with_events(&mut self, dir: Direction) -> (r: (bool, Vec<MoveEvent>))
        requires
            old(self).wf(),
            slide_ok(old(self).board, dir),
        ensures
            final(self).wf(),
            final(self).board.size == old(self).board.size,
            slide_result(old(self).board, final(self).board, dir),
            r.0 == slide_moves(old(self).board, dir),
            r.1@ == slide_events(old(self).board, dir),
            r.0 <==> r.1@.len() > 0,
            old(self).board.score <= final(self).board.score,
    {
        self.board.slide_with_animations(dir)
    }
}

} // verus!
