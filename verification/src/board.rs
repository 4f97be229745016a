//! The grid: a fixed-size square matrix of optional tiles, the score
//! accumulator, and the directional compaction-and-merge algorithm.
//!
//! Cells are stored row-major. A slide picks a scan axis and order from its
//! direction, reads each line's occupied tiles as scan-ordered items, runs
//! the verified coalescing pass of [`crate::line`] over them, and lays the
//! result back against the edge the line compacts toward.

use vstd::prelude::*;

use crate::direction::Direction;
use crate::events::MoveEvent;
use crate::line::{
    coalesce, events_merge_sum, gain_of, lemma_events_merge_sum_add, lemma_gain_le_sum,
    lemma_gain_matches_events, lemma_gain_nonneg, lemma_identity_not_moving,
    lemma_moves_iff_events, lemma_sum_vals_bounded, lemma_sum_vals_nonneg, lemma_tile_count,
    lemma_unmoved_identity, line_events, line_moves, merge_count, merged_out, sum_vals,
};
use crate::rng::random_below;

verus! {

/// A tile reaching this value wins the game.
pub const WIN_VALUE: u32 = 2048;

/// One tile on the grid. The `merged` flag is transient scratch state: it is
/// cleared at the start of every slide and never set between slides, and the
/// compaction algorithm itself works on immutable per-line snapshots, so the
/// flag never decides a merge.
#[derive(Clone, Debug, PartialEq, Eq)]
pub struct Tile {
    pub value: u32,
    pub merged: bool,
}

impl Tile {
    /// A fresh tile with the given value and a clear merge flag.
    pub fn new(value: u32) -> (t: Tile)
        ensures
            t == (Tile { value, merged: false }),
    {
        Tile { value, merged: false }
    }
}

/// The square grid plus the session score, stored row-major.
#[derive(Clone, Debug, PartialEq, Eq)]
pub struct Board {
    pub size: usize,
    pub cells: Vec<Option<Tile>>,
    pub score: u32,
}

/// The value a cell shows, with the transient merge flag ignored.
pub open spec fn val_of(cell: Option<Tile>) -> Option<u32> {
    match cell {
        Some(t) => Some(t.value),
        None => None,
    }
}

/// The same cell with its merge flag cleared.
pub open spec fn clear_cell(cell: Option<Tile>) -> Option<Tile> {
    match cell {
        Some(t) => Some(Tile { value: t.value, merged: false }),
        None => None,
    }
}

/// Whether the cell holds a winning tile.
pub open spec fn won_cell(cell: Option<Tile>) -> bool {
    match cell {
        Some(t) => t.value >= WIN_VALUE,
        None => false,
    }
}

/// Whether two cells hold tiles of equal value.
pub open spec fn same_value(a: Option<Tile>, b: Option<Tile>) -> bool {
    match (a, b) {
        (Some(x), Some(y)) => x.value == y.value,
        _ => false,
    }
}

/// The cell at scan position `j` after a line compacted to `vals`: the
/// output values sit packed against the scan edge, the rest of the line is
/// empty, and every written tile carries a clear merge flag.
pub open spec fn out_cell(vals: Seq<u32>, j: int) -> Option<Tile> {
    if 0 <= j < vals.len() {
        Some(Tile { value: vals[j], merged: false })
    } else {
        None
    }
}

/// The occupied cells of a scan-ordered line as `(scan position, value)`
/// items, in scan order.
pub open spec fn occ_items(line: Seq<Option<Tile>>) -> Seq<(usize, u32)>
    decreases line.len(),
{
    if line.len() == 0 {
        Seq::empty()
    } else {
        occ_items(line.drop_last()) + match line.last() {
            Some(t) => seq![(((line.len() - 1) as usize, t.value))],
            None => Seq::empty(),
        }
    }
}

/// How many cells of the sequence are occupied.
pub open spec fn count_occupied(cells: Seq<Option<Tile>>) -> int
    decreases cells.len(),
{
    if cells.len() == 0 {
        0
    } else {
        count_occupied(cells.drop_last()) + if cells.last() is Some {
            1int
        } else {
            0int
        }
    }
}

impl Board {
    /// A board is well formed when its side length is at least two and its
    /// cell vector covers the full square, row-major.
    pub open spec fn wf(self) -> bool {
        &&& 2 <= self.size
        &&& self.cells@.len() == self.size * self.size
    }

    /// The cell in row `r`, column `c`.
    pub open spec fn spec_at(self, r: int, c: int) -> Option<Tile> {
        self.cells@[r * self.size + c]
    }

    /// The cell at position `j` of scan line `line` for direction `dir`:
    /// rows scanned from the travel edge for horizontal slides, columns for
    /// vertical ones.
    pub open spec fn scan_at(self, dir: Direction, line: int, j: int) -> Option<Tile> {
        match dir {
            Direction::Left => self.spec_at(line, j),
            Direction::Right => self.spec_at(line, self.size - 1 - j),
            Direction::Up => self.spec_at(j, line),
            Direction::Down => self.spec_at(self.size - 1 - j, line),
        }
    }

    /// Scan line `line` as a sequence, ordered from the edge the tiles
    /// compact toward.
    pub open spec fn scan_line(self, dir: Direction, line: int) -> Seq<Option<Tile>> {
        Seq::new(self.size as nat, |j: int| self.scan_at(dir, line, j))
    }

    /// The occupied items of scan line `line`.
    pub open spec fn line_items(self, dir: Direction, line: int) -> Seq<(usize, u32)> {
        occ_items(self.scan_line(dir, line))
    }

    /// No tile carries a set merge flag; true between slides.
    pub open spec fn flags_clear(self) -> bool {
        forall|k: int| 0 <= k < self.cells@.len() ==> (#[trigger] self.cells@[k]) == clear_cell(
            self.cells@[k],
        )
    }

    /// Some cell is empty.
    pub open spec fn spec_has_empty(self) -> bool {
        exists|r: int, c: int|
            0 <= r < self.size && 0 <= c < self.size && (#[trigger] self.spec_at(r, c)) is None
    }

    /// Some pair of horizontally or vertically adjacent cells holds equal
    /// values.
    pub open spec fn spec_has_merge_pair(self) -> bool {
        exists|r: int, c: int|
            #![trigger self.spec_at(r, c)]
            0 <= r < self.size && 0 <= c < self.size && self.spec_pair_at(r, c)
    }

    /// An equal-valued neighbour sits directly below or to the right.
    pub open spec fn spec_pair_at(self, r: int, c: int) -> bool {
        ||| (r + 1 < self.size && same_value(self.spec_at(r, c), self.spec_at(r + 1, c)))
        ||| (c + 1 < self.size && same_value(self.spec_at(r, c), self.spec_at(r, c + 1)))
    }

    /// A move is legal while some cell is empty or some adjacent pair can
    /// merge.
    pub open spec fn spec_can_move(self) -> bool {
        self.spec_has_empty() || self.spec_has_merge_pair()
    }

    /// Some cell's value has reached the win threshold.
    pub open spec fn spec_is_won(self) -> bool {
        exists|r: int, c: int|
            0 <= r < self.size && 0 <= c < self.size && won_cell(#[trigger] self.spec_at(r, c))
    }
}

/// Row and column indices inside the square land the flat index inside the
/// cell vector.
pub proof fn lemma_rc_bound(n: int, r: int, c: int)
    by (nonlinear_arith)
    requires
        0 <= r < n,
        0 <= c < n,
    ensures
        0 <= r * n + c < n * n,
{
}

/// Distinct in-bounds coordinates land distinct flat indices.
pub proof fn lemma_index_injective(n: int, r1: int, c1: int, r2: int, c2: int)
    by (nonlinear_arith)
    requires
        0 <= r1 < n,
        0 <= c1 < n,
        0 <= r2 < n,
        0 <= c2 < n,
        r1 * n + c1 == r2 * n + c2,
    ensures
        r1 == r2,
        c1 == c2,
{
}

/// A flat index inside the square splits into in-bounds row and column.
pub proof fn lemma_flat_split(n: int, k: int)
    by (nonlinear_arith)
    requires
        0 < n,
        0 <= k < n * n,
    ensures
        0 <= k / n < n,
        0 <= k % n < n,
        k == (k / n) * n + k % n,
{
}

/// What the occupied items of a line look like: positions are in bounds and
/// leave room for the items after them, each item carries the value of its
/// cell, and every occupied cell appears.
pub proof fn lemma_occ_items_props(line: Seq<Option<Tile>>)
    requires
        line.len() <= usize::MAX,
    ensures
        occ_items(line).len() <= line.len(),
        forall|k: int|
            0 <= k < occ_items(line).len() ==> {
                &&& k <= (#[trigger] occ_items(line)[k]).0 as int
                &&& occ_items(line)[k].0 as int <= line.len() - occ_items(line).len() + k
                &&& val_of(line[occ_items(line)[k].0 as int]) == Some(occ_items(line)[k].1)
            },
        forall|p: int|
            0 <= p < line.len() && (#[trigger] line[p]) is Some ==> exists|k: int|
                0 <= k < occ_items(line).len() && (#[trigger] occ_items(line)[k]).0 as int == p,
    decreases line.len(),
{
    if line.len() == 0 {
    } else {
        let prefix = line.drop_last();
        let occ = occ_items(line);
        let occp = occ_items(prefix);
        lemma_occ_items_props(prefix);
        assert(forall|j: int| 0 <= j < prefix.len() ==> prefix[j] == line[j]);
        assert forall|p: int| 0 <= p < line.len() && (#[trigger] line[p]) is Some implies exists|
            k: int,
        | 0 <= k < occ.len() && (#[trigger] occ[k]).0 as int == p by {
            if p < line.len() - 1 {
                assert(prefix[p] is Some);
                let k = choose|k: int| 0 <= k < occp.len() && (#[trigger] occp[k]).0 as int == p;
                assert(occ[k] == occp[k]);
            } else {
                assert(occ[occ.len() - 1].0 as int == p);
            }
        }
    }
}

/// Clearing merge flags across a line keeps its occupied items: positions
/// and values are read from `val_of`, which the flag does not touch.
pub proof fn lemma_occ_items_clear(a: Seq<Option<Tile>>, b: Seq<Option<Tile>>)
    requires
        a.len() == b.len(),
        forall|j: int| 0 <= j < a.len() ==> (#[trigger] b[j]) == clear_cell(a[j]),
    ensures
        occ_items(b) == occ_items(a),
    decreases a.len(),
{
    if a.len() == 0 {
        assert(occ_items(b) =~= occ_items(a));
    } else {
        lemma_occ_items_clear(a.drop_last(), b.drop_last());
        assert(b.last() == clear_cell(a.last()));
        assert(occ_items(b) =~= occ_items(a));
    }
}

/// Occupying one empty cell raises the occupied count by one.
pub proof fn lemma_count_update(cells: Seq<Option<Tile>>, i: int, t: Tile)
    requires
        0 <= i < cells.len(),
        cells[i] is None,
    ensures
        count_occupied(cells.update(i, Some(t))) == count_occupied(cells) + 1,
    decreases cells.len(),
{
    let upd = cells.update(i, Some(t));
    if i == cells.len() - 1 {
        assert(upd.drop_last() =~= cells.drop_last());
        assert(upd.last() == Some(t));
    } else {
        lemma_count_update(cells.drop_last(), i, t);
        assert(upd.drop_last() =~= cells.drop_last().update(i, Some(t)));
        assert(upd.last() == cells.last());
    }
}

/// The occupied count stays within the cell count.
pub proof fn lemma_count_bounds(cells: Seq<Option<Tile>>)
    ensures
        0 <= count_occupied(cells) <= cells.len(),
    decreases cells.len(),
{
    if cells.len() > 0 {
        lemma_count_bounds(cells.drop_last());
    }
}

/// A sequence with fewer occupied cells than cells has an empty one.
pub proof fn lemma_count_short_has_none(cells: Seq<Option<Tile>>)
    requires
        count_occupied(cells) < cells.len(),
    ensures
        exists|k: int| 0 <= k < cells.len() && (#[trigger] cells[k]) is None,
    decreases cells.len(),
{
    if cells.last() is None {
        assert(cells[cells.len() - 1] is None);
    } else {
        lemma_count_bounds(cells.drop_last());
        lemma_count_short_has_none(cells.drop_last());
        let k = choose|k: int|
            0 <= k < cells.drop_last().len() && (#[trigger] cells.drop_last()[k]) is None;
        assert(cells[k] is None);
    }
}

/// Nothing is occupied in an all-empty sequence.
pub proof fn lemma_count_all_none(cells: Seq<Option<Tile>>)
    requires
        forall|k: int| 0 <= k < cells.len() ==> (#[trigger] cells[k]) is None,
    ensures
        count_occupied(cells) == 0,
    decreases cells.len(),
{
    if cells.len() > 0 {
        assert(cells[cells.len() - 1] is None);
        lemma_count_all_none(cells.drop_last());
    }
}

/// Score the first `k` scan lines of a slide in direction `dir` would gain.
pub open spec fn gains_upto(b: Board, dir: Direction, k: int) -> int
    decreases k,
{
    if k <= 0 {
        0
    } else {
        gains_upto(b, dir, k - 1) + gain_of(b.line_items(dir, k - 1))
    }
}

/// Total tile value on the first `k` scan lines.
pub open spec fn sums_upto(b: Board, dir: Direction, k: int) -> int
    decreases k,
{
    if k <= 0 {
        0
    } else {
        sums_upto(b, dir, k - 1) + sum_vals(b.line_items(dir, k - 1))
    }
}

/// The slide fits the score accumulator: the score can grow by at most the
/// total tile value on the board, and each doubled value stays below that
/// bound too.
pub open spec fn slide_ok(b: Board, dir: Direction) -> bool {
    b.score + sums_upto(b, dir, b.size as int) <= u32::MAX
}

/// Whether a slide in direction `dir` changes anything: some line merges a
/// pair or lands a tile away from where it started.
pub open spec fn slide_moves(b: Board, dir: Direction) -> bool {
    exists|l: int| 0 <= l < b.size && line_moves(#[trigger] b.line_items(dir, l))
}

/// The events of the first `k` scan lines, in line order.
pub open spec fn events_upto(b: Board, dir: Direction, k: int) -> Seq<MoveEvent>
    decreases k,
{
    if k <= 0 {
        Seq::empty()
    } else {
        events_upto(b, dir, k - 1) + line_events(b.line_items(dir, k - 1), dir, k - 1, b.size as int)
    }
}

/// All events a slide in direction `dir` emits.
pub open spec fn slide_events(b: Board, dir: Direction) -> Seq<MoveEvent> {
    events_upto(b, dir, b.size as int)
}

/// `post` is `pre` after every line compacted toward the travel edge: each
/// scan line holds exactly its coalesced values, packed from the edge, and
/// the score grew by every line's gain.
pub open spec fn slide_result(pre: Board, post: Board, dir: Direction) -> bool {
    &&& post.size == pre.size
    &&& post.cells@.len() == pre.cells@.len()
    &&& forall|l: int, j: int|
        #![trigger post.scan_at(dir, l, j)]
        0 <= l < pre.size && 0 <= j < pre.size ==> post.scan_at(dir, l, j) == out_cell(
            merged_out(pre.line_items(dir, l)),
            j,
        )
    &&& post.score == pre.score + gains_upto(pre, dir, pre.size as int)
}

/// `post` is `mid` with one new tile of the base value or twice it on a
/// formerly empty cell; score and everything else stand.
pub open spec fn spawn_step(mid: Board, post: Board) -> bool {
    &&& post.size == mid.size
    &&& post.score == mid.score
    &&& post.cells@.len() == mid.cells@.len()
    &&& exists|r: int, c: int|
        #![trigger mid.spec_at(r, c)]
        {
            &&& 0 <= r < mid.size
            &&& 0 <= c < mid.size
            &&& mid.spec_at(r, c) is None
            &&& (post.spec_at(r, c) == Some(Tile { value: 2u32, merged: false }) || post.spec_at(
                r,
                c,
            ) == Some(Tile { value: 4u32, merged: false }))
            &&& forall|r2: int, c2: int|
                #![trigger post.spec_at(r2, c2)]
                0 <= r2 < mid.size && 0 <= c2 < mid.size && (r2 != r || c2 != c) ==> post.spec_at(
                    r2,
                    c2,
                ) == mid.spec_at(r2, c2)
        }
}

/// Per-line gains never exceed per-line sums, and both stay non-negative.
pub proof fn lemma_budget(b: Board, dir: Direction, k: int)
    ensures
        0 <= gains_upto(b, dir, k),
        gains_upto(b, dir, k) <= sums_upto(b, dir, k),
        0 <= sums_upto(b, dir, k),
    decreases k,
{
    if k > 0 {
        lemma_budget(b, dir, k - 1);
        lemma_gain_nonneg(b.line_items(dir, k - 1));
        lemma_gain_le_sum(b.line_items(dir, k - 1));
        lemma_sum_vals_nonneg(b.line_items(dir, k - 1));
    }
}

/// Line sums only grow as more lines are counted.
pub proof fn lemma_sums_mono(b: Board, dir: Direction, k1: int, k2: int)
    requires
        0 <= k1 <= k2,
    ensures
        sums_upto(b, dir, k1) <= sums_upto(b, dir, k2),
    decreases k2 - k1,
{
    if k1 < k2 {
        lemma_sums_mono(b, dir, k1, k2 - 1);
        lemma_sum_vals_nonneg(b.line_items(dir, k2 - 1));
    }
}

/// A board of side length at least two has at least four cells.
pub proof fn lemma_square_ge(n: int)
    by (nonlinear_arith)
    requires
        2 <= n,
    ensures
        4 <= n * n,
{
}

/// Two boards that differ only at one cell are related by one flat update.
pub proof fn lemma_pointwise_to_update(mid: Board, post: Board, r: int, c: int)
    requires
        mid.wf(),
        post.size == mid.size,
        post.cells@.len() == mid.cells@.len(),
        0 <= r < mid.size,
        0 <= c < mid.size,
        forall|r2: int, c2: int|
            #![trigger post.spec_at(r2, c2)]
            0 <= r2 < mid.size && 0 <= c2 < mid.size && (r2 != r || c2 != c) ==> post.spec_at(
                r2,
                c2,
            ) == mid.spec_at(r2, c2),
    ensures
        post.cells@ == mid.cells@.update(r * mid.size + c, post.spec_at(r, c)),
{
    let n = mid.size as int;
    lemma_rc_bound(n, r, c);
    let target = mid.cells@.update(r * n + c, post.spec_at(r, c));
    assert forall|k: int| 0 <= k < post.cells@.len() implies post.cells@[k] == target[k] by {
        lemma_flat_split(n, k);
        let r2 = k / n;
        let c2 = k % n;
        if k != r * n + c {
            if r2 == r && c2 == c {
                assert(k == r * n + c);
            }
            assert(post.spec_at(r2, c2) == mid.spec_at(r2, c2));
        }
    }
    assert(post.cells@ =~= target);
}

/// A slide changes some line exactly when it emits at least one event.
pub proof fn lemma_slide_moves_iff_events(b: Board, dir: Direction, k: int)
    ensures
        (exists|l: int| 0 <= l < k && line_moves(#[trigger] b.line_items(dir, l)))
            <==> events_upto(b, dir, k).len() > 0,
    decreases k,
{
    if k > 0 {
        lemma_slide_moves_iff_events(b, dir, k - 1);
        lemma_moves_iff_events(b.line_items(dir, k - 1), dir, k - 1, b.size as int, 0);
        if events_upto(b, dir, k).len() > 0 {
            if events_upto(b, dir, k - 1).len() > 0 {
                let l = choose|l: int|
                    0 <= l < k - 1 && line_moves(#[trigger] b.line_items(dir, l));
                assert(line_moves(b.line_items(dir, l)));
            } else {
                assert(line_moves(b.line_items(dir, k - 1)));
            }
        }
        if exists|l: int| 0 <= l < k && line_moves(#[trigger] b.line_items(dir, l)) {
            let l = choose|l: int| 0 <= l < k && line_moves(#[trigger] b.line_items(dir, l));
            if l < k - 1 {
                assert(events_upto(b, dir, k - 1).len() > 0);
            } else {
                assert(line_events(b.line_items(dir, k - 1), dir, k - 1, b.size as int).len() > 0);
            }
        }
    }
}

/// A slide that changes no line gains no score.
pub proof fn lemma_no_moves_no_gain(b: Board, dir: Direction, k: int)
    requires
        forall|l: int| 0 <= l < k ==> !line_moves(#[trigger] b.line_items(dir, l)),
    ensures
        gains_upto(b, dir, k) == 0,
    decreases k,
{
    if k > 0 {
        lemma_no_moves_no_gain(b, dir, k - 1);
        lemma_unmoved_identity(b.line_items(dir, k - 1), 0);
    }
}

/// A line that changes compacts to fewer tiles than it has cells, so an
/// empty cell remains on it afterwards.
pub proof fn lemma_moving_line_has_gap(line: Seq<Option<Tile>>)
    requires
        line.len() <= usize::MAX,
        line_moves(occ_items(line)),
    ensures
        merged_out(occ_items(line)).len() < line.len(),
{
    let items = occ_items(line);
    lemma_occ_items_props(line);
    lemma_tile_count(items);
    if merged_out(items).len() >= line.len() {
        assert(items.len() == line.len());
        assert(merge_count(items) == 0);
        assert(forall|k: int| 0 <= k < items.len() ==> (#[trigger] items[k]).0 as int == k);
        lemma_identity_not_moving(items, 0);
        assert(false);
    }
}

/// One scan line's total value is at most the side length times a bound
/// that every tile on the board respects.
pub proof fn lemma_line_sum_bounded(b: Board, dir: Direction, l: int, v: u32)
    requires
        b.wf(),
        0 <= l < b.size,
        forall|k: int|
            0 <= k < b.cells@.len() && (#[trigger] b.cells@[k]) is Some ==> b.cells@[k]->Some_0.value
                <= v,
    ensures
        sum_vals(b.line_items(dir, l)) <= b.size * v,
{
    let n = b.size as int;
    let line = b.scan_line(dir, l);
    let items = b.line_items(dir, l);
    lemma_occ_items_props(line);
    assert forall|k: int| 0 <= k < items.len() implies (#[trigger] items[k]).1 <= v by {
        let p = items[k].0 as int;
        assert(val_of(line[p]) == Some(items[k].1));
        assert(line[p] == b.scan_at(dir, l, p));
        match dir {
            Direction::Left => {
                lemma_rc_bound(n, l, p);
            },
            Direction::Right => {
                lemma_rc_bound(n, l, n - 1 - p);
            },
            Direction::Up => {
                lemma_rc_bound(n, p, l);
            },
            Direction::Down => {
                lemma_rc_bound(n, n - 1 - p, l);
            },
        }
    }
    lemma_sum_vals_bounded(items, v);
    assert(items.len() * v <= n * v) by (nonlinear_arith)
        requires
            items.len() <= n,
            0 <= v,
            0 <= items.len(),
    ;
}

/// A slide's whole budget is at most the number of lines times one line's
/// bound.
pub proof fn lemma_sums_upto_bounded(b: Board, dir: Direction, k: int, m: int)
    requires
        0 <= k,
        0 <= m,
        forall|l: int| 0 <= l < k ==> sum_vals(#[trigger] b.line_items(dir, l)) <= m,
    ensures
        sums_upto(b, dir, k) <= k * m,
    decreases k,
{
    if k <= 0 {
    } else {
        lemma_sums_upto_bounded(b, dir, k - 1, m);
        assert(sum_vals(b.line_items(dir, k - 1)) <= m);
        assert(sums_upto(b, dir, k) == sums_upto(b, dir, k - 1) + sum_vals(
            b.line_items(dir, k - 1),
        ));
        assert((k - 1) * m + m == k * m) by (nonlinear_arith);
        assert(sums_upto(b, dir, k) <= (k - 1) * m + m);
    }
}

/// A practical way for callers to meet the slide precondition: if no tile
/// value exceeds `v` and the score leaves room for the whole grid at that
/// bound, the slide fits the accumulator.
pub proof fn lemma_slide_ok_from_value_bound(b: Board, dir: Direction, v: u32)
    requires
        b.wf(),
        forall|k: int|
            0 <= k < b.cells@.len() && (#[trigger] b.cells@[k]) is Some ==> b.cells@[k]->Some_0.value
                <= v,
        b.score + b.size * b.size * v <= u32::MAX,
    ensures
        slide_ok(b, dir),
{
    let n = b.size as int;
    assert forall|l: int| 0 <= l < n implies sum_vals(#[trigger] b.line_items(dir, l)) <= n
        * v by {
        lemma_line_sum_bounded(b, dir, l, v);
    }
    lemma_sums_upto_bounded(b, dir, n, n * v);
    assert(n * (n * v) == n * n * v) by (nonlinear_arith);
}

/// Law: over a whole slide, the score grows by exactly the merged values,
/// once per merge: the event stream carries the slide's score delta exactly
/// twice, because every merge stamps its doubled value on its two
/// converging tiles' events and no other event carries any. Holds as long
/// as no doubled value overflows the tile width.
pub proof fn lemma_score_delta_matches_events(b: Board, dir: Direction, k: int)
    requires
        b.wf(),
        k <= b.size,
        forall|j: int|
            0 <= j < b.cells@.len() && (#[trigger] b.cells@[j]) is Some ==> 2
                * b.cells@[j]->Some_0.value <= u32::MAX,
    ensures
        2 * gains_upto(b, dir, k) == events_merge_sum(events_upto(b, dir, k)),
    decreases k,
{
    if k <= 0 {
    } else {
        lemma_score_delta_matches_events(b, dir, k - 1);
        let n = b.size as int;
        let l = k - 1;
        let line = b.scan_line(dir, l);
        let items = b.line_items(dir, l);
        lemma_occ_items_props(line);
        assert forall|t: int| 0 <= t < items.len() implies 2 * (#[trigger] items[t]).1
            <= u32::MAX by {
            let p = items[t].0 as int;
            assert(val_of(line[p]) == Some(items[t].1));
            assert(line[p] == b.scan_at(dir, l, p));
            match dir {
                Direction::Left => {
                    lemma_rc_bound(n, l, p);
                },
                Direction::Right => {
                    lemma_rc_bound(n, l, n - 1 - p);
                },
                Direction::Up => {
                    lemma_rc_bound(n, p, l);
                },
                Direction::Down => {
                    lemma_rc_bound(n, n - 1 - p, l);
                },
            }
        }
        lemma_gain_matches_events(items, dir, l, n, 0);
        lemma_events_merge_sum_add(events_upto(b, dir, l), line_events(items, dir, l, n));
    }
}

/// Law: a slide that changes nothing is a no-op. With the transient merge
/// flags clear — as they are between slides, since every written tile
/// carries a clear flag — the cells and the score stand exactly as they
/// were; the slide contracts add that no events come back and no tile
/// spawns.
pub proof fn lemma_blocked_slide_identity(pre: Board, post: Board, dir: Direction)
    requires
        pre.wf(),
        pre.flags_clear(),
        !slide_moves(pre, dir),
        slide_result(pre, post, dir),
    ensures
        post.cells@ == pre.cells@,
        post.score == pre.score,
        post.size == pre.size,
{
    let n = pre.size as int;
    lemma_no_moves_no_gain(pre, dir, n);
    assert forall|l: int, j: int|
        0 <= l < n && 0 <= j < n implies #[trigger] post.scan_at(dir, l, j) == pre.scan_at(
        dir,
        l,
        j,
    ) by {
        let line = pre.scan_line(dir, l);
        let items = pre.line_items(dir, l);
        assert(!line_moves(items));
        lemma_unmoved_identity(items, 0);
        lemma_occ_items_props(line);
        assert(pre.scan_at(dir, l, j) == line[j]);
        match dir {
            Direction::Left => {
                lemma_rc_bound(n, l, j);
                assert(pre.cells@[l * n + j] == clear_cell(pre.cells@[l * n + j]));
            },
            Direction::Right => {
                lemma_rc_bound(n, l, n - 1 - j);
                assert(pre.cells@[l * n + (n - 1 - j)] == clear_cell(
                    pre.cells@[l * n + (n - 1 - j)],
                ));
            },
            Direction::Up => {
                lemma_rc_bound(n, j, l);
                assert(pre.cells@[j * n + l] == clear_cell(pre.cells@[j * n + l]));
            },
            Direction::Down => {
                lemma_rc_bound(n, n - 1 - j, l);
                assert(pre.cells@[(n - 1 - j) * n + l] == clear_cell(
                    pre.cells@[(n - 1 - j) * n + l],
                ));
            },
        }
        assert(line[j] == clear_cell(line[j]));
        if j < items.len() {
            assert(items[j].0 as int == j);
            assert(val_of(line[j]) == Some(items[j].1));
            assert(merged_out(items)[j] == items[j].1);
        } else {
            if line[j] is Some {
                let k = choose|k: int|
                    0 <= k < items.len() && (#[trigger] items[k]).0 as int == j;
                assert(k <= items[k].0 as int <= line.len() - items.len() + k);
                assert(false);
            }
        }
    }
    assert forall|k: int| 0 <= k < post.cells@.len() implies post.cells@[k] == pre.cells@[k] by {
        lemma_flat_split(n, k);
        let r = k / n;
        let c = k % n;
        match dir {
            Direction::Left => {
                assert(post.scan_at(dir, r, c) == pre.scan_at(dir, r, c));
            },
            Direction::Right => {
                assert(post.scan_at(dir, r, n - 1 - c) == pre.scan_at(dir, r, n - 1 - c));
            },
            Direction::Up => {
                assert(post.scan_at(dir, c, r) == pre.scan_at(dir, c, r));
            },
            Direction::Down => {
                assert(post.scan_at(dir, c, n - 1 - r) == pre.scan_at(dir, c, n - 1 - r));
            },
        }
    }
    assert(post.cells@ =~= pre.cells@);
}

impl Board {
    /// The flat, row-major index of a cell.
    fn index(&self, row: usize, col: usize) -> (idx: usize)
        requires
            self.wf(),
            row < self.size,
            col < self.size,
        ensures
            idx == row * self.size + col,
            idx < self.cells@.len(),
    {
        let _len: usize = self.cells.len();
        proof {
            lemma_rc_bound(self.size as int, row as int, col as int);
        }
        row * self.size + col
    }

    /// Read one cell; the coordinates must be on the board.
    pub fn get(&self, row: usize, col: usize) -> (cell: &Option<Tile>)
        requires
            self.wf(),
            row < self.size,
            col < self.size,
        ensures
            *cell == self.spec_at(row as int, col as int),
    {
        let idx = self.index(row, col);
        &self.cells[idx]
    }

    /// Replace one cell's occupancy outright; no validation beyond bounds.
    pub fn set(&mut self, row: usize, col: usize, value: Option<Tile>)
        requires
            old(self).wf(),
            row < old(self).size,
            col < old(self).size,
        ensures
            final(self).wf(),
            final(self).size == old(self).size,
            final(self).score == old(self).score,
            final(self).cells@ == old(self).cells@.update(
                row as int * old(self).size + col as int,
                value,
            ),
            final(self).spec_at(row as int, col as int) == value,
            forall|r: int, c: int|
                0 <= r < old(self).size && 0 <= c < old(self).size && (r != row || c != col)
                    ==> final(self).spec_at(r, c) == old(self).spec_at(r, c),
    {
        let idx = self.index(row, col);
        self.cells[idx] = value;
        proof {
            let n = self.size as int;
            assert forall|r: int, c: int|
                0 <= r < n && 0 <= c < n && (r != row || c != col) implies self.spec_at(r, c)
                == old(self).spec_at(r, c) by {
                lemma_rc_bound(n, r, c);
                if r * n + c == row as int * n + col as int {
                    lemma_index_injective(n, r, c, row as int, col as int);
                }
            }
        }
    }

    /// Clear every tile's transient merge flag; runs once at the start of
    /// every slide.
    pub fn reset_merged_flags(&mut self)
        requires
            old(self).wf(),
        ensures
            final(self).wf(),
            final(self).size == old(self).size,
            final(self).score == old(self).score,
            final(self).cells@.len() == old(self).cells@.len(),
            forall|k: int|
                0 <= k < old(self).cells@.len() ==> (#[trigger] final(self).cells@[k])
                    == clear_cell(old(self).cells@[k]),
    {
        let mut k: usize = 0;
        let len = self.cells.len();
        while k < len
            invariant
                k <= len,
                len == self.cells@.len(),
                self.size == old(self).size,
                self.score == old(self).score,
                self.cells@.len() == old(self).cells@.len(),
                self.wf(),
                forall|j: int|
                    0 <= j < k ==> (#[trigger] self.cells@[j]) == clear_cell(old(self).cells@[j]),
                forall|j: int| k <= j < len ==> (#[trigger] self.cells@[j]) == old(self).cells@[j],
            decreases len - k,
        {
            let flagged = match &self.cells[k] {
                Some(t) => t.merged,
                None => false,
            };
            if flagged {
                let v = match &self.cells[k] {
                    Some(t) => t.value,
                    None => 0,
                };
                self.cells[k] = Some(Tile { value: v, merged: false });
            }
            k = k + 1;
        }
    }

    /// All unoccupied coordinates, in row-major order.
    pub fn empty_positions(&self) -> (res: Vec<(usize, usize)>)
        requires
            self.wf(),
        ensures
            forall|t: int|
                0 <= t < res@.len() ==> {
                    &&& (#[trigger] res@[t]).0 < self.size
                    &&& res@[t].1 < self.size
                    &&& self.spec_at(res@[t].0 as int, res@[t].1 as int) is None
                },
            forall|r: int, c: int|
                0 <= r < self.size && 0 <= c < self.size && (#[trigger] self.spec_at(r, c))
                    is None ==> exists|t: int|
                    0 <= t < res@.len() && (#[trigger] res@[t]) == ((r as usize, c as usize)),
            forall|i: int, j: int|
                #![trigger res@[i], res@[j]]
                0 <= i < j < res@.len() ==> res@[i].0 < res@[j].0 || (res@[i].0 == res@[j].0
                    && res@[i].1 < res@[j].1),
    {
        let n = self.size;
        let mut res: Vec<(usize, usize)> = Vec::new();
        let mut row: usize = 0;
        while row < n
            invariant
                row <= n,
                n == self.size,
                self.wf(),
                forall|t: int|
                    0 <= t < res@.len() ==> {
                        &&& (#[trigger] res@[t]).0 < row
                        &&& res@[t].1 < n
                        &&& self.spec_at(res@[t].0 as int, res@[t].1 as int) is None
                    },
                forall|r: int, c: int|
                    0 <= r < row && 0 <= c < n && (#[trigger] self.spec_at(r, c)) is None
                        ==> exists|t: int|
                        0 <= t < res@.len() && (#[trigger] res@[t]) == ((r as usize, c as usize)),
                forall|i: int, j: int|
                    #![trigger res@[i], res@[j]]
                    0 <= i < j < res@.len() ==> res@[i].0 < res@[j].0 || (res@[i].0 == res@[j].0
                        && res@[i].1 < res@[j].1),
            decreases n - row,
        {
            let mut col: usize = 0;
            while col < n
                invariant
                    col <= n,
                    row < n,
                    n == self.size,
                    self.wf(),
                    forall|t: int|
                        0 <= t < res@.len() ==> {
                            &&& ((#[trigger] res@[t]).0 < row || (res@[t].0 == row && res@[t].1
                                < col))
                            &&& res@[t].0 < n
                            &&& res@[t].1 < n
                            &&& self.spec_at(res@[t].0 as int, res@[t].1 as int) is None
                        },
                    forall|r: int, c: int|
                        (0 <= r < row && 0 <= c < n || r == row && 0 <= c < col) && (
                        #[trigger] self.spec_at(r, c)) is None ==> exists|t: int|
                            0 <= t < res@.len() && (#[trigger] res@[t]) == ((
                            r as usize,
                            c as usize,
                            )),
                    forall|i: int, j: int|
                        #![trigger res@[i], res@[j]]
                        0 <= i < j < res@.len() ==> res@[i].0 < res@[j].0 || (res@[i].0
                            == res@[j].0 && res@[i].1 < res@[j].1),
                decreases n - col,
            {
                let ghost res0 = res@;
                let is_empty = self.get(row, col).is_none();
                if is_empty {
                    res.push((row, col));
                }
                col = col + 1;
                proof {
                    assert forall|r: int, c: int|
                        (0 <= r < row as int && 0 <= c < n as int || r == row as int && 0 <= c
                            < col as int) && (#[trigger] self.spec_at(r, c)) is None implies exists|
                        t: int,
                    | 0 <= t < res@.len() && (#[trigger] res@[t]) == ((r as usize, c as usize)) by {
                        if r == row as int && c == col as int - 1 {
                            assert(res@[res@.len() - 1] == ((r as usize, c as usize)));
                        } else {
                            let t = choose|t: int|
                                0 <= t < res0.len() && (#[trigger] res0[t]) == ((
                                r as usize,
                                c as usize,
                                ));
                            assert(res@[t] == res0[t]);
                        }
                    }
                }
            }
            row = row + 1;
        }
        res
    }

    /// True while any move can still change the grid: an empty cell exists,
    /// or two equal tiles sit next to each other in a row or column.
    pub fn can_move(&self) -> (r: bool)
        requires
            self.wf(),
        ensures
            r == self.spec_can_move(),
    {
        let empties = self.empty_positions();
        if empties.len() > 0 {
            proof {
                let p = empties@[0];
                assert(self.spec_at(p.0 as int, p.1 as int) is None);
            }
            return true;
        }
        let n = self.size;
        let mut row: usize = 0;
        while row < n
            invariant
                row <= n,
                n == self.size,
                self.wf(),
                forall|r: int, c: int|
                    #![trigger self.spec_pair_at(r, c)]
                    0 <= r < row && 0 <= c < n ==> !self.spec_pair_at(r, c),
            decreases n - row,
        {
            let mut col: usize = 0;
            while col < n
                invariant
                    col <= n,
                    row < n,
                    n == self.size,
                    self.wf(),
                    forall|r: int, c: int|
                        #![trigger self.spec_pair_at(r, c)]
                        0 <= r < row && 0 <= c < n ==> !self.spec_pair_at(r, c),
                    forall|c: int|
                        #![trigger self.spec_pair_at(row as int, c)]
                        0 <= c < col ==> !self.spec_pair_at(row as int, c),
                decreases n - col,
            {
                let here = self.get(row, col);
                let here_val = match here {
                    Some(t) => Some(t.value),
                    None => None,
                };
                if let Some(v) = here_val {
                    if row + 1 < n {
                        let down = self.get(row + 1, col);
                        let hit = match down {
                            Some(t) => t.value == v,
                            None => false,
                        };
                        if hit {
                            proof {
                                assert(self.spec_pair_at(row as int, col as int));
                            }
                            return true;
                        }
                    }
                    if col + 1 < n {
                        let right = self.get(row, col + 1);
                        let hit = match right {
                            Some(t) => t.value == v,
                            None => false,
                        };
                        if hit {
                            proof {
                                assert(self.spec_pair_at(row as int, col as int));
                            }
                            return true;
                        }
                    }
                }
                col = col + 1;
            }
            row = row + 1;
        }
        false
    }

    /// True once any tile's value has reached the win threshold, whatever
    /// the score or the number of empty cells.
    pub fn is_won(&self) -> (r: bool)
        requires
            self.wf(),
        ensures
            r == self.spec_is_won(),
    {
        let n = self.size;
        let mut row: usize = 0;
        while row < n
            invariant
                row <= n,
                n == self.size,
                self.wf(),
                forall|r: int, c: int|
                    0 <= r < row && 0 <= c < n ==> !won_cell(#[trigger] self.spec_at(r, c)),
            decreases n - row,
        {
            let mut col: usize = 0;
            while col < n
                invariant
                    col <= n,
                    row < n,
                    n == self.size,
                    self.wf(),
                    forall|r: int, c: int|
                        0 <= r < row && 0 <= c < n ==> !won_cell(#[trigger] self.spec_at(r, c)),
                    forall|c: int|
                        0 <= c < col ==> !won_cell(#[trigger] self.spec_at(row as int, c)),
                decreases n - col,
            {
                let won = match self.get(row, col) {
                    Some(t) => t.value >= WIN_VALUE,
                    None => false,
                };
                if won {
                    return true;
                }
                col = col + 1;
            }
            row = row + 1;
        }
        false
    }

    /// Compact one row toward its travel edge: read the occupied tiles in
    /// scan order, coalesce them once, lay the result against the edge, add
    /// the gain to the score, and append the row's events.
    fn compact_line_with_events(&mut self, row: usize, dir: Direction, out: &mut Vec<MoveEvent>)
        -> (moved: bool)
        requires
            old(self).wf(),
            row < old(self).size,
            dir.spec_is_horizontal(),
            old(self).score + gain_of(old(self).line_items(dir, row as int)) <= u32::MAX,
        ensures
            final(self).wf(),
            final(self).size == old(self).size,
            forall|j: int|
                0 <= j < old(self).size ==> final(self).scan_at(dir, row as int, j) == out_cell(
                    merged_out(old(self).line_items(dir, row as int)),
                    j,
                ),
            forall|r: int, c: int|
                0 <= r < old(self).size && 0 <= c < old(self).size && r != row as int
                    ==> final(self).spec_at(r, c) == old(self).spec_at(r, c),
            final(self).score == old(self).score + gain_of(old(self).line_items(dir, row as int)),
            moved == line_moves(old(self).line_items(dir, row as int)),
            final(out)@ == old(out)@ + line_events(
                old(self).line_items(dir, row as int),
                dir,
                row as int,
                old(self).size as int,
            ),
    {
        let n = self.size;
        let rev = match dir {
            Direction::Right => true,
            _ => false,
        };
        let ghost items_spec = old(self).line_items(dir, row as int);
        let mut items: Vec<(usize, u32)> = Vec::new();
        let mut j: usize = 0;
        while j < n
            invariant
                *self == *old(self),
                j <= n,
                n == self.size,
                self.wf(),
                row < n,
                dir.spec_is_horizontal(),
                rev == dir.spec_is_reversed(),
                items@ == occ_items(self.scan_line(dir, row as int).take(j as int)),
                items@.len() <= j,
                forall|k: int| 0 <= k < items@.len() ==> (#[trigger] items@[k]).0 < n,
            decreases n - j,
        {
            let col = if rev {
                n - 1 - j
            } else {
                j
            };
            let ghost items0 = items@;
            let cell_val = match self.get(row, col) {
                Some(t) => Some(t.value),
                None => None,
            };
            match cell_val {
                Some(v) => items.push((j, v)),
                None => {},
            }
            j = j + 1;
            proof {
                let sl = self.scan_line(dir, row as int);
                assert(sl.take(j as int).drop_last() =~= sl.take(j as int - 1));
                assert(sl.take(j as int).last() == self.scan_at(dir, row as int, j as int - 1));
                assert(self.scan_at(dir, row as int, j as int - 1) == self.spec_at(
                    row as int,
                    col as int,
                ));
                match self.spec_at(row as int, col as int) {
                    Some(t) => {
                        assert(items@ =~= items0 + seq![((j - 1) as usize, t.value)]);
                        assert(occ_items(sl.take(j as int)) == occ_items(sl.take(j as int - 1))
                            + seq![((j - 1) as usize, t.value)]);
                    },
                    None => {
                        assert(occ_items(sl.take(j as int)) =~= occ_items(sl.take(j as int - 1)));
                    },
                }
            }
        }
        proof {
            assert(self.scan_line(dir, row as int).take(n as int) =~= self.scan_line(
                dir,
                row as int,
            ));
            assert(items@ == items_spec);
        }
        let res = coalesce(&items, dir, row, n, out);
        let vals = res.0;
        let gained = res.1;
        let moved = res.2;
        self.score = self.score + gained;
        proof {
            lemma_tile_count(items_spec);
        }
        let ghost mid_score = self.score;
        let mut j2: usize = 0;
        while j2 < n
            invariant
                j2 <= n,
                n == self.size,
                self.wf(),
                row < n,
                dir.spec_is_horizontal(),
                rev == dir.spec_is_reversed(),
                self.score == mid_score,
                mid_score as int == old(self).score + gain_of(items_spec),
                vals@ == merged_out(items_spec),
                vals@.len() <= n,
                forall|jj: int|
                    0 <= jj < j2 ==> #[trigger] self.scan_at(dir, row as int, jj) == out_cell(
                        vals@,
                        jj,
                    ),
                forall|r: int, c: int|
                    0 <= r < n && 0 <= c < n && r != row as int ==> #[trigger] self.spec_at(r, c)
                        == old(self).spec_at(r, c),
            decreases n - j2,
        {
            let col = if rev {
                n - 1 - j2
            } else {
                j2
            };
            let cell = if j2 < vals.len() {
                Some(Tile::new(vals[j2]))
            } else {
                None
            };
            let ghost prev = *self;
            self.set(row, col, cell);
            j2 = j2 + 1;
            proof {
                assert forall|jj: int|
                    0 <= jj < j2 implies #[trigger] self.scan_at(dir, row as int, jj) == out_cell(
                    vals@,
                    jj,
                ) by {
                    if jj < j2 - 1 {
                        assert(prev.scan_at(dir, row as int, jj) == out_cell(vals@, jj));
                    } else {
                        assert(self.scan_at(dir, row as int, jj) == self.spec_at(
                            row as int,
                            col as int,
                        ));
                    }
                }
            }
        }
        moved
    }

    /// Compact one column toward its travel edge; the column counterpart of
    /// the row pass.
    fn compact_column_with_events(&mut self, col: usize, dir: Direction, out: &mut Vec<MoveEvent>)
        -> (moved: bool)
        requires
            old(self).wf(),
            col < old(self).size,
            !dir.spec_is_horizontal(),
            old(self).score + gain_of(old(self).line_items(dir, col as int)) <= u32::MAX,
        ensures
            final(self).wf(),
            final(self).size == old(self).size,
            forall|j: int|
                0 <= j < old(self).size ==> final(self).scan_at(dir, col as int, j) == out_cell(
                    merged_out(old(self).line_items(dir, col as int)),
                    j,
                ),
            forall|r: int, c: int|
                0 <= r < old(self).size && 0 <= c < old(self).size && c != col as int
                    ==> final(self).spec_at(r, c) == old(self).spec_at(r, c),
            final(self).score == old(self).score + gain_of(old(self).line_items(dir, col as int)),
            moved == line_moves(old(self).line_items(dir, col as int)),
            final(out)@ == old(out)@ + line_events(
                old(self).line_items(dir, col as int),
                dir,
                col as int,
                old(self).size as int,
            ),
    {
        let n = self.size;
        let rev = match dir {
            Direction::Down => true,
            _ => false,
        };
        let ghost items_spec = old(self).line_items(dir, col as int);
        let mut items: Vec<(usize, u32)> = Vec::new();
        let mut j: usize = 0;
        while j < n
            invariant
                *self == *old(self),
                j <= n,
                n == self.size,
                self.wf(),
                col < n,
                !dir.spec_is_horizontal(),
                rev == dir.spec_is_reversed(),
                items@ == occ_items(self.scan_line(dir, col as int).take(j as int)),
                items@.len() <= j,
                forall|k: int| 0 <= k < items@.len() ==> (#[trigger] items@[k]).0 < n,
            decreases n - j,
        {
            let row = if rev {
                n - 1 - j
            } else {
                j
            };
            let ghost items0 = items@;
            let cell_val = match self.get(row, col) {
                Some(t) => Some(t.value),
                None => None,
            };
            match cell_val {
                Some(v) => items.push((j, v)),
                None => {},
            }
            j = j + 1;
            proof {
                let sl = self.scan_line(dir, col as int);
                assert(sl.take(j as int).drop_last() =~= sl.take(j as int - 1));
                assert(sl.take(j as int).last() == self.scan_at(dir, col as int, j as int - 1));
                assert(self.scan_at(dir, col as int, j as int - 1) == self.spec_at(
                    row as int,
                    col as int,
                ));
                match self.spec_at(row as int, col as int) {
                    Some(t) => {
                        assert(items@ =~= items0 + seq![((j - 1) as usize, t.value)]);
                        assert(occ_items(sl.take(j as int)) == occ_items(sl.take(j as int - 1))
                            + seq![((j - 1) as usize, t.value)]);
                    },
                    None => {
                        assert(occ_items(sl.take(j as int)) =~= occ_items(sl.take(j as int - 1)));
                    },
                }
            }
        }
        proof {
            assert(self.scan_line(dir, col as int).take(n as int) =~= self.scan_line(
                dir,
                col as int,
            ));
            assert(items@ == items_spec);
        }
        let res = coalesce(&items, dir, col, n, out);
        let vals = res.0;
        let gained = res.1;
        let moved = res.2;
        self.score = self.score + gained;
        proof {
            lemma_tile_count(items_spec);
        }
        let ghost mid_score = self.score;
        let mut j2: usize = 0;
        while j2 < n
            invariant
                j2 <= n,
                n == self.size,
                self.wf(),
                col < n,
                !dir.spec_is_horizontal(),
                rev == dir.spec_is_reversed(),
                self.score == mid_score,
                mid_score as int == old(self).score + gain_of(items_spec),
                vals@ == merged_out(items_spec),
                vals@.len() <= n,
                forall|jj: int|
                    0 <= jj < j2 ==> #[trigger] self.scan_at(dir, col as int, jj) == out_cell(
                        vals@,
                        jj,
                    ),
                forall|r: int, c: int|
                    0 <= r < n && 0 <= c < n && c != col as int ==> #[trigger] self.spec_at(r, c)
                        == old(self).spec_at(r, c),
            decreases n - j2,
        {
            let row = if rev {
                n - 1 - j2
            } else {
                j2
            };
            let cell = if j2 < vals.len() {
                Some(Tile::new(vals[j2]))
            } else {
                None
            };
            let ghost prev = *self;
            self.set(row, col, cell);
            j2 = j2 + 1;
            proof {
                assert forall|jj: int|
                    0 <= jj < j2 implies #[trigger] self.scan_at(dir, col as int, jj) == out_cell(
                    vals@,
                    jj,
                ) by {
                    if jj < j2 - 1 {
                        assert(prev.scan_at(dir, col as int, jj) == out_cell(vals@, jj));
                    } else {
                        assert(self.scan_at(dir, col as int, jj) == self.spec_at(
                            row as int,
                            col as int,
                        ));
                    }
                }
            }
        }
        moved
    }

    /// One full slide without spawning: clear the merge flags, then compact
    /// every line of the scan axis, collecting events and gains in line
    /// order.
    fn compact_all(&mut self, direction: Direction, out: &mut Vec<MoveEvent>) -> (moved: bool)
        requires
            old(self).wf(),
            slide_ok(*old(self), direction),
        ensures
            final(self).wf(),
            final(self).size == old(self).size,
            slide_result(*old(self), *final(self), direction),
            moved == slide_moves(*old(self), direction),
            final(out)@ == old(out)@ + slide_events(*old(self), direction),
    {
        let ghost pre = *old(self);
        let n = self.size;
        self.reset_merged_flags();
        proof {
            assert forall|r: int, c: int|
                0 <= r < n && 0 <= c < n implies #[trigger] self.spec_at(r, c) == clear_cell(
                pre.spec_at(r, c),
            ) by {
                lemma_rc_bound(n as int, r, c);
            }
        }
        let horizontal = match direction {
            Direction::Left | Direction::Right => true,
            _ => false,
        };
        let mut moved = false;
        let mut l: usize = 0;
        while l < n
            invariant
                l <= n,
                n == self.size,
                n == pre.size,
                pre == *old(self),
                pre.wf(),
                self.wf(),
                slide_ok(pre, direction),
                horizontal == direction.spec_is_horizontal(),
                self.score == pre.score + gains_upto(pre, direction, l as int),
                forall|ll: int, j: int|
                    #![trigger self.scan_at(direction, ll, j)]
                    0 <= ll < l && 0 <= j < n ==> self.scan_at(direction, ll, j) == out_cell(
                        merged_out(pre.line_items(direction, ll)),
                        j,
                    ),
                forall|ll: int, j: int|
                    #![trigger self.scan_at(direction, ll, j)]
                    l <= ll < n && 0 <= j < n ==> self.scan_at(direction, ll, j) == clear_cell(
                        pre.scan_at(direction, ll, j),
                    ),
                moved == (exists|ll: int|
                    0 <= ll < l && line_moves(#[trigger] pre.line_items(direction, ll))),
                out@ == old(out)@ + events_upto(pre, direction, l as int),
            decreases n - l,
        {
            let ghost before = *self;
            let ghost out0 = out@;
            proof {
                let a = pre.scan_line(direction, l as int);
                let b = before.scan_line(direction, l as int);
                assert(forall|j: int| 0 <= j < a.len() ==> (#[trigger] b[j]) == clear_cell(a[j]));
                lemma_occ_items_clear(a, b);
                assert(before.line_items(direction, l as int) == pre.line_items(
                    direction,
                    l as int,
                ));
                lemma_budget(pre, direction, l as int + 1);
                lemma_budget(pre, direction, l as int);
                lemma_gain_nonneg(pre.line_items(direction, l as int));
                lemma_sums_mono(pre, direction, l as int + 1, n as int);
            }
            let m = if horizontal {
                self.compact_line_with_events(l, direction, out)
            } else {
                self.compact_column_with_events(l, direction, out)
            };
            moved = moved || m;
            l = l + 1;
            proof {
                let l0 = l as int - 1;
                assert forall|ll: int, j: int|
                    0 <= ll < l && 0 <= j < n implies #[trigger] self.scan_at(direction, ll, j)
                    == out_cell(merged_out(pre.line_items(direction, ll)), j) by {
                    if ll == l0 {
                        assert(self.scan_at(direction, l0, j) == out_cell(
                            merged_out(before.line_items(direction, l0)),
                            j,
                        ));
                    } else {
                        assert(before.scan_at(direction, ll, j) == out_cell(
                            merged_out(pre.line_items(direction, ll)),
                            j,
                        ));
                    }
                }
                assert forall|ll: int, j: int|
                    l <= ll < n && 0 <= j < n implies #[trigger] self.scan_at(direction, ll, j)
                    == clear_cell(pre.scan_at(direction, ll, j)) by {
                    assert(before.scan_at(direction, ll, j) == clear_cell(
                        pre.scan_at(direction, ll, j),
                    ));
                }
                assert(events_upto(pre, direction, l as int) == events_upto(pre, direction, l0)
                    + line_events(pre.line_items(direction, l0), direction, l0, n as int));
                assert(out@ =~= old(out)@ + events_upto(pre, direction, l as int));
                if moved {
                } else {
                    assert(forall|ll: int|
                        0 <= ll < l ==> !line_moves(#[trigger] pre.line_items(direction, ll)));
                }
            }
        }
        moved
    }

    /// Slide every line toward `direction`'s edge, merging equal adjacent
    /// pairs once each and accumulating score; after a slide that changed
    /// something, spawn one random tile. Reports whether anything changed.
    pub fn slide(&mut self, direction: Direction) -> (moved: bool)
        requires
            old(self).wf(),
            slide_ok(*old(self), direction),
        ensures
            final(self).wf(),
            final(self).size == old(self).size,
            moved == slide_moves(*old(self), direction),
            old(self).score <= final(self).score,
            final(self).score == old(self).score + gains_upto(
                *old(self),
                direction,
                old(self).size as int,
            ),
            !moved ==> slide_result(*old(self), *final(self), direction) && final(self).score
                == old(self).score,
            moved ==> exists|mid: Board|
                slide_result(*old(self), mid, direction) && #[trigger] spawn_step(
                    mid,
                    *final(self),
                ),
    {
        let mut scratch: Vec<MoveEvent> = Vec::new();
        let moved = self.compact_all(direction, &mut scratch);
        proof {
            lemma_budget(*old(self), direction, old(self).size as int);
        }
        if moved {
            let ghost mid = *self;
            proof {
                let pre = *old(self);
                let l = choose|l: int|
                    0 <= l < pre.size && line_moves(#[trigger] pre.line_items(direction, l));
                lemma_moving_line_has_gap(pre.scan_line(direction, l));
                let g = merged_out(pre.line_items(direction, l)).len() as int;
                assert(mid.scan_at(direction, l, g) is None);
                match direction {
                    Direction::Left => assert(mid.spec_at(l, g) is None),
                    Direction::Right => assert(mid.spec_at(l, mid.size - 1 - g) is None),
                    Direction::Up => assert(mid.spec_at(g, l) is None),
                    Direction::Down => assert(mid.spec_at(mid.size - 1 - g, l) is None),
                }
                assert(mid.spec_has_empty());
            }
            self.spawn_random_tile();
            proof {
                assert(slide_result(*old(self), mid, direction) && spawn_step(mid, *self));
            }
        } else {
            proof {
                assert(forall|l: int|
                    0 <= l < old(self).size ==> !line_moves(
                        #[trigger] old(self).line_items(direction, l),
                    ));
                lemma_no_moves_no_gain(*old(self), direction, old(self).size as int);
            }
        }
        moved
    }

    /// The same slide, but without spawning: returns whether anything
    /// changed together with the full animation event stream, one event per
    /// tile that moved or merged. The grid changes exactly when events come
    /// back.
    pub fn slide_with_animations(&mut self, direction: Direction) -> (r: (bool, Vec<MoveEvent>))
        requires
            old(self).wf(),
            slide_ok(*old(self), direction),
        ensures
            final(self).wf(),
            final(self).size == old(self).size,
            slide_result(*old(self), *final(self), direction),
            r.0 == slide_moves(*old(self), direction),
            r.1@ == slide_events(*old(self), direction),
            r.0 <==> r.1@.len() > 0,
            old(self).score <= final(self).score,
    {
        let mut events: Vec<MoveEvent> = Vec::new();
        let moved = self.compact_all(direction, &mut events);
        proof {
            lemma_budget(*old(self), direction, old(self).size as int);
            lemma_slide_moves_iff_events(*old(self), direction, old(self).size as int);
            assert(events@ =~= slide_events(*old(self), direction));
        }
        (moved, events)
    }

    /// If any cell is empty, put a fresh tile on one empty cell picked
    /// uniformly at random — the base value 2, or 4 on a one-in-ten roll —
    /// and report true; on a full grid report false and change nothing.
    pub fn spawn_random_tile(&mut self) -> (spawned: bool)
        requires
            old(self).wf(),
        ensures
            final(self).wf(),
            final(self).size == old(self).size,
            final(self).score == old(self).score,
            spawned == old(self).spec_has_empty(),
            !spawned ==> *final(self) == *old(self),
            spawned ==> spawn_step(*old(self), *final(self)),
    {
        let empties = self.empty_positions();
        if empties.len() == 0 {
            proof {
                if self.spec_has_empty() {
                    let (r, c) = choose|r: int, c: int|
                        0 <= r < self.size && 0 <= c < self.size && (#[trigger] self.spec_at(
                            r,
                            c,
                        )) is None;
                    assert(self.spec_at(r, c) is None);
                    assert(false);
                }
            }
            return false;
        }
        let idx = random_below(empties.len());
        let pos = empties[idx];
        let row = pos.0;
        let col = pos.1;
        let roll = random_below(10);
        let value: u32 = if roll == 0 {
            4
        } else {
            2
        };
        proof {
            assert(self.spec_at(row as int, col as int) is None);
        }
        self.set(row, col, Some(Tile::new(value)));
        proof {
            assert(old(self).spec_at(row as int, col as int) is None);
            assert(self.spec_at(row as int, col as int) == Some(
                Tile { value, merged: false },
            ));
        }
        true
    }

    /// A fresh board of the given side length, seeded with two random
    /// tiles and a zero score.
    pub fn new(size: usize) -> (b: Board)
        requires
            2 <= size,
            size * size <= usize::MAX,
        ensures
            b.wf(),
            b.size == size,
            b.score == 0,
            count_occupied(b.cells@) == 2,
            forall|k: int|
                0 <= k < b.cells@.len() && (#[trigger] b.cells@[k]) is Some ==> b.cells@[k]
                    == Some(Tile { value: 2u32, merged: false }) || b.cells@[k] == Some(
                    Tile { value: 4u32, merged: false },
                ),
    {
        let total = size * size;
        let mut cells: Vec<Option<Tile>> = Vec::new();
        let mut k: usize = 0;
        while k < total
            invariant
                k <= total,
                cells@.len() == k,
                forall|i: int| 0 <= i < k ==> (#[trigger] cells@[i]) is None,
            decreases total - k,
        {
            cells.push(None);
            k = k + 1;
        }
        let mut b = Board { size, cells, score: 0 };
        proof {
            lemma_count_all_none(b.cells@);
            lemma_rc_bound(size as int, 0, 0);
            assert(b.spec_at(0, 0) is None);
            assert(b.spec_has_empty());
        }
        let ghost b0 = b;
        b.spawn_random_tile();
        proof {
            let (r, c) = choose|r: int, c: int|
                #![trigger b0.spec_at(r, c)]
                {
                    &&& 0 <= r < b0.size
                    &&& 0 <= c < b0.size
                    &&& b0.spec_at(r, c) is None
                    &&& (b.spec_at(r, c) == Some(Tile { value: 2u32, merged: false })
                        || b.spec_at(r, c) == Some(Tile { value: 4u32, merged: false }))
                    &&& forall|r2: int, c2: int|
                        #![trigger b.spec_at(r2, c2)]
                        0 <= r2 < b0.size && 0 <= c2 < b0.size && (r2 != r || c2 != c)
                            ==> b.spec_at(r2, c2) == b0.spec_at(r2, c2)
                };
            lemma_pointwise_to_update(b0, b, r, c);
            lemma_rc_bound(size as int, r, c);
            lemma_square_ge(size as int);
            let t = b.spec_at(r, c)->Some_0;
            lemma_count_update(b0.cells@, r * size + c, t);
            assert(b.cells@ == b0.cells@.update(r * size + c, Some(t)));
            assert(count_occupied(b.cells@) == 1);
            lemma_count_short_has_none(b.cells@);
            let ke = choose|ke: int| 0 <= ke < b.cells@.len() && (#[trigger] b.cells@[ke]) is None;
            lemma_flat_split(size as int, ke);
            assert(b.spec_at(ke / (size as int), ke % (size as int)) is None);
            assert(b.spec_has_empty());
        }
        let ghost b1 = b;
        b.spawn_random_tile();
        proof {
            let (r, c) = choose|r: int, c: int|
                #![trigger b1.spec_at(r, c)]
                {
                    &&& 0 <= r < b1.size
                    &&& 0 <= c < b1.size
                    &&& b1.spec_at(r, c) is None
                    &&& (b.spec_at(r, c) == Some(Tile { value: 2u32, merged: false })
                        || b.spec_at(r, c) == Some(Tile { value: 4u32, merged: false }))
                    &&& forall|r2: int, c2: int|
                        #![trigger b.spec_at(r2, c2)]
                        0 <= r2 < b1.size && 0 <= c2 < b1.size && (r2 != r || c2 != c)
                            ==> b.spec_at(r2, c2) == b1.spec_at(r2, c2)
                };
            lemma_pointwise_to_update(b1, b, r, c);
            lemma_rc_bound(size as int, r, c);
            let t = b.spec_at(r, c)->Some_0;
            lemma_count_update(b1.cells@, r * size + c, t);
            assert(count_occupied(b.cells@) == 2);
        }
        b
    }
}

} // verus!
