//! The per-line merge model: a single left-to-right pass over the occupied
//! tiles of one line, coalescing adjacent equal pairs once each.
//!
//! A line is handed over as the sequence of its occupied tiles in scan order,
//! each as a pair `(scan position, value)`. The model says which values come
//! out ([`merged_out`]), how much score the pass gains ([`gain_of`]), whether
//! anything moves or merges ([`line_moves`]), and which animation events the
//! pass emits ([`line_events`]). The executable pass [`coalesce`] is proved
//! to compute exactly these.

use vstd::prelude::*;

use crate::direction::Direction;
use crate::events::MoveEvent;

verus! {

/// The value a merge of two `v` tiles produces.
pub open spec fn doubled(v: u32) -> u32 {
    (2 * v) as u32
}

/// Sum of the values of the scanned items.
pub open spec fn sum_vals(items: Seq<(usize, u32)>) -> int
    decreases items.len(),
{
    if items.len() == 0 {
        0
    } else {
        items[0].1 + sum_vals(items.skip(1))
    }
}

/// Sum of a sequence of tile values.
pub open spec fn sum_values(vals: Seq<u32>) -> int
    decreases vals.len(),
{
    if vals.len() == 0 {
        0
    } else {
        vals[0] + sum_values(vals.skip(1))
    }
}

/// The values of the line after the single coalescing pass, in scan order:
/// an adjacent equal pair becomes one doubled value and both inputs are
/// consumed, so a tile produced by a merge never merges again in the same
/// pass.
pub open spec fn merged_out(items: Seq<(usize, u32)>) -> Seq<u32>
    decreases items.len(),
{
    if items.len() == 0 {
        Seq::empty()
    } else if items.len() >= 2 && items[0].1 == items[1].1 {
        seq![doubled(items[0].1)] + merged_out(items.skip(2))
    } else {
        seq![items[0].1] + merged_out(items.skip(1))
    }
}

/// How many merges the pass performs.
pub open spec fn merge_count(items: Seq<(usize, u32)>) -> int
    decreases items.len(),
{
    if items.len() == 0 {
        0
    } else if items.len() >= 2 && items[0].1 == items[1].1 {
        1 + merge_count(items.skip(2))
    } else {
        merge_count(items.skip(1))
    }
}

/// The score the pass gains: the doubled value of each merge, once per merge.
pub open spec fn gain_of(items: Seq<(usize, u32)>) -> int
    decreases items.len(),
{
    if items.len() == 0 {
        0
    } else if items.len() >= 2 && items[0].1 == items[1].1 {
        2 * items[0].1 + gain_of(items.skip(2))
    } else {
        gain_of(items.skip(1))
    }
}

/// Whether the pass changes the line when its next output lands at scan
/// position `slot`: some pair merges, or some tile lands away from where it
/// started.
pub open spec fn line_moves_from(items: Seq<(usize, u32)>, slot: int) -> bool
    decreases items.len(),
{
    if items.len() == 0 {
        false
    } else if items.len() >= 2 && items[0].1 == items[1].1 {
        true
    } else {
        items[0].0 as int != slot || line_moves_from(items.skip(1), slot + 1)
    }
}

/// Whether the pass changes the line at all.
pub open spec fn line_moves(items: Seq<(usize, u32)>) -> bool {
    line_moves_from(items, 0)
}

/// The event for one input tile, in grid coordinates: scan coordinates
/// (`line`, source position `src`, destination position `slot`) mapped for
/// direction `dir` on an `n`-sided grid.
pub open spec fn mk_event(
    dir: Direction,
    line: int,
    n: int,
    src: int,
    slot: int,
    value: u32,
    merged_into: Option<u32>,
) -> MoveEvent {
    match dir {
        Direction::Left => (MoveEvent {
            from_row: line as usize,
            from_col: src as usize,
            to_row: line as usize,
            to_col: slot as usize,
            value,
            merged_into_value: merged_into,
        }),
        Direction::Right => (MoveEvent {
            from_row: line as usize,
            from_col: (n - 1 - src) as usize,
            to_row: line as usize,
            to_col: (n - 1 - slot) as usize,
            value,
            merged_into_value: merged_into,
        }),
        Direction::Up => (MoveEvent {
            from_row: src as usize,
            from_col: line as usize,
            to_row: slot as usize,
            to_col: line as usize,
            value,
            merged_into_value: merged_into,
        }),
        Direction::Down => (MoveEvent {
            from_row: (n - 1 - src) as usize,
            from_col: line as usize,
            to_row: (n - 1 - slot) as usize,
            to_col: line as usize,
            value,
            merged_into_value: merged_into,
        }),
    }
}

/// The events the pass emits from `items` when its next output lands at scan
/// position `slot`: one per input tile that moves or merges, in scan order.
/// A tile that stays exactly where it was emits nothing.
pub open spec fn line_events_from(
    items: Seq<(usize, u32)>,
    dir: Direction,
    line: int,
    n: int,
    slot: int,
) -> Seq<MoveEvent>
    decreases items.len(),
{
    if items.len() == 0 {
        Seq::empty()
    } else if items.len() >= 2 && items[0].1 == items[1].1 {
        seq![
            mk_event(dir, line, n, items[0].0 as int, slot, items[0].1, Some(doubled(items[0].1))),
            mk_event(dir, line, n, items[1].0 as int, slot, items[1].1, Some(doubled(items[0].1))),
        ] + line_events_from(items.skip(2), dir, line, n, slot + 1)
    } else if items[0].0 as int != slot {
        seq![mk_event(dir, line, n, items[0].0 as int, slot, items[0].1, None)]
            + line_events_from(items.skip(1), dir, line, n, slot + 1)
    } else {
        line_events_from(items.skip(1), dir, line, n, slot + 1)
    }
}

/// All events of one line pass.
pub open spec fn line_events(items: Seq<(usize, u32)>, dir: Direction, line: int, n: int) -> Seq<
    MoveEvent,
> {
    line_events_from(items, dir, line, n, 0)
}

pub proof fn lemma_sum_vals_nonneg(items: Seq<(usize, u32)>)
    ensures
        0 <= sum_vals(items),
    decreases items.len(),
{
    if items.len() > 0 {
        lemma_sum_vals_nonneg(items.skip(1));
    }
}

pub proof fn lemma_gain_nonneg(items: Seq<(usize, u32)>)
    ensures
        0 <= gain_of(items),
    decreases items.len(),
{
    if items.len() == 0 {
    } else if items.len() >= 2 && items[0].1 == items[1].1 {
        lemma_gain_nonneg(items.skip(2));
    } else {
        lemma_gain_nonneg(items.skip(1));
    }
}

/// The score a pass gains never exceeds the total value on the line.
pub proof fn lemma_gain_le_sum(items: Seq<(usize, u32)>)
    ensures
        gain_of(items) <= sum_vals(items),
    decreases items.len(),
{
    if items.len() == 0 {
    } else if items.len() >= 2 && items[0].1 == items[1].1 {
        lemma_gain_le_sum(items.skip(2));
        assert(items.skip(1).skip(1) =~= items.skip(2));
        assert(items.skip(1)[0] == items[1]);
        assert(sum_vals(items.skip(1)) == items[1].1 + sum_vals(items.skip(2)));
        assert(sum_vals(items) == items[0].1 + items[1].1 + sum_vals(items.skip(2)));
    } else {
        lemma_gain_le_sum(items.skip(1));
        lemma_sum_vals_nonneg(items.skip(1));
    }
}

/// Law: a pass over k occupied tiles with m merges puts out exactly k - m
/// tiles; each merge consumes two inputs, so at most every second input
/// merges.
pub proof fn lemma_tile_count(items: Seq<(usize, u32)>)
    ensures
        merged_out(items).len() + merge_count(items) == items.len(),
        0 <= merge_count(items),
        2 * merge_count(items) <= items.len(),
    decreases items.len(),
{
    if items.len() == 0 {
    } else if items.len() >= 2 && items[0].1 == items[1].1 {
        lemma_tile_count(items.skip(2));
    } else {
        lemma_tile_count(items.skip(1));
    }
}

/// Law: the total value is conserved by a pass — a merge consumes two equal
/// inputs and puts out their doubled value — as long as no doubled value
/// overflows the tile width.
pub proof fn lemma_mass_conservation(items: Seq<(usize, u32)>)
    requires
        forall|k: int| 0 <= k < items.len() ==> 2 * (#[trigger] items[k]).1 <= u32::MAX,
    ensures
        sum_values(merged_out(items)) == sum_vals(items),
    decreases items.len(),
{
    if items.len() == 0 {
    } else if items.len() >= 2 && items[0].1 == items[1].1 {
        lemma_mass_conservation(items.skip(2));
        assert(items.skip(1).skip(1) =~= items.skip(2));
        assert(items.skip(1)[0] == items[1]);
        assert(sum_vals(items.skip(1)) == items[1].1 + sum_vals(items.skip(2)));
        assert(sum_vals(items) == items[0].1 + items[1].1 + sum_vals(items.skip(2)));
        let rest = merged_out(items.skip(2));
        assert((seq![doubled(items[0].1)] + rest).skip(1) =~= rest);
        assert(sum_values(merged_out(items)) == doubled(items[0].1) + sum_values(rest));
    } else {
        lemma_mass_conservation(items.skip(1));
        let rest = merged_out(items.skip(1));
        assert((seq![items[0].1] + rest).skip(1) =~= rest);
        assert(sum_values(merged_out(items)) == items[0].1 + sum_values(rest));
    }
}

/// Law: a run of three equal tiles merges only its first pair — the pass
/// puts out `[2v, v]`, never a single `4v` tile — and gains exactly `2v`.
pub proof fn lemma_no_chain_merge(items: Seq<(usize, u32)>, v: u32)
    requires
        items.len() == 3,
        forall|k: int| 0 <= k < items.len() ==> (#[trigger] items[k]).1 == v,
    ensures
        merged_out(items) =~= seq![doubled(v), v],
        gain_of(items) == 2 * v,
{
    let tail = items.skip(2);
    assert(tail.len() == 1);
    assert(tail[0] == items[2]);
    assert(tail.skip(1) =~= Seq::<(usize, u32)>::empty());
    assert(merged_out(tail.skip(1)) =~= Seq::<u32>::empty());
    assert(gain_of(tail.skip(1)) == 0);
    assert(merged_out(tail) =~= seq![tail[0].1] + merged_out(tail.skip(1)));
    assert(merged_out(tail) =~= seq![v]);
    assert(gain_of(tail) == 0);
    assert(merged_out(items) =~= seq![doubled(v)] + merged_out(tail));
    assert(gain_of(items) == 2 * items[0].1 + gain_of(tail));
}

/// A pass changes its line exactly when it emits at least one event.
pub proof fn lemma_moves_iff_events(
    items: Seq<(usize, u32)>,
    dir: Direction,
    line: int,
    n: int,
    slot: int,
)
    ensures
        line_moves_from(items, slot) <==> line_events_from(items, dir, line, n, slot).len() > 0,
    decreases items.len(),
{
    if items.len() == 0 {
    } else if items.len() >= 2 && items[0].1 == items[1].1 {
    } else {
        lemma_moves_iff_events(items.skip(1), dir, line, n, slot + 1);
    }
}

/// When a pass changes nothing, it merges nothing and every tile already sat
/// at its own slot, so the output values are the input values in place.
pub proof fn lemma_unmoved_identity(items: Seq<(usize, u32)>, slot: int)
    requires
        !line_moves_from(items, slot),
    ensures
        merged_out(items).len() == items.len(),
        forall|j: int| 0 <= j < items.len() ==> merged_out(items)[j] == (#[trigger] items[j]).1,
        forall|j: int| 0 <= j < items.len() ==> (#[trigger] items[j]).0 as int == slot + j,
        gain_of(items) == 0,
    decreases items.len(),
{
    if items.len() == 0 {
    } else {
        lemma_unmoved_identity(items.skip(1), slot + 1);
        let rest = merged_out(items.skip(1));
        assert((seq![items[0].1] + rest).skip(1) =~= rest);
        assert forall|j: int| 0 <= j < items.len() implies merged_out(items)[j] == (
        #[trigger] items[j]).1 by {
            if j > 0 {
                assert(items.skip(1)[j - 1] == items[j]);
            }
        }
        assert forall|j: int| 0 <= j < items.len() implies (#[trigger] items[j]).0 as int == slot
            + j by {
            if j > 0 {
                assert(items.skip(1)[j - 1] == items[j]);
            }
        }
    }
}

/// Sum of the post-merge values the events carry: each merge emits two
/// events with the same doubled value, and a plain move carries none.
pub open spec fn events_merge_sum(evs: Seq<MoveEvent>) -> int
    decreases evs.len(),
{
    if evs.len() == 0 {
        0
    } else {
        (match evs[0].merged_into_value {
            Some(v) => v as int,
            None => 0,
        }) + events_merge_sum(evs.skip(1))
    }
}

/// The merge sum splits over concatenation.
pub proof fn lemma_events_merge_sum_add(a: Seq<MoveEvent>, b: Seq<MoveEvent>)
    ensures
        events_merge_sum(a + b) == events_merge_sum(a) + events_merge_sum(b),
    decreases a.len(),
{
    if a.len() == 0 {
        assert(a + b =~= b);
    } else {
        assert((a + b).skip(1) =~= a.skip(1) + b);
        lemma_events_merge_sum_add(a.skip(1), b);
        assert((a + b)[0] == a[0]);
    }
}

/// Law: the score a pass gains is exactly the merged (post-merge) value,
/// once per merge. The events are the witness: every merge sends two tiles
/// to one cell and stamps both events with the doubled value, so the events
/// carry the gain exactly twice, as long as no doubled value overflows the
/// tile width.
pub proof fn lemma_gain_matches_events(
    items: Seq<(usize, u32)>,
    dir: Direction,
    line: int,
    n: int,
    slot: int,
)
    requires
        forall|k: int| 0 <= k < items.len() ==> 2 * (#[trigger] items[k]).1 <= u32::MAX,
    ensures
        2 * gain_of(items) == events_merge_sum(line_events_from(items, dir, line, n, slot)),
    decreases items.len(),
{
    if items.len() == 0 {
    } else if items.len() >= 2 && items[0].1 == items[1].1 {
        assert(forall|k: int|
            0 <= k < items.skip(2).len() ==> (#[trigger] items.skip(2)[k]) == items[k + 2]);
        lemma_gain_matches_events(items.skip(2), dir, line, n, slot + 1);
        let v = items[0].1;
        let e1 = mk_event(dir, line, n, items[0].0 as int, slot, v, Some(doubled(v)));
        let e2 = mk_event(dir, line, n, items[1].0 as int, slot, items[1].1, Some(doubled(v)));
        let rest = line_events_from(items.skip(2), dir, line, n, slot + 1);
        lemma_events_merge_sum_add(seq![e1, e2], rest);
        assert(e1.merged_into_value == Some(doubled(v)));
        assert(e2.merged_into_value == Some(doubled(v)));
        assert(seq![e1, e2].skip(1) =~= seq![e2]);
        assert(seq![e2].skip(1) =~= Seq::<MoveEvent>::empty());
        assert(events_merge_sum(Seq::<MoveEvent>::empty()) == 0);
        assert(events_merge_sum(seq![e2]) == doubled(v));
        assert(events_merge_sum(seq![e1, e2]) == 2 * doubled(v));
        assert(doubled(v) == 2 * v);
    } else {
        assert(forall|k: int|
            0 <= k < items.skip(1).len() ==> (#[trigger] items.skip(1)[k]) == items[k + 1]);
        lemma_gain_matches_events(items.skip(1), dir, line, n, slot + 1);
        if items[0].0 as int != slot {
            let e = mk_event(dir, line, n, items[0].0 as int, slot, items[0].1, None);
            let rest = line_events_from(items.skip(1), dir, line, n, slot + 1);
            lemma_events_merge_sum_add(seq![e], rest);
            assert(e.merged_into_value == None::<u32>);
            assert(seq![e].skip(1) =~= Seq::<MoveEvent>::empty());
            assert(events_merge_sum(Seq::<MoveEvent>::empty()) == 0);
            assert(events_merge_sum(seq![e]) == 0);
        }
    }
}

/// A line's total value is at most one bound per item.
pub proof fn lemma_sum_vals_bounded(items: Seq<(usize, u32)>, v: u32)
    requires
        forall|k: int| 0 <= k < items.len() ==> (#[trigger] items[k]).1 <= v,
    ensures
        sum_vals(items) <= items.len() * v,
    decreases items.len(),
{
    if items.len() == 0 {
    } else {
        assert(forall|k: int|
            0 <= k < items.skip(1).len() ==> (#[trigger] items.skip(1)[k]) == items[k + 1]);
        lemma_sum_vals_bounded(items.skip(1), v);
        assert((items.len() - 1) * v + v == items.len() * v) by (nonlinear_arith);
    }
}

/// A pass that merges nothing over tiles already sitting at their own slots
/// changes nothing.
pub proof fn lemma_identity_not_moving(items: Seq<(usize, u32)>, slot: int)
    requires
        merge_count(items) == 0,
        forall|j: int| 0 <= j < items.len() ==> (#[trigger] items[j]).0 as int == slot + j,
    ensures
        !line_moves_from(items, slot),
    decreases items.len(),
{
    if items.len() == 0 {
    } else if items.len() >= 2 && items[0].1 == items[1].1 {
        lemma_tile_count(items.skip(2));
    } else {
        assert(forall|j: int|
            0 <= j < items.skip(1).len() ==> (#[trigger] items.skip(1)[j]) == items[j + 1]);
        lemma_identity_not_moving(items.skip(1), slot + 1);
        assert(items[0].0 as int == slot);
    }
}

/// Builds the event for one input tile in grid coordinates.
fn make_event(
    dir: Direction,
    line: usize,
    n: usize,
    src: usize,
    slot: usize,
    value: u32,
    merged_into: Option<u32>,
) -> (e: MoveEvent)
    requires
        line < n,
        src < n,
        slot < n,
    ensures
        e == mk_event(dir, line as int, n as int, src as int, slot as int, value, merged_into),
{
    match dir {
        Direction::Left => MoveEvent {
            from_row: line,
            from_col: src,
            to_row: line,
            to_col: slot,
            value,
            merged_into_value: merged_into,
        },
        Direction::Right => MoveEvent {
            from_row: line,
            from_col: n - 1 - src,
            to_row: line,
            to_col: n - 1 - slot,
            value,
            merged_into_value: merged_into,
        },
        Direction::Up => MoveEvent {
            from_row: src,
            from_col: line,
            to_row: slot,
            to_col: line,
            value,
            merged_into_value: merged_into,
        },
        Direction::Down => MoveEvent {
            from_row: n - 1 - src,
            from_col: line,
            to_row: n - 1 - slot,
            to_col: line,
            value,
            merged_into_value: merged_into,
        },
    }
}

/// The single coalescing pass over one line's occupied tiles. Returns the
/// output values in scan order, the score gained, and whether the line
/// changes; appends one event per tile that moves or merges to `out`.
pub(crate) fn coalesce(
    items: &Vec<(usize, u32)>,
    dir: Direction,
    line: usize,
    n: usize,
    out: &mut Vec<MoveEvent>,
) -> (r: (Vec<u32>, u32, bool))
    requires
        items@.len() <= n,
        line < n,
        forall|k: int| 0 <= k < items@.len() ==> (#[trigger] items@[k]).0 < n,
        gain_of(items@) <= u32::MAX,
    ensures
        r.0@ == merged_out(items@),
        r.1 as int == gain_of(items@),
        r.2 == line_moves(items@),
        final(out)@ == old(out)@ + line_events(items@, dir, line as int, n as int),
{
    let ghost gline = line as int;
    let ghost gn = n as int;
    let mut vals: Vec<u32> = Vec::new();
    let mut gained: u32 = 0;
    let mut moved: bool = false;
    let mut i: usize = 0;
    proof {
        assert(items@.skip(0) =~= items@);
        assert(vals@ + merged_out(items@) =~= merged_out(items@));
        assert(out@ + line_events_from(items@, dir, gline, gn, 0) =~= old(out)@ + line_events(
            items@,
            dir,
            gline,
            gn,
        ));
    }
    while i < items.len()
        invariant
            gline == line as int,
            gn == n as int,
            i <= items@.len(),
            items@.len() <= n,
            line < n,
            forall|k: int| 0 <= k < items@.len() ==> (#[trigger] items@[k]).0 < n,
            gain_of(items@) <= u32::MAX,
            vals@.len() <= i,
            vals@ + merged_out(items@.skip(i as int)) == merged_out(items@),
            gained + gain_of(items@.skip(i as int)) == gain_of(items@),
            (moved || line_moves_from(items@.skip(i as int), vals@.len() as int)) == line_moves(
                items@,
            ),
            out@ + line_events_from(items@.skip(i as int), dir, line as int, n as int, vals@.len() as int)
                == old(out)@ + line_events(items@, dir, line as int, n as int),
        decreases items@.len() - i,
    {
        let ghost rest = items@.skip(i as int);
        let ghost vals0 = vals@;
        let ghost out0 = out@;
        let ghost slot0 = vals@.len() as int;
        proof {
            assert(rest[0] == items@[i as int]);
            lemma_gain_nonneg(rest);
        }
        let (src, v) = items[i];
        let slot = vals.len();
        if i + 1 < items.len() && v == items[i + 1].1 {
            proof {
                assert(rest[1] == items@[i as int + 1]);
                assert(rest.skip(2) =~= items@.skip(i as int + 2));
                lemma_gain_nonneg(rest.skip(2));
                assert(gain_of(rest) == 2 * v + gain_of(rest.skip(2)));
            }
            let nv = v * 2;
            let src2 = items[i + 1].0;
            let e1 = make_event(dir, line, n, src, slot, v, Some(nv));
            let e2 = make_event(dir, line, n, src2, slot, v, Some(nv));
            out.push(e1);
            out.push(e2);
            vals.push(nv);
            gained = gained + nv;
            moved = true;
            i = i + 2;
            proof {
                assert(nv == doubled(rest[0].1));
                assert(vals@ =~= vals0.push(nv));
                assert(merged_out(rest) == seq![nv] + merged_out(items@.skip(i as int)));
                assert(vals@ + merged_out(items@.skip(i as int)) =~= vals0 + merged_out(rest));
                assert(e1 == mk_event(dir, gline, gn, rest[0].0 as int, slot0, rest[0].1, Some(
                    doubled(rest[0].1),
                )));
                assert(e2 == mk_event(dir, gline, gn, rest[1].0 as int, slot0, rest[1].1, Some(
                    doubled(rest[0].1),
                )));
                assert(line_events_from(rest, dir, gline, gn, slot0) =~= seq![e1, e2]
                    + line_events_from(items@.skip(i as int), dir, gline, gn, slot0 + 1));
                assert(out@ =~= out0 + seq![e1, e2]);
                assert(out@ + line_events_from(items@.skip(i as int), dir, gline, gn, slot0 + 1)
                    =~= out0 + line_events_from(rest, dir, gline, gn, slot0));
            }
        } else {
            if src != slot {
                let e = make_event(dir, line, n, src, slot, v, None);
                out.push(e);
                moved = true;
                proof {
                    assert(e == mk_event(dir, gline, gn, rest[0].0 as int, slot0, rest[0].1, None));
                    assert(line_events_from(rest, dir, gline, gn, slot0) =~= seq![e]
                        + line_events_from(rest.skip(1), dir, gline, gn, slot0 + 1));
                    assert(out@ =~= out0 + seq![e]);
                    assert(out@ + line_events_from(rest.skip(1), dir, gline, gn, slot0 + 1)
                        =~= out0 + line_events_from(rest, dir, gline, gn, slot0));
                }
            } else {
                proof {
                    assert(rest[0].0 as int == slot0);
                    assert(line_events_from(rest, dir, gline, gn, slot0) == line_events_from(
                        rest.skip(1),
                        dir,
                        gline,
                        gn,
                        slot0 + 1,
                    ));
                }
            }
            vals.push(v);
            i = i + 1;
            proof {
                assert(rest.skip(1) =~= items@.skip(i as int));
                assert(vals@ =~= vals0.push(v));
                assert(merged_out(rest) == seq![v] + merged_out(items@.skip(i as int)));
                assert(vals@ + merged_out(items@.skip(i as int)) =~= vals0 + merged_out(rest));
            }
        }
    }
    proof {
        assert(items@.skip(i as int) =~= Seq::<(usize, u32)>::empty());
        assert(vals@ + merged_out(items@.skip(i as int)) =~= vals@);
        assert(out@ + line_events_from(items@.skip(i as int), dir, gline, gn, vals@.len() as int)
            =~= out@);
    }
    (vals, gained, moved)
}

} // verus!
