use crate::cell::CellState;
use crate::config::Cells;
use crate::fixed::COORD_MAX;
use vstd::prelude::*;

verus! {

/// A cell of size `(0, 0)` has been absorbed and waits to be removed.
pub open spec fn inert(c: CellState) -> bool {
    c.width == 0 && c.height == 0
}

/// The width of a cell, or its height.
pub open spec fn extent(c: CellState, wide: bool) -> int {
    if wide {
        c.width
    } else {
        c.height
    }
}

/// The sum of the widths of all cells, or of their heights.
pub open spec fn total(cells: Seq<CellState>, wide: bool) -> int
    decreases cells.len(),
{
    if cells.len() == 0 {
        0
    } else {
        total(cells.drop_last(), wide) + extent(cells.last(), wide)
    }
}

/// No cell has a negative size.
pub open spec fn sized(cells: Seq<CellState>) -> bool {
    forall|i: int|
        0 <= i < cells.len() ==> 0 <= (#[trigger] cells[i]).width && 0 <= cells[i].height
}

/// No two cells share an id.
pub open spec fn distinct_ids(cells: Seq<CellState>) -> bool {
    forall|i: int, j: int|
        0 <= i < j < cells.len() ==> (#[trigger] cells[i]).id != (#[trigger] cells[j]).id
}

/// Every id has been handed out already.
pub open spec fn ids_below(cells: Seq<CellState>, next_id: int) -> bool {
    forall|i: int| 0 <= i < cells.len() ==> 0 <= (#[trigger] cells[i]).id < next_id
}

/// No coordinate is further than `reach` from the origin.
pub open spec fn within(cells: Seq<CellState>, reach: int) -> bool {
    forall|i: int|
        0 <= i < cells.len() ==> -reach <= (#[trigger] cells[i]).x <= reach && -reach
            <= cells[i].y <= reach
}

/// Every cell is of a type that the registry holds.
pub open spec fn known(cells: Seq<CellState>, registry: Map<Seq<char>, Cells>) -> bool {
    forall|i: int| 0 <= i < cells.len() ==> registry.contains_key((#[trigger] cells[i]).kind)
}

/// What holds of a population while it is worked on: sizes are natural
/// numbers whose sums fit the machine, ids are distinct and were handed out,
/// and coordinates stay within `reach`.
pub open spec fn steady(cells: Seq<CellState>, next_id: int, reach: int) -> bool {
    &&& sized(cells)
    &&& total(cells, true) <= u32::MAX
    &&& total(cells, false) <= u32::MAX
    &&& distinct_ids(cells)
    &&& ids_below(cells, next_id)
    &&& within(cells, reach)
}

/// What holds of a population between ticks.
pub open spec fn sound(cells: Seq<CellState>, next_id: int) -> bool {
    steady(cells, next_id, COORD_MAX as int) && 0 <= next_id <= u32::MAX
}

/// Two populations of the same cells: ids, types and colours agree.
pub open spec fn same_cells(after: Seq<CellState>, before: Seq<CellState>) -> bool {
    &&& after.len() == before.len()
    &&& forall|k: int|
        0 <= k < before.len() ==> (#[trigger] after[k]).id == before[k].id && after[k].kind
            == before[k].kind && after[k].color == before[k].color
}

/// A new last cell adds its size to the sum.
pub proof fn lemma_total_push(cells: Seq<CellState>, c: CellState, wide: bool)
    ensures
        total(cells.push(c), wide) == total(cells, wide) + extent(c, wide),
{
    assert(cells.push(c).drop_last() =~= cells);
}

/// Replacing a cell changes the sum by the difference of the two sizes.
pub proof fn lemma_total_update(cells: Seq<CellState>, i: int, c: CellState, wide: bool)
    requires
        0 <= i < cells.len(),
    ensures
        total(cells.update(i, c), wide) == total(cells, wide) - extent(cells[i], wide) + extent(
            c,
            wide,
        ),
    decreases cells.len(),
{
    if i == cells.len() - 1 {
        assert(cells.update(i, c).drop_last() =~= cells.drop_last());
    } else {
        assert(cells.update(i, c).drop_last() =~= cells.drop_last().update(i, c));
        lemma_total_update(cells.drop_last(), i, c, wide);
    }
}

/// Sizes that are natural numbers have a natural sum.
pub proof fn lemma_total_natural(cells: Seq<CellState>, wide: bool)
    requires
        sized(cells),
    ensures
        0 <= total(cells, wide),
    decreases cells.len(),
{
    if cells.len() > 0 {
        assert(0 <= cells[cells.len() - 1].width);
        lemma_total_natural(cells.drop_last(), wide);
    }
}

/// Two different cells are together no larger than the whole population.
pub proof fn lemma_pair_in_total(cells: Seq<CellState>, i: int, j: int, wide: bool)
    requires
        sized(cells),
        0 <= i < cells.len(),
        0 <= j < cells.len(),
        i != j,
    ensures
        extent(cells[i], wide) + extent(cells[j], wide) <= total(cells, wide),
        extent(cells[i], wide) <= total(cells, wide),
{
    let a = CellState { width: 0, height: 0, ..cells[i] };
    let b = CellState { width: 0, height: 0, ..cells[j] };
    let first = cells.update(i, a);
    let both = first.update(j, b);
    lemma_total_update(cells, i, a, wide);
    lemma_total_update(first, j, b, wide);
    assert(cells[i].width >= 0 && cells[j].width >= 0);
    assert forall|k: int| 0 <= k < both.len() implies 0 <= (#[trigger] both[k]).width && 0
        <= both[k].height by {
        if k != i && k != j {
            assert(both[k] == cells[k]);
        }
    }
    lemma_total_natural(both, wide);
}

/// The cells that are not inert, in their order.
pub open spec fn sweep(cells: Seq<CellState>) -> Seq<CellState>
    decreases cells.len(),
{
    if cells.len() == 0 {
        cells
    } else if inert(cells.last()) {
        sweep(cells.drop_last())
    } else {
        sweep(cells.drop_last()).push(cells.last())
    }
}

/// Sweeping keeps every cell that is not inert and nothing else, and with
/// them the size of the population and whatever held of each cell.
pub proof fn lemma_sweep(cells: Seq<CellState>)
    ensures
        sweep(cells).len() <= cells.len(),
        forall|k: int|
            0 <= k < sweep(cells).len() ==> !inert(#[trigger] sweep(cells)[k]) && cells.contains(
                sweep(cells)[k],
            ),
        forall|i: int|
            0 <= i < cells.len() && !inert(cells[i]) ==> sweep(cells).contains(
                #[trigger] cells[i],
            ),
        total(sweep(cells), true) == total(cells, true),
        total(sweep(cells), false) == total(cells, false),
        distinct_ids(cells) ==> distinct_ids(sweep(cells)),
    decreases cells.len(),
{
    if cells.len() > 0 {
        let rest = cells.drop_last();
        let last = cells.last();
        lemma_sweep(rest);
        let kept = sweep(rest);
        assert forall|k: int| 0 <= k < kept.len() implies cells.contains(#[trigger] kept[k]) by {
            assert(rest.contains(kept[k]));
            let m = choose|m: int| 0 <= m < rest.len() && rest[m] == kept[k];
            assert(cells[m] == kept[k]);
        }
        if inert(last) {
            assert forall|i: int| 0 <= i < cells.len() && !inert(cells[i]) implies sweep(
                cells,
            ).contains(#[trigger] cells[i]) by {
                assert(rest[i] == cells[i]);
            }
        } else {
            let all = kept.push(last);
            lemma_total_push(kept, last, true);
            lemma_total_push(kept, last, false);
            assert(cells[cells.len() - 1] == last);
            assert forall|k: int| 0 <= k < all.len() implies !inert(#[trigger] all[k])
                && cells.contains(all[k]) by {
                if k < kept.len() {
                    assert(all[k] == kept[k]);
                }
            }
            assert forall|i: int| 0 <= i < cells.len() && !inert(cells[i]) implies all.contains(
                #[trigger] cells[i],
            ) by {
                if i < rest.len() {
                    assert(rest[i] == cells[i]);
                    assert(kept.contains(rest[i]));
                    let m = choose|m: int| 0 <= m < kept.len() && kept[m] == rest[i];
                    assert(all[m] == cells[i]);
                } else {
                    assert(all[kept.len() as int] == cells[i]);
                }
            }
            if distinct_ids(cells) {
                assert(distinct_ids(rest)) by {
                    assert forall|i: int, j: int| 0 <= i < j < rest.len() implies (
                    #[trigger] rest[i]).id != (#[trigger] rest[j]).id by {
                        assert(rest[i] == cells[i] && rest[j] == cells[j]);
                    }
                }
                assert forall|i: int, j: int| 0 <= i < j < all.len() implies (#[trigger] all[i]).id
                    != (#[trigger] all[j]).id by {
                    if j < kept.len() {
                        assert(all[i] == kept[i] && all[j] == kept[j]);
                    } else {
                        assert(all[i] == kept[i]);
                        assert(rest.contains(kept[i]));
                        let m = choose|m: int| 0 <= m < rest.len() && rest[m] == kept[i];
                        assert(cells[m] == kept[i]);
                        assert(cells[m].id != cells[cells.len() - 1].id);
                    }
                }
            }
        }
    }
}

/// Sweeping a sound population leaves a sound one.
pub proof fn lemma_sweep_sound(cells: Seq<CellState>, next_id: int, reach: int)
    requires
        steady(cells, next_id, reach),
    ensures
        steady(sweep(cells), next_id, reach),
{
    lemma_sweep(cells);
    let kept = sweep(cells);
    assert forall|k: int| 0 <= k < kept.len() implies 0 <= (#[trigger] kept[k]).width && 0
        <= kept[k].height && 0 <= kept[k].id < next_id && -reach <= kept[k].x <= reach && -reach
        <= kept[k].y <= reach by {
        assert(cells.contains(kept[k]));
        let m = choose|m: int| 0 <= m < cells.len() && cells[m] == kept[k];
        assert(cells[m] == kept[k]);
    }
}

/// Two populations whose cells agree in size have the same size in all.
pub proof fn lemma_total_same(after: Seq<CellState>, before: Seq<CellState>, wide: bool)
    requires
        after.len() == before.len(),
        forall|k: int|
            0 <= k < before.len() ==> (#[trigger] after[k]).width == before[k].width
                && after[k].height == before[k].height,
    ensures
        total(after, wide) == total(before, wide),
    decreases before.len(),
{
    if before.len() > 0 {
        let a = after.drop_last();
        let b = before.drop_last();
        assert forall|k: int| 0 <= k < b.len() implies (#[trigger] a[k]).width == b[k].width
            && a[k].height == b[k].height by {
            assert(a[k] == after[k]);
        }
        lemma_total_same(a, b, wide);
        assert(after[after.len() - 1].width == before[before.len() - 1].width);
    }
}

/// The same cells have the same ids and types.
pub proof fn lemma_same_cells(
    after: Seq<CellState>,
    before: Seq<CellState>,
    next_id: int,
    registry: Map<Seq<char>, Cells>,
)
    requires
        same_cells(after, before),
    ensures
        distinct_ids(before) ==> distinct_ids(after),
        ids_below(before, next_id) ==> ids_below(after, next_id),
        known(before, registry) ==> known(after, registry),
{
    if distinct_ids(before) {
        assert forall|i: int, j: int| 0 <= i < j < after.len() implies (#[trigger] after[i]).id != (
        #[trigger] after[j]).id by {
            assert(before[i].id != before[j].id);
        }
    }
    if ids_below(before, next_id) {
        assert forall|i: int| 0 <= i < after.len() implies 0 <= (#[trigger] after[i]).id
            < next_id by {
            assert(0 <= before[i].id < next_id);
        }
    }
    if known(before, registry) {
        assert forall|i: int| 0 <= i < after.len() implies registry.contains_key(
            (#[trigger] after[i]).kind,
        ) by {
            assert(registry.contains_key(before[i].kind));
        }
    }
}

} // verus!
