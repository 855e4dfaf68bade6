use crate::cell::CellState;
use crate::config::Cells;
use crate::divide::{child, divide_at, divide_upto, divides, parent, Division};
use crate::fixed::{inside_axis, wrap_axis, COORD_MAX, UNIT, WORK_MAX};
use crate::force::{
    acts, lemma_pair_step, merge_at, overlapping, pair_step, row_upto, rows_upto, workable,
};
use crate::gol::{lemma_wrap_all, tick_of, wrap_cell, World};
use crate::world::{inert, lemma_sweep, lemma_sweep_sound, same_cells, sound, sweep, total};
use vstd::prelude::*;

verus! {

/// A coordinate that is inside stays where it is.
pub proof fn lemma_wrap_keeps_inside(pos: int, extent: int, limit: int)
    requires
        inside_axis(pos, extent, limit),
    ensures
        wrap_axis(pos, extent, limit) == pos,
{
}

/// A cell of some extent whose box lies within the axis is inside.
pub proof fn lemma_box_inside(pos: int, extent: int, limit: int)
    requires
        0 < extent,
        0 <= pos,
        pos + extent * UNIT <= limit * UNIT,
    ensures
        inside_axis(pos, extent, limit),
{
}

/// A cell of some extent that has wholly passed the far edge returns to 0.
pub proof fn lemma_wrap_far(pos: int, extent: int, limit: int)
    requires
        0 < extent,
        pos - extent * UNIT >= limit * UNIT,
    ensures
        wrap_axis(pos, extent, limit) == 0,
{
}

/// A cell that has wholly passed the near edge goes to the far edge.
pub proof fn lemma_wrap_near(pos: int, extent: int, limit: int)
    requires
        0 <= extent,
        0 <= limit,
        pos <= 0 - extent * UNIT,
    ensures
        wrap_axis(pos, extent, limit) == limit * UNIT,
{
}

/// Wrapping twice is wrapping once.
pub proof fn lemma_wrap_settles(pos: int, extent: int, limit: int)
    requires
        0 <= extent,
        0 <= limit,
    ensures
        wrap_axis(wrap_axis(pos, extent, limit), extent, limit) == wrap_axis(pos, extent, limit),
{
}

/// The two axes wrap apart: a cell that has left the area by the far edge
/// of one axis and is inside on the other returns to 0 on the first and
/// keeps its coordinate on the other; a cell inside on both stays.
pub proof fn lemma_wrap_cell(c: CellState, width: int, height: int)
    ensures
        wrap_cell(c, width, height).x == wrap_axis(c.x, c.width, width),
        wrap_cell(c, width, height).y == wrap_axis(c.y, c.height, height),
        inside_axis(c.x, c.width, width) && inside_axis(c.y, c.height, height) ==> wrap_cell(
            c,
            width,
            height,
        ) == c,
        0 < c.width && c.x - c.width * UNIT >= width * UNIT && inside_axis(c.y, c.height, height)
            ==> wrap_cell(c, width, height).x == 0 && wrap_cell(c, width, height).y == c.y,
        0 < c.height && c.y - c.height * UNIT >= height * UNIT && inside_axis(
            c.x,
            c.width,
            width,
        ) ==> wrap_cell(c, width, height).y == 0 && wrap_cell(c, width, height).x == c.x,
{
}

/// When a cell divides, it is left with half its size, rounded down, and
/// its child, the new last cell, has the same; both are marked, and the
/// next id has moved on.
pub proof fn lemma_division_halves(d: Division, registry: Map<Seq<char>, Cells>, k: int)
    requires
        0 <= k < d.cells.len(),
        divides(d.cells[k], registry[d.cells[k].kind], d.split),
    ensures
        ({
            let r = divide_at(d, registry, k);
            let c = d.cells[k];
            &&& r.cells.len() == d.cells.len() + 1
            &&& r.cells[k] == parent(c, registry[c.kind].speed as int)
            &&& r.cells[k].width == c.width / 2
            &&& r.cells[k].height == c.height / 2
            &&& r.cells[k].id == c.id
            &&& r.cells.last() == child(c, d.next_id)
            &&& r.cells.last().width == c.width / 2
            &&& r.cells.last().height == c.height / 2
            &&& r.cells.last().kind == c.kind
            &&& r.cells.last().color == c.color
            &&& r.cells.last().id == d.next_id
            &&& r.next_id == d.next_id + 1
            &&& r.split.contains(c.id)
            &&& r.split.contains(d.next_id)
        }),
{
}

/// A cell that is marked does not divide when it is visited, and a mark
/// stays for the rest of the pass: so no cell divides twice in one tick,
/// and no child divides in the tick of its birth.
pub proof fn lemma_divides_once(d: Division, registry: Map<Seq<char>, Cells>, k: int, n: nat)
    ensures
        d.split.contains(d.cells[k].id) ==> divide_at(d, registry, k) == d,
        d.split.subset_of(divide_at(d, registry, k).split),
        d.split.subset_of(divide_upto(d, registry, n).split),
    decreases n,
{
    if n > 0 {
        lemma_divides_once(d, registry, k, (n - 1) as nat);
        let before = divide_upto(d, registry, (n - 1) as nat);
        lemma_divides_once(before, registry, n - 1, 0);
    }
}

/// A cell that has divided does not divide again in the same pass, however
/// often and wherever it is visited after that.
pub proof fn lemma_no_second_division(
    d: Division,
    registry: Map<Seq<char>, Cells>,
    k: int,
    n: nat,
    again: int,
)
    requires
        0 <= k < d.cells.len(),
        divides(d.cells[k], registry[d.cells[k].kind], d.split),
        divide_upto(divide_at(d, registry, k), registry, n).cells[again].id == d.cells[k].id,
    ensures
        divide_at(divide_upto(divide_at(d, registry, k), registry, n), registry, again)
            == divide_upto(divide_at(d, registry, k), registry, n),
{
    let first = divide_at(d, registry, k);
    lemma_division_halves(d, registry, k);
    lemma_divides_once(first, registry, again, n);
    let later = divide_upto(first, registry, n);
    assert(later.split.contains(d.cells[k].id));
    lemma_divides_once(later, registry, again, 0);
}

/// Where no cell is due, the division pass changes nothing.
pub proof fn lemma_no_division(d: Division, registry: Map<Seq<char>, Cells>, n: nat)
    requires
        n <= d.cells.len(),
        forall|k: int|
            0 <= k < n ==> (#[trigger] d.cells[k]).width <= registry[d.cells[k].kind].division,
    ensures
        divide_upto(d, registry, n) == d,
    decreases n,
{
    if n > 0 {
        lemma_no_division(d, registry, (n - 1) as nat);
        assert(d.cells[n - 1].width <= registry[d.cells[n - 1].kind].division);
    }
}

/// When two cells meet and merge, the one that is both wider and higher
/// has the size of both afterwards, and the other is inert.
pub proof fn lemma_absorption(
    cells: Seq<CellState>,
    prior: Seq<CellState>,
    t: Cells,
    width: int,
    height: int,
    i: int,
    j: int,
)
    requires
        0 <= i < cells.len(),
        0 <= j < cells.len(),
        0 <= j < prior.len(),
        cells[i].id != prior[j].id,
        !inert(cells[j]),
        overlapping(cells[i], prior[j].x, prior[j].y, cells[j].width, cells[j].height),
    ensures
        ({
            let r = pair_step(cells, prior, t, width, height, i, j);
            let a = cells[i];
            let b = cells[j];
            &&& a.width > b.width && a.height > b.height ==> r[i].width == a.width + b.width
                && r[i].height == a.height + b.height && inert(r[j])
            &&& a.width < b.width && a.height < b.height ==> r[j].width == b.width + a.width
                && r[j].height == b.height + a.height && inert(r[i])
            &&& !(a.width > b.width && a.height > b.height) && !(a.width < b.width && a.height
                < b.height) ==> r[i].width == a.width && r[i].height == a.height && r[j].width
                == b.width && r[j].height == b.height
        }),
{
    let merged = merge_at(cells, i, j);
    assert(merged.len() == cells.len());
}

/// One row of meetings keeps the population workable, the same cells and
/// of the same size in all.
pub proof fn lemma_row_upto(
    cells: Seq<CellState>,
    prior: Seq<CellState>,
    t: Cells,
    width: int,
    height: int,
    i: int,
    n: nat,
)
    requires
        0 <= i < cells.len(),
        n <= prior.len() <= cells.len(),
        workable(cells),
        0 <= width <= u32::MAX,
        0 <= height <= u32::MAX,
    ensures
        ({
            let r = row_upto(cells, prior, t, width, height, i, n);
            &&& same_cells(r, cells)
            &&& workable(r)
            &&& total(r, true) == total(cells, true)
            &&& total(r, false) == total(cells, false)
        }),
    decreases n,
{
    if n > 0 {
        lemma_row_upto(cells, prior, t, width, height, i, (n - 1) as nat);
        let before = row_upto(cells, prior, t, width, height, i, (n - 1) as nat);
        lemma_pair_step(before, prior, t, width, height, i, n - 1);
    }
}

/// The force pass keeps the population workable, the same cells and of
/// the same size in all.
pub proof fn lemma_rows_upto(
    cells: Seq<CellState>,
    prior: Seq<CellState>,
    registry: Map<Seq<char>, Cells>,
    width: int,
    height: int,
    m: nat,
)
    requires
        m <= cells.len(),
        prior.len() <= cells.len(),
        workable(cells),
        0 <= width <= u32::MAX,
        0 <= height <= u32::MAX,
    ensures
        ({
            let r = rows_upto(cells, prior, registry, width, height, m);
            &&& same_cells(r, cells)
            &&& workable(r)
            &&& total(r, true) == total(cells, true)
            &&& total(r, false) == total(cells, false)
        }),
    decreases m,
{
    if m > 0 {
        lemma_rows_upto(cells, prior, registry, width, height, (m - 1) as nat);
        let before = rows_upto(cells, prior, registry, width, height, (m - 1) as nat);
        let t = registry[before[m - 1].kind];
        if acts(t) {
            lemma_row_upto(before, prior, t, width, height, m - 1, prior.len());
        }
    }
}

/// A tick in which no cell is due to divide keeps the sum of the widths of
/// all cells, and the sum of their heights: merging moves size from cell to
/// cell and loses none. (Inert cells have no size, so the sums over the
/// cells that are not inert are kept as well.)
pub proof fn lemma_merges_conserve(
    w: World,
    registry: Map<Seq<char>, Cells>,
    width: int,
    height: int,
)
    requires
        sound(w.cells, w.next_id),
        0 <= width <= u32::MAX,
        0 <= height <= u32::MAX,
        forall|k: int|
            0 <= k < w.cells.len() ==> (#[trigger] w.cells[k]).width
                <= registry[w.cells[k].kind].division,
    ensures
        total(tick_of(w, registry, width, height).cells, true) == total(w.cells, true),
        total(tick_of(w, registry, width, height).cells, false) == total(w.cells, false),
        tick_of(w, registry, width, height).cells.len() == sweep(w.cells).len(),
        tick_of(w, registry, width, height).next_id == w.next_id,
{
    let prior = sweep(w.cells);
    lemma_sweep(w.cells);
    lemma_sweep_sound(w.cells, w.next_id, COORD_MAX as int);
    let start = Division { cells: prior, next_id: w.next_id, split: Set::empty() };
    assert forall|k: int| 0 <= k < prior.len() implies (#[trigger] start.cells[k]).width
        <= registry[start.cells[k].kind].division by {
        assert(w.cells.contains(prior[k]));
        let m = choose|m: int| 0 <= m < w.cells.len() && w.cells[m] == prior[k];
        assert(w.cells[m].width <= registry[w.cells[m].kind].division);
    }
    lemma_no_division(start, registry, prior.len());
    assert(workable(prior)) by {
        assert forall|k: int| 0 <= k < prior.len() implies -WORK_MAX <= (
        #[trigger] prior[k]).x <= WORK_MAX && -WORK_MAX <= prior[k].y
            <= WORK_MAX by {}
    }
    lemma_rows_upto(prior, prior, registry, width, height, prior.len());
    let moved = rows_upto(prior, prior, registry, width, height, prior.len());
    lemma_wrap_all(moved, width, height);
}

/// One meeting leaves every cell but the one that acts where it is, and
/// all cells what they are.
pub proof fn lemma_pair_moves_one(
    cells: Seq<CellState>,
    prior: Seq<CellState>,
    t: Cells,
    width: int,
    height: int,
    i: int,
    j: int,
)
    requires
        0 <= i < cells.len(),
        0 <= j < cells.len(),
    ensures
        ({
            let r = pair_step(cells, prior, t, width, height, i, j);
            &&& same_cells(r, cells)
            &&& forall|k: int|
                0 <= k < cells.len() && k != i ==> (#[trigger] r[k]).x == cells[k].x && r[k].y
                    == cells[k].y
        }),
{
    let merged = merge_at(cells, i, j);
    assert(merged.len() == cells.len());
    assert forall|k: int| 0 <= k < cells.len() implies (#[trigger] merged[k]).x == cells[k].x
        && merged[k].y == cells[k].y && merged[k].id == cells[k].id && merged[k].kind
        == cells[k].kind && merged[k].color == cells[k].color by {}
}

/// One row of meetings leaves every cell but the one that acts where it
/// is.
pub proof fn lemma_row_moves_one(
    cells: Seq<CellState>,
    prior: Seq<CellState>,
    t: Cells,
    width: int,
    height: int,
    i: int,
    n: nat,
)
    requires
        0 <= i < cells.len(),
        n <= cells.len(),
    ensures
        ({
            let r = row_upto(cells, prior, t, width, height, i, n);
            &&& same_cells(r, cells)
            &&& forall|k: int|
                0 <= k < cells.len() && k != i ==> (#[trigger] r[k]).x == cells[k].x && r[k].y
                    == cells[k].y
        }),
    decreases n,
{
    if n > 0 {
        lemma_row_moves_one(cells, prior, t, width, height, i, (n - 1) as nat);
        let before = row_upto(cells, prior, t, width, height, i, (n - 1) as nat);
        lemma_pair_moves_one(before, prior, t, width, height, i, n - 1);
        let r = row_upto(cells, prior, t, width, height, i, n);
        assert forall|k: int| 0 <= k < cells.len() && k != i implies (#[trigger] r[k]).x
            == cells[k].x && r[k].y == cells[k].y by {
            assert(before[k].x == cells[k].x);
        }
        assert forall|k: int| 0 <= k < cells.len() implies (#[trigger] r[k]).id == cells[k].id
            && r[k].kind == cells[k].kind && r[k].color == cells[k].color by {
            assert(before[k].id == cells[k].id);
        }
    }
}

/// A cell whose type has no rule is not moved by the force pass, whatever
/// the other cells do. (It may still merge with a cell that meets it.)
pub proof fn lemma_no_rule_no_move(
    cells: Seq<CellState>,
    prior: Seq<CellState>,
    registry: Map<Seq<char>, Cells>,
    width: int,
    height: int,
    m: nat,
    i: int,
)
    requires
        0 <= i < cells.len(),
        m <= cells.len(),
        prior.len() <= cells.len(),
        !acts(registry[cells[i].kind]),
    ensures
        same_cells(rows_upto(cells, prior, registry, width, height, m), cells),
        rows_upto(cells, prior, registry, width, height, m)[i].x == cells[i].x,
        rows_upto(cells, prior, registry, width, height, m)[i].y == cells[i].y,
    decreases m,
{
    if m > 0 {
        lemma_no_rule_no_move(cells, prior, registry, width, height, (m - 1) as nat, i);
        let before = rows_upto(cells, prior, registry, width, height, (m - 1) as nat);
        let t = registry[before[m - 1].kind];
        assert(before[i].kind == cells[i].kind);
        if acts(t) {
            lemma_row_moves_one(before, prior, t, width, height, m - 1, prior.len());
            let r = row_upto(before, prior, t, width, height, m - 1, prior.len());
            assert(r[i].x == before[i].x);
            assert forall|k: int| 0 <= k < cells.len() implies (#[trigger] r[k]).id == cells[k].id
                && r[k].kind == cells[k].kind && r[k].color == cells[k].color by {
                assert(before[k].id == cells[k].id);
            }
        }
    }
}

/// In a whole tick, a cell whose type has no rule and that is not due to
/// divide ends where wrapping alone takes it.
pub proof fn lemma_no_rule_tick(
    w: World,
    registry: Map<Seq<char>, Cells>,
    width: int,
    height: int,
    i: int,
)
    requires
        0 <= i < sweep(w.cells).len(),
        !acts(registry[sweep(w.cells)[i].kind]),
        forall|k: int|
            0 <= k < w.cells.len() ==> (#[trigger] w.cells[k]).width
                <= registry[w.cells[k].kind].division,
    ensures
        tick_of(w, registry, width, height).cells.len() == sweep(w.cells).len(),
        tick_of(w, registry, width, height).cells[i].x == wrap_axis(
            sweep(w.cells)[i].x,
            tick_of(w, registry, width, height).cells[i].width,
            width,
        ),
        tick_of(w, registry, width, height).cells[i].y == wrap_axis(
            sweep(w.cells)[i].y,
            tick_of(w, registry, width, height).cells[i].height,
            height,
        ),
{
    let prior = sweep(w.cells);
    lemma_sweep(w.cells);
    let start = Division { cells: prior, next_id: w.next_id, split: Set::empty() };
    assert forall|k: int| 0 <= k < prior.len() implies (#[trigger] start.cells[k]).width
        <= registry[start.cells[k].kind].division by {
        assert(w.cells.contains(prior[k]));
        let m = choose|m: int| 0 <= m < w.cells.len() && w.cells[m] == prior[k];
        assert(w.cells[m].width <= registry[w.cells[m].kind].division);
    }
    lemma_no_division(start, registry, prior.len());
    lemma_no_rule_no_move(prior, prior, registry, width, height, prior.len(), i);
}

} // verus!
