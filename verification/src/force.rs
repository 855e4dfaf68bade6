use crate::cell::{states, Cell, CellState};
use crate::config::Cells;
use crate::fixed::{
    displacement, distance, lemma_wrap_bounded, pull, wrap, wrap_axis, COORD_MAX, UNIT, WORK_MAX,
};
use crate::names::NameMap;
use crate::world::{
    inert, known, lemma_pair_in_total, lemma_total_update, same_cells, sized, total, within,
};
use vstd::prelude::*;

verus! {

/// Whether the box of `a` and a box of size `(bw, bh)` at `(bx, by)` touch.
/// A box reaches from a cell's coordinates, its top left corner, as far as
/// its size.
pub open spec fn overlapping(a: CellState, bx: int, by: int, bw: int, bh: int) -> bool {
    &&& a.x + a.width * UNIT >= bx
    &&& a.x <= bx + bw * UNIT
    &&& a.y + a.height * UNIT >= by
    &&& a.y <= by + bh * UNIT
}

/// The cell `c` with another size.
pub open spec fn resized(c: CellState, width: int, height: int) -> CellState {
    CellState { width, height, ..c }
}

/// The cells at `i` and `j` meet: the one that is both wider and higher
/// takes the size of the other, which becomes inert. Where neither is, both
/// stay as they are.
pub open spec fn merge_at(cells: Seq<CellState>, i: int, j: int) -> Seq<CellState> {
    let a = cells[i];
    let b = cells[j];
    if a.width > b.width && a.height > b.height {
        cells.update(i, resized(a, a.width + b.width, a.height + b.height)).update(
            j,
            resized(b, 0, 0),
        )
    } else if a.width < b.width && a.height < b.height {
        cells.update(j, resized(b, b.width + a.width, b.height + a.height)).update(
            i,
            resized(a, 0, 0),
        )
    } else {
        cells
    }
}

/// The cell `a` after it was drawn toward the point `(bx, by)` with the
/// given acceleration and speed, and wrapped into an area of the given
/// width and height.
pub open spec fn attract(
    a: CellState,
    accel: int,
    speed: int,
    bx: int,
    by: int,
    width: int,
    height: int,
) -> CellState {
    let dx = bx - a.x;
    let dy = by - a.y;
    let dist = distance(dx, dy);
    CellState {
        x: wrap_axis(a.x + pull(accel, speed, dx, dist), a.width, width),
        y: wrap_axis(a.y + pull(accel, speed, dy, dist), a.height, height),
        ..a
    }
}

/// The cell at `i`, of type `t`, meets the cell at `j`. Of the second the
/// meeting reads the place that it had when the tick began (`prior`), and
/// the size that it has now: sizes are kept in the population alone, so
/// that what one cell gains another loses. Nothing happens if the two are
/// one cell or the second is inert. Otherwise they merge if their boxes
/// touch, and then the first is drawn toward the second if its type has a
/// rule for the type of the second, and wrapped into the area.
pub open spec fn pair_step(
    cells: Seq<CellState>,
    prior: Seq<CellState>,
    t: Cells,
    width: int,
    height: int,
    i: int,
    j: int,
) -> Seq<CellState> {
    let a = cells[i];
    let b = cells[j];
    let p = prior[j];
    if a.id == p.id || inert(b) {
        cells
    } else {
        let merged = if overlapping(a, p.x, p.y, b.width, b.height) {
            merge_at(cells, i, j)
        } else {
            cells
        };
        if t.rules@.contains_key(p.kind) {
            merged.update(
                i,
                attract(
                    merged[i],
                    t.rules@[p.kind] as int,
                    t.speed as int,
                    p.x,
                    p.y,
                    width,
                    height,
                ),
            )
        } else {
            merged
        }
    }
}

/// The cell at `i` meets the first `n` cells of `prior` in turn.
pub open spec fn row_upto(
    cells: Seq<CellState>,
    prior: Seq<CellState>,
    t: Cells,
    width: int,
    height: int,
    i: int,
    n: nat,
) -> Seq<CellState>
    decreases n,
{
    if n == 0 {
        cells
    } else {
        pair_step(
            row_upto(cells, prior, t, width, height, i, (n - 1) as nat),
            prior,
            t,
            width,
            height,
            i,
            n - 1,
        )
    }
}

/// A type acts when it has at least one rule.
pub open spec fn acts(t: Cells) -> bool {
    t.rules@ != Map::<Seq<char>, i32>::empty()
}

/// Each of the first `m` cells, in turn, meets every cell of `prior`,
/// unless its type has no rule.
pub open spec fn rows_upto(
    cells: Seq<CellState>,
    prior: Seq<CellState>,
    registry: Map<Seq<char>, Cells>,
    width: int,
    height: int,
    m: nat,
) -> Seq<CellState>
    decreases m,
{
    if m == 0 {
        cells
    } else {
        let before = rows_upto(cells, prior, registry, width, height, (m - 1) as nat);
        let t = registry[before[m - 1].kind];
        if acts(t) {
            row_upto(before, prior, t, width, height, m - 1, prior.len())
        } else {
            before
        }
    }
}

/// What the force pass needs of a population and keeps: natural sizes
/// whose sums fit the machine, and coordinates within working reach.
pub open spec fn workable(cells: Seq<CellState>) -> bool {
    &&& sized(cells)
    &&& total(cells, true) <= u32::MAX
    &&& total(cells, false) <= u32::MAX
    &&& within(cells, WORK_MAX as int)
}

/// A merge moves size from one cell to another: the sums stay.
pub proof fn lemma_merge_at(cells: Seq<CellState>, i: int, j: int)
    requires
        0 <= i < cells.len(),
        0 <= j < cells.len(),
        sized(cells),
    ensures
        ({
            let r = merge_at(cells, i, j);
            &&& same_cells(r, cells)
            &&& sized(r)
            &&& total(r, true) == total(cells, true)
            &&& total(r, false) == total(cells, false)
            &&& forall|k: int|
                0 <= k < cells.len() ==> (#[trigger] r[k]).x == cells[k].x && r[k].y == cells[k].y
            &&& forall|k: int|
                0 <= k < cells.len() && k != i && k != j ==> (#[trigger] r[k]) == cells[k]
        }),
{
    let a = cells[i];
    let b = cells[j];
    assert(0 <= a.width && 0 <= a.height && 0 <= b.width && 0 <= b.height);
    if a.width > b.width && a.height > b.height {
        let a2 = resized(a, a.width + b.width, a.height + b.height);
        let b2 = resized(b, 0, 0);
        let mid = cells.update(i, a2);
        lemma_total_update(cells, i, a2, true);
        lemma_total_update(cells, i, a2, false);
        lemma_total_update(mid, j, b2, true);
        lemma_total_update(mid, j, b2, false);
        let r = mid.update(j, b2);
        assert forall|k: int| 0 <= k < r.len() implies 0 <= (#[trigger] r[k]).width && 0
            <= r[k].height by {
            if k != i && k != j {
                assert(r[k] == cells[k]);
            }
        }
    } else if a.width < b.width && a.height < b.height {
        let b2 = resized(b, b.width + a.width, b.height + a.height);
        let a2 = resized(a, 0, 0);
        let mid = cells.update(j, b2);
        lemma_total_update(cells, j, b2, true);
        lemma_total_update(cells, j, b2, false);
        lemma_total_update(mid, i, a2, true);
        lemma_total_update(mid, i, a2, false);
        let r = mid.update(i, a2);
        assert forall|k: int| 0 <= k < r.len() implies 0 <= (#[trigger] r[k]).width && 0
            <= r[k].height by {
            if k != i && k != j {
                assert(r[k] == cells[k]);
            }
        }
    }
}

/// One meeting keeps the population workable, the same cells and of the
/// same size in all, and moves no cell but the one that acts.
pub proof fn lemma_pair_step(
    cells: Seq<CellState>,
    prior: Seq<CellState>,
    t: Cells,
    width: int,
    height: int,
    i: int,
    j: int,
)
    requires
        0 <= i < cells.len(),
        0 <= j < prior.len(),
        j < cells.len(),
        workable(cells),
        0 <= width <= u32::MAX,
        0 <= height <= u32::MAX,
    ensures
        ({
            let r = pair_step(cells, prior, t, width, height, i, j);
            &&& same_cells(r, cells)
            &&& workable(r)
            &&& total(r, true) == total(cells, true)
            &&& total(r, false) == total(cells, false)
            &&& forall|k: int|
                0 <= k < cells.len() && k != i ==> (#[trigger] r[k]).x == cells[k].x && r[k].y
                    == cells[k].y
            &&& forall|k: int|
                0 <= k < cells.len() && k != i && k != j ==> (#[trigger] r[k]) == cells[k]
        }),
{
    let a = cells[i];
    let b = cells[j];
    let p = prior[j];
    if !(a.id == p.id || inert(b)) {
        lemma_merge_at(cells, i, j);
        let merged = if overlapping(a, p.x, p.y, b.width, b.height) {
            merge_at(cells, i, j)
        } else {
            cells
        };
        assert(within(merged, WORK_MAX as int)) by {
            assert forall|k: int| 0 <= k < merged.len() implies -WORK_MAX <= (
            #[trigger] merged[k]).x <= WORK_MAX && -WORK_MAX <= merged[k].y <= WORK_MAX by {
                assert(merged[k].x == cells[k].x);
                assert(merged[k].y == cells[k].y);
            }
        }
        if t.rules@.contains_key(p.kind) {
            let moved = attract(
                merged[i],
                t.rules@[p.kind] as int,
                t.speed as int,
                p.x,
                p.y,
                width,
                height,
            );
            let r = merged.update(i, moved);
            lemma_total_update(merged, i, moved, true);
            lemma_total_update(merged, i, moved, false);
            lemma_size_fits(merged, i);
            let dx = p.x - merged[i].x;
            let dy = p.y - merged[i].y;
            let dist = distance(dx, dy);
            lemma_wrap_bounded(
                merged[i].x + pull(t.rules@[p.kind] as int, t.speed as int, dx, dist),
                merged[i].width,
                width,
            );
            lemma_wrap_bounded(
                merged[i].y + pull(t.rules@[p.kind] as int, t.speed as int, dy, dist),
                merged[i].height,
                height,
            );
            assert forall|k: int| 0 <= k < r.len() implies 0 <= (#[trigger] r[k]).width && 0
                <= r[k].height && -WORK_MAX <= r[k].x <= WORK_MAX && -WORK_MAX <= r[k].y
                <= WORK_MAX by {
                if k != i {
                    assert(r[k] == merged[k]);
                }
            }
            assert forall|k: int| 0 <= k < cells.len() && k != i implies (#[trigger] r[k]).x
                == cells[k].x && r[k].y == cells[k].y by {
                assert(r[k] == merged[k]);
            }
            assert forall|k: int| 0 <= k < cells.len() && k != i && k != j implies (
            #[trigger] r[k]) == cells[k] by {
                assert(r[k] == merged[k]);
            }
            assert(same_cells(r, cells)) by {
                assert forall|k: int| 0 <= k < cells.len() implies (#[trigger] r[k]).id
                    == cells[k].id && r[k].kind == cells[k].kind && r[k].color
                    == cells[k].color by {
                    if k != i {
                        assert(r[k] == merged[k]);
                    }
                    assert(merged[k].id == cells[k].id);
                }
            }
        }
    }
}

/// No cell is larger than the machine's numbers.
pub proof fn lemma_size_fits(cells: Seq<CellState>, i: int)
    requires
        0 <= i < cells.len(),
        sized(cells),
        total(cells, true) <= u32::MAX,
        total(cells, false) <= u32::MAX,
    ensures
        0 <= cells[i].width <= u32::MAX,
        0 <= cells[i].height <= u32::MAX,
{
    if cells.len() > 1 {
        let other = if i == 0 {
            1int
        } else {
            0int
        };
        lemma_pair_in_total(cells, i, other, true);
        lemma_pair_in_total(cells, i, other, false);
    } else {
        assert(cells.drop_last() =~= Seq::<CellState>::empty());
        assert(total(cells.drop_last(), true) == 0);
        assert(total(cells.drop_last(), false) == 0);
        assert(cells.last() == cells[i]);
    }
}

/// Lets the cell at `i`, of type `t`, meet the cell at `j`; see
/// [`pair_step`].
pub fn pair(
    cells: &mut Vec<Cell>,
    prior: &Vec<Cell>,
    t: &Cells,
    width: u32,
    height: u32,
    i: usize,
    j: usize,
)
    requires
        i < old(cells)@.len(),
        j < prior@.len(),
        j < old(cells)@.len(),
        workable(states(old(cells)@)),
        within(states(prior@), COORD_MAX as int),
    ensures
        states(final(cells)@) == pair_step(
            states(old(cells)@),
            states(prior@),
            *t,
            width as int,
            height as int,
            i as int,
            j as int,
        ),
        workable(states(final(cells)@)),
        same_cells(states(final(cells)@), states(old(cells)@)),
        total(states(final(cells)@), true) == total(states(old(cells)@), true),
        total(states(final(cells)@), false) == total(states(old(cells)@), false),
{
    let ghost before = states(cells@);
    let ghost was = states(prior@);
    proof {
        lemma_pair_step(before, was, *t, width as int, height as int, i as int, j as int);
        lemma_merge_at(before, i as int, j as int);
        lemma_size_fits(before, i as int);
        lemma_size_fits(before, j as int);
        assert(before[i as int] == cells@[i as int]@);
        assert(before[j as int] == cells@[j as int]@);
        assert(was[j as int] == prior@[j as int]@);
    }
    let mut a = cells[i];
    let b = cells[j];
    let p = prior[j];
    if a.id == p.id || (b.size.0 == 0 && b.size.1 == 0) {
        return ;
    }
    let aw: i64 = (a.size.0 as i64) * UNIT;
    let ah: i64 = (a.size.1 as i64) * UNIT;
    let bw: i64 = (b.size.0 as i64) * UNIT;
    let bh: i64 = (b.size.1 as i64) * UNIT;
    if a.x + aw >= p.x && a.x <= p.x + bw && a.y + ah >= p.y && a.y <= p.y + bh {
        if a.size.0 > b.size.0 && a.size.1 > b.size.1 {
            proof {
                lemma_pair_in_total(before, i as int, j as int, true);
                lemma_pair_in_total(before, i as int, j as int, false);
            }
            a.size = (a.size.0 + b.size.0, a.size.1 + b.size.1);
            let mut gone = b;
            gone.size = (0, 0);
            cells.set(i, a);
            cells.set(j, gone);
            assert(states(cells@) =~= merge_at(before, i as int, j as int));
        } else if a.size.0 < b.size.0 && a.size.1 < b.size.1 {
            proof {
                lemma_pair_in_total(before, i as int, j as int, true);
                lemma_pair_in_total(before, i as int, j as int, false);
            }
            let mut grown = b;
            grown.size = (b.size.0 + a.size.0, b.size.1 + a.size.1);
            a.size = (0, 0);
            cells.set(j, grown);
            cells.set(i, a);
            assert(states(cells@) =~= merge_at(before, i as int, j as int));
        }
    }
    let ghost merged = states(cells@);
    assert(merged[i as int] == a@);
    match t.rules.get(p.cell_type) {
        Some(accel) => {
            let d = displacement(*accel, t.speed, p.x - a.x, p.y - a.y);
            a.x = wrap(a.x + d.0, a.size.0, width);
            a.y = wrap(a.y + d.1, a.size.1, height);
            cells.set(i, a);
            assert(states(cells@) =~= merged.update(i as int, a@));
        },
        None => {},
    }
}

/// Lets every cell whose type has a rule meet, in turn, every cell of
/// `prior`, the population as it was when the tick began; see
/// [`rows_upto`].
pub fn force_pass(
    cells: &mut Vec<Cell>,
    prior: &Vec<Cell>,
    config: &NameMap<Cells>,
    width: u32,
    height: u32,
)
    requires
        prior@.len() <= old(cells)@.len(),
        workable(states(old(cells)@)),
        within(states(prior@), COORD_MAX as int),
        known(states(old(cells)@), config@),
    ensures
        states(final(cells)@) == rows_upto(
            states(old(cells)@),
            states(prior@),
            config@,
            width as int,
            height as int,
            old(cells)@.len(),
        ),
        workable(states(final(cells)@)),
        same_cells(states(final(cells)@), states(old(cells)@)),
        total(states(final(cells)@), true) == total(states(old(cells)@), true),
        total(states(final(cells)@), false) == total(states(old(cells)@), false),
{
    let ghost start = states(cells@);
    let ghost was = states(prior@);
    let count = cells.len();
    let mut i: usize = 0;
    while i < count
        invariant
            i <= count,
            count == cells@.len(),
            count == start.len(),
            prior@.len() <= count,
            was == states(prior@),
            states(cells@) == rows_upto(start, was, config@, width as int, height as int, i as nat),
            workable(states(cells@)),
            within(was, COORD_MAX as int),
            known(start, config@),
            same_cells(states(cells@), start),
            total(states(cells@), true) == total(start, true),
            total(states(cells@), false) == total(start, false),
        decreases count - i,
    {
        let ghost row = states(cells@);
        let kind = cells[i].cell_type;
        assert(row[i as int] == cells@[i as int]@);
        assert(config@.contains_key(start[i as int].kind));
        match config.get(kind) {
            Some(t) => {
                if !t.rules.is_empty() {
                    let mut j: usize = 0;
                    while j < prior.len()
                        invariant
                            j <= prior@.len(),
                            i < count,
                            count == cells@.len(),
                            count == row.len(),
                            prior@.len() <= count,
                            was == states(prior@),
                            states(cells@) == row_upto(
                                row,
                                was,
                                *t,
                                width as int,
                                height as int,
                                i as int,
                                j as nat,
                            ),
                            workable(states(cells@)),
                            within(was, COORD_MAX as int),
                            same_cells(states(cells@), row),
                            total(states(cells@), true) == total(row, true),
                            total(states(cells@), false) == total(row, false),
                        decreases prior@.len() - j,
                    {
                        pair(cells, prior, t, width, height, i, j);
                        j = j + 1;
                    }
                }
            },
            None => {},
        }
        i = i + 1;
    }
}

} // verus!
