use crate::cell::{states, Cell, CellState};
use crate::config::Cells;
use crate::fixed::{
    displacement, distance, lemma_distance, lemma_pull_bounded, pull, COORD_MAX, SPLIT_FORCE, UNIT,
    WORK_MAX,
};
use crate::names::NameMap;
use crate::world::{
    known, lemma_pair_in_total, lemma_total_push, lemma_total_update, steady, total,
};
use vstd::prelude::*;

verus! {

/// A population in the course of the division pass of one tick.
pub ghost struct Division {
    /// The cells, the children born in this pass last.
    pub cells: Seq<CellState>,
    /// The id that the next child gets.
    pub next_id: int,
    /// The ids of the cells that took part in a division in this pass.
    pub split: Set<int>,
}

/// A cell divides once it is wider than its type allows, unless it has taken
/// part in a division in this pass already.
pub open spec fn divides(c: CellState, t: Cells, split: Set<int>) -> bool {
    c.width > t.division && !split.contains(c.id)
}

/// The child of a dividing cell: half its size, of its type and colour, at
/// its far corner.
pub open spec fn child(c: CellState, id: int) -> CellState {
    CellState {
        id,
        width: c.width / 2,
        height: c.height / 2,
        x: c.x + c.width * UNIT,
        y: c.y + c.height * UNIT,
        ..c
    }
}

/// A cell after it has divided: half its size, pushed away from its child.
pub open spec fn parent(c: CellState, speed: int) -> CellState {
    let dx = c.width * UNIT;
    let dy = c.height * UNIT;
    let dist = distance(dx, dy);
    CellState {
        width: c.width / 2,
        height: c.height / 2,
        x: c.x + pull(SPLIT_FORCE as int, speed, dx, dist),
        y: c.y + pull(SPLIT_FORCE as int, speed, dy, dist),
        ..c
    }
}

/// Visits the cell at place `k`: if it divides, it shrinks in place, its
/// child joins the population as its last cell, and both are marked.
pub open spec fn divide_at(d: Division, registry: Map<Seq<char>, Cells>, k: int) -> Division {
    let c = d.cells[k];
    let t = registry[c.kind];
    if divides(c, t, d.split) {
        Division {
            cells: d.cells.update(k, parent(c, t.speed as int)).push(child(c, d.next_id)),
            next_id: d.next_id + 1,
            split: d.split.insert(c.id).insert(d.next_id),
        }
    } else {
        d
    }
}

/// Visits the first `n` cells in turn.
pub open spec fn divide_upto(d: Division, registry: Map<Seq<char>, Cells>, n: nat) -> Division
    decreases n,
{
    if n == 0 {
        d
    } else {
        divide_at(divide_upto(d, registry, (n - 1) as nat), registry, n - 1)
    }
}

/// The ids that a list of marks holds.
pub open spec fn marks(ids: Seq<u32>) -> Set<int> {
    Set::new(|id: int| exists|i: int| 0 <= i < ids.len() && ids[i] as int == id)
}

/// One visit keeps the population steady, never adds to its size, adds at
/// most one cell and leaves every other cell as it was.
pub proof fn lemma_divide_at(d: Division, registry: Map<Seq<char>, Cells>, k: int)
    requires
        0 <= k < d.cells.len(),
        steady(d.cells, d.next_id, WORK_MAX as int),
        -COORD_MAX <= d.cells[k].x <= COORD_MAX,
        -COORD_MAX <= d.cells[k].y <= COORD_MAX,
    ensures
        ({
            let r = divide_at(d, registry, k);
            &&& steady(r.cells, r.next_id, WORK_MAX as int)
            &&& total(r.cells, true) <= total(d.cells, true)
            &&& total(r.cells, false) <= total(d.cells, false)
            &&& d.cells.len() <= r.cells.len() <= d.cells.len() + 1
            &&& r.next_id == d.next_id + r.cells.len() - d.cells.len()
            &&& forall|m: int|
                0 <= m < d.cells.len() && m != k ==> (#[trigger] r.cells[m]) == d.cells[m]
            &&& r.cells[k].id == d.cells[k].id
            &&& r.cells[k].kind == d.cells[k].kind
            &&& (known(d.cells, registry) ==> known(r.cells, registry))
        }),
{
    let c = d.cells[k];
    let t = registry[c.kind];
    let r = divide_at(d, registry, k);
    if divides(c, t, d.split) {
        let speed = t.speed as int;
        let p = parent(c, speed);
        let ch = child(c, d.next_id);
        let mid = d.cells.update(k, p);
        lemma_total_update(d.cells, k, p, true);
        lemma_total_update(d.cells, k, p, false);
        lemma_total_push(mid, ch, true);
        lemma_total_push(mid, ch, false);
        if d.cells.len() > 1 {
            let other = if k == 0 {
                1int
            } else {
                0int
            };
            lemma_pair_in_total(d.cells, k, other, true);
            lemma_pair_in_total(d.cells, k, other, false);
        } else {
            assert(d.cells.drop_last() =~= Seq::<CellState>::empty());
            assert(total(d.cells.drop_last(), true) == 0);
            assert(total(d.cells.drop_last(), false) == 0);
        }
        assert(0 <= c.width <= u32::MAX && 0 <= c.height <= u32::MAX);
        let dx = c.width * UNIT;
        let dy = c.height * UNIT;
        lemma_distance(dx, dy);
        lemma_pull_bounded(SPLIT_FORCE as int, speed, dx, distance(dx, dy));
        lemma_pull_bounded(SPLIT_FORCE as int, speed, dy, distance(dx, dy));
        assert forall|m: int| 0 <= m < r.cells.len() implies 0 <= (#[trigger] r.cells[m]).width
            && 0 <= r.cells[m].height && 0 <= r.cells[m].id < r.next_id && -WORK_MAX
            <= r.cells[m].x <= WORK_MAX && -WORK_MAX <= r.cells[m].y <= WORK_MAX by {
            if m != k && m < d.cells.len() {
                assert(r.cells[m] == d.cells[m]);
            }
        }
        assert forall|i: int, j: int| 0 <= i < j < r.cells.len() implies (#[trigger] r.cells[i]).id
            != (#[trigger] r.cells[j]).id by {
            if j < d.cells.len() {
                assert(r.cells[i].id == d.cells[i].id);
                assert(r.cells[j].id == d.cells[j].id);
            } else {
                assert(r.cells[i].id == d.cells[i].id);
            }
        }
        if known(d.cells, registry) {
            assert forall|m: int| 0 <= m < r.cells.len() implies registry.contains_key(
                (#[trigger] r.cells[m]).kind,
            ) by {
                if m < d.cells.len() {
                    assert(r.cells[m].kind == d.cells[m].kind);
                } else {
                    assert(r.cells[m].kind == d.cells[k].kind);
                }
            }
        }
    }
}

fn marked(ids: &Vec<u32>, id: u32) -> (r: bool)
    ensures
        r == marks(ids@).contains(id as int),
{
    let mut i: usize = 0;
    while i < ids.len()
        invariant
            i <= ids@.len(),
            forall|j: int| 0 <= j < i ==> ids@[j] != id,
        decreases ids@.len() - i,
    {
        if ids[i] == id {
            return true;
        }
        i = i + 1;
    }
    false
}

/// Lets every cell of the population that is due divide once: the first
/// `count` cells are visited in turn, and the children join at the end.
/// Returns the id that the next new cell gets.
pub fn divide_pass(
    cells: &mut Vec<Cell>,
    config: &NameMap<Cells>,
    next_id: u32,
    count: usize,
) -> (next: u32)
    requires
        count == old(cells)@.len(),
        steady(states(old(cells)@), next_id as int, COORD_MAX as int),
        known(states(old(cells)@), config@),
        next_id + count <= u32::MAX,
    ensures
        ({
            let start = Division {
                cells: states(old(cells)@),
                next_id: next_id as int,
                split: Set::empty(),
            };
            let d = divide_upto(start, config@, count as nat);
            states(final(cells)@) == d.cells && next == d.next_id
        }),
        steady(states(final(cells)@), next as int, WORK_MAX as int),
        known(states(final(cells)@), config@),
        count <= final(cells)@.len(),
        next == next_id + final(cells)@.len() - count,
        total(states(final(cells)@), true) <= total(states(old(cells)@), true),
        total(states(final(cells)@), false) <= total(states(old(cells)@), false),
{
    let ghost start = Division {
        cells: states(cells@),
        next_id: next_id as int,
        split: Set::empty(),
    };
    let mut next: u32 = next_id;
    let mut splits: Vec<u32> = Vec::new();
    let mut k: usize = 0;
    assert(marks(splits@) =~= Set::<int>::empty());
    while k < count
        invariant
            k <= count,
            count == start.cells.len(),
            count <= cells@.len() <= count + k,
            next_id + count <= u32::MAX,
            next == next_id + cells@.len() - count,
            divide_upto(start, config@, k as nat) == (Division {
                cells: states(cells@),
                next_id: next as int,
                split: marks(splits@),
            }),
            steady(states(cells@), next as int, WORK_MAX as int),
            known(states(cells@), config@),
            steady(start.cells, next_id as int, COORD_MAX as int),
            forall|m: int| k <= m < count ==> (#[trigger] states(cells@)[m]) == start.cells[m],
            total(states(cells@), true) <= total(start.cells, true),
            total(states(cells@), false) <= total(start.cells, false),
        decreases count - k,
    {
        let ghost before = Division {
            cells: states(cells@),
            next_id: next as int,
            split: marks(splits@),
        };
        let c = cells[k];
        proof {
            assert(states(cells@)[k as int] == start.cells[k as int]);
            assert(c@ == before.cells[k as int]);
            assert(-COORD_MAX <= start.cells[k as int].x <= COORD_MAX);
            assert(-COORD_MAX <= start.cells[k as int].y <= COORD_MAX);
            lemma_divide_at(before, config@, k as int);
            assert(config@.contains_key(before.cells[k as int].kind));
        }
        match config.get(c.cell_type) {
            Some(t) => {
                if c.size.0 > t.division && !marked(&splits, c.id) {
                    let dx: i64 = (c.size.0 as i64) * UNIT;
                    let dy: i64 = (c.size.1 as i64) * UNIT;
                    let push = displacement(SPLIT_FORCE, t.speed, dx, dy);
                    let kid = Cell {
                        id: next,
                        cell_type: c.cell_type,
                        color: c.color,
                        size: (c.size.0 / 2, c.size.1 / 2),
                        x: c.x + dx,
                        y: c.y + dy,
                    };
                    let shrunk = Cell {
                        id: c.id,
                        cell_type: c.cell_type,
                        color: c.color,
                        size: (c.size.0 / 2, c.size.1 / 2),
                        x: c.x + push.0,
                        y: c.y + push.1,
                    };
                    let ghost old_marks = splits@;
                    cells.set(k, shrunk);
                    cells.push(kid);
                    splits.push(c.id);
                    splits.push(next);
                    proof {
                        let after = divide_at(before, config@, k as int);
                        assert(states(cells@) =~= after.cells);
                        assert(marks(splits@) =~= after.split) by {
                            assert forall|id: int| after.split.contains(id) implies marks(
                                splits@,
                            ).contains(id) by {
                                if id == c.id as int {
                                    assert(splits@[old_marks.len() as int] as int == id);
                                } else if id == next as int {
                                    assert(splits@[old_marks.len() as int + 1] as int == id);
                                } else {
                                    let i = choose|i: int|
                                        0 <= i < old_marks.len() && old_marks[i] as int == id;
                                    assert(splits@[i] as int == id);
                                }
                            }
                            assert forall|id: int| marks(splits@).contains(
                                id,
                            ) implies after.split.contains(id) by {
                                let i = choose|i: int|
                                    0 <= i < splits@.len() && splits@[i] as int == id;
                                if i < old_marks.len() {
                                    assert(old_marks[i] as int == id);
                                }
                            }
                        }
                    }
                    next = next + 1;
                }
            },
            None => {},
        }
        k = k + 1;
    }
    next
}

} // verus!
