use crate::cell::{states, Cell, CellState};
use crate::config::Cells;
use crate::divide::{divide_pass, divide_upto, Division};
use crate::fixed::{lemma_wrap_bounded, wrap, wrap_axis, COORD_MAX};
use crate::force::{force_pass, lemma_size_fits, rows_upto};
use crate::names::NameMap;
use crate::spawn::{census, spawn, spawn_error, spawned, tally, Measure, SpawnError};
use crate::world::{
    known, lemma_same_cells, lemma_sweep, lemma_sweep_sound, lemma_total_push, lemma_total_same,
    same_cells, sized, sound, sweep, total, within,
};
use vstd::prelude::*;

verus! {

/// Why a tick was not made.
#[derive(Clone, Copy, Debug, PartialEq, Eq)]
pub enum TickError {
    /// A cell is of a type that the registry does not hold.
    UnknownType,
}

/// The cell `c` with both coordinates wrapped into an area of the given
/// width and height.
pub open spec fn wrap_cell(c: CellState, width: int, height: int) -> CellState {
    CellState {
        x: wrap_axis(c.x, c.width, width),
        y: wrap_axis(c.y, c.height, height),
        ..c
    }
}

/// Every cell wrapped into the area.
pub open spec fn wrap_all(cells: Seq<CellState>, width: int, height: int) -> Seq<CellState> {
    Seq::new(cells.len(), |i: int| wrap_cell(cells[i], width, height))
}

/// A population with the id that its next new cell gets.
pub ghost struct World {
    pub cells: Seq<CellState>,
    pub next_id: int,
}

/// One tick. The inert cells leave; what remains is the state that the
/// tick reads. Then every cell that is due divides, every cell whose type
/// has rules meets each cell of that state, and all are wrapped into the
/// area.
pub open spec fn tick_of(
    w: World,
    registry: Map<Seq<char>, Cells>,
    width: int,
    height: int,
) -> World {
    let prior = sweep(w.cells);
    let start = Division { cells: prior, next_id: w.next_id, split: Set::empty() };
    let d = divide_upto(start, registry, prior.len());
    let moved = rows_upto(d.cells, prior, registry, width, height, d.cells.len());
    World { cells: wrap_all(moved, width, height), next_id: d.next_id }
}

/// The simulation: the registry of cell types and the population.
pub struct GoL {
    config: NameMap<Cells>,
    cells: Vec<Cell>,
    next_id: u32,
}

impl View for GoL {
    type V = World;

    closed spec fn view(&self) -> World {
        World { cells: states(self.cells@), next_id: self.next_id as int }
    }
}

/// Copies a population.
pub fn snapshot(cells: &Vec<Cell>) -> (copy: Vec<Cell>)
    ensures
        copy@ == cells@,
{
    let mut copy: Vec<Cell> = Vec::new();
    let mut i: usize = 0;
    while i < cells.len()
        invariant
            i <= cells@.len(),
            copy@ == cells@.take(i as int),
        decreases cells@.len() - i,
    {
        copy.push(cells[i]);
        assert(copy@ =~= cells@.take(i + 1));
        i = i + 1;
    }
    assert(cells@.take(cells@.len() as int) =~= cells@);
    copy
}

/// The cells that are not inert, in their order.
pub fn live(cells: &Vec<Cell>) -> (kept: Vec<Cell>)
    ensures
        states(kept@) == sweep(states(cells@)),
{
    let mut kept: Vec<Cell> = Vec::new();
    let mut i: usize = 0;
    assert(states(cells@).take(0) =~= Seq::<CellState>::empty());
    assert(states(kept@) =~= Seq::<CellState>::empty());
    while i < cells.len()
        invariant
            i <= cells@.len(),
            states(kept@) == sweep(states(cells@).take(i as int)),
        decreases cells@.len() - i,
    {
        let c = cells[i];
        let ghost upto = states(cells@).take(i + 1);
        assert(upto.drop_last() =~= states(cells@).take(i as int));
        assert(upto.last() == c@);
        if !(c.size.0 == 0 && c.size.1 == 0) {
            kept.push(c);
            assert(states(kept@) =~= sweep(upto.drop_last()).push(c@));
        }
        i = i + 1;
    }
    assert(states(cells@).take(cells@.len() as int) =~= states(cells@));
    kept
}

/// Whether every cell is of a type that the registry holds.
pub fn all_known(cells: &Vec<Cell>, config: &NameMap<Cells>) -> (r: bool)
    ensures
        r == known(states(cells@), config@),
{
    let mut i: usize = 0;
    while i < cells.len()
        invariant
            i <= cells@.len(),
            forall|k: int| 0 <= k < i ==> config@.contains_key((#[trigger] states(cells@)[k]).kind),
        decreases cells@.len() - i,
    {
        if !config.contains_key(cells[i].cell_type) {
            assert(!config@.contains_key(states(cells@)[i as int].kind));
            return false;
        }
        i = i + 1;
    }
    true
}

/// Wraps every cell into the area.
pub fn wrap_pass(cells: &mut Vec<Cell>, width: u32, height: u32)
    ensures
        states(final(cells)@) == wrap_all(states(old(cells)@), width as int, height as int),
{
    let ghost start = states(cells@);
    let mut i: usize = 0;
    while i < cells.len()
        invariant
            i <= cells@.len(),
            cells@.len() == start.len(),
            forall|k: int|
                0 <= k < i ==> (#[trigger] states(cells@)[k]) == wrap_cell(
                    start[k],
                    width as int,
                    height as int,
                ),
            forall|k: int| i <= k < start.len() ==> (#[trigger] states(cells@)[k]) == start[k],
        decreases cells@.len() - i,
    {
        let ghost before = states(cells@);
        let mut c = cells[i];
        assert(c@ == before[i as int]);
        c.x = wrap(c.x, c.size.0, width);
        c.y = wrap(c.y, c.size.1, height);
        cells.set(i, c);
        assert forall|k: int| 0 <= k < start.len() && k != i implies (#[trigger] states(
            cells@,
        )[k]) == before[k] by {}
        i = i + 1;
    }
    assert(states(cells@) =~= wrap_all(start, width as int, height as int));
}

/// Wrapping keeps the cells and their sizes, and brings every coordinate to
/// rest.
pub proof fn lemma_wrap_all(cells: Seq<CellState>, width: int, height: int)
    requires
        sized(cells),
        total(cells, true) <= u32::MAX,
        total(cells, false) <= u32::MAX,
        0 <= width <= u32::MAX,
        0 <= height <= u32::MAX,
    ensures
        same_cells(wrap_all(cells, width, height), cells),
        sized(wrap_all(cells, width, height)),
        total(wrap_all(cells, width, height), true) == total(cells, true),
        total(wrap_all(cells, width, height), false) == total(cells, false),
        within(wrap_all(cells, width, height), COORD_MAX as int),
{
    let r = wrap_all(cells, width, height);
    lemma_total_same(r, cells, true);
    lemma_total_same(r, cells, false);
    assert forall|k: int| 0 <= k < r.len() implies -COORD_MAX <= (#[trigger] r[k]).x <= COORD_MAX
        && -COORD_MAX <= r[k].y <= COORD_MAX && 0 <= r[k].width && 0 <= r[k].height by {
        lemma_size_fits(cells, k);
        lemma_wrap_bounded(cells[k].x, cells[k].width, width);
        lemma_wrap_bounded(cells[k].y, cells[k].height, height);
    }
}

/// The sum of the widths of all cells, or of their heights.
pub fn total_size(cells: &Vec<Cell>, wide: bool) -> (sum: u128)
    ensures
        sum == total(states(cells@), wide),
{
    let ghost all = states(cells@);
    let mut sum: u128 = 0;
    let mut i: usize = 0;
    proof {
        assert(all.take(0) =~= Seq::<CellState>::empty());
    }
    while i < cells.len()
        invariant
            i <= cells@.len(),
            all == states(cells@),
            sum == total(all.take(i as int), wide),
            sum <= i * 0xffff_ffff,
        decreases cells@.len() - i,
    {
        let c = cells[i];
        proof {
            assert(all.take(i + 1).drop_last() =~= all.take(i as int));
            assert(all.take(i + 1).last() == c@);
        }
        let size: u32 = if wide {
            c.size.0
        } else {
            c.size.1
        };
        sum = sum + (size as u128);
        i = i + 1;
    }
    proof {
        assert(all.take(all.len() as int) =~= all);
    }
    sum
}

/// Whether the population can take the cell `c` as a new cell: an id is
/// left for it, it lies within reach, and the sizes of all cells with it
/// still fit the machine's numbers.
pub open spec fn admits(w: World, c: CellState) -> bool {
    &&& w.next_id < u32::MAX
    &&& -COORD_MAX <= c.x <= COORD_MAX
    &&& -COORD_MAX <= c.y <= COORD_MAX
    &&& total(w.cells, true) + c.width <= u32::MAX
    &&& total(w.cells, false) + c.height <= u32::MAX
}

impl GoL {
    /// The registry of cell types.
    pub closed spec fn types(&self) -> NameMap<Cells> {
        self.config
    }

    /// The population is sound: see [`sound`].
    pub open spec fn wf(&self) -> bool {
        sound(self@.cells, self@.next_id)
    }

    /// The cells, in the order of the store.
    pub fn cells(&self) -> (cells: &Vec<Cell>)
        ensures
            states(cells@) == self@.cells,
    {
        &self.cells
    }

    /// The registry of cell types.
    pub fn config(&self) -> (config: &NameMap<Cells>)
        ensures
            *config == self.types(),
    {
        &self.config
    }

    /// The type of the given name, if the registry holds it.
    pub fn lookup(&self, name: &str) -> (r: Result<&Cells, TickError>)
        ensures
            match r {
                Ok(t) => self.types()@.contains_key(name@) && *t == self.types()@[name@],
                Err(e) => e == TickError::UnknownType && !self.types()@.contains_key(name@),
            },
    {
        match self.config.get(name) {
            Some(t) => Ok(t),
            None => Err(TickError::UnknownType),
        }
    }

    /// The id that the next new cell gets.
    pub fn next_id(&self) -> (id: u32)
        ensures
            id == self@.next_id,
    {
        self.next_id
    }

    /// Whether an unused id is left for every cell, so that each may divide
    /// in the next tick.
    pub fn ids_suffice(&self) -> (r: bool)
        ensures
            r == (self@.next_id + self@.cells.len() <= u32::MAX),
    {
        let left: u32 = 0xffff_ffff - self.next_id;
        self.cells.len() <= left as usize
    }

    /// Sets up the simulation: the registry, and a new population of it in
    /// an area of the given width and height, in pixels.
    pub fn new(config: NameMap<Cells>, width: u32, height: u32) -> (r: Result<GoL, SpawnError>)
        ensures
            match r {
                Ok(g) => {
                    &&& spawn_error(config.vals(), width as int, height as int) is None
                    &&& g.types() == config
                    &&& g.wf()
                    &&& spawned(
                        g@.cells,
                        config.keys(),
                        config.vals(),
                        width as int,
                        height as int,
                    )
                    &&& g@.next_id == tally(config.vals(), Measure::Heads)
                },
                Err(e) => spawn_error(config.vals(), width as int, height as int) == Some(e),
            },
    {
        match census(&config, width, height) {
            Ok(heads) => {
                let cells = spawn(&config, width, height, heads);
                Ok(GoL { config, cells, next_id: heads })
            },
            Err(e) => Err(e),
        }
    }

    /// Replaces the population by a new one of the registry, in an area of
    /// the given width and height, in pixels. Nothing changes if the
    /// registry cannot be spawned there.
    pub fn respawn(&mut self, width: u32, height: u32) -> (r: Result<(), SpawnError>)
        ensures
            final(self).types() == old(self).types(),
            match r {
                Ok(_) => {
                    &&& spawn_error(old(self).types().vals(), width as int, height as int) is None
                    &&& final(self).wf()
                    &&& spawned(
                        final(self)@.cells,
                        old(self).types().keys(),
                        old(self).types().vals(),
                        width as int,
                        height as int,
                    )
                    &&& final(self)@.next_id == tally(old(self).types().vals(), Measure::Heads)
                },
                Err(e) => spawn_error(old(self).types().vals(), width as int, height as int)
                    == Some(e) && final(self)@ == old(self)@,
            },
    {
        match census(&self.config, width, height) {
            Ok(heads) => {
                let cells = spawn(&self.config, width, height, heads);
                self.cells = cells;
                self.next_id = heads;
                Ok(())
            },
            Err(e) => Err(e),
        }
    }

    /// Replaces the registry. The population stays as it is.
    pub fn set_config(&mut self, config: NameMap<Cells>)
        ensures
            final(self).types() == config,
            final(self)@ == old(self)@,
    {
        self.config = config;
    }

    /// A copy of the population as it stands.
    pub fn snapshot(&self) -> (copy: Vec<Cell>)
        ensures
            states(copy@) == self@.cells,
    {
        snapshot(&self.cells)
    }

    /// Removes the inert cells.
    pub fn remove_inert(&mut self)
        ensures
            final(self)@.cells == sweep(old(self)@.cells),
            final(self)@.next_id == old(self)@.next_id,
            final(self).types() == old(self).types(),
            old(self).wf() ==> final(self).wf(),
    {
        proof {
            if self.wf() {
                lemma_sweep_sound(states(self.cells@), self.next_id as int, COORD_MAX as int);
            }
        }
        let kept = live(&self.cells);
        self.cells = kept;
    }

    /// Adds the cell to the population as its last, under the next unused
    /// id, which is returned. The id that the cell came with is ignored.
    /// Nothing changes if the population cannot take the cell.
    pub fn append(&mut self, cell: Cell) -> (r: Option<u32>)
        requires
            old(self).wf(),
        ensures
            final(self).wf(),
            final(self).types() == old(self).types(),
            r is Some <==> admits(old(self)@, cell@),
            match r {
                Some(id) => {
                    &&& id == old(self)@.next_id
                    &&& final(self)@.next_id == id + 1
                    &&& final(self)@.cells == old(self)@.cells.push(
                        CellState { id: id as int, ..cell@ },
                    )
                },
                None => final(self)@ == old(self)@,
            },
    {
        if self.next_id == 0xffff_ffff || cell.x < -COORD_MAX || cell.x > COORD_MAX || cell.y
            < -COORD_MAX || cell.y > COORD_MAX {
            return None;
        }
        let wide = total_size(&self.cells, true);
        let high = total_size(&self.cells, false);
        if wide + (cell.size.0 as u128) > 0xffff_ffff || high + (cell.size.1 as u128)
            > 0xffff_ffff {
            return None;
        }
        let id = self.next_id;
        let ghost before = states(self.cells@);
        let c = Cell::new(id, cell.cell_type, cell.color, cell.size, cell.x, cell.y);
        self.cells.push(c);
        self.next_id = id + 1;
        proof {
            let after = states(self.cells@);
            assert(after =~= before.push(c@));
            lemma_total_push(before, c@, true);
            lemma_total_push(before, c@, false);
            assert forall|k: int| 0 <= k < after.len() implies 0 <= (#[trigger] after[k]).width
                && 0 <= after[k].height && 0 <= after[k].id < id + 1 && -COORD_MAX <= after[k].x
                <= COORD_MAX && -COORD_MAX <= after[k].y <= COORD_MAX by {
                if k < before.len() {
                    assert(after[k] == before[k]);
                }
            }
            assert forall|i: int, j: int| 0 <= i < j < after.len() implies (#[trigger] after[i]).id
                != (#[trigger] after[j]).id by {
                assert(after[i] == before[i]);
                if j < before.len() {
                    assert(after[j] == before[j]);
                }
            }
        }
        Some(id)
    }

    /// Advances the simulation by one tick in an area of the given width
    /// and height, in pixels; see [`tick_of`]. Nothing changes if a cell is
    /// of an unknown type. Each cell that is born takes one id, so the
    /// caller sees to it that as many ids are left as there are cells
    /// ([`Self::ids_suffice`]).
    pub fn tick(&mut self, width: u32, height: u32) -> (r: Result<(), TickError>)
        requires
            old(self).wf(),
            old(self)@.next_id + old(self)@.cells.len() <= u32::MAX,
        ensures
            final(self).wf(),
            final(self).types() == old(self).types(),
            r is Err <==> !known(old(self)@.cells, old(self).types()@),
            r is Err ==> r == Err::<(), TickError>(TickError::UnknownType) && final(self)@ == old(
                self,
            )@,
            r is Ok ==> final(self)@.next_id - old(self)@.next_id == final(self)@.cells.len()
                - sweep(old(self)@.cells).len(),
            r is Ok ==> final(self)@ == tick_of(
                old(self)@,
                old(self).types()@,
                width as int,
                height as int,
            ),
    {
        if !all_known(&self.cells, &self.config) {
            return Err(TickError::UnknownType);
        }
        let ghost before = states(self.cells@);
        let ghost registry = self.config@;
        let prior = live(&self.cells);
        proof {
            lemma_sweep(before);
            lemma_sweep_sound(before, self.next_id as int, COORD_MAX as int);
            assert(known(states(prior@), registry)) by {
                assert forall|k: int| 0 <= k < prior@.len() implies registry.contains_key(
                    (#[trigger] states(prior@)[k]).kind,
                ) by {
                    assert(before.contains(states(prior@)[k]));
                    let m = choose|m: int| 0 <= m < before.len() && before[m] == states(prior@)[k];
                    assert(registry.contains_key(before[m].kind));
                }
            }
        }
        let mut cells = snapshot(&prior);
        let next = divide_pass(&mut cells, &self.config, self.next_id, prior.len());
        let ghost divided = states(cells@);
        force_pass(&mut cells, &prior, &self.config, width, height);
        let ghost moved = states(cells@);
        wrap_pass(&mut cells, width, height);
        proof {
            lemma_same_cells(moved, divided, next as int, registry);
            lemma_wrap_all(moved, width as int, height as int);
            lemma_same_cells(states(cells@), moved, next as int, registry);
        }
        self.cells = cells;
        self.next_id = next;
        Ok(())
    }
}

} // verus!
