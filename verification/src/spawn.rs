use crate::cell::{states, Cell, CellState};
use crate::config::Cells;
use crate::fixed::{COORD_MAX, UNIT};
use crate::names::NameMap;
use crate::place::free_slot;
use crate::world::{lemma_total_push, sound, total};
use vstd::arithmetic::div_mod::{
    lemma_fundamental_div_mod, lemma_mod_bound, lemma_multiply_divide_lt,
};
use vstd::prelude::*;

verus! {

/// Why a population was not set up.
#[derive(Clone, Copy, Debug, PartialEq, Eq)]
pub enum SpawnError {
    /// The pools hold more cells than there are ids.
    TooMany,
    /// The widths of all cells, or their heights, come to more than the
    /// machine's numbers hold.
    TooLarge,
    /// The pools hold more cells than the area has pixels.
    Crowded,
}

/// What is counted over the types of a registry.
#[derive(Clone, Copy, Debug)]
pub enum Measure {
    /// The cells.
    Heads,
    /// The widths of the cells.
    Width,
    /// The heights of the cells.
    Height,
}

/// What one type adds to a count.
pub open spec fn weight(t: Cells, m: Measure) -> int {
    match m {
        Measure::Heads => t.pool as int,
        Measure::Width => t.pool * t.size.0,
        Measure::Height => t.pool * t.size.1,
    }
}

/// A count over all types.
pub open spec fn tally(types: Seq<Cells>, m: Measure) -> int
    decreases types.len(),
{
    if types.len() == 0 {
        0
    } else {
        tally(types.drop_last(), m) + weight(types.last(), m)
    }
}

/// Why the types cannot be spawned in an area of the given width and
/// height, if they cannot.
pub open spec fn spawn_error(types: Seq<Cells>, width: int, height: int) -> Option<SpawnError> {
    if tally(types, Measure::Heads) > u32::MAX {
        Some(SpawnError::TooMany)
    } else if tally(types, Measure::Width) > u32::MAX || tally(types, Measure::Height)
        > u32::MAX {
        Some(SpawnError::TooLarge)
    } else if tally(types, Measure::Heads) > width * height {
        Some(SpawnError::Crowded)
    } else {
        None
    }
}

/// For each cell of a new population, the place of its type in the
/// registry: the types come in the registry's order, each with as many
/// cells as its pool says.
pub open spec fn roster(types: Seq<Cells>) -> Seq<int>
    decreases types.len(),
{
    if types.len() == 0 {
        Seq::empty()
    } else {
        roster(types.drop_last()) + Seq::new(
            types.last().pool as nat,
            |i: int| types.len() - 1,
        )
    }
}

/// The cell `c` is a new cell of type `t`, named `kind`, with the given id,
/// on a pixel of the area.
pub open spec fn fresh(
    c: CellState,
    id: int,
    kind: Seq<char>,
    t: Cells,
    width: int,
    height: int,
) -> bool {
    &&& c.id == id
    &&& c.kind == kind
    &&& c.color == t.color
    &&& c.width == t.size.0
    &&& c.height == t.size.1
    &&& c.x % (UNIT as int) == 0
    &&& c.y % (UNIT as int) == 0
    &&& 0 <= c.x < width * UNIT
    &&& 0 <= c.y < height * UNIT
}

/// No two cells are at the same point.
pub open spec fn apart(cells: Seq<CellState>) -> bool {
    forall|i: int, j: int|
        0 <= i < j < cells.len() ==> (#[trigger] cells[i]).x != (#[trigger] cells[j]).x
            || cells[i].y != cells[j].y
}

/// The cells are a new population of the registry with the given names and
/// types: one new cell for each place of the roster, no two at one point.
pub open spec fn spawned(
    cells: Seq<CellState>,
    keys: Seq<Seq<char>>,
    types: Seq<Cells>,
    width: int,
    height: int,
) -> bool {
    &&& cells.len() == roster(types).len()
    &&& forall|k: int|
        0 <= k < cells.len() ==> fresh(
            #[trigger] cells[k],
            k,
            keys[roster(types)[k]],
            types[roster(types)[k]],
            width,
            height,
        )
    &&& apart(cells)
}

/// One more type adds its weight to a count.
pub proof fn lemma_tally_step(types: Seq<Cells>, n: int, m: Measure)
    requires
        0 <= n < types.len(),
    ensures
        tally(types.take(n + 1), m) == tally(types.take(n), m) + weight(types[n], m),
        0 <= weight(types[n], m),
        roster(types.take(n + 1)) == roster(types.take(n)) + Seq::new(
            types[n].pool as nat,
            |i: int| n,
        ),
{
    assert(types.take(n + 1).drop_last() =~= types.take(n));
    assert(types.take(n + 1).last() == types[n]);
    assert(0 <= types[n].pool * types[n].size.0) by (nonlinear_arith)
        requires
            0 <= types[n].pool,
            0 <= types[n].size.0,
    ;
    assert(0 <= types[n].pool * types[n].size.1) by (nonlinear_arith)
        requires
            0 <= types[n].pool,
            0 <= types[n].size.1,
    ;
    assert(Seq::new(types[n].pool as nat, |i: int| types.take(n + 1).len() - 1) =~= Seq::new(
        types[n].pool as nat,
        |i: int| n,
    ));
}

/// A count over the first types is no more than the count over all, and
/// the roster has one place for each cell.
pub proof fn lemma_tally(types: Seq<Cells>, n: int, m: Measure)
    requires
        0 <= n <= types.len(),
    ensures
        0 <= tally(types.take(n), m) <= tally(types, m),
        roster(types).len() == tally(types, Measure::Heads),
        forall|k: int| 0 <= k < roster(types).len() ==> 0 <= #[trigger] roster(types)[k] < types.len(),
    decreases types.len(),
{
    if types.len() == 0 {
        assert(types.take(n) =~= types);
    } else {
        let rest = types.drop_last();
        lemma_tally(rest, rest.len() as int, m);
        lemma_tally(rest, rest.len() as int, Measure::Heads);
        assert(rest.take(rest.len() as int) =~= rest);
        assert(types.take(types.len() as int) =~= types);
        lemma_tally_step(types, types.len() - 1, m);
        assert(types.take(types.len() - 1) =~= rest);
        if n < types.len() {
            lemma_tally(rest, n, m);
            assert(rest.take(n) =~= types.take(n));
        } else {
            assert(types.take(n) =~= types);
        }
    }
}

/// Counts over the registry; `None` where the count is more than the
/// machine's numbers hold.
pub fn measure(config: &NameMap<Cells>, m: Measure) -> (r: Option<u32>)
    ensures
        match r {
            Some(n) => n == tally(config.vals(), m),
            None => tally(config.vals(), m) > u32::MAX,
        },
{
    let ghost types = config.vals();
    let mut sum: u64 = 0;
    let mut i: usize = 0;
    proof {
        config.lemma_lengths();
        assert(types.take(0) =~= Seq::<Cells>::empty());
    }
    while i < config.len()
        invariant
            i <= types.len(),
            types == config.vals(),
            types.len() == config.keys().len(),
            sum == tally(types.take(i as int), m),
            sum <= u32::MAX,
        decreases types.len() - i,
    {
        let t = config.value_at(i);
        proof {
            lemma_tally_step(types, i as int, m);
            lemma_tally(types, i + 1, m);
            assert(t.pool * t.size.0 <= 0xffff_ffff * 0xffff_ffff) by (nonlinear_arith)
                requires
                    0 <= t.pool <= 0xffff_ffff,
                    0 <= t.size.0 <= 0xffff_ffff,
            ;
            assert(t.pool * t.size.1 <= 0xffff_ffff * 0xffff_ffff) by (nonlinear_arith)
                requires
                    0 <= t.pool <= 0xffff_ffff,
                    0 <= t.size.1 <= 0xffff_ffff,
            ;
        }
        let term: u64 = match m {
            Measure::Heads => t.pool as u64,
            Measure::Width => (t.pool as u64) * (t.size.0 as u64),
            Measure::Height => (t.pool as u64) * (t.size.1 as u64),
        };
        if sum + term > 0xffff_ffff {
            return None;
        }
        sum = sum + term;
        i = i + 1;
    }
    proof {
        assert(types.take(types.len() as int) =~= types);
    }
    Some(sum as u32)
}

/// The number of cells that the registry spawns, or why it cannot be
/// spawned in an area of the given width and height.
pub fn census(config: &NameMap<Cells>, width: u32, height: u32) -> (r: Result<u32, SpawnError>)
    ensures
        match r {
            Ok(n) => spawn_error(config.vals(), width as int, height as int) is None && n
                == tally(config.vals(), Measure::Heads),
            Err(e) => spawn_error(config.vals(), width as int, height as int) == Some(e),
        },
{
    let heads = match measure(config, Measure::Heads) {
        Some(n) => n,
        None => {
            return Err(SpawnError::TooMany);
        },
    };
    if measure(config, Measure::Width).is_none() || measure(config, Measure::Height).is_none() {
        return Err(SpawnError::TooLarge);
    }
    assert(width * height <= 0xffff_ffff * 0xffff_ffff) by (nonlinear_arith)
        requires
            0 <= width <= 0xffff_ffff,
            0 <= height <= 0xffff_ffff,
    ;
    if (heads as u64) > (width as u64) * (height as u64) {
        return Err(SpawnError::Crowded);
    }
    Ok(heads)
}

/// A slot is one pixel, and two slots are two pixels.
pub proof fn lemma_slot_pixel(s: int, z: int, width: int, height: int)
    requires
        0 <= s < width * height,
        0 <= z < width * height,
        0 < width <= u32::MAX,
        0 <= height <= u32::MAX,
    ensures
        0 <= s % width < width,
        0 <= s / width < height,
        s != z ==> s % width != z % width || s / width != z / width,
{
    lemma_mod_bound(s, width);
    lemma_multiply_divide_lt(s, width, height);
    lemma_fundamental_div_mod(s, width);
    lemma_fundamental_div_mod(z, width);
    assert(0 <= s / width) by (nonlinear_arith)
        requires
            s == width * (s / width) + (s % width),
            0 <= s,
            s % width < width,
            0 < width,
    ;
}

/// Sets up a population of the registry in an area of the given width and
/// height, each cell on a pixel of its own.
pub(crate) fn spawn(config: &NameMap<Cells>, width: u32, height: u32, heads: u32) -> (cells: Vec<Cell>)
    requires
        spawn_error(config.vals(), width as int, height as int) is None,
        heads == tally(config.vals(), Measure::Heads),
    ensures
        spawned(states(cells@), config.keys(), config.vals(), width as int, height as int),
        sound(states(cells@), heads as int),
{
    let ghost keys = config.keys();
    let ghost types = config.vals();
    let mut rng = rand::thread_rng();
    let mut cells: Vec<Cell> = Vec::new();
    let mut taken: Vec<u64> = Vec::new();
    let mut n: usize = 0;
    proof {
        config.lemma_lengths();
        assert(types.take(0) =~= Seq::<Cells>::empty());
        assert(states(cells@) =~= Seq::<CellState>::empty());
        assert(lineup(types, 0, 0) =~= Seq::<int>::empty());
        lemma_tally(types, 0, Measure::Heads);
        lemma_tally(types, 0, Measure::Width);
        lemma_tally(types, 0, Measure::Height);
    }
    while n < config.len()
        invariant
            n <= types.len(),
            keys == config.keys(),
            types == config.vals(),
            types.len() == keys.len(),
            spawn_error(types, width as int, height as int) is None,
            heads == tally(types, Measure::Heads),
            grown(states(cells@), taken@, keys, types, width as int, height as int, n as int, 0),
        decreases types.len() - n,
    {
        let kind = config.name_at(n);
        let t = config.value_at(n);
        let mut p: u32 = 0;
        while p < t.pool
            invariant
                n < types.len(),
                kind@ == keys[n as int],
                *t == types[n as int],
                p <= t.pool,
                spawn_error(types, width as int, height as int) is None,
                heads == tally(types, Measure::Heads),
                grown(
                    states(cells@),
                    taken@,
                    keys,
                    types,
                    width as int,
                    height as int,
                    n as int,
                    p as int,
                ),
            decreases t.pool - p,
        {
            let ghost before = states(cells@);
            let ghost held = taken@;
            proof {
                lemma_tally_step(types, n as int, Measure::Heads);
                lemma_tally_step(types, n as int, Measure::Width);
                lemma_tally_step(types, n as int, Measure::Height);
                lemma_tally(types, n + 1, Measure::Heads);
                lemma_tally(types, n + 1, Measure::Width);
                lemma_tally(types, n + 1, Measure::Height);
                assert(width > 0) by (nonlinear_arith)
                    requires
                        0 < width * height,
                        0 <= width,
                        0 <= height,
                ;
            }
            let slot = free_slot(&mut rng, &taken, width, height);
            proof {
                lemma_slot_pixel(slot as int, slot as int, width as int, height as int);
            }
            let px: u32 = (slot % (width as u64)) as u32;
            let py: u32 = (slot / (width as u64)) as u32;
            let id: u32 = cells.len() as u32;
            let c = Cell::new(id, kind, t.color, t.size, (px as i64) * UNIT, (py as i64) * UNIT);
            cells.push(c);
            taken.push(slot);
            proof {
                let after = states(cells@);
                assert(after =~= before.push(c@));
                lemma_total_push(before, c@, true);
                lemma_total_push(before, c@, false);
                let line = lineup(types, n as int, p as int);
                let longer = lineup(types, n as int, p + 1);
                assert(longer.len() == line.len() + 1);
                assert forall|k: int| 0 <= k < line.len() implies longer[k] == line[k] by {}
                assert(longer[line.len() as int] == n);
                assert(c@.x % (UNIT as int) == 0) by (nonlinear_arith)
                    requires
                        c@.x == px * 65536,
                        UNIT == 65536,
                ;
                assert(c@.y % (UNIT as int) == 0) by (nonlinear_arith)
                    requires
                        c@.y == py * 65536,
                        UNIT == 65536,
                ;
                assert((p + 1) * t.size.0 == p * t.size.0 + t.size.0) by (nonlinear_arith);
                assert((p + 1) * t.size.1 == p * t.size.1 + t.size.1) by (nonlinear_arith);
                assert(p * t.size.0 + t.size.0 <= t.pool * t.size.0) by (nonlinear_arith)
                    requires
                        p < t.pool,
                        0 <= t.size.0,
                ;
                assert(p * t.size.1 + t.size.1 <= t.pool * t.size.1) by (nonlinear_arith)
                    requires
                        p < t.pool,
                        0 <= t.size.1,
                ;
                assert forall|k: int| 0 <= k < after.len() implies fresh(
                    #[trigger] after[k],
                    k,
                    keys[longer[k]],
                    types[longer[k]],
                    width as int,
                    height as int,
                ) && taken@[k] < width * height && after[k].x == (taken@[k] % (width as u64)) * UNIT
                    && after[k].y == (taken@[k] / (width as u64)) * UNIT by {
                    if k < before.len() {
                        assert(after[k] == before[k]);
                        assert(taken@[k] == held[k]);
                    }
                }
                assert forall|i: int, j: int| 0 <= i < j < taken@.len() implies taken@[i]
                    != taken@[j] by {
                    if j < held.len() {
                        assert(taken@[i] == held[i] && taken@[j] == held[j]);
                    } else {
                        assert(taken@[i] == held[i]);
                        assert(held.contains(held[i]));
                    }
                }
            }
            p = p + 1;
        }
        proof {
            lemma_tally_step(types, n as int, Measure::Heads);
            lemma_tally_step(types, n as int, Measure::Width);
            lemma_tally_step(types, n as int, Measure::Height);
            lemma_tally(types, n + 1, Measure::Heads);
            lemma_tally(types, n + 1, Measure::Width);
            lemma_tally(types, n + 1, Measure::Height);
            assert(lineup(types, n as int, t.pool as int) =~= lineup(types, n + 1, 0));
        }
        n = n + 1;
    }
    proof {
        assert(types.take(types.len() as int) =~= types);
        let all = states(cells@);
        let line = lineup(types, types.len() as int, 0);
        assert(line =~= roster(types));
        lemma_tally(types, types.len() as int, Measure::Heads);
        assert forall|i: int, j: int| 0 <= i < j < all.len() implies (#[trigger] all[i]).x != (
        #[trigger] all[j]).x || all[i].y != all[j].y by {
            assert(all[i].x == (taken@[i] % (width as u64)) * UNIT);
            assert(all[j].x == (taken@[j] % (width as u64)) * UNIT);
            assert(width > 0) by (nonlinear_arith)
                requires
                    0 < width * height,
                    0 <= width,
                    0 <= height,
            ;
            lemma_slot_pixel(taken@[i] as int, taken@[j] as int, width as int, height as int);
            assert(taken@[i] != taken@[j]);
            if all[i].x == all[j].x && all[i].y == all[j].y {
                assert(taken@[i] % (width as u64) == taken@[j] % (width as u64));
                assert(taken@[i] / (width as u64) == taken@[j] / (width as u64));
            }
        }
        assert forall|k: int| 0 <= k < all.len() implies 0 <= (#[trigger] all[k]).width && 0
            <= all[k].height && 0 <= all[k].id < heads && -COORD_MAX <= all[k].x <= COORD_MAX
            && -COORD_MAX <= all[k].y <= COORD_MAX by {
            assert(fresh(
                all[k],
                k,
                keys[line[k]],
                types[line[k]],
                width as int,
                height as int,
            ));
        }
        assert forall|i: int, j: int| 0 <= i < j < all.len() implies (#[trigger] all[i]).id != (
        #[trigger] all[j]).id by {
            assert(fresh(
                all[i],
                i,
                keys[line[i]],
                types[line[i]],
                width as int,
                height as int,
            ));
            assert(fresh(
                all[j],
                j,
                keys[line[j]],
                types[line[j]],
                width as int,
                height as int,
            ));
        }
    }
    cells
}

/// The roster as far as it stands when `done` cells of the type at place
/// `n` have been spawned.
pub open spec fn lineup(types: Seq<Cells>, n: int, done: int) -> Seq<int> {
    roster(types.take(n)) + Seq::new(done as nat, |i: int| n)
}

/// What holds of a population that is being spawned, `done` cells into the
/// type at place `n`; `taken` holds the slot of each cell.
pub open spec fn grown(
    cells: Seq<CellState>,
    taken: Seq<u64>,
    keys: Seq<Seq<char>>,
    types: Seq<Cells>,
    width: int,
    height: int,
    n: int,
    done: int,
) -> bool {
    let line = lineup(types, n, done);
    &&& 0 <= n <= types.len()
    &&& 0 <= done
    &&& cells.len() == line.len()
    &&& taken.len() == line.len()
    &&& line.len() == tally(types.take(n), Measure::Heads) + done
    &&& line.len() <= tally(types, Measure::Heads)
    &&& total(cells, true) == tally(types.take(n), Measure::Width) + done * (if n < types.len() {
        types[n].size.0 as int
    } else {
        0
    })
    &&& total(cells, false) == tally(types.take(n), Measure::Height) + done * (if n
        < types.len() {
        types[n].size.1 as int
    } else {
        0
    })
    &&& total(cells, true) <= tally(types, Measure::Width)
    &&& total(cells, false) <= tally(types, Measure::Height)
    &&& forall|k: int|
        0 <= k < cells.len() ==> fresh(
            #[trigger] cells[k],
            k,
            keys[line[k]],
            types[line[k]],
            width,
            height,
        ) && taken[k] < width * height && cells[k].x == (taken[k] % (width as u64)) * UNIT
            && cells[k].y == (taken[k] / (width as u64)) * UNIT
    &&& forall|i: int, j: int| 0 <= i < j < taken.len() ==> taken[i] != taken[j]
}

} // verus!
