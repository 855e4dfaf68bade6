use crate::names::NameMap;
use ggez::graphics::Color;
use vstd::prelude::*;

verus! {

/// What the cells of one type have in common.
pub struct Cells {
    /// Colour handed on to every cell of the type.
    pub color: Color,
    /// Width and height, in pixels, of a cell when it is spawned.
    pub size: (u32, u32),
    /// Number of cells spawned when the population is set up.
    pub pool: u32,
    /// Factor applied to every displacement, in fixed point.
    pub speed: u32,
    /// A cell wider than this divides.
    pub division: u32,
    /// For each type that acts on this one, the acceleration toward it
    /// (positive) or away from it (negative), in fixed point.
    pub rules: NameMap<i32>,
}

impl Cells {
    /// A type with the given parameters and rules.
    pub fn new(
        color: Color,
        size: (u32, u32),
        pool: u32,
        speed: u32,
        division: u32,
        rules: NameMap<i32>,
    ) -> (cells: Cells)
        ensures
            cells.color == color,
            cells.size == size,
            cells.pool == pool,
            cells.speed == speed,
            cells.division == division,
            cells.rules == rules,
    {
        Cells { color, size, pool, speed, division, rules }
    }
}

} // verus!
