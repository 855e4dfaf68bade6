use ggez::graphics::Color;
use vstd::prelude::*;

verus! {

/// The colour type of the `ggez` crate. The library hands colours on and
/// never looks into one.
#[verifier::external_type_specification]
#[verifier::external_body]
pub struct ExColor(Color);

/// The mathematical content of a [`Cell`]: what contracts speak of.
pub ghost struct CellState {
    /// The id, which no other cell of the population has.
    pub id: int,
    /// The name of the cell's type.
    pub kind: Seq<char>,
    /// The colour in which the cell is drawn.
    pub color: Color,
    /// The width, in pixels.
    pub width: int,
    /// The height, in pixels.
    pub height: int,
    /// The horizontal coordinate of the top left corner, in fixed point.
    pub x: int,
    /// The vertical coordinate of the top left corner, in fixed point.
    pub y: int,
}

/// One simulated cell.
#[derive(Clone, Copy, Debug, PartialEq)]
pub struct Cell {
    /// The id, which no other cell of the population has.
    pub id: u32,
    /// The name of the cell's type, by which the registry is asked.
    pub cell_type: &'static str,
    /// The colour in which the cell is drawn.
    pub color: Color,
    /// Width and height, in pixels; a cell of size `(0, 0)` is inert.
    pub size: (u32, u32),
    /// The horizontal coordinate of the top left corner, in fixed point.
    pub x: i64,
    /// The vertical coordinate of the top left corner, in fixed point.
    pub y: i64,
}

impl View for Cell {
    type V = CellState;

    open spec fn view(&self) -> CellState {
        CellState {
            id: self.id as int,
            kind: self.cell_type@,
            color: self.color,
            width: self.size.0 as int,
            height: self.size.1 as int,
            x: self.x as int,
            y: self.y as int,
        }
    }
}

impl Cell {
    /// Builds a cell from its parts.
    pub fn new(
        id: u32,
        cell_type: &'static str,
        color: Color,
        size: (u32, u32),
        x: i64,
        y: i64,
    ) -> (cell: Cell)
        ensures
            cell.id == id,
            cell.cell_type == cell_type,
            cell.color == color,
            cell.size == size,
            cell.x == x,
            cell.y == y,
    {
        Cell { id, cell_type, color, size, x, y }
    }
}

/// The mathematical content of each cell of a population, in order.
pub open spec fn states(cells: Seq<Cell>) -> Seq<CellState> {
    Seq::new(cells.len(), |i: int| cells[i]@)
}

} // verus!
