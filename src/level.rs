use vstd::prelude::*;

verus! {

/// What a cell of a finished level holds.
#[derive(Clone, Copy, PartialEq, Eq, Debug, Structural)]
pub enum SewerCell {
    Floor,
    Wall,
    Pool,
    Bridge,
    Door,
}

/// Width and height of a grid, in cells.
#[derive(Clone, Copy, PartialEq, Eq, Debug, Structural)]
pub struct Size {
    pub width: u32,
    pub height: u32,
}

/// A cell position: column `x`, row `y`, from the top-left corner.
#[derive(Clone, Copy, PartialEq, Eq, Debug, Structural)]
pub struct Coord {
    pub x: u32,
    pub y: u32,
}

/// A dense grid stored row by row: the cell at `(x, y)` is `cells[y * width + x]`.
pub struct Grid<T> {
    pub width: u32,
    pub height: u32,
    pub cells: Vec<T>,
}

impl<T: Copy> Grid<T> {
    /// The cell at `coord`, if it lies in the grid.
    pub fn get(&self, coord: Coord) -> (r: Option<T>)
        requires
            self.cells@.len() == self.width * self.height,
        ensures
            coord.x < self.width && coord.y < self.height ==> r == Some(
                self.cells@[coord.y * self.width + coord.x],
            ),
            !(coord.x < self.width && coord.y < self.height) ==> r.is_none(),
    {
        let n = self.cells.len();
        if coord.x < self.width && coord.y < self.height {
            proof {
                crate::grid::lemma_cell(
                    self.width as int,
                    self.height as int,
                    coord.x as int,
                    coord.y as int,
                );
            }
            let i = (coord.y as usize) * (self.width as usize) + (coord.x as usize);
            Some(self.cells[i])
        } else {
            None
        }
    }
}

/// The size of level to generate.
#[derive(Clone, Copy, PartialEq, Eq, Debug, Structural)]
pub struct SewerSpec {
    pub size: Size,
}

#[derive(Clone, Copy, PartialEq, Eq, Debug, Structural)]
pub enum SewerLightType {
    Pool,
}

/// A light placed on a cell of the level.
#[derive(Clone, Copy, PartialEq, Eq, Debug, Structural)]
pub struct SewerLight {
    pub typ: SewerLightType,
    pub coord: Coord,
}

/// A finished level: where the player starts, where the goal is, the map,
/// and the lights.
pub struct Sewer {
    pub start: Coord,
    pub goal: Coord,
    pub map: Grid<SewerCell>,
    pub lights: Vec<SewerLight>,
}

} // verus!
