use vstd::prelude::*;

verus! {

/// Number of subdivision levels: each level splits a cell into 4×4.
pub const LEVELS: usize = 10;

/// Number of cells along each axis of the grid, 4 to the power `LEVELS`.
pub const GRID_POWER: u32 = 0x10_0000;

/// `4` to the power `n`.
pub open spec fn pow4(n: nat) -> nat
    decreases n,
{
    if n == 0 {
        1
    } else {
        4 * pow4((n - 1) as nat)
    }
}

/// A cell of the finest grid: `lat` counts cells southward from the
/// northern edge, `lon` counts cells eastward from the western edge.
#[derive(Debug, Clone, Copy, PartialEq, Eq, Structural)]
pub struct CellIndex {
    pub lat: u32,
    pub lon: u32,
}

impl CellIndex {
    /// Both indices lie on the grid.
    pub open spec fn is_valid(self) -> bool {
        self.lat < GRID_POWER && self.lon < GRID_POWER
    }
}

/// The base-4 digit of `index` at `level`, level 0 being the most
/// significant of `LEVELS` digits.
pub open spec fn digit(index: int, level: int) -> int {
    (index / pow4((LEVELS - 1 - level) as nat) as int) % 4
}

/// The index of the cell that holds a position `scaled` cells from the
/// grid's origin edge: a position on the far edge belongs to the last cell.
pub open spec fn clamp_index(scaled: int) -> int {
    if scaled < GRID_POWER {
        scaled
    } else {
        GRID_POWER - 1
    }
}

/// The index along one axis of the cell that holds a position lying
/// `scaled` whole cells from the grid's origin edge.
pub fn grid_index(scaled: u64) -> (r: u32)
    ensures
        r == clamp_index(scaled as int),
        r < GRID_POWER,
{
    if scaled < GRID_POWER as u64 {
        scaled as u32
    } else {
        GRID_POWER - 1
    }
}

/// The cell that holds the position lying `lat_scaled` whole cells south of
/// the northern edge and `lon_scaled` whole cells east of the western edge.
pub fn cell_at(lat_scaled: u64, lon_scaled: u64) -> (cell: CellIndex)
    ensures
        cell.is_valid(),
        cell.lat == clamp_index(lat_scaled as int),
        cell.lon == clamp_index(lon_scaled as int),
{
    CellIndex { lat: grid_index(lat_scaled), lon: grid_index(lon_scaled) }
}

} // verus!
