use vstd::prelude::*;

use crate::cell::{pow4, CellIndex, GRID_POWER};
use crate::decode::{decode_cell, decoded};
use crate::error::CodeError;

verus! {

/// A point of the grid in half-cell units: `lat` southward from the
/// northern edge, `lon` eastward from the western edge. Each axis spans
/// `2 * GRID_POWER` such units.
#[derive(Debug, Clone, Copy, PartialEq, Eq, Structural)]
pub struct GridPoint {
    pub lat: u32,
    pub lon: u32,
}

/// The extent of a cell in half-cell units, measured as in `GridPoint`:
/// `north < south` and `west < east`.
#[derive(Debug, Clone, Copy, PartialEq, Eq, Structural)]
pub struct CellBounds {
    pub north: u32,
    pub south: u32,
    pub west: u32,
    pub east: u32,
}

/// The center of `cell`.
pub open spec fn center_of(cell: CellIndex) -> GridPoint {
    GridPoint { lat: (2 * cell.lat + 1) as u32, lon: (2 * cell.lon + 1) as u32 }
}

/// The extent of `cell`: from its own index to the next one on each axis.
pub open spec fn bounds_of(cell: CellIndex) -> CellBounds {
    CellBounds {
        north: (2 * cell.lat) as u32,
        south: (2 * cell.lat + 2) as u32,
        west: (2 * cell.lon) as u32,
        east: (2 * cell.lon + 2) as u32,
    }
}

/// The center of the cell that `s` names, or why `s` names none.
pub open spec fn decoded_center(s: Seq<char>) -> Result<GridPoint, CodeError> {
    match decoded(s) {
        Ok(cell) => Ok(center_of(cell)),
        Err(e) => Err(e),
    }
}

/// The extent of the cell that `s` names, or why `s` names none.
pub open spec fn decoded_bounds(s: Seq<char>) -> Result<CellBounds, CodeError> {
    match decoded(s) {
        Ok(cell) => Ok(bounds_of(cell)),
        Err(e) => Err(e),
    }
}

/// The center of `cell`.
pub fn cell_center(cell: CellIndex) -> (p: GridPoint)
    requires
        cell.is_valid(),
    ensures
        p == center_of(cell),
{
    GridPoint { lat: 2 * cell.lat + 1, lon: 2 * cell.lon + 1 }
}

/// The extent of `cell`.
pub fn cell_bounds(cell: CellIndex) -> (b: CellBounds)
    requires
        cell.is_valid(),
    ensures
        b == bounds_of(cell),
{
    CellBounds {
        north: 2 * cell.lat,
        south: 2 * cell.lat + 2,
        west: 2 * cell.lon,
        east: 2 * cell.lon + 2,
    }
}

/// The center of the cell that `code` names.
pub fn decode_center(code: &str) -> (r: Result<GridPoint, CodeError>)
    ensures
        r == decoded_center(code@),
{
    match decode_cell(code) {
        Ok(cell) => Ok(cell_center(cell)),
        Err(e) => Err(e),
    }
}

/// The extent of the cell that `code` names.
pub fn decode_bounds(code: &str) -> (r: Result<CellBounds, CodeError>)
    ensures
        r == decoded_bounds(code@),
{
    match decode_cell(code) {
        Ok(cell) => Ok(cell_bounds(cell)),
        Err(e) => Err(e),
    }
}

} // verus!
