use vstd::prelude::*;
use crate::tile::{MAP_WIDTH, MAP_HEIGHT};
use crate::room::on_map;
use crate::map::{cell_index, MAP_CELLS, lemma_cell_index};

verus! {

/// Which entity, by its id, stands in each cell (row by row); items and stairs
/// are not counted.
pub struct OccupancyMap {
    pub cells: Vec<Option<u64>>,
}

impl OccupancyMap {
    /// One entry per map cell.
    pub open spec fn wf(&self) -> bool {
        self.cells@.len() == MAP_CELLS
    }

    /// Whether `(x, y)` is off the map or taken.
    pub open spec fn occupied_at(&self, x: int, y: int) -> bool {
        !on_map(x, y) || self.cells@[cell_index(x, y)] is Some
    }

    /// No cell taken.
    pub fn new() -> (o: OccupancyMap)
        ensures
            o.wf(),
            forall|i: int| 0 <= i < MAP_CELLS ==> o.cells@[i] is None,
    {
        let mut cells: Vec<Option<u64>> = Vec::new();
        let mut i: usize = 0;
        while i < MAP_CELLS
            invariant
                i <= MAP_CELLS,
                cells@.len() == i,
                forall|k: int| 0 <= k < i ==> cells@[k] is None,
            decreases MAP_CELLS - i,
        {
            cells.push(None);
            i = i + 1;
        }
        OccupancyMap { cells }
    }

    /// Whether `(x, y)` is off the map or taken by an entity.
    pub fn is_occupied(&self, x: usize, y: usize) -> (b: bool)
        requires
            self.wf(),
        ensures
            b == self.occupied_at(x as int, y as int),
    {
        if x >= MAP_WIDTH || y >= MAP_HEIGHT {
            return true;
        }
        self.cells[y * MAP_WIDTH + x].is_some()
    }

    /// The entity in `(x, y)`, if any (none off the map).
    pub fn occupant(&self, x: usize, y: usize) -> (e: Option<u64>)
        requires
            self.wf(),
        ensures
            e == if on_map(x as int, y as int) { self.cells@[cell_index(x as int, y as int)] } else { None },
    {
        if x >= MAP_WIDTH || y >= MAP_HEIGHT {
            return None;
        }
        self.cells[y * MAP_WIDTH + x]
    }

    /// Records `entity` in `(x, y)`; nothing happens off the map.
    pub fn set(&mut self, x: usize, y: usize, entity: u64)
        requires
            old(self).wf(),
        ensures
            final(self).wf(),
            final(self).cells@ == if on_map(x as int, y as int) {
                old(self).cells@.update(cell_index(x as int, y as int), Some(entity))
            } else {
                old(self).cells@
            },
    {
        if x < MAP_WIDTH && y < MAP_HEIGHT {
            self.cells.set(y * MAP_WIDTH + x, Some(entity));
        }
    }

    /// Frees every cell.
    pub fn clear(&mut self)
        requires
            old(self).wf(),
        ensures
            final(self).wf(),
            forall|i: int| 0 <= i < MAP_CELLS ==> final(self).cells@[i] is None,
    {
        *self = OccupancyMap::new();
    }
}

} // verus!
