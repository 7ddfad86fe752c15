use vstd::prelude::*;
use crate::tile::{Tile, MAP_WIDTH, MAP_HEIGHT};
use crate::room::{Room, room_fits, on_map};
use crate::map::{DungeonMap, MAP_CELLS, cell_index, lemma_cell_index};
use crate::occupancy::OccupancyMap;
use crate::action::ActionKindV3;

verus! {

/// Which cells the player has seen, row by row.
pub struct MapMemory {
    pub explored: Vec<bool>,
}

impl MapMemory {
    /// Nothing seen.
    pub fn new() -> (m: MapMemory)
        ensures
            m.explored@.len() == MAP_CELLS,
            forall|i: int| 0 <= i < MAP_CELLS ==> !m.explored@[i],
    {
        let mut explored: Vec<bool> = Vec::new();
        let mut i: usize = 0;
        while i < MAP_CELLS
            invariant
                i <= MAP_CELLS,
                explored@.len() == i,
                forall|k: int| 0 <= k < i ==> !explored@[k],
            decreases MAP_CELLS - i,
        {
            explored.push(false);
            i = i + 1;
        }
        MapMemory { explored }
    }

    /// Marks every cell of `visible` that lies on the map as seen.
    pub fn remember(&mut self, visible: &Vec<(usize, usize)>)
        requires
            old(self).explored@.len() == MAP_CELLS,
        ensures
            final(self).explored@.len() == MAP_CELLS,
            forall|x: int, y: int|
                on_map(x, y) ==> #[trigger] final(self).explored@[cell_index(x, y)] == (old(self).explored@[cell_index(x, y)]
                    || visible@.contains((x as usize, y as usize))),
    {
        let mut i: usize = 0;
        while i < visible.len()
            invariant
                i <= visible@.len(),
                self.explored@.len() == MAP_CELLS,
                forall|x: int, y: int|
                    on_map(x, y) ==> #[trigger] self.explored@[cell_index(x, y)] == (old(self).explored@[cell_index(x, y)]
                        || visible@.take(i as int).contains((x as usize, y as usize))),
            decreases visible@.len() - i,
        {
            let (x, y) = visible[i];
            let ghost before = self.explored@;
            if x < MAP_WIDTH && y < MAP_HEIGHT {
                self.explored.set(y * MAP_WIDTH + x, true);
            }
            proof {
                assert forall|a: int, b: int| on_map(a, b) implies #[trigger] self.explored@[cell_index(a, b)] == (old(self).explored@[cell_index(a, b)]
                    || visible@.take(i as int + 1).contains((a as usize, b as usize))) by {
                    lemma_cell_index(a, b, 0, 0);
                    if on_map(x as int, y as int) {
                        lemma_cell_index(a, b, x as int, y as int);
                    }
                    assert(visible@.take(i as int + 1) =~= visible@.take(i as int).push((x, y)));
                    if visible@.take(i as int).contains((a as usize, b as usize)) {
                        let k = choose|k: int| 0 <= k < i && visible@.take(i as int)[k] == (a as usize, b as usize);
                        assert(visible@.take(i as int + 1)[k] == (a as usize, b as usize));
                    }
                    if (x, y) == (a as usize, b as usize) {
                        assert(visible@.take(i as int + 1)[i as int] == (x, y));
                    }
                }
            }
            i = i + 1;
        }
        assert(visible@.take(visible@.len() as int) =~= visible@);
    }

    /// The save bytes of the memory: 1 for a seen cell, 0 otherwise, row by row.
    pub fn to_bytes(&self) -> (b: Vec<u8>)
        ensures
            b@.len() == self.explored@.len(),
            forall|i: int| 0 <= i < b@.len() ==> b@[i] == (if self.explored@[i] { 1u8 } else { 0u8 }),
    {
        let mut b: Vec<u8> = Vec::new();
        let mut i: usize = 0;
        while i < self.explored.len()
            invariant
                i <= self.explored@.len(),
                b@.len() == i,
                forall|k: int| 0 <= k < i ==> b@[k] == (if self.explored@[k] { 1u8 } else { 0u8 }),
            decreases self.explored@.len() - i,
        {
            b.push(if self.explored[i] { 1 } else { 0 });
            i = i + 1;
        }
        b
    }

    /// The memory read back from save bytes: a cell is seen when its byte is not 0;
    /// cells past the bytes are unseen.
    pub fn from_bytes(bytes: &Vec<u8>) -> (m: MapMemory)
        requires
            bytes@.len() <= MAP_CELLS,
        ensures
            m.explored@.len() == MAP_CELLS,
            forall|i: int| 0 <= i < bytes@.len() ==> #[trigger] m.explored@[i] == (bytes@[i] != 0),
            forall|i: int| bytes@.len() <= i < MAP_CELLS ==> !#[trigger] m.explored@[i],
    {
        let mut m = MapMemory::new();
        let mut i: usize = 0;
        while i < bytes.len()
            invariant
                i <= bytes@.len(),
                bytes@.len() <= MAP_CELLS,
                m.explored@.len() == MAP_CELLS,
                forall|k: int| 0 <= k < i ==> #[trigger] m.explored@[k] == (bytes@[k] != 0u8),
                forall|k: int| i <= k < MAP_CELLS ==> !#[trigger] m.explored@[k],
            decreases bytes@.len() - i,
        {
            m.explored.set(i, bytes[i] != 0);
            i = i + 1;
        }
        m
    }
}

/// Reading back the save bytes of a memory gives the same memory.
pub proof fn lemma_memory_roundtrip(seen: Seq<bool>, bytes: Seq<u8>, back: Seq<bool>)
    requires
        seen.len() == MAP_CELLS,
        bytes.len() == seen.len(),
        forall|i: int| 0 <= i < bytes.len() ==> bytes[i] == (if seen[i] { 1u8 } else { 0u8 }),
        back.len() == MAP_CELLS,
        forall|i: int| 0 <= i < MAP_CELLS ==> back[i] == (i < bytes.len() && bytes[i] != 0),
    ensures
        back == seen,
{
    assert(back =~= seen);
}

/// The map read back from its saved tiles (row by row; cells past them are wall) and
/// rooms.
pub fn map_from_saved(tiles: &Vec<Tile>, rooms: Vec<Room>) -> (m: DungeonMap)
    requires
        tiles@.len() <= MAP_CELLS,
        forall|i: int| 0 <= i < rooms@.len() ==> room_fits(#[trigger] rooms@[i]),
    ensures
        m.wf(),
        m.rooms@ == rooms@,
        forall|i: int| 0 <= i < MAP_CELLS ==> m.tiles@[i] == if i < tiles@.len() { tiles@[i] } else { Tile::Wall },
{
    let mut t: Vec<Tile> = Vec::new();
    let mut i: usize = 0;
    while i < MAP_CELLS
        invariant
            i <= MAP_CELLS,
            tiles@.len() <= MAP_CELLS,
            t@.len() == i,
            forall|k: int| 0 <= k < i ==> t@[k] == if k < tiles@.len() { tiles@[k] } else { Tile::Wall },
        decreases MAP_CELLS - i,
    {
        if i < tiles.len() {
            t.push(tiles[i]);
        } else {
            t.push(Tile::Wall);
        }
        i = i + 1;
    }
    DungeonMap { tiles: t, rooms }
}

/// Saving a map's tiles and reading them back gives the same tiles.
pub proof fn lemma_map_roundtrip(m: DungeonMap, back: DungeonMap)
    requires
        m.wf(),
        back.wf(),
        back.rooms@ == m.rooms@,
        forall|i: int| 0 <= i < MAP_CELLS ==> back.tiles@[i] == if i < m.tiles@.len() { m.tiles@[i] } else { Tile::Wall },
    ensures
        back.tiles@ == m.tiles@,
        back.rooms@ == m.rooms@,
{
    assert(back.tiles@ =~= m.tiles@);
}

/// An action as saved: those that name another entity are not kept.
#[derive(Clone, Copy, Debug, PartialEq, Eq, Structural)]
pub enum SavedActionKind {
    Move { dx: isize, dy: isize },
    Chase,
    Flee,
    Wander,
    Wait,
    Skill(usize),
}

/// The saved form of an action; attacks and throws are not saved.
pub fn save_kind(k: ActionKindV3) -> (s: Option<SavedActionKind>)
    ensures
        s == save_kind_spec(k),
        s is None <==> (k is Attack || k is Throw),
{
    match k {
        ActionKindV3::Move { dx, dy } => Some(SavedActionKind::Move { dx, dy }),
        ActionKindV3::Chase => Some(SavedActionKind::Chase),
        ActionKindV3::Flee => Some(SavedActionKind::Flee),
        ActionKindV3::Wander => Some(SavedActionKind::Wander),
        ActionKindV3::Wait => Some(SavedActionKind::Wait),
        ActionKindV3::Skill(i) => Some(SavedActionKind::Skill(i)),
        ActionKindV3::Attack { .. } => None,
        ActionKindV3::Throw { .. } => None,
    }
}

/// The action a saved form stands for.
pub fn load_kind(s: SavedActionKind) -> (k: ActionKindV3)
    ensures
        k == load_kind_spec(s),
        save_kind_spec(k) == Some(s),
{
    match s {
        SavedActionKind::Move { dx, dy } => ActionKindV3::Move { dx, dy },
        SavedActionKind::Chase => ActionKindV3::Chase,
        SavedActionKind::Flee => ActionKindV3::Flee,
        SavedActionKind::Wander => ActionKindV3::Wander,
        SavedActionKind::Wait => ActionKindV3::Wait,
        SavedActionKind::Skill(i) => ActionKindV3::Skill(i),
    }
}

/// The saved form of an action, as [`save_kind`] computes it.
pub open spec fn save_kind_spec(k: ActionKindV3) -> Option<SavedActionKind> {
    match k {
        ActionKindV3::Move { dx, dy } => Some(SavedActionKind::Move { dx, dy }),
        ActionKindV3::Chase => Some(SavedActionKind::Chase),
        ActionKindV3::Flee => Some(SavedActionKind::Flee),
        ActionKindV3::Wander => Some(SavedActionKind::Wander),
        ActionKindV3::Wait => Some(SavedActionKind::Wait),
        ActionKindV3::Skill(i) => Some(SavedActionKind::Skill(i)),
        _ => None,
    }
}

/// The action a saved form reads back as, as [`load_kind`] computes it.
pub open spec fn load_kind_spec(s: SavedActionKind) -> ActionKindV3 {
    match s {
        SavedActionKind::Move { dx, dy } => ActionKindV3::Move { dx, dy },
        SavedActionKind::Chase => ActionKindV3::Chase,
        SavedActionKind::Flee => ActionKindV3::Flee,
        SavedActionKind::Wander => ActionKindV3::Wander,
        SavedActionKind::Wait => ActionKindV3::Wait,
        SavedActionKind::Skill(i) => ActionKindV3::Skill(i),
    }
}

/// A saved action reads back as the action it was saved from.
pub proof fn lemma_kind_roundtrip(k: ActionKindV3, s: SavedActionKind, back: ActionKindV3)
    requires
        save_kind_spec(k) == Some(s),
        save_kind_spec(back) == Some(s),
    ensures
        back == k,
{
}

impl OccupancyMap {
    /// Clears the map and records each `(entity, x, y)` in order (off-map ones are
    /// skipped; a later entity in the same cell wins).
    pub fn rebuild(&mut self, positions: &Vec<(u64, usize, usize)>)
        requires
            old(self).wf(),
        ensures
            final(self).wf(),
            forall|x: int, y: int|
                on_map(x, y) ==> #[trigger] final(self).cells@[cell_index(x, y)] == last_at(positions@, x, y),
    {
        self.clear();
        let mut i: usize = 0;
        while i < positions.len()
            invariant
                i <= positions@.len(),
                self.wf(),
                forall|x: int, y: int|
                    on_map(x, y) ==> #[trigger] self.cells@[cell_index(x, y)] == last_at(positions@.take(i as int), x, y),
            decreases positions@.len() - i,
        {
            let (e, x, y) = positions[i];
            self.set(x, y, e);
            proof {
                assert(positions@.take(i as int + 1).drop_last() =~= positions@.take(i as int));
                assert forall|a: int, b: int| on_map(a, b) implies #[trigger] self.cells@[cell_index(a, b)] == last_at(positions@.take(i as int + 1), a, b) by {
                    lemma_cell_index(a, b, 0, 0);
                    if on_map(x as int, y as int) {
                        lemma_cell_index(a, b, x as int, y as int);
                    }
                }
            }
            i = i + 1;
        }
        assert(positions@.take(positions@.len() as int) =~= positions@);
    }
}

/// The entity recorded last at `(x, y)` among `ps`, if any.
pub open spec fn last_at(ps: Seq<(u64, usize, usize)>, x: int, y: int) -> Option<u64>
    decreases ps.len(),
{
    if ps.len() == 0 {
        None
    } else if ps.last().1 == x && ps.last().2 == y {
        Some(ps.last().0)
    } else {
        last_at(ps.drop_last(), x, y)
    }
}

} // verus!
