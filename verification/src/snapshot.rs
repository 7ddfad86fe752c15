use vstd::prelude::*;
use crate::tile::{Tile, MAP_WIDTH, MAP_HEIGHT};
use crate::room::{Room, RoomShape, room_fits, on_map, ellipse_axis};
use crate::map::{MAP_CELLS, cell_index};
use crate::occupancy::OccupancyMap;
use crate::action::{ActionEntry, ActionQueue};
use crate::stats::{Stats, Buffs, Buff, ActiveBuffs, EventLog, TurnManager, PendingExp, Skill, Skills, PlayerClass};
use crate::items::{Inventory, Equipment, ItemStack};
use crate::monsters::MonsterKindId;
use crate::saves::{MapMemory, SavedActionKind, save_kind, load_kind, save_kind_spec, load_kind_spec, map_from_saved, last_at};
use crate::world::{World, Monster, PLAYER_ID, actor_pos, has_monster, monster_index, monster_at, positions_of};

verus! {

/// A stack as saved: item and count.
#[derive(Clone, Copy, Debug)]
pub struct SavedStack {
    pub item_id: usize,
    pub count: u32,
}

/// A monster as saved: kind, cell and numbers.
#[derive(Clone, Copy, Debug)]
pub struct SavedMonster {
    pub kind: MonsterKindId,
    pub x: usize,
    pub y: usize,
    pub st: Stats,
}

/// An item on the ground as saved.
#[derive(Clone, Copy, Debug)]
pub struct SavedGroundItem {
    pub x: usize,
    pub y: usize,
    pub item_id: usize,
    pub count: u32,
}

/// A queued action as saved: the cell of its actor, what it does and how far off it is.
#[derive(Clone, Copy, Debug)]
pub struct SavedActionEntry {
    pub x: usize,
    pub y: usize,
    pub kind: SavedActionKind,
    pub av_remaining: u32,
}

/// Everything a save keeps: the floor and seed, the player (cell, numbers, bag, worn
/// items, turn effects, learnt skills, calling), the map's tiles and rooms, the seen cells,
/// the monsters, the items on the ground, the stairs and the action queue.
pub struct GameSave {
    pub floor: u32,
    pub map_seed: u64,
    pub px: usize,
    pub py: usize,
    pub st: Stats,
    pub inv: Vec<SavedStack>,
    pub weapon: Option<SavedStack>,
    pub armor: Option<SavedStack>,
    pub ring: Option<SavedStack>,
    pub buffs: Buffs,
    pub map_tiles: Vec<Tile>,
    pub rooms: Vec<Room>,
    pub explored: Vec<u8>,
    pub monsters: Vec<SavedMonster>,
    pub items: Vec<SavedGroundItem>,
    pub sx: usize,
    pub sy: usize,
    pub action_queue: Vec<SavedActionEntry>,
    pub skills: Vec<Skill>,
    pub class: PlayerClass,
    /// The timed effects on the player.
    pub active_buffs: Vec<Buff>,
}

/// Whether two skills agree in every field.
pub open spec fn same_skill(a: Skill, b: Skill) -> bool {
    &&& a.name@ == b.name@
    &&& a.key == b.key
    &&& a.cost_mp == b.cost_mp
    &&& a.description@ == b.description@
    &&& a.kind == b.kind
    &&& a.proficiency == b.proficiency
}

/// Whether two lists of skills agree skill by skill.
pub open spec fn same_skills(a: Seq<Skill>, b: Seq<Skill>) -> bool {
    a.len() == b.len() && forall|i: int| 0 <= i < a.len() ==> same_skill(#[trigger] a[i], b[i])
}

/// The saved form of a stack (its instance data is not kept).
pub open spec fn saved_stack(s: ItemStack) -> SavedStack {
    SavedStack { item_id: s.item_id, count: s.count }
}

/// The stack a saved stack reads back as.
pub open spec fn loaded_stack(s: SavedStack) -> ItemStack {
    ItemStack { item_id: s.item_id, count: s.count, meta: None }
}

/// The saved form of a worn slot.
pub open spec fn saved_worn(s: Option<ItemStack>) -> Option<SavedStack> {
    match s {
        Some(x) => Some(saved_stack(x)),
        None => None,
    }
}

/// A worn slot read back.
pub open spec fn loaded_worn(s: Option<SavedStack>) -> Option<ItemStack> {
    match s {
        Some(x) => Some(loaded_stack(x)),
        None => None,
    }
}

/// The saved form of a monster.
pub open spec fn saved_monster(m: Monster) -> SavedMonster {
    SavedMonster { kind: m.kind, x: m.pos.0, y: m.pos.1, st: m.stats }
}

/// The saved form of an item on the ground.
pub open spec fn saved_ground(g: (usize, usize, ItemStack)) -> SavedGroundItem {
    SavedGroundItem { x: g.0, y: g.1, item_id: g.2.item_id, count: g.2.count }
}

/// An item on the ground read back.
pub open spec fn loaded_ground(g: SavedGroundItem) -> (usize, usize, ItemStack) {
    (g.x, g.y, ItemStack { item_id: g.item_id, count: g.count, meta: None })
}

/// The saved form of the entries `s` of world `w`: an entry is kept, with its actor's
/// cell, when its actor stands on the floor and its action can be saved.
pub open spec fn stored_queue(w: World, s: Seq<ActionEntry>) -> Seq<SavedActionEntry>
    decreases s.len(),
{
    if s.len() == 0 {
        seq![]
    } else {
        let rest = stored_queue(w, s.drop_last());
        let e = s.last();
        match (actor_pos(w, e.entity), save_kind_spec(e.kind)) {
            (Some(p), Some(k)) => rest.push(SavedActionEntry { x: p.0, y: p.1, kind: k, av_remaining: e.av_remaining }),
            _ => rest,
        }
    }
}

/// Whether `s` holds world `w` as a save keeps it.
pub open spec fn captured(w: World, s: GameSave) -> bool {
    &&& s.floor == w.floor
    &&& (s.sx, s.sy) == w.stairs
    &&& s.class == w.class
    &&& same_skills(s.skills@, w.skills.list@)
    &&& (s.px, s.py) == w.pos
    &&& s.st == w.stats
    &&& s.inv@ == w.inv.stacks@.map_values(|t: ItemStack| saved_stack(t))
    &&& s.weapon == saved_worn(w.equip.weapon)
    &&& s.armor == saved_worn(w.equip.armor)
    &&& s.ring == saved_worn(w.equip.ring)
    &&& s.buffs == w.buffs
    &&& s.active_buffs@ == w.active.0@
    &&& s.map_tiles@ == w.map.tiles@
    &&& s.rooms@ == w.map.rooms@
    &&& s.monsters@ == w.monsters@.map_values(|m: Monster| saved_monster(m))
    &&& s.items@ == w.ground@.map_values(|g: (usize, usize, ItemStack)| saved_ground(g))
    &&& s.action_queue@ == stored_queue(w, w.queue.entries@)
}

/// The first saved monster standing at `(x, y)`, if any.
pub open spec fn first_at(ms: Seq<SavedMonster>, x: usize, y: usize) -> Option<int>
    decreases ms.len(),
{
    if ms.len() == 0 {
        None
    } else {
        match first_at(ms.drop_last(), x, y) {
            Some(i) => Some(i),
            None => if ms.last().x == x && ms.last().y == y { Some(ms.len() - 1) } else { None },
        }
    }
}

/// The actor a saved entry at `(x, y)` belongs to: the player when it stands there,
/// else the first monster there (monster `i` comes back with id `i + 1`), else none.
pub open spec fn owner_at(pos: (usize, usize), ms: Seq<SavedMonster>, x: usize, y: usize) -> Option<u64> {
    if pos == (x, y) {
        Some(PLAYER_ID)
    } else {
        match first_at(ms, x, y) {
            Some(i) => Some((i + 1) as u64),
            None => None,
        }
    }
}

/// The queue read back from the saved entries `s`: each entry whose cell holds an actor.
pub open spec fn restored_queue(pos: (usize, usize), ms: Seq<SavedMonster>, s: Seq<SavedActionEntry>) -> Seq<ActionEntry>
    decreases s.len(),
{
    if s.len() == 0 {
        seq![]
    } else {
        let rest = restored_queue(pos, ms, s.drop_last());
        let e = s.last();
        match owner_at(pos, ms, e.x, e.y) {
            Some(id) => rest.push(ActionEntry { entity: id, kind: load_kind_spec(e.kind), av_remaining: e.av_remaining }),
            None => rest,
        }
    }
}

/// Whether a save can be read back: its tiles and seen cells fit the map, its rooms
/// lie on the map, and the player and every monster stand on the map.
pub open spec fn restorable(s: GameSave) -> bool {
    &&& s.map_tiles@.len() <= MAP_CELLS
    &&& s.explored@.len() <= MAP_CELLS
    &&& forall|i: int| 0 <= i < s.rooms@.len() ==> room_fits(#[trigger] s.rooms@[i])
    &&& on_map(s.px as int, s.py as int)
    &&& forall|i: int|
        0 <= i < s.monsters@.len() ==> on_map((#[trigger] s.monsters@[i]).x as int, s.monsters@[i].y as int)
}

/// `w` is `before` with save `s` read back: every saved part comes back (the map's
/// missing cells as wall), with the floor number, the stairs, the learnt skills and
/// the calling and the timed effects,
/// monster `i` as id `i + 1` with nothing seen, the queue as [`restored_queue`]; the
/// log, turn state, pending experience and sight start afresh; the occupancy
/// is made from who stands where.
pub open spec fn restored(before: World, s: GameSave, w: World) -> bool {
    &&& w.wf()
    &&& forall|i: int|
        0 <= i < MAP_CELLS ==> #[trigger] w.map.tiles@[i] == if i < s.map_tiles@.len() {
            s.map_tiles@[i]
        } else {
            Tile::Wall
        }
    &&& w.map.rooms@ == s.rooms@
    &&& w.pos == (s.px, s.py)
    &&& w.stats == s.st
    &&& w.inv.stacks@ == s.inv@.map_values(|t: SavedStack| loaded_stack(t))
    &&& w.inv.capacity == 36
    &&& w.equip.weapon == loaded_worn(s.weapon)
    &&& w.equip.armor == loaded_worn(s.armor)
    &&& w.equip.ring == loaded_worn(s.ring)
    &&& w.buffs == s.buffs
    &&& w.active.0@ == s.active_buffs@
    &&& w.visible@.len() == 0
    &&& w.skills.list@ == s.skills@
    &&& w.floor == s.floor
    &&& w.stairs == (s.sx, s.sy)
    &&& w.class == s.class
    &&& w.log.messages@.len() == 0
    &&& !w.turns.game_over && !w.turns.wants_quit
    &&& w.pending.amount == 0
    &&& w.monsters@.len() == s.monsters@.len()
    &&& forall|i: int|
        0 <= i < w.monsters@.len() ==> {
            let m = #[trigger] w.monsters@[i];
            let r = s.monsters@[i];
            &&& m.id == i + 1
            &&& m.kind == r.kind
            &&& m.pos == (r.x, r.y)
            &&& m.stats == r.st
            &&& m.last_seen is None
            &&& m.visible@.len() == 0
        }
    &&& w.ground@ == s.items@.map_values(|g: SavedGroundItem| loaded_ground(g))
    &&& w.queue.entries@ == restored_queue((s.px, s.py), s.monsters@, s.action_queue@)
    &&& forall|x: int, y: int|
        on_map(x, y) ==> #[trigger] w.occ.cells@[cell_index(x, y)] == last_at(positions_of(w), x, y)
}

/// Whether a room's arithmetic fits machine integers (see [`room_fits`]).
fn room_fits_exec(r: &Room) -> (b: bool)
    ensures
        b == room_fits(*r),
{
    match r.shape {
        RoomShape::Rect => r.x <= usize::MAX - r.w && r.y <= usize::MAX - r.h,
        RoomShape::Circle => {
            let lim: usize = isize::MAX as usize;
            let ww: u128 = r.w as u128;
            proof {
                assert(ww * ww <= 0xffff_ffff_ffff_ffff * 0xffff_ffff_ffff_ffff) by (nonlinear_arith)
                    requires ww <= 0xffff_ffff_ffff_ffff;
            }
            r.x <= lim && r.w <= lim - r.x && r.y <= lim && r.w <= lim - r.y && ww * ww <= lim as u128
        },
        RoomShape::Diamond => {
            let lim: usize = isize::MAX as usize;
            r.x <= lim && r.w <= lim - r.x && r.y <= lim && r.w <= lim - r.y && r.w <= lim / 2
        },
        RoomShape::Ellipse => {
            let lim: usize = isize::MAX as usize;
            let a: u128 = if r.w >= 1 { r.w as u128 } else { 1 };
            let b: u128 = if r.h >= 1 { r.h as u128 } else { 1 };
            proof {
                assert(a * b <= 0xffff_ffff_ffff_ffff * 0xffff_ffff_ffff_ffff) by (nonlinear_arith)
                    requires 1 <= a <= 0xffff_ffff_ffff_ffff, 1 <= b <= 0xffff_ffff_ffff_ffff;
                assert(a == ellipse_axis(r.w) && b == ellipse_axis(r.h));
            }
            r.x <= lim && r.w <= lim - r.x && r.y <= lim && r.h <= lim - r.y && a * b <= lim as u128
        },
    }
}

/// The actor that saved entries at `(x, y)` are read back for (see [`owner_at`]).
fn owner_of(pos: (usize, usize), ms: &Vec<SavedMonster>, x: usize, y: usize) -> (r: Option<u64>)
    ensures
        r == owner_at(pos, ms@, x, y),
{
    if pos.0 == x && pos.1 == y {
        return Some(PLAYER_ID);
    }
    let mut found: Option<usize> = None;
    let mut i: usize = 0;
    while i < ms.len()
        invariant
            i <= ms@.len(),
            match found {
                Some(k) => first_at(ms@.take(i as int), x, y) == Some(k as int) && k < i,
                None => first_at(ms@.take(i as int), x, y) is None,
            },
        decreases ms@.len() - i,
    {
        assert(ms@.take(i as int + 1).drop_last() =~= ms@.take(i as int));
        if found.is_none() && ms[i].x == x && ms[i].y == y {
            found = Some(i);
        }
        i = i + 1;
    }
    assert(ms@.take(ms@.len() as int) =~= ms@);
    match found {
        Some(k) => Some((k + 1) as u64),
        None => None,
    }
}

impl GameSave {
    /// The save of world `w`, made from seed `map_seed`, with the seen cells of
    /// `memory` (see [`captured`]).
    pub fn capture(w: &World, map_seed: u64, memory: &MapMemory) -> (s: GameSave)
        requires
            w.wf(),
        ensures
            captured(*w, s),
            s.map_seed == map_seed,
            s.explored@.len() == memory.explored@.len(),
            forall|i: int| 0 <= i < s.explored@.len() ==> s.explored@[i] == (if memory.explored@[i] { 1u8 } else { 0u8 }),
    {
        let mut inv: Vec<SavedStack> = Vec::new();
        let mut i: usize = 0;
        while i < w.inv.stacks.len()
            invariant
                i <= w.inv.stacks@.len(),
                inv@.len() == i,
                forall|k: int| 0 <= k < i ==> inv@[k] == saved_stack(#[trigger] w.inv.stacks@[k]),
            decreases w.inv.stacks@.len() - i,
        {
            inv.push(SavedStack { item_id: w.inv.stacks[i].item_id, count: w.inv.stacks[i].count });
            i = i + 1;
        }
        assert(inv@ =~= w.inv.stacks@.map_values(|t: ItemStack| saved_stack(t)));
        let weapon = match &w.equip.weapon {
            Some(t) => Some(SavedStack { item_id: t.item_id, count: t.count }),
            None => None,
        };
        let armor = match &w.equip.armor {
            Some(t) => Some(SavedStack { item_id: t.item_id, count: t.count }),
            None => None,
        };
        let ring = match &w.equip.ring {
            Some(t) => Some(SavedStack { item_id: t.item_id, count: t.count }),
            None => None,
        };
        let mut tiles: Vec<Tile> = Vec::new();
        i = 0;
        while i < w.map.tiles.len()
            invariant
                i <= w.map.tiles@.len(),
                tiles@ =~= w.map.tiles@.take(i as int),
            decreases w.map.tiles@.len() - i,
        {
            tiles.push(w.map.tiles[i]);
            i = i + 1;
            assert(tiles@ =~= w.map.tiles@.take(i as int));
        }
        assert(w.map.tiles@.take(w.map.tiles@.len() as int) =~= w.map.tiles@);
        let mut rooms: Vec<Room> = Vec::new();
        i = 0;
        while i < w.map.rooms.len()
            invariant
                i <= w.map.rooms@.len(),
                rooms@ =~= w.map.rooms@.take(i as int),
            decreases w.map.rooms@.len() - i,
        {
            rooms.push(w.map.rooms[i]);
            i = i + 1;
            assert(rooms@ =~= w.map.rooms@.take(i as int));
        }
        assert(w.map.rooms@.take(w.map.rooms@.len() as int) =~= w.map.rooms@);
        let mut monsters: Vec<SavedMonster> = Vec::new();
        i = 0;
        while i < w.monsters.len()
            invariant
                i <= w.monsters@.len(),
                monsters@.len() == i,
                forall|k: int| 0 <= k < i ==> monsters@[k] == saved_monster(#[trigger] w.monsters@[k]),
            decreases w.monsters@.len() - i,
        {
            let m = &w.monsters[i];
            monsters.push(SavedMonster { kind: m.kind, x: m.pos.0, y: m.pos.1, st: m.stats });
            i = i + 1;
        }
        assert(monsters@ =~= w.monsters@.map_values(|m: Monster| saved_monster(m)));
        let mut items: Vec<SavedGroundItem> = Vec::new();
        i = 0;
        while i < w.ground.len()
            invariant
                i <= w.ground@.len(),
                items@.len() == i,
                forall|k: int| 0 <= k < i ==> items@[k] == saved_ground(#[trigger] w.ground@[k]),
            decreases w.ground@.len() - i,
        {
            let g = &w.ground[i];
            items.push(SavedGroundItem { x: g.0, y: g.1, item_id: g.2.item_id, count: g.2.count });
            i = i + 1;
        }
        assert(items@ =~= w.ground@.map_values(|g: (usize, usize, ItemStack)| saved_ground(g)));
        let mut queue: Vec<SavedActionEntry> = Vec::new();
        i = 0;
        while i < w.queue.entries.len()
            invariant
                w.wf(),
                i <= w.queue.entries@.len(),
                queue@ == stored_queue(*w, w.queue.entries@.take(i as int)),
            decreases w.queue.entries@.len() - i,
        {
            let e = &w.queue.entries[i];
            assert(w.queue.entries@.take(i as int + 1).drop_last() =~= w.queue.entries@.take(i as int));
            match (w.actor_cell(e.entity), save_kind(e.kind)) {
                (Some(p), Some(k)) => {
                    queue.push(SavedActionEntry { x: p.0, y: p.1, kind: k, av_remaining: e.av_remaining });
                },
                _ => {},
            }
            i = i + 1;
        }
        assert(w.queue.entries@.take(w.queue.entries@.len() as int) =~= w.queue.entries@);
        let mut skills: Vec<Skill> = Vec::new();
        i = 0;
        while i < w.skills.list.len()
            invariant
                i <= w.skills.list@.len(),
                skills@.len() == i,
                forall|k: int| 0 <= k < i ==> same_skill(#[trigger] skills@[k], w.skills.list@[k]),
            decreases w.skills.list@.len() - i,
        {
            let t = &w.skills.list[i];
            skills.push(Skill {
                name: t.name.clone(),
                key: t.key,
                cost_mp: t.cost_mp,
                description: t.description.clone(),
                kind: t.kind,
                proficiency: t.proficiency,
            });
            i = i + 1;
        }
        let mut active: Vec<Buff> = Vec::new();
        i = 0;
        while i < w.active.0.len()
            invariant
                i <= w.active.0@.len(),
                active@ =~= w.active.0@.take(i as int),
            decreases w.active.0@.len() - i,
        {
            active.push(w.active.0[i]);
            i = i + 1;
            assert(active@ =~= w.active.0@.take(i as int));
        }
        assert(w.active.0@.take(w.active.0@.len() as int) =~= w.active.0@);
        GameSave {
            floor: w.floor,
            map_seed,
            px: w.pos.0,
            py: w.pos.1,
            st: w.stats,
            inv,
            weapon,
            armor,
            ring,
            buffs: w.buffs,
            map_tiles: tiles,
            rooms,
            explored: memory.to_bytes(),
            monsters,
            items,
            sx: w.stairs.0,
            sy: w.stairs.1,
            action_queue: queue,
            skills,
            class: w.class,
            active_buffs: active,
        }
    }

    /// Whether the save can be read back (see [`restorable`]).
    pub fn fits(&self) -> (b: bool)
        ensures
            b == restorable(*self),
    {
        if self.map_tiles.len() > MAP_CELLS || self.explored.len() > MAP_CELLS {
            return false;
        }
        if !(self.px < MAP_WIDTH && self.py < MAP_HEIGHT) {
            return false;
        }
        let mut i: usize = 0;
        while i < self.rooms.len()
            invariant
                i <= self.rooms@.len(),
                forall|k: int| 0 <= k < i ==> room_fits(#[trigger] self.rooms@[k]),
            decreases self.rooms@.len() - i,
        {
            if !room_fits_exec(&self.rooms[i]) {
                return false;
            }
            i = i + 1;
        }
        i = 0;
        while i < self.monsters.len()
            invariant
                i <= self.monsters@.len(),
                forall|k: int|
                    0 <= k < i ==> on_map((#[trigger] self.monsters@[k]).x as int, self.monsters@[k].y as int),
            decreases self.monsters@.len() - i,
        {
            if !(self.monsters[i].x < MAP_WIDTH && self.monsters[i].y < MAP_HEIGHT) {
                return false;
            }
            i = i + 1;
        }
        true
    }

    /// Reads the save back into `w` (see [`restored`]) and gives the seen cells.
    pub fn restore(self, w: &mut World) -> (memory: MapMemory)
        requires
            old(w).wf(),
            restorable(self),
        ensures
            restored(*old(w), self, *final(w)),
            memory.explored@.len() == MAP_CELLS,
            forall|i: int| 0 <= i < self.explored@.len() ==> #[trigger] memory.explored@[i] == (self.explored@[i] != 0),
            forall|i: int| self.explored@.len() <= i < MAP_CELLS ==> !#[trigger] memory.explored@[i],
    {
        let mut stacks: Vec<ItemStack> = Vec::new();
        let mut i: usize = 0;
        while i < self.inv.len()
            invariant
                i <= self.inv@.len(),
                stacks@.len() == i,
                forall|k: int| 0 <= k < i ==> stacks@[k] == loaded_stack(#[trigger] self.inv@[k]),
            decreases self.inv@.len() - i,
        {
            stacks.push(ItemStack { item_id: self.inv[i].item_id, count: self.inv[i].count, meta: None });
            i = i + 1;
        }
        assert(stacks@ =~= self.inv@.map_values(|t: SavedStack| loaded_stack(t)));
        let mut monsters: Vec<Monster> = Vec::new();
        i = 0;
        while i < self.monsters.len()
            invariant
                i <= self.monsters@.len(),
                monsters@.len() == i,
                forall|k: int|
                    0 <= k < i ==> {
                        let m = #[trigger] monsters@[k];
                        let r = self.monsters@[k];
                        &&& m.id == k + 1
                        &&& m.kind == r.kind
                        &&& m.pos == (r.x, r.y)
                        &&& m.stats == r.st
                        &&& m.last_seen is None
                        &&& m.visible@.len() == 0
                    },
            decreases self.monsters@.len() - i,
        {
            let r = self.monsters[i];
            monsters.push(Monster {
                id: (i + 1) as u64,
                kind: r.kind,
                pos: (r.x, r.y),
                stats: r.st,
                last_seen: None,
                visible: Vec::new(),
            });
            i = i + 1;
        }
        let mut ground: Vec<(usize, usize, ItemStack)> = Vec::new();
        i = 0;
        while i < self.items.len()
            invariant
                i <= self.items@.len(),
                ground@.len() == i,
                forall|k: int| 0 <= k < i ==> ground@[k] == loaded_ground(#[trigger] self.items@[k]),
            decreases self.items@.len() - i,
        {
            let g = self.items[i];
            ground.push((g.x, g.y, ItemStack { item_id: g.item_id, count: g.count, meta: None }));
            i = i + 1;
        }
        assert(ground@ =~= self.items@.map_values(|g: SavedGroundItem| loaded_ground(g)));
        let pos = (self.px, self.py);
        let mut entries: Vec<ActionEntry> = Vec::new();
        i = 0;
        while i < self.action_queue.len()
            invariant
                i <= self.action_queue@.len(),
                entries@ == restored_queue(pos, self.monsters@, self.action_queue@.take(i as int)),
            decreases self.action_queue@.len() - i,
        {
            let e = self.action_queue[i];
            assert(self.action_queue@.take(i as int + 1).drop_last() =~= self.action_queue@.take(i as int));
            match owner_of(pos, &self.monsters, e.x, e.y) {
                Some(id) => {
                    entries.push(ActionEntry { entity: id, kind: load_kind(e.kind), av_remaining: e.av_remaining });
                },
                None => {},
            }
            i = i + 1;
        }
        assert(self.action_queue@.take(self.action_queue@.len() as int) =~= self.action_queue@);
        let weapon = match self.weapon {
            Some(t) => Some(ItemStack { item_id: t.item_id, count: t.count, meta: None }),
            None => None,
        };
        let armor = match self.armor {
            Some(t) => Some(ItemStack { item_id: t.item_id, count: t.count, meta: None }),
            None => None,
        };
        let ring = match self.ring {
            Some(t) => Some(ItemStack { item_id: t.item_id, count: t.count, meta: None }),
            None => None,
        };
        let seen = MapMemory::from_bytes(&self.explored);
        w.map = map_from_saved(&self.map_tiles, self.rooms);
        w.occ = OccupancyMap::new();
        w.pos = pos;
        w.visible = Vec::new();
        w.stats = self.st;
        w.inv = Inventory { stacks, capacity: 36 };
        w.equip = Equipment { weapon, armor, ring };
        w.buffs = self.buffs;
        w.active = ActiveBuffs(self.active_buffs);
        w.log = EventLog::new();
        w.turns = TurnManager::new();
        w.queue = ActionQueue { entries };
        w.pending = PendingExp { amount: 0 };
        w.monsters = monsters;
        w.ground = ground;
        w.floor = self.floor;
        w.class = self.class;
        w.stairs = (self.sx, self.sy);
        w.skills = Skills { list: self.skills };
        w.reoccupy();
        seen
    }
}

} // verus!

verus! {

/// Whether the player and the monsters of `w` all stand in different cells.
pub open spec fn apart(w: World) -> bool {
    &&& forall|i: int| 0 <= i < w.monsters@.len() ==> (#[trigger] w.monsters@[i]).pos != w.pos
    &&& forall|i: int, j: int|
        0 <= i < w.monsters@.len() && 0 <= j < w.monsters@.len() && i != j ==> (#[trigger] w.monsters@[i]).pos
            != (#[trigger] w.monsters@[j]).pos
}

/// The id actor `id` of `w` comes back with from a save: the player keeps its id,
/// monster `i` gets `i + 1`.
pub open spec fn renamed_id(w: World, id: u64) -> u64 {
    if id == PLAYER_ID {
        PLAYER_ID
    } else {
        (monster_index(w.monsters@, id) + 1) as u64
    }
}

/// The entries `s` of `w` as a save brings them back: those whose actor stands on the
/// floor and whose action can be saved, with the actor's new id.
pub open spec fn renamed_queue(w: World, s: Seq<ActionEntry>) -> Seq<ActionEntry>
    decreases s.len(),
{
    if s.len() == 0 {
        seq![]
    } else {
        let rest = renamed_queue(w, s.drop_last());
        let e = s.last();
        if actor_pos(w, e.entity) is Some && save_kind_spec(e.kind) is Some {
            rest.push(ActionEntry { entity: renamed_id(w, e.entity), ..e })
        } else {
            rest
        }
    }
}

proof fn lemma_first_at_none(ms: Seq<SavedMonster>, x: usize, y: usize)
    requires
        forall|j: int| 0 <= j < ms.len() ==> !((#[trigger] ms[j]).x == x && ms[j].y == y),
    ensures
        first_at(ms, x, y) is None,
    decreases ms.len(),
{
    if ms.len() > 0 {
        lemma_first_at_none(ms.drop_last(), x, y);
    }
}

proof fn lemma_first_at_only(ms: Seq<SavedMonster>, k: int, x: usize, y: usize)
    requires
        0 <= k < ms.len(),
        ms[k].x == x && ms[k].y == y,
        forall|j: int| 0 <= j < ms.len() && j != k ==> !((#[trigger] ms[j]).x == x && ms[j].y == y),
    ensures
        first_at(ms, x, y) == Some(k),
    decreases ms.len(),
{
    if k == ms.len() - 1 {
        lemma_first_at_none(ms.drop_last(), x, y);
    } else {
        lemma_first_at_only(ms.drop_last(), k, x, y);
    }
}

proof fn lemma_owner(w: World, id: u64)
    requires
        w.wf(),
        apart(w),
        actor_pos(w, id) is Some,
    ensures
        ({
            let p = actor_pos(w, id)->0;
            owner_at(w.pos, w.monsters@.map_values(|m: Monster| saved_monster(m)), p.0, p.1) == Some(renamed_id(w, id))
        }),
{
    if id != PLAYER_ID {
        let ms = w.monsters@.map_values(|m: Monster| saved_monster(m));
        let k = monster_index(w.monsters@, id);
        let j0 = choose|j: int| #[trigger] monster_at(w.monsters@, id, j);
        crate::world::lemma_monster_index(w, id, j0);
        let p = w.monsters@[k].pos;
        assert(w.monsters@[k].pos != w.pos);
        assert forall|j: int| 0 <= j < ms.len() && j != k implies !((#[trigger] ms[j]).x == p.0 && ms[j].y == p.1) by {
            assert(w.monsters@[j].pos != w.monsters@[k].pos);
        }
        lemma_first_at_only(ms, k, p.0, p.1);
    }
}

proof fn lemma_queue_back(w: World, s: Seq<ActionEntry>)
    requires
        w.wf(),
        apart(w),
    ensures
        restored_queue(w.pos, w.monsters@.map_values(|m: Monster| saved_monster(m)), stored_queue(w, s))
            == renamed_queue(w, s),
    decreases s.len(),
{
    if s.len() > 0 {
        let ms = w.monsters@.map_values(|m: Monster| saved_monster(m));
        lemma_queue_back(w, s.drop_last());
        let e = s.last();
        let rest = stored_queue(w, s.drop_last());
        if actor_pos(w, e.entity) is Some && save_kind_spec(e.kind) is Some {
            lemma_owner(w, e.entity);
            let p = actor_pos(w, e.entity)->0;
            let x = SavedActionEntry { x: p.0, y: p.1, kind: save_kind_spec(e.kind)->0, av_remaining: e.av_remaining };
            assert(stored_queue(w, s) == rest.push(x));
            assert(rest.push(x).drop_last() =~= rest);
            assert(load_kind_spec(save_kind_spec(e.kind)->0) == e.kind);
        }
    }
}

/// Reading a save back gives the world it was made from: the floor number, the
/// stairs, the player's cell, calling, learnt skills, numbers, bag and worn items (item and
/// count), effects (timed ones too), the map, the monsters' kinds, cells
/// and numbers, and the items on the ground (where and item and count); and the save
/// of a world can be read back once its seen cells fit the map.
pub proof fn lemma_save_roundtrip(w: World, s: GameSave, before: World, back: World)
    requires
        w.wf(),
        captured(w, s),
        restored(before, s, back),
    ensures
        s.explored@.len() <= MAP_CELLS ==> restorable(s),
        back.pos == w.pos,
        back.floor == w.floor,
        back.stairs == w.stairs,
        back.class == w.class,
        same_skills(back.skills.list@, w.skills.list@),
        back.stats == w.stats,
        back.buffs == w.buffs,
        back.active.0@ == w.active.0@,
        back.map.tiles@ == w.map.tiles@,
        back.map.rooms@ == w.map.rooms@,
        back.inv.stacks@.map_values(|t: ItemStack| saved_stack(t)) == w.inv.stacks@.map_values(|t: ItemStack| saved_stack(t)),
        saved_worn(back.equip.weapon) == saved_worn(w.equip.weapon),
        saved_worn(back.equip.armor) == saved_worn(w.equip.armor),
        saved_worn(back.equip.ring) == saved_worn(w.equip.ring),
        back.monsters@.map_values(|m: Monster| saved_monster(m)) == w.monsters@.map_values(|m: Monster| saved_monster(m)),
        back.ground@.map_values(|g: (usize, usize, ItemStack)| saved_ground(g)) == w.ground@.map_values(|g: (usize, usize, ItemStack)| saved_ground(g)),
{
    assert(back.map.tiles@ =~= w.map.tiles@);
    assert(back.inv.stacks@.map_values(|t: ItemStack| saved_stack(t)) =~= w.inv.stacks@.map_values(|t: ItemStack| saved_stack(t)));
    assert(back.monsters@.map_values(|m: Monster| saved_monster(m)) =~= w.monsters@.map_values(|m: Monster| saved_monster(m)));
    assert(back.ground@.map_values(|g: (usize, usize, ItemStack)| saved_ground(g)) =~= w.ground@.map_values(|g: (usize, usize, ItemStack)| saved_ground(g)));
}

/// When the player and the monsters stand in different cells, the queue read back
/// from a save holds the entries whose actor is on the floor and whose action can be
/// saved, in order, each with its actor's new id.
pub proof fn lemma_save_queue_roundtrip(w: World, s: GameSave, before: World, back: World)
    requires
        w.wf(),
        apart(w),
        captured(w, s),
        restored(before, s, back),
    ensures
        back.queue.entries@ == renamed_queue(w, w.queue.entries@),
{
    lemma_queue_back(w, w.queue.entries@);
}

} // verus!
