use vstd::prelude::*;
use crate::tile::{MAP_WIDTH, MAP_HEIGHT};
use crate::room::{on_map, abs_int};
use crate::map::{DungeonMap, wrap_step};
use crate::occupancy::OccupancyMap;
use crate::action::{
    ActionEntry, ActionKindV3, ActionQueue, next_event, advanced, waiting_entries, ready_entries, holds_entity,
    lemma_next_event_is_min,
};
use crate::stats::{
    Stats, Skills, Buffs, ActiveBuffs, EventLog, TurnManager, PendingExp, BuffKind, buff_total, buff_sums_fit,
    buff_sums_check, effective_defense, effective_attack, log_view, logged, exp_outcome, exp_guard, lemma_exp_guard,
    apply_exp,
};
use crate::map::cell_index;
use crate::saves::last_at;
use crate::items::{
    Inventory, Equipment, ItemStack, ItemRegistry, worn, bonus_sum, bonus_sums_fit, bonus_sums_check, bonus_field,
    equipment_bonus,
};
use crate::monsters::{MonsterKindId, monster_name, monster_title, monster_stats, monster_stats_are, monster_fits};
use crate::conduct::{
    move_ok, can_move_to, keeps_fleeing, flee_continues, flight_best, flee_step, offset_of, offset, chase_answer,
    chase_step, ChaseMove, raw_damage, strike, blow_damage_spec, skill_cast, cast_fits, execute_skill,
    without_entities, buffs_after,
};
use crate::monsters::{loot_of, lemma_loot_counts_fit, monster_loot, count_draw_fits, loot_drops, stacks_are};
use crate::items::stack_name;
use crate::bag::logged_each;
use crate::stats::Buff;
use crate::pathfinding::{is_route, route_nodes, passable};
use crate::regions::cell_of;
use crate::fov::{calculate_visible_tiles, seen_cells, shadowcast_marks, vision_mask};
use crate::action::{CanChase, CanFlee, CanWander};
use crate::turns::{
    MonsterSense, chase_decision, flee_decision, wander_decision, arbitration, chase_wishes, flee_wishes,
    wander_wishes, priority_order, arbitrated,
};
use crate::stats::check_death;
use crate::stats::PlayerClass;
use crate::text::{push_text, push_decimal, push_signed, decimal, signed_decimal};
use crate::rng::random_i32_in;
use rand::rngs::SmallRng;

verus! {

/// The id of the player; monsters have other ids.
pub const PLAYER_ID: u64 = 0;

/// How far the player and the monsters see.
pub const SIGHT: usize = 10;

/// A monster on the floor: its id, kind, cell, numbers, the cell where it last saw
/// the player, and the cells it sees.
pub struct Monster {
    pub id: u64,
    pub kind: MonsterKindId,
    pub pos: (usize, usize),
    pub stats: Stats,
    pub last_seen: Option<(usize, usize)>,
    pub visible: Vec<(usize, usize)>,
}

/// One floor of the game in play: the map and who stands where, the player and what
/// it carries, the log, the action queue, the monsters and the items on the ground.
pub struct World {
    pub map: DungeonMap,
    pub occ: OccupancyMap,
    pub pos: (usize, usize),
    pub visible: Vec<(usize, usize)>,
    pub stats: Stats,
    pub inv: Inventory,
    pub equip: Equipment,
    pub skills: Skills,
    pub buffs: Buffs,
    pub active: ActiveBuffs,
    pub log: EventLog,
    pub turns: TurnManager,
    pub queue: ActionQueue,
    pub pending: PendingExp,
    pub monsters: Vec<Monster>,
    pub ground: Vec<(usize, usize, ItemStack)>,
    /// The floor number, 1 at the top.
    pub floor: u32,
    /// Where the stairs down are.
    pub stairs: (usize, usize),
    /// The player's calling.
    pub class: PlayerClass,
}

/// `i` is the place of monster `id` in `ms`.
pub open spec fn monster_at(ms: Seq<Monster>, id: u64, i: int) -> bool {
    0 <= i < ms.len() && ms[i].id == id
}

/// Whether monster `id` is on the floor.
pub open spec fn has_monster(ms: Seq<Monster>, id: u64) -> bool {
    exists|i: int| #[trigger] monster_at(ms, id, i)
}

/// The place of monster `id` (meaningful when it is there).
pub open spec fn monster_index(ms: Seq<Monster>, id: u64) -> int {
    choose|i: int| #[trigger] monster_at(ms, id, i)
}

impl World {
    /// The map and occupancy are whole, the player and every monster stand on the
    /// map, and the monsters have distinct ids, none the player's.
    pub open spec fn wf(&self) -> bool {
        &&& self.map.wf()
        &&& self.occ.wf()
        &&& on_map(self.pos.0 as int, self.pos.1 as int)
        &&& forall|i: int|
            0 <= i < self.monsters@.len() ==> on_map(
                (#[trigger] self.monsters@[i]).pos.0 as int,
                self.monsters@[i].pos.1 as int,
            )
        &&& forall|i: int, j: int|
            0 <= i < j < self.monsters@.len() ==> (#[trigger] self.monsters@[i]).id != (#[trigger] self.monsters@[j]).id
        &&& forall|i: int| 0 <= i < self.monsters@.len() ==> (#[trigger] self.monsters@[i]).id != PLAYER_ID
        &&& forall|i: int|
            0 <= i < self.monsters@.len() ==> ((#[trigger] self.monsters@[i]).last_seen matches Some(l) ==> on_map(
                l.0 as int,
                l.1 as int,
            ))
    }
}

/// Distinct ids give one place per monster.
pub proof fn lemma_monster_index(w: World, id: u64, i: int)
    requires
        w.wf(),
        monster_at(w.monsters@, id, i),
    ensures
        monster_index(w.monsters@, id) == i,
{
    let k = monster_index(w.monsters@, id);
    assert(monster_at(w.monsters@, id, k));
    if k < i {
        assert(w.monsters@[k].id != w.monsters@[i].id);
    } else if i < k {
        assert(w.monsters@[i].id != w.monsters@[k].id);
    }
}

/// Where actor `e` stands: the player, a monster, or nobody.
pub open spec fn actor_pos(w: World, e: u64) -> Option<(usize, usize)> {
    if e == PLAYER_ID {
        Some(w.pos)
    } else if has_monster(w.monsters@, e) {
        Some(w.monsters@[monster_index(w.monsters@, e)].pos)
    } else {
        None
    }
}

/// The numbers of actor `e`, if it is on the floor.
pub open spec fn actor_stats(w: World, e: u64) -> Option<Stats> {
    if e == PLAYER_ID {
        Some(w.stats)
    } else if has_monster(w.monsters@, e) {
        Some(w.monsters@[monster_index(w.monsters@, e)].stats)
    } else {
        None
    }
}

/// Every part of the world but the player's cell and the monsters is as in `w`.
pub open spec fn same_but_places(w: World, w2: World) -> bool {
    &&& w2.map == w.map
    &&& w2.occ == w.occ
    &&& w2.visible == w.visible
    &&& w2.stats == w.stats
    &&& w2.inv == w.inv
    &&& w2.equip == w.equip
    &&& w2.skills == w.skills
    &&& w2.buffs == w.buffs
    &&& w2.active == w.active
    &&& w2.log == w.log
    &&& w2.turns == w.turns
    &&& w2.queue == w.queue
    &&& w2.pending == w.pending
    &&& w2.ground == w.ground
}

/// `w2` is `w` with actor `e` moved to `p` (the same world when there is no such
/// actor).
pub open spec fn placed(w: World, w2: World, e: u64, p: (usize, usize)) -> bool {
    &&& same_but_places(w, w2)
    &&& if e == PLAYER_ID {
        w2.pos == p && w2.monsters@ == w.monsters@
    } else if has_monster(w.monsters@, e) {
        let i = monster_index(w.monsters@, e);
        w2.pos == w.pos && w2.monsters@ == w.monsters@.update(i, Monster { pos: p, ..w.monsters@[i] })
    } else {
        w2.pos == w.pos && w2.monsters@ == w.monsters@
    }
}

/// The cell one step from `p` by `(dx, dy)`, with `usize` wrap-around.
pub open spec fn stepped(p: (usize, usize), dx: int, dy: int) -> (usize, usize) {
    (wrap_step(p.0 as int, dx) as usize, wrap_step(p.1 as int, dy) as usize)
}

/// `w2` is `w` after actor `e` tried a step by `(dx, dy)`: taken when allowed.
pub open spec fn moved(w: World, w2: World, e: u64, dx: int, dy: int) -> bool {
    match actor_pos(w, e) {
        Some(p) => if move_ok(w.map, w.occ, p.0 as int, p.1 as int, dx, dy) {
            placed(w, w2, e, stepped(p, dx, dy))
        } else {
            w2 == w
        },
        None => w2 == w,
    }
}

/// Whether a chase by `e` may go on: while the player's cell is in the chaser's
/// sight.
pub open spec fn chase_valid(w: World, e: u64) -> bool {
    if e == PLAYER_ID {
        w.visible@.contains(w.pos)
    } else if has_monster(w.monsters@, e) {
        let m = w.monsters@[monster_index(w.monsters@, e)];
        m.visible@.contains(w.pos)
    } else {
        false
    }
}

/// Whether entry `e` may still run: a chase while its monster sees the player, a
/// flight while hit points stay under 30%, a move while the step is
/// allowed, an attack while its target is on the floor; anything else always.
pub open spec fn entry_valid(w: World, e: ActionEntry) -> bool {
    match e.kind {
        ActionKindV3::Chase => chase_valid(w, e.entity),
        ActionKindV3::Flee => match actor_stats(w, e.entity) {
            Some(s) => keeps_fleeing(s.hp as int, s.max_hp as int),
            None => false,
        },
        ActionKindV3::Move { dx, dy } => match actor_pos(w, e.entity) {
            Some(p) => move_ok(w.map, w.occ, p.0 as int, p.1 as int, dx as int, dy as int),
            None => false,
        },
        ActionKindV3::Attack { target } => has_monster(w.monsters@, target),
        _ => true,
    }
}

/// Whether `cells` holds `c`.
fn holds_cell(cells: &Vec<(usize, usize)>, c: (usize, usize)) -> (b: bool)
    ensures
        b == cells@.contains(c),
{
    let mut i: usize = 0;
    while i < cells.len()
        invariant
            i <= cells@.len(),
            forall|k: int| 0 <= k < i ==> cells@[k] != c,
        decreases cells@.len() - i,
    {
        let d = cells[i];
        if d.0 == c.0 && d.1 == c.1 {
            assert(cells@[i as int] == c);
            return true;
        }
        i = i + 1;
    }
    false
}

impl World {
    /// The place of monster `id`, if it is on the floor.
    pub fn find_monster(&self, id: u64) -> (r: Option<usize>)
        requires
            self.wf(),
        ensures
            r matches Some(i) ==> monster_at(self.monsters@, id, i as int) && monster_index(self.monsters@, id) == i,
            r is None <==> !has_monster(self.monsters@, id),
    {
        let mut i: usize = 0;
        while i < self.monsters.len()
            invariant
                self.wf(),
                i <= self.monsters@.len(),
                forall|k: int| 0 <= k < i ==> self.monsters@[k].id != id,
            decreases self.monsters@.len() - i,
        {
            if self.monsters[i].id == id {
                proof {
                    assert(monster_at(self.monsters@, id, i as int));
                    lemma_monster_index(*self, id, i as int);
                }
                return Some(i);
            }
            i = i + 1;
        }
        proof {
            assert forall|k: int| !monster_at(self.monsters@, id, k) by {
                if 0 <= k < self.monsters@.len() {
                    assert(self.monsters@[k].id != id);
                }
            }
        }
        None
    }

    /// Where actor `e` stands, if it is on the floor.
    pub fn actor_cell(&self, e: u64) -> (r: Option<(usize, usize)>)
        requires
            self.wf(),
        ensures
            r == actor_pos(*self, e),
    {
        if e == PLAYER_ID {
            Some(self.pos)
        } else {
            match self.find_monster(e) {
                Some(i) => Some(self.monsters[i].pos),
                None => None,
            }
        }
    }

    /// Whether entry `e` may still run (see [`entry_valid`]).
    pub fn still_valid(&self, e: &ActionEntry) -> (b: bool)
        requires
            self.wf(),
        ensures
            b == entry_valid(*self, *e),
    {
        match e.kind {
            ActionKindV3::Chase => {
                if e.entity == PLAYER_ID {
                    holds_cell(&self.visible, self.pos)
                } else {
                    match self.find_monster(e.entity) {
                        Some(i) => holds_cell(&self.monsters[i].visible, self.pos),
                        None => false,
                    }
                }
            },
            ActionKindV3::Flee => {
                if e.entity == PLAYER_ID {
                    flee_continues(self.stats.hp, self.stats.max_hp)
                } else {
                    match self.find_monster(e.entity) {
                        Some(i) => flee_continues(self.monsters[i].stats.hp, self.monsters[i].stats.max_hp),
                        None => false,
                    }
                }
            },
            ActionKindV3::Move { dx, dy } => match self.actor_cell(e.entity) {
                Some(p) => can_move_to(&self.map, &self.occ, p.0, p.1, dx, dy),
                None => false,
            },
            ActionKindV3::Attack { target } => self.find_monster(target).is_some(),
            _ => true,
        }
    }

    /// Moves actor `e` to `p`.
    fn place(&mut self, e: u64, p: (usize, usize))
        requires
            old(self).wf(),
            on_map(p.0 as int, p.1 as int),
        ensures
            final(self).wf(),
            placed(*old(self), *final(self), e, p),
    {
        if e == PLAYER_ID {
            self.pos = p;
        } else {
            match self.find_monster(e) {
                Some(i) => {
                    let mut m = self.monsters.remove(i);
                    m.pos = p;
                    self.monsters.insert(i, m);
                    proof {
                        assert(self.monsters@ =~= old(self).monsters@.update(
                            i as int,
                            Monster { pos: p, ..old(self).monsters@[i as int] },
                        ));
                    }
                },
                None => {},
            }
        }
    }

    /// A step by `(dx, dy)` of actor `e`, when the step is allowed.
    pub fn move_actor(&mut self, e: u64, dx: isize, dy: isize)
        requires
            old(self).wf(),
        ensures
            final(self).wf(),
            moved(*old(self), *final(self), e, dx as int, dy as int),
    {
        match self.actor_cell(e) {
            Some(p) => {
                if can_move_to(&self.map, &self.occ, p.0, p.1, dx, dy) {
                    let n = (p.0.wrapping_add_signed(dx), p.1.wrapping_add_signed(dy));
                    self.place(e, n);
                }
            },
            None => {},
        }
    }
}

/// A flight step from `(x, y)` among the first `k` offsets lands on the map.
proof fn lemma_flight_on_map(m: DungeonMap, occ: OccupancyMap, pos: (usize, usize), player: (usize, usize), k: int)
    ensures
        flight_best(m, occ, pos, player, k).0 matches Some(n) ==> on_map(n.0 as int, n.1 as int),
    decreases k,
{
    if k > 0 {
        lemma_flight_on_map(m, occ, pos, player, k - 1);
    }
}

/// `w2` is `w` after actor `e` fled from the player: it takes the allowed step that
/// lands farthest from the player, if any lands farther than where it stands... as
/// [`flight_best`] picks it.
pub open spec fn fled(w: World, w2: World, e: u64) -> bool {
    match actor_pos(w, e) {
        Some(p) => match flight_best(w.map, w.occ, p, w.pos, 8).0 {
            Some(n) => placed(w, w2, e, n),
            None => w2 == w,
        },
        None => w2 == w,
    }
}

/// Whether the player's defense (with worn items and shields) adds up within `i32`.
pub open spec fn defense_fits(w: World, reg: &ItemRegistry) -> bool {
    let wn = worn(&w.equip);
    let base = w.stats.defense + bonus_sum(reg, wn, 1, wn.len() as int);
    &&& w.stats.defense <= i32::MAX
    &&& bonus_sums_fit(reg, wn)
    &&& i32::MIN <= base <= i32::MAX
    &&& buff_sums_fit(base, w.active.0@, BuffKind::Shield)
}

/// The player's defense: base, worn items and shields, at least 0.
pub open spec fn defense_value(w: World, reg: &ItemRegistry) -> int {
    let wn = worn(&w.equip);
    let total = w.stats.defense + bonus_sum(reg, wn, 1, wn.len() as int) + buff_total(
        w.active.0@,
        BuffKind::Shield,
        w.active.0@.len() as int,
    );
    if total >= 0 { total } else { 0 }
}

/// Whether the player's attack (with worn items and berserk effects) adds up within
/// `i32`.
pub open spec fn attack_fits(w: World, reg: &ItemRegistry) -> bool {
    let wn = worn(&w.equip);
    let base = w.stats.attack + bonus_sum(reg, wn, 0, wn.len() as int);
    &&& w.stats.attack <= i32::MAX
    &&& bonus_sums_fit(reg, wn)
    &&& i32::MIN <= base <= i32::MAX
    &&& buff_sums_fit(base, w.active.0@, BuffKind::Berserk)
}

/// The player's attack: base, worn items and berserk effects, at least 1.
pub open spec fn attack_value(w: World, reg: &ItemRegistry) -> int {
    let wn = worn(&w.equip);
    let total = w.stats.attack + bonus_sum(reg, wn, 0, wn.len() as int) + buff_total(
        w.active.0@,
        BuffKind::Berserk,
        w.active.0@.len() as int,
    );
    if total >= 1 { total } else { 1 }
}

/// Where monster `e` chases: the player when it sees it, else the cell where it last
/// saw the player; nowhere for anyone else.
pub open spec fn chase_target(w: World, e: u64) -> Option<(usize, usize)> {
    if e != PLAYER_ID && has_monster(w.monsters@, e) {
        let m = w.monsters@[monster_index(w.monsters@, e)];
        if m.visible@.contains(w.pos) {
            Some(w.pos)
        } else {
            m.last_seen
        }
    } else {
        None
    }
}

/// The log line of a monster's blow.
pub open spec fn blow_message(kind: MonsterKindId, dmg: int) -> Seq<char> {
    monster_title(kind) + " 攻击了你，"@ + decimal(dmg as nat) + "伤"@
}

/// `hp` less `d`, never below `i32::MIN`.
pub open spec fn sat_sub(hp: i32, d: int) -> i32 {
    if hp - d < i32::MIN { i32::MIN } else if hp - d > i32::MAX { i32::MAX } else { (hp - d) as i32 }
}

/// Within two cells along both axes.
pub open spec fn near2(a: (usize, usize), b: (usize, usize)) -> bool {
    abs_int(a.0 - b.0) <= 2 && abs_int(a.1 - b.1) <= 2
}

/// Everything but the player's numbers, the log and the monsters is as in `w`.
pub open spec fn same_but_fight(w: World, w2: World) -> bool {
    &&& w2.map == w.map
    &&& w2.occ == w.occ
    &&& w2.pos == w.pos
    &&& w2.visible == w.visible
    &&& w2.inv == w.inv
    &&& w2.equip == w.equip
    &&& w2.skills == w.skills
    &&& w2.buffs == w.buffs
    &&& w2.active == w.active
    &&& w2.turns == w.turns
    &&& w2.queue == w.queue
    &&& w2.pending == w.pending
    &&& w2.ground == w.ground
}

/// `w2` is `w` after monster `e` chased with move `mv`: a blow strikes the player for
/// its attack less the player's defense (at least 1) when both add up within `i32`,
/// and is logged; a step moves the monster; a monster that does not see the player
/// forgets where it last saw it once within two cells of that place.
pub open spec fn chased(w: World, w2: World, reg: &ItemRegistry, e: u64, mv: ChaseMove) -> bool {
    let i = monster_index(w.monsters@, e);
    let m = w.monsters@[i];
    let sees = m.visible@.contains(w.pos);
    let last = if !sees && (m.last_seen matches Some(l) && near2(m.pos, l)) {
        None
    } else {
        m.last_seen
    };
    let pos2 = match mv {
        ChaseMove::Step(x, y) => (x, y),
        _ => m.pos,
    };
    let hit = mv == ChaseMove::Attack && defense_fits(w, reg) && m.stats.attack <= i32::MAX;
    let dmg = if m.stats.attack - defense_value(w, reg) >= 1 {
        m.stats.attack - defense_value(w, reg)
    } else {
        1
    };
    &&& same_but_fight(w, w2)
    &&& w2.monsters@ == w.monsters@.update(i, Monster { pos: pos2, last_seen: last, ..m })
    &&& if hit {
        w2.stats == Stats { hp: sat_sub(w.stats.hp, dmg), ..w.stats } && log_view(&w2.log) == logged(
            log_view(&w.log),
            blow_message(m.kind, dmg),
        )
    } else {
        w2.stats == w.stats && w2.log == w.log
    }
}

/// `hp` less `d`, never below `i32::MIN`.
fn sub_hp(hp: i32, d: i32) -> (r: i32)
    ensures
        r == sat_sub(hp, d as int),
{
    let v: i64 = hp as i64 - d as i64;
    if v < -0x8000_0000 {
        i32::MIN
    } else if v > 0x7fff_ffff {
        i32::MAX
    } else {
        v as i32
    }
}

impl World {
    /// A flight step of actor `e` away from the player (see [`fled`]).
    pub fn flee_actor(&mut self, e: u64)
        requires
            old(self).wf(),
        ensures
            final(self).wf(),
            fled(*old(self), *final(self), e),
    {
        match self.actor_cell(e) {
            Some(p) => {
                let player = self.pos;
                match flee_step(&self.map, &self.occ, p, player) {
                    Some(n) => {
                        proof {
                            lemma_flight_on_map(self.map, self.occ, p, player, 8);
                        }
                        self.place(e, n);
                    },
                    None => {},
                }
            },
            None => {},
        }
    }

    /// A random step of actor `e`: one of the eight offsets is drawn, and the step is
    /// taken when allowed.
    pub fn wander_actor(&mut self, e: u64, rng: &mut SmallRng)
        requires
            old(self).wf(),
        ensures
            final(self).wf(),
            exists|d: int| 0 <= d < 8 && #[trigger] moved(*old(self), *final(self), e, offset_of(d).0, offset_of(d).1),
    {
        let d = random_i32_in(rng, 0, 8) as usize;
        let o = offset(d);
        self.move_actor(e, o.0, o.1);
        assert(moved(*old(self), *self, e, offset_of(d as int).0, offset_of(d as int).1));
    }

    /// The player's defense, when it adds up within `i32` (see [`defense_value`]).
    pub fn player_defense(&self, reg: &ItemRegistry) -> (r: Option<u32>)
        ensures
            r is Some <==> defense_fits(*self, reg),
            r matches Some(d) ==> d == defense_value(*self, reg),
    {
        if self.stats.defense > 0x7fff_ffff {
            return None;
        }
        if !bonus_sums_check(&self.equip, reg) {
            return None;
        }
        let bonus = equipment_bonus(&self.inv, &self.equip, reg);
        assert(bonus_field(bonus, 1) == bonus.defense);
        let base: i64 = self.stats.defense as i64 + bonus.defense as i64;
        if base < -0x8000_0000 || base > 0x7fff_ffff {
            return None;
        }
        if !buff_sums_check(base, &self.active.0, BuffKind::Shield) {
            return None;
        }
        Some(effective_defense(&self.stats, &self.inv, &self.equip, Some(&self.active), reg))
    }

    /// The player's attack, when it adds up within `i32` (see [`attack_value`]).
    pub fn player_attack_power(&self, reg: &ItemRegistry) -> (r: Option<u32>)
        ensures
            r is Some <==> attack_fits(*self, reg),
            r matches Some(a) ==> a == attack_value(*self, reg),
    {
        if self.stats.attack > 0x7fff_ffff {
            return None;
        }
        if !bonus_sums_check(&self.equip, reg) {
            return None;
        }
        let bonus = equipment_bonus(&self.inv, &self.equip, reg);
        assert(bonus_field(bonus, 0) == bonus.attack);
        let base: i64 = self.stats.attack as i64 + bonus.attack as i64;
        if base < -0x8000_0000 || base > 0x7fff_ffff {
            return None;
        }
        if !buff_sums_check(base, &self.active.0, BuffKind::Berserk) {
            return None;
        }
        Some(effective_attack(&self.stats, &self.inv, &self.equip, Some(&self.active), reg))
    }

    /// A chase by monster `e` after its target (see [`chase_target`]): the move comes
    /// from [`chase_step`] and is carried out as [`chased`] says; without a target
    /// nothing happens.
    pub fn chase_actor(&mut self, reg: &ItemRegistry, e: u64)
        requires
            old(self).wf(),
        ensures
            final(self).wf(),
            chase_target(*old(self), e) is None ==> *final(self) == *old(self),
            chase_target(*old(self), e) matches Some(t) ==> exists|mv: ChaseMove|
                chase_answer(
                    old(self).map,
                    &old(self).occ,
                    old(self).monsters@[monster_index(old(self).monsters@, e)].pos,
                    t,
                    old(self).monsters@[monster_index(old(self).monsters@, e)].visible@.contains(old(self).pos),
                    mv,
                ) && #[trigger] chased(*old(self), *final(self), reg, e, mv),
    {
        if e == PLAYER_ID {
            return;
        }
        let i = match self.find_monster(e) {
            Some(i) => i,
            None => return,
        };
        let pos = self.monsters[i].pos;
        let kind = self.monsters[i].kind;
        let sees = holds_cell(&self.monsters[i].visible, self.pos);
        let target = if sees { Some(self.pos) } else { self.monsters[i].last_seen };
        let t = match target {
            Some(t) => t,
            None => return,
        };
        let ghost w0 = *self;
        let mv = chase_step(&self.map, &self.occ, pos, t, sees);
        match mv {
            ChaseMove::Attack => {
                let atk = self.monsters[i].stats.attack;
                match self.player_defense(reg) {
                    Some(def) => {
                        if atk <= 0x7fff_ffff {
                            proof {
                                let wn = worn(&w0.equip);
                                let base = w0.stats.defense + bonus_sum(reg, wn, 1, wn.len() as int);
                                assert(i32::MIN <= base + buff_total(w0.active.0@, BuffKind::Shield, w0.active.0@.len() as int) <= i32::MAX);
                            }
                            let dmg = raw_damage(atk, def);
                            self.stats.hp = sub_hp(self.stats.hp, dmg);
                            let mut msg = String::new();
                            push_text(&mut msg, monster_name(kind));
                            push_text(&mut msg, " 攻击了你，");
                            push_decimal(&mut msg, dmg as u64);
                            push_text(&mut msg, "伤");
                            proof {
                                reveal_strlit(" 攻击了你，");
                                reveal_strlit("伤");
                                assert(msg@ =~= blow_message(kind, dmg as int));
                            }
                            self.log.push(msg);
                        }
                    },
                    None => {},
                }
            },
            _ => {},
        }
        let mut m = self.monsters.remove(i);
        match mv {
            ChaseMove::Step(x, y) => {
                proof {
                    let p = choose|p: Seq<(usize, usize)>|
                        #[trigger] is_route(w0.map, Some(&w0.occ), cell_of(pos), cell_of(t), p) && p.len() >= 1 && p[0] == (x, y);
                    let nodes = route_nodes(cell_of(pos), p);
                    assert(nodes[1] == cell_of(p[0]));
                    assert(passable(w0.map, Some(&w0.occ), cell_of(t), nodes[1]));
                }
                m.pos = (x, y);
            },
            _ => {},
        }
        if !sees {
            match m.last_seen {
                Some(l) => {
                    let dx = if pos.0 >= l.0 { pos.0 - l.0 } else { l.0 - pos.0 };
                    let dy = if pos.1 >= l.1 { pos.1 - l.1 } else { l.1 - pos.1 };
                    if dx <= 2 && dy <= 2 {
                        m.last_seen = None;
                    }
                },
                None => {},
            }
        }
        self.monsters.insert(i, m);
        proof {
            let m0 = w0.monsters@[i as int];
            let last = if !sees && (m0.last_seen matches Some(l) && near2(m0.pos, l)) {
                None
            } else {
                m0.last_seen
            };
            let pos2 = match mv {
                ChaseMove::Step(x, y) => (x, y),
                _ => m0.pos,
            };
            assert(self.monsters@ =~= w0.monsters@.update(i as int, Monster { pos: pos2, last_seen: last, ..m0 }));
            assert(chased(w0, *self, reg, e, mv));
        }
    }
}

/// The log line of a kill by the player.
pub open spec fn kill_message(kind: MonsterKindId, exp: u64) -> Seq<char> {
    "你斩击击杀了"@ + monster_title(kind) + "！获得"@ + decimal(exp as nat) + "经验"@
}

/// The log line of a blow by the player that does not kill.
pub open spec fn hit_message(kind: MonsterKindId, crit: bool, dmg: int) -> Seq<char> {
    "你斩击了"@ + monster_title(kind) + (if crit { "！暴击"@ } else { seq![] }) + "，造成"@ + signed_decimal(dmg)
        + "点伤害"@
}

/// The log line of a drop.
pub open spec fn drop_message(reg: &ItemRegistry, kind: MonsterKindId, s: ItemStack) -> Seq<char> {
    monster_title(kind) + "掉落"@ + stack_name(reg, &s) + "x"@ + decimal(s.count as nat)
}

/// The log lines of `drops`, in order.
pub open spec fn drop_messages(reg: &ItemRegistry, kind: MonsterKindId, drops: Seq<ItemStack>) -> Seq<Seq<char>> {
    Seq::new(drops.len(), |k: int| drop_message(reg, kind, drops[k]))
}

/// `drops` lying at `(x, y)`, in order.
pub open spec fn dropped_at(x: usize, y: usize, drops: Seq<ItemStack>) -> Seq<(usize, usize, ItemStack)> {
    Seq::new(drops.len(), |k: int| (x, y, drops[k]))
}

/// The player's blow on `m` before any critical hit: attack less the monster's
/// defense, at least 1.
pub open spec fn raw_blow(w: World, reg: &ItemRegistry, m: Monster) -> int {
    let a = attack_value(w, reg);
    if a - m.stats.defense >= 1 { a - m.stats.defense } else { 1 }
}

/// Whether a blow of the player on monster `target` can be reckoned within `i32`.
pub open spec fn blow_fits(w: World, reg: &ItemRegistry, target: u64) -> bool {
    let m = w.monsters@[monster_index(w.monsters@, target)];
    &&& has_monster(w.monsters@, target)
    &&& attack_fits(w, reg)
    &&& m.stats.defense <= i32::MAX
    &&& i32::MIN <= blow_damage_spec(raw_blow(w, reg, m), true, w.stats.crit_damage_permille as int) <= i32::MAX
}

/// `a + b`, never above `u64::MAX`.
pub open spec fn sat_add(a: u64, b: u64) -> u64 {
    if a + b > u64::MAX { u64::MAX } else { (a + b) as u64 }
}

/// Everything the player's blow leaves alone is as in `w`.
pub open spec fn same_but_spoils(w: World, w2: World) -> bool {
    &&& w2.map == w.map
    &&& w2.occ == w.occ
    &&& w2.pos == w.pos
    &&& w2.visible == w.visible
    &&& w2.stats == w.stats
    &&& w2.inv == w.inv
    &&& w2.equip == w.equip
    &&& w2.skills == w.skills
    &&& w2.buffs == w.buffs
    &&& w2.active == w.active
    &&& w2.turns == w.turns
    &&& w2.queue == w.queue
}

/// `w2` is `w` after the player struck monster `target`, critically when `crit`:
/// the damage (see [`blow_damage_spec`]) comes off its hit points; when they fall to
/// 0 or below, its experience goes to the pending experience, the kill is logged,
/// `drops` fall where it stood (each logged) and it leaves the floor; otherwise the
/// blow is logged.
pub open spec fn attacked(w: World, w2: World, reg: &ItemRegistry, target: u64, crit: bool, drops: Seq<ItemStack>) -> bool {
    let i = monster_index(w.monsters@, target);
    let m = w.monsters@[i];
    let dmg = blow_damage_spec(raw_blow(w, reg, m), crit, w.stats.crit_damage_permille as int);
    let hp2 = sat_sub(m.stats.hp, dmg);
    &&& same_but_spoils(w, w2)
    &&& if hp2 <= 0 {
        &&& w2.pending.amount == sat_add(w.pending.amount, m.stats.exp)
        &&& log_view(&w2.log) == logged_each(
            logged(log_view(&w.log), kill_message(m.kind, m.stats.exp)),
            drop_messages(reg, m.kind, drops),
        )
        &&& w2.ground@ == w.ground@ + dropped_at(m.pos.0, m.pos.1, drops)
        &&& w2.monsters@ == w.monsters@.remove(i)
    } else {
        &&& w2.pending == w.pending
        &&& w2.ground == w.ground
        &&& w2.monsters@ == w.monsters@.update(i, Monster { stats: Stats { hp: hp2, ..m.stats }, ..m })
        &&& log_view(&w2.log) == logged(log_view(&w.log), hit_message(m.kind, crit, dmg))
    }
}

/// Whether the player's blow on `target`, critical when `crit`, kills it.
pub open spec fn kills(w: World, reg: &ItemRegistry, target: u64, crit: bool) -> bool {
    let m = w.monsters@[monster_index(w.monsters@, target)];
    sat_sub(m.stats.hp, blow_damage_spec(raw_blow(w, reg, m), crit, w.stats.crit_damage_permille as int)) <= 0
}

/// What the player's blow does to the monster it strikes: it kills exactly when the
/// damage is at least the monster's hit points, and then the monster leaves the floor
/// (no monster with its id is left, one fewer in all) and its experience is added to
/// the pending experience; a blow of less damage leaves the monster on the floor
/// with that much less hit points and no experience pending from it.
pub proof fn lemma_blow_outcome(
    w: World,
    w2: World,
    reg: &ItemRegistry,
    target: u64,
    crit: bool,
    drops: Seq<ItemStack>,
    i: int,
)
    requires
        w.wf(),
        monster_at(w.monsters@, target, i),
        attacked(w, w2, reg, target, crit, drops),
    ensures
        ({
            let m = w.monsters@[i];
            let dmg = blow_damage_spec(raw_blow(w, reg, m), crit, w.stats.crit_damage_permille as int);
            &&& kills(w, reg, target, crit) <==> dmg >= m.stats.hp
            &&& dmg >= m.stats.hp ==> !has_monster(w2.monsters@, target) && w2.monsters@.len() + 1
                == w.monsters@.len() && w2.pending.amount == (if w.pending.amount + m.stats.exp > u64::MAX {
                u64::MAX as int
            } else {
                w.pending.amount + m.stats.exp
            })
            &&& 0 <= dmg < m.stats.hp ==> w2.monsters@.len() == w.monsters@.len() && w2.monsters@[i].id == target
                && w2.monsters@[i].stats.hp == m.stats.hp - dmg && w2.pending == w.pending
        }),
{
    lemma_monster_index(w, target, i);
    let m = w.monsters@[i];
    let dmg = blow_damage_spec(raw_blow(w, reg, m), crit, w.stats.crit_damage_permille as int);
    if dmg >= m.stats.hp {
        let ms2 = w2.monsters@;
        assert(ms2 == w.monsters@.remove(i));
        if has_monster(ms2, target) {
            let j = choose|j: int| #[trigger] monster_at(ms2, target, j);
            if j < i {
                assert(ms2[j] == w.monsters@[j]);
                assert(w.monsters@[j].id != w.monsters@[i].id);
            } else {
                assert(ms2[j] == w.monsters@[j + 1]);
                assert(w.monsters@[i].id != w.monsters@[j + 1].id);
            }
        }
    }
}

/// `drops` is what the loot table of `kind` gives for some draws.
pub open spec fn loot_outcome(kind: MonsterKindId, drops: Seq<ItemStack>) -> bool {
    exists|ds: Seq<(u32, u32)>|
        ds.len() == loot_of(kind).len() && (forall|i: int|
            0 <= i < ds.len() ==> (#[trigger] ds[i]).0 < 1000 && count_draw_fits(loot_of(kind)[i], ds[i]))
            && stacks_are(drops, #[trigger] loot_drops(loot_of(kind), ds))
}

/// A blow's damage times its critical factor stays far within `i64`.
proof fn lemma_blow_product(raw: int, cd: int)
    requires
        1 <= raw <= 0x7fff_ffff,
        -0x8000_0000 <= cd <= 0x7fff_ffff,
    ensures
        -0x4000_1000_0000_0000 <= raw * (1000 + cd) <= 0x4000_1000_0000_0000,
{
    let b = 1000 + cd;
    if b >= 0 {
        assert(0 <= raw * b <= 0x7fff_ffff * (0x7fff_ffff + 1000)) by (nonlinear_arith)
            requires
                1 <= raw <= 0x7fff_ffff,
                0 <= b <= 0x7fff_ffff + 1000;
    } else {
        assert(0x7fff_ffff * (-0x8000_0000 + 1000) <= raw * b <= 0) by (nonlinear_arith)
            requires
                1 <= raw <= 0x7fff_ffff,
                -0x8000_0000 + 1000 <= b < 0;
    }
}

/// Whether a blow of `raw` damage made critical with `cd` thousandths stays within
/// `i32`.
fn crit_fits(raw: i32, cd: i32) -> (b: bool)
    requires
        raw >= 1,
    ensures
        b == (i32::MIN <= blow_damage_spec(raw as int, true, cd as int) <= i32::MAX),
{
    proof {
        lemma_blow_product(raw as int, cd as int);
    }
    let p: i64 = raw as i64 * (1000 + cd as i64);
    let d: i64 = if p >= 0 { (p + 500) / 1000 } else { -((-p + 500) / 1000) };
    -0x8000_0000 <= d && d <= 0x7fff_ffff
}

/// Whether casting the skill at `idx` keeps the player's numbers within range.
pub open spec fn cast_ok(w: World, idx: int) -> bool {
    0 <= idx < w.skills.list@.len() ==> {
        let sk = w.skills.list@[idx];
        &&& w.stats.mp >= sk.cost_mp ==> i32::MIN <= w.stats.mp - sk.cost_mp <= i32::MAX
        &&& cast_fits(w.stats, sk.kind)
    }
}

/// Everything a cast leaves alone is as in `w`.
pub open spec fn same_but_cast(w: World, w2: World) -> bool {
    &&& w2.map == w.map
    &&& w2.occ == w.occ
    &&& w2.pos == w.pos
    &&& w2.visible == w.visible
    &&& w2.inv == w.inv
    &&& w2.equip == w.equip
    &&& w2.skills == w.skills
    &&& w2.turns == w.turns
    &&& w2.queue == w.queue
    &&& w2.pending == w.pending
    &&& w2.monsters == w.monsters
    &&& w2.ground == w.ground
}

impl World {
    /// A blow by actor `e` on monster `target`: only the player strikes, and only
    /// when the blow can be reckoned within `i32` (see [`blow_fits`]); otherwise
    /// nothing happens. Whether it is critical comes from a draw (never at a rate of
    /// 0, always at 1000 or more); the drops of a kill come from the monster's loot
    /// table (see [`attacked`]).
    pub fn attack_actor(&mut self, reg: &ItemRegistry, e: u64, target: u64, rng: &mut SmallRng)
        requires
            old(self).wf(),
        ensures
            final(self).wf(),
            !(e == PLAYER_ID && blow_fits(*old(self), reg, target)) ==> *final(self) == *old(self),
            e == PLAYER_ID && blow_fits(*old(self), reg, target) ==> exists|crit: bool, drops: Seq<ItemStack>|
                (crit ==> old(self).stats.crit_rate_permille > 0) && (old(self).stats.crit_rate_permille >= 1000 ==> crit)
                    && (kills(*old(self), reg, target, crit) ==> loot_outcome(
                    old(self).monsters@[monster_index(old(self).monsters@, target)].kind,
                    drops,
                )) && #[trigger] attacked(*old(self), *final(self), reg, target, crit, drops),
    {
        if e != PLAYER_ID {
            return;
        }
        let i = match self.find_monster(target) {
            Some(i) => i,
            None => return,
        };
        let atk = match self.player_attack_power(reg) {
            Some(a) => a,
            None => return,
        };
        let def = self.monsters[i].stats.defense;
        if def > 0x7fff_ffff {
            return;
        }
        proof {
            let wn = worn(&self.equip);
            let base = self.stats.attack + bonus_sum(reg, wn, 0, wn.len() as int);
            assert(i32::MIN <= base + buff_total(self.active.0@, BuffKind::Berserk, self.active.0@.len() as int) <= i32::MAX);
        }
        let raw = raw_damage(atk, def);
        if !crit_fits(raw, self.stats.crit_damage_permille) {
            return;
        }
        let ghost w0 = *self;
        let (dmg, crit) = strike(atk, def, (self.stats.crit_rate_permille, self.stats.crit_damage_permille), rng);
        let mut m = self.monsters.remove(i);
        let kind = m.kind;
        let hp2 = sub_hp(m.stats.hp, dmg);
        m.stats.hp = hp2;
        if hp2 <= 0 {
            let exp = m.stats.exp;
            self.pending.amount = if self.pending.amount > u64::MAX - exp { u64::MAX } else { self.pending.amount + exp };
            let mut msg = String::new();
            push_text(&mut msg, "你斩击击杀了");
            push_text(&mut msg, monster_name(kind));
            push_text(&mut msg, "！获得");
            push_decimal(&mut msg, exp);
            push_text(&mut msg, "经验");
            proof {
                reveal_strlit("你斩击击杀了");
                reveal_strlit("！获得");
                reveal_strlit("经验");
                assert(msg@ =~= kill_message(kind, exp));
            }
            self.log.push(msg);
            proof {
                assert(self.monsters@ =~= w0.monsters@.remove(i as int));
            }
            let ghost l1 = log_view(&self.log);
            let ghost g1 = self.ground@;
            proof {
                lemma_loot_counts_fit(kind);
            }
            let table = monster_loot(kind);
            let mut drops = table.roll(rng);
            let ghost all = drops@;
            let ghost pending1 = self.pending;
            proof {
                assert(all.len() == drops.len());
                assert(loot_outcome(kind, all));
            }
            let mut k: usize = 0;
            while drops.len() > 0
                invariant
                    i < w0.monsters@.len(),
                    all.len() <= usize::MAX,
                    k <= all.len(),
                    same_but_spoils(w0, *self),
                    self.monsters@ == w0.monsters@.remove(i as int),
                    self.pending == pending1,
                    drops@ == all.skip(k as int),
                    self.ground@ == g1 + dropped_at(m.pos.0, m.pos.1, all.take(k as int)),
                    log_view(&self.log) == logged_each(l1, drop_messages(reg, kind, all.take(k as int))),
                decreases drops@.len(),
            {
                let s = drops.remove(0);
                proof {
                    assert(all.skip(k as int).len() > 0);
                    assert(k < all.len());
                    assert(s == all[k as int]);
                }
                let mut dm = String::new();
                push_text(&mut dm, monster_name(kind));
                push_text(&mut dm, "掉落");
                let sname = s.name(reg);
                push_text(&mut dm, sname.as_str());
                push_text(&mut dm, "x");
                push_decimal(&mut dm, s.count as u64);
                proof {
                    reveal_strlit("掉落");
                    reveal_strlit("x");
                    assert(dm@ =~= drop_message(reg, kind, all[k as int]));
                }
                self.log.push(dm);
                self.ground.push((m.pos.0, m.pos.1, s));
                proof {
                    assert(drop_messages(reg, kind, all.take(k + 1)) =~= drop_messages(reg, kind, all.take(k as int)).push(
                        drop_message(reg, kind, all[k as int]),
                    ));
                    assert(drop_messages(reg, kind, all.take(k + 1)).drop_last() =~= drop_messages(reg, kind, all.take(k as int)));
                    assert(dropped_at(m.pos.0, m.pos.1, all.take(k + 1)) =~= dropped_at(m.pos.0, m.pos.1, all.take(k as int)).push(
                        (m.pos.0, m.pos.1, all[k as int]),
                    ));
                    assert(self.ground@ =~= g1 + dropped_at(m.pos.0, m.pos.1, all.take(k + 1)));
                    assert(drops@ =~= all.skip(k + 1));
                }
                k = k + 1;
            }
            proof {
                assert(all.take(k as int) =~= all);
                assert(attacked(w0, *self, reg, target, crit, all));
                assert forall|j: int| 0 <= j < self.monsters@.len() implies on_map(
                    (#[trigger] self.monsters@[j]).pos.0 as int,
                    self.monsters@[j].pos.1 as int,
                ) by {
                    if j < i {
                        assert(self.monsters@[j] == w0.monsters@[j]);
                    } else {
                        assert(self.monsters@[j] == w0.monsters@[j + 1]);
                    }
                }
            }
        } else {
            self.monsters.insert(i, m);
            let mut msg = String::new();
            push_text(&mut msg, "你斩击了");
            push_text(&mut msg, monster_name(kind));
            if crit {
                push_text(&mut msg, "！暴击");
            }
            push_text(&mut msg, "，造成");
            push_signed(&mut msg, dmg as i64);
            push_text(&mut msg, "点伤害");
            proof {
                reveal_strlit("你斩击了");
                reveal_strlit("！暴击");
                reveal_strlit("，造成");
                reveal_strlit("点伤害");
                assert(msg@ =~= hit_message(kind, crit, dmg as int));
            }
            self.log.push(msg);
            proof {
                assert(self.monsters@ =~= w0.monsters@.update(
                    i as int,
                    Monster { stats: Stats { hp: hp2, ..w0.monsters@[i as int].stats }, ..w0.monsters@[i as int] },
                ));
                assert(attacked(w0, *self, reg, target, crit, seq![]));
            }
        }
    }

    /// A cast by actor `e` of its skill at `idx`: only the player has skills, and
    /// only when the cast keeps its numbers in range (see [`cast_ok`]) does anything
    /// happen; then as [`skill_cast`] says.
    pub fn cast_actor(&mut self, e: u64, idx: usize)
        requires
            old(self).wf(),
        ensures
            final(self).wf(),
            !(e == PLAYER_ID && cast_ok(*old(self), idx as int)) ==> *final(self) == *old(self),
            e == PLAYER_ID && cast_ok(*old(self), idx as int) ==> same_but_cast(*old(self), *final(self)) && skill_cast(
                old(self).stats,
                old(self).skills.list@,
                old(self).buffs,
                old(self).active.0@,
                log_view(&old(self).log),
                idx as int,
                final(self).stats,
                final(self).buffs,
                final(self).active.0@,
                log_view(&final(self).log),
            ),
    {
        if e != PLAYER_ID {
            return;
        }
        if idx < self.skills.list.len() {
            let cost = self.skills.list[idx].cost_mp;
            let mp = self.stats.mp;
            if mp >= cost && ((mp as i64) - (cost as i64) < -0x8000_0000 || (mp as i64) - (cost as i64) > 0x7fff_ffff) {
                return;
            }
            let fits = match self.skills.list[idx].kind {
                crate::stats::SkillKind::Heal { amount } => {
                    let h: i64 = self.stats.hp as i64 + amount as i64;
                    -0x8000_0000 <= h && h <= 0x7fff_ffff
                },
                crate::stats::SkillKind::Shield { duration, .. } => duration <= 0x7fff_ffff && duration <= 4_294_967,
                crate::stats::SkillKind::Berserk { duration, .. } => duration <= 0x7fff_ffff && duration <= 4_294_967,
            };
            if !fits {
                return;
            }
        }
        execute_skill(&mut self.stats, &self.skills, &mut self.buffs, &mut self.active, idx, &mut self.log);
    }
}

/// Everything but the numbers, the log and the pending experience is as in `w`.
pub open spec fn same_but_exp(w: World, w2: World) -> bool {
    &&& w2.map == w.map
    &&& w2.occ == w.occ
    &&& w2.pos == w.pos
    &&& w2.visible == w.visible
    &&& w2.inv == w.inv
    &&& w2.equip == w.equip
    &&& w2.skills == w.skills
    &&& w2.buffs == w.buffs
    &&& w2.active == w.active
    &&& w2.turns == w.turns
    &&& w2.queue == w.queue
    &&& w2.monsters == w.monsters
    &&& w2.ground == w.ground
}

/// `w2` is `w` once its pending experience is handed to the player (see
/// [`exp_outcome`]); it stays pending when the numbers are past the guard
/// [`exp_guard`].
pub open spec fn exp_settled(w: World, w2: World) -> bool {
    if w.pending.amount > 0 && exp_guard(w.stats, w.pending.amount as int) {
        &&& same_but_exp(w, w2)
        &&& w2.pending.amount == 0
        &&& exp_outcome(w.stats, w.pending.amount, log_view(&w.log), w2.stats, log_view(&w2.log))
    } else {
        w2 == w
    }
}

/// Who stands where: the player first, then the monsters in order.
pub open spec fn positions_of(w: World) -> Seq<(u64, usize, usize)> {
    seq![(PLAYER_ID, w.pos.0, w.pos.1)] + Seq::new(
        w.monsters@.len(),
        |i: int| (w.monsters@[i].id, w.monsters@[i].pos.0, w.monsters@[i].pos.1),
    )
}

/// `w2` is `w` with its occupancy made anew from who stands where.
pub open spec fn reoccupied(w: World, w2: World) -> bool {
    &&& w2.occ.wf()
    &&& forall|x: int, y: int|
        on_map(x, y) ==> #[trigger] w2.occ.cells@[cell_index(x, y)] == last_at(positions_of(w), x, y)
    &&& World { occ: w.occ, ..w2 } == w
}

/// `w2` is `w` after entry `e` ran (before experience and occupancy are settled).
pub open spec fn ran(w: World, w2: World, reg: &ItemRegistry, e: ActionEntry) -> bool {
    match e.kind {
        ActionKindV3::Chase => match chase_target(w, e.entity) {
            None => w2 == w,
            Some(t) => exists|mv: ChaseMove|
                chase_answer(
                    w.map,
                    &w.occ,
                    w.monsters@[monster_index(w.monsters@, e.entity)].pos,
                    t,
                    w.monsters@[monster_index(w.monsters@, e.entity)].visible@.contains(w.pos),
                    mv,
                ) && #[trigger] chased(w, w2, reg, e.entity, mv),
        },
        ActionKindV3::Flee => fled(w, w2, e.entity),
        ActionKindV3::Wander => exists|d: int| 0 <= d < 8 && #[trigger] moved(w, w2, e.entity, offset_of(d).0, offset_of(d).1),
        ActionKindV3::Move { dx, dy } => moved(w, w2, e.entity, dx as int, dy as int),
        ActionKindV3::Attack { target } => if e.entity == PLAYER_ID && blow_fits(w, reg, target) {
            exists|crit: bool, drops: Seq<ItemStack>|
                (crit ==> w.stats.crit_rate_permille > 0) && (w.stats.crit_rate_permille >= 1000 ==> crit) && (kills(
                    w,
                    reg,
                    target,
                    crit,
                ) ==> loot_outcome(w.monsters@[monster_index(w.monsters@, target)].kind, drops)) && #[trigger] attacked(
                    w,
                    w2,
                    reg,
                    target,
                    crit,
                    drops,
                )
        } else {
            w2 == w
        },
        ActionKindV3::Skill(idx) => if e.entity == PLAYER_ID && cast_ok(w, idx as int) {
            same_but_cast(w, w2) && skill_cast(
                w.stats,
                w.skills.list@,
                w.buffs,
                w.active.0@,
                log_view(&w.log),
                idx as int,
                w2.stats,
                w2.buffs,
                w2.active.0@,
                log_view(&w2.log),
            )
        } else {
            w2 == w
        },
        _ => w2 == w,
    }
}

impl World {
    /// Hands the pending experience to the player (see [`exp_settled`]).
    pub fn settle_exp(&mut self)
        requires
            old(self).wf(),
        ensures
            final(self).wf(),
            exp_settled(*old(self), *final(self)),
    {
        let gained = self.pending.amount;
        if gained == 0 {
            return;
        }
        if self.stats.level > 10_000 || self.stats.exp > 1_000_000_000 || gained > 1_000_000_000 - self.stats.exp
            || self.stats.defense > 100_000_000 || self.stats.magic_mastery > 100_000_000 {
            return;
        }
        proof {
            lemma_exp_guard(self.stats, gained as int);
        }
        apply_exp(&mut self.stats, &mut self.pending, &mut self.log);
    }

    /// Makes the occupancy anew from who stands where (see [`reoccupied`]).
    pub fn reoccupy(&mut self)
        requires
            old(self).wf(),
        ensures
            final(self).wf(),
            reoccupied(*old(self), *final(self)),
    {
        let mut positions: Vec<(u64, usize, usize)> = Vec::new();
        positions.push((PLAYER_ID, self.pos.0, self.pos.1));
        let mut i: usize = 0;
        while i < self.monsters.len()
            invariant
                i <= self.monsters@.len(),
                positions@ =~= positions_of(*self).take(i as int + 1),
            decreases self.monsters@.len() - i,
        {
            positions.push((self.monsters[i].id, self.monsters[i].pos.0, self.monsters[i].pos.1));
            i = i + 1;
            assert(positions@ =~= positions_of(*self).take(i as int + 1));
        }
        assert(positions@ =~= positions_of(*self));
        let ghost w0 = *self;
        self.occ.rebuild(&positions);
        assert(World { occ: w0.occ, ..*self } == w0);
    }

    /// Carries out entry `e` (see [`ran`]): a chase, flight, wander, move, attack or
    /// cast by its actor; a wait or throw does nothing here.
    pub fn execute_entry(&mut self, reg: &ItemRegistry, e: &ActionEntry, rng: &mut SmallRng)
        requires
            old(self).wf(),
        ensures
            final(self).wf(),
            ran(*old(self), *final(self), reg, *e),
    {
        match e.kind {
            ActionKindV3::Chase => self.chase_actor(reg, e.entity),
            ActionKindV3::Flee => self.flee_actor(e.entity),
            ActionKindV3::Wander => self.wander_actor(e.entity, rng),
            ActionKindV3::Move { dx, dy } => self.move_actor(e.entity, dx, dy),
            ActionKindV3::Attack { target } => self.attack_actor(reg, e.entity, target, rng),
            ActionKindV3::Skill(idx) => self.cast_actor(e.entity, idx),
            _ => {},
        }
    }
}

/// Whether an entry may run reads only the map, the occupancy, the player's cell,
/// sight and numbers, and the monsters.
proof fn lemma_valid_frame(w: World, w2: World, e: ActionEntry)
    requires
        w2.map == w.map,
        w2.occ == w.occ,
        w2.pos == w.pos,
        w2.visible == w.visible,
        w2.stats == w.stats,
        w2.monsters == w.monsters,
    ensures
        entry_valid(w2, e) == entry_valid(w, e),
{
}

/// The actors in `s` whose waiting entry no longer holds in `w`, in order.
pub open spec fn invalid_of(w: World, s: Seq<ActionEntry>) -> Seq<u64>
    decreases s.len(),
{
    if s.len() == 0 {
        seq![]
    } else {
        let rest = invalid_of(w, s.drop_last());
        if s.last().av_remaining > 0 && !entry_valid(w, s.last()) {
            rest.push(s.last().entity)
        } else {
            rest
        }
    }
}

/// The queue once `dist` action value has passed: every entry advanced, then every
/// entry of an actor whose waiting entry no longer holds taken out.
pub open spec fn pruned(w: World, dist: u32) -> Seq<ActionEntry> {
    let s = advanced(w.queue.entries@, dist as int);
    without_entities(s, invalid_of(w, s))
}

/// How far the next waiting entry is (0 when none waits).
pub open spec fn event_distance(w: World) -> u32 {
    match next_event(w.queue.entries@) {
        Some(d) => d,
        None => 0,
    }
}

/// `w1` is `w` once `dist` has passed: the queue pruned with the due entries taken
/// out, the timed effects run down; nothing else changes.
pub open spec fn passed(w: World, w1: World, dist: u32) -> bool {
    &&& w1.queue.entries@ == waiting_entries(pruned(w, dist))
    &&& w1.active.0@ == buffs_after(w.active.0@, dist)
    &&& World { queue: w.queue, active: w.active, ..w1 } == w
}

/// `w2` is `w` with its log telling that an action was called off.
pub open spec fn cancel_step(w: World, w2: World) -> bool {
    &&& World { log: w.log, ..w2 } == w
    &&& log_view(&w2.log) == logged(log_view(&w.log), "行动被取消"@)
}

/// Entry `e` ran from `w` to `a`, the experience was settled into `b`, and the
/// occupancy made anew into `w2`.
pub open spec fn carried_out(w: World, a: World, b: World, w2: World, reg: &ItemRegistry, e: ActionEntry) -> bool {
    &&& ran(w, a, reg, e)
    &&& exp_settled(a, b)
    &&& reoccupied(b, w2)
}

/// One due entry: carried out when it still holds, else called off.
pub open spec fn entry_step(w: World, w2: World, reg: &ItemRegistry, e: ActionEntry) -> bool {
    if entry_valid(w, e) {
        exists|a: World, b: World| #[trigger] carried_out(w, a, b, w2, reg, e)
    } else {
        cancel_step(w, w2)
    }
}

/// `ws` goes from `w1` to `w2` through the due entries `ready`, one step each.
pub open spec fn ran_in_turn(ws: Seq<World>, w1: World, w2: World, reg: &ItemRegistry, ready: Seq<ActionEntry>) -> bool {
    &&& ws.len() == ready.len() + 1
    &&& ws[0] == w1
    &&& ws.last() == w2
    &&& forall|j: int| 0 <= j < ready.len() ==> entry_step(ws[j], ws[j + 1], reg, #[trigger] ready[j])
}

/// `w2` is `w` after one advance of the queue: nothing when no entry waits; otherwise
/// time passes to the next waiting entry (see [`passed`]) and the due entries run in
/// queue order.
#[verifier::opaque]
pub open spec fn advanced_by(w: World, w2: World, reg: &ItemRegistry) -> bool {
    let dist = event_distance(w);
    if dist == 0 {
        w2 == w
    } else {
        exists|w1: World, ws: Seq<World>|
            #![trigger passed(w, w1, dist), ran_in_turn(ws, w1, w2, reg, ready_entries(pruned(w, dist)))]
            passed(w, w1, dist) && ran_in_turn(ws, w1, w2, reg, ready_entries(pruned(w, dist)))
    }
}

impl World {
    /// One advance of the action queue (see [`advanced_by`]); returns how far time
    /// moved.
    pub fn advance_action_queue(&mut self, reg: &ItemRegistry, rng: &mut SmallRng) -> (dist: u32)
        requires
            old(self).wf(),
        ensures
            final(self).wf(),
            dist == event_distance(*old(self)),
            advanced_by(*old(self), *final(self), reg),
    {
        proof {
            reveal(advanced_by);
        }
        let ghost w0 = *self;
        let dist = match self.queue.next_event_distance() {
            Some(d) => d,
            None => 0,
        };
        if dist == 0 {
            return 0;
        }
        self.queue.advance(dist);
        self.active.advance(dist);
        let ghost s1 = self.queue.entries@;
        let mut gone: Vec<u64> = Vec::new();
        let mut i: usize = 0;
        while i < self.queue.entries.len()
            invariant
                self.wf(),
                i <= s1.len(),
                self.queue.entries@ == s1,
                self.map == w0.map && self.occ == w0.occ && self.pos == w0.pos && self.visible == w0.visible
                    && self.stats == w0.stats && self.monsters == w0.monsters,
                gone@ == invalid_of(w0, s1.take(i as int)),
            decreases s1.len() - i,
        {
            let e = self.queue.entries[i];
            proof {
                assert(s1.take(i as int + 1).drop_last() =~= s1.take(i as int));
                lemma_valid_frame(w0, *self, e);
            }
            if e.av_remaining > 0 && !self.still_valid(&e) {
                gone.push(e.entity);
            }
            i = i + 1;
        }
        proof {
            assert(s1.take(s1.len() as int) =~= s1);
        }
        self.queue.drop_entities(&gone);
        let ready = self.queue.pop_ready();
        let ghost w1 = *self;
        proof {
            assert(passed(w0, w1, dist));
        }
        let ghost mut ws: Seq<World> = seq![w1];
        let mut k: usize = 0;
        while k < ready.len()
            invariant
                self.wf(),
                k <= ready@.len(),
                ready@ == ready_entries(pruned(w0, dist)),
                ws.len() == k + 1,
                ws[0] == w1,
                ws.last() == *self,
                forall|j: int| 0 <= j < k ==> entry_step(ws[j], ws[j + 1], reg, #[trigger] ready@[j]),
            decreases ready@.len() - k,
        {
            let e = ready[k];
            let ghost before = *self;
            if self.still_valid(&e) {
                self.execute_entry(reg, &e, rng);
                let ghost a = *self;
                self.settle_exp();
                let ghost b = *self;
                self.reoccupy();
                proof {
                    assert(carried_out(before, a, b, *self, reg, e));
                    assert(entry_step(before, *self, reg, e));
                }
            } else {
                self.log.push("行动被取消".to_owned());
                proof {
                    assert(World { log: before.log, ..*self } == before);
                    assert(cancel_step(before, *self));
                }
            }
            proof {
                let ws2 = ws.push(*self);
                assert forall|j: int| 0 <= j < k + 1 implies entry_step(ws2[j], ws2[j + 1], reg, #[trigger] ready@[j]) by {
                    if j < k {
                        assert(ws2[j] == ws[j] && ws2[j + 1] == ws[j + 1]);
                    } else {
                        assert(ws2[j] == before && ws2[j + 1] == *self);
                    }
                }
                ws = ws2;
            }
            k = k + 1;
        }
        proof {
            assert(ran_in_turn(ws, w1, *self, reg, ready_entries(pruned(w0, dist))));
        }
        dist
    }
}

/// The action value left in `s`, added up.
pub open spec fn av_sum(s: Seq<ActionEntry>) -> int
    decreases s.len(),
{
    if s.len() == 0 {
        0
    } else {
        av_sum(s.drop_last()) + s.last().av_remaining
    }
}

proof fn lemma_av_sum_nonneg(s: Seq<ActionEntry>)
    ensures
        av_sum(s) >= 0,
    decreases s.len(),
{
    if s.len() > 0 {
        lemma_av_sum_nonneg(s.drop_last());
    }
}

proof fn lemma_av_sum_without(s: Seq<ActionEntry>, g: Seq<u64>)
    ensures
        av_sum(without_entities(s, g)) <= av_sum(s),
    decreases s.len(),
{
    if s.len() > 0 {
        lemma_av_sum_without(s.drop_last(), g);
        if !g.contains(s.last().entity) {
            assert(without_entities(s, g).drop_last() =~= without_entities(s.drop_last(), g));
        }
    }
}

proof fn lemma_av_sum_waiting(s: Seq<ActionEntry>)
    ensures
        av_sum(waiting_entries(s)) == av_sum(s),
    decreases s.len(),
{
    if s.len() > 0 {
        lemma_av_sum_waiting(s.drop_last());
        if s.last().av_remaining > 0 {
            assert(waiting_entries(s).drop_last() =~= waiting_entries(s.drop_last()));
        }
    }
}

proof fn lemma_av_sum_advanced(s: Seq<ActionEntry>, d: int)
    requires
        d >= 0,
    ensures
        av_sum(advanced(s, d)) <= av_sum(s),
        (exists|i: int| 0 <= i < s.len() && (#[trigger] s[i]).av_remaining >= d) ==> av_sum(advanced(s, d)) + d <= av_sum(s),
    decreases s.len(),
{
    if s.len() > 0 {
        let t = s.drop_last();
        lemma_av_sum_advanced(t, d);
        assert(advanced(s, d).drop_last() =~= advanced(t, d));
        if exists|i: int| 0 <= i < s.len() && (#[trigger] s[i]).av_remaining >= d {
            let i = choose|i: int| 0 <= i < s.len() && (#[trigger] s[i]).av_remaining >= d;
            if i < s.len() - 1 {
                assert(t[i] == s[i]);
            }
        }
    }
}

/// One advance that moves time leaves less action value waiting.
proof fn lemma_advance_shrinks(w: World, w1: World, dist: u32)
    requires
        dist > 0,
        dist == event_distance(w),
        passed(w, w1, dist),
    ensures
        av_sum(w1.queue.entries@) + dist <= av_sum(w.queue.entries@),
{
    let s = w.queue.entries@;
    lemma_next_event_is_min(s);
    let a = advanced(s, dist as int);
    lemma_av_sum_advanced(s, dist as int);
    lemma_av_sum_without(a, invalid_of(w, a));
    lemma_av_sum_waiting(pruned(w, dist));
}

/// Carrying out or calling off an entry leaves the queue alone.
proof fn lemma_step_keeps_queue(w: World, w2: World, reg: &ItemRegistry, e: ActionEntry)
    requires
        entry_step(w, w2, reg, e),
    ensures
        w2.queue == w.queue,
{
    if entry_valid(w, e) {
        let (a, b) = choose|a: World, b: World| #[trigger] carried_out(w, a, b, w2, reg, e);
        assert(a.queue == w.queue) by {
            match e.kind {
                ActionKindV3::Chase => {
                    if chase_target(w, e.entity) is Some {
                        let t = chase_target(w, e.entity)->0;
                        let mv = choose|mv: ChaseMove|
                            chase_answer(
                                w.map,
                                &w.occ,
                                w.monsters@[monster_index(w.monsters@, e.entity)].pos,
                                t,
                                w.monsters@[monster_index(w.monsters@, e.entity)].visible@.contains(w.pos),
                                mv,
                            ) && #[trigger] chased(w, a, reg, e.entity, mv);
                    }
                },
                ActionKindV3::Wander => {
                    let d = choose|d: int| 0 <= d < 8 && #[trigger] moved(w, a, e.entity, offset_of(d).0, offset_of(d).1);
                },
                ActionKindV3::Attack { target } => {
                    if e.entity == PLAYER_ID && blow_fits(w, reg, target) {
                        let (crit, drops) = choose|crit: bool, drops: Seq<ItemStack>|
                            (crit ==> w.stats.crit_rate_permille > 0) && (w.stats.crit_rate_permille >= 1000 ==> crit)
                                && (kills(w, reg, target, crit) ==> loot_outcome(
                                w.monsters@[monster_index(w.monsters@, target)].kind,
                                drops,
                            )) && #[trigger] attacked(w, a, reg, target, crit, drops);
                    }
                },
                _ => {},
            }
        }
        assert(World { occ: b.occ, ..w2 } == b);
    }
}

/// The first `n` steps of a run leave the queue alone.
proof fn lemma_run_keeps_queue_upto(ws: Seq<World>, reg: &ItemRegistry, ready: Seq<ActionEntry>, n: int)
    requires
        0 <= n <= ready.len(),
        ws.len() == ready.len() + 1,
        forall|k: int| 0 <= k < ready.len() ==> entry_step(ws[k], ws[k + 1], reg, #[trigger] ready[k]),
    ensures
        ws[n].queue == ws[0].queue,
    decreases n,
{
    if n > 0 {
        lemma_run_keeps_queue_upto(ws, reg, ready, n - 1);
        lemma_step_keeps_queue(ws[n - 1], ws[n], reg, ready[n - 1]);
    }
}

/// A run of steps leaves the queue alone.
proof fn lemma_run_keeps_queue(ws: Seq<World>, w1: World, w2: World, reg: &ItemRegistry, ready: Seq<ActionEntry>)
    requires
        ran_in_turn(ws, w1, w2, reg, ready),
    ensures
        w2.queue == w1.queue,
{
    lemma_run_keeps_queue_upto(ws, reg, ready, ready.len() as int);
}

/// One queue advance with time moving shrinks what is left to wait.
proof fn lemma_step_shrinks(before: World, after: World, dist: u32, reg: &ItemRegistry)
    requires
        dist > 0,
        dist == event_distance(before),
        advanced_by(before, after, reg),
    ensures
        av_sum(after.queue.entries@) + dist <= av_sum(before.queue.entries@),
        av_sum(after.queue.entries@) >= 0,
{
    reveal(advanced_by);
    let w1 = choose|w1: World, wl: Seq<World>|
        #![trigger passed(before, w1, dist), ran_in_turn(wl, w1, after, reg, ready_entries(pruned(before, dist)))]
        passed(before, w1, dist) && ran_in_turn(wl, w1, after, reg, ready_entries(pruned(before, dist)));
    lemma_advance_shrinks(before, w1.0, dist);
    lemma_run_keeps_queue(w1.1, w1.0, after, reg, ready_entries(pruned(before, dist)));
    lemma_av_sum_nonneg(after.queue.entries@);
}

/// Each world of `ws` comes from the one before by a queue advance.
#[verifier::opaque]
spec fn steps_ok(ws: Seq<World>, reg: &ItemRegistry) -> bool {
    forall|j: int| 0 <= j < ws.len() - 1 ==> #[trigger] advanced_by(ws[j], ws[j + 1], reg)
}

/// Up to the advance `n`, time moved and the player still waited after it.
#[verifier::opaque]
spec fn waits_ok(ws: Seq<World>, n: int) -> bool {
    forall|j: int| 0 <= j < n ==> event_distance(#[trigger] ws[j]) > 0 && holds_entity(ws[j + 1].queue.entries@, PLAYER_ID)
}

/// A chain of advances, extended by one more advance.
#[verifier::spinoff_prover]
#[verifier::rlimit(40)]
proof fn lemma_chain_extends(ws: Seq<World>, after: World, reg: &ItemRegistry)
    requires
        ws.len() >= 1,
        steps_ok(ws, reg),
        advanced_by(ws.last(), after, reg),
    ensures
        steps_ok(ws.push(after), reg),
{
    reveal(steps_ok);
    let ws2 = ws.push(after);
    assert forall|j: int| 0 <= j < ws2.len() - 1 implies #[trigger] advanced_by(ws2[j], ws2[j + 1], reg) by {
        if j < ws.len() - 1 {
            assert(advanced_by(ws[j], ws[j + 1], reg));
            assert(ws2[j] == ws[j]);
            assert(ws2[j + 1] == ws[j + 1]);
        } else {
            assert(ws2[j] == ws.last());
            assert(ws2[j + 1] == after);
        }
    }
}

/// The same chain, with one more advance after which time moved and the player waits.
#[verifier::spinoff_prover]
#[verifier::rlimit(40)]
proof fn lemma_chain_waits(ws: Seq<World>, after: World)
    requires
        ws.len() >= 1,
        waits_ok(ws, ws.len() - 1),
        event_distance(ws.last()) > 0,
        holds_entity(after.queue.entries@, PLAYER_ID),
    ensures
        waits_ok(ws.push(after), ws.len() as int),
{
    reveal(waits_ok);
    let ws2 = ws.push(after);
    assert forall|j: int| 0 <= j < ws.len() implies event_distance(#[trigger] ws2[j]) > 0
        && holds_entity(ws2[j + 1].queue.entries@, PLAYER_ID) by {
        if j < ws.len() - 1 {
            assert(ws2[j] == ws[j]);
            assert(ws2[j + 1] == ws[j + 1]);
            assert(event_distance(ws[j]) > 0 && holds_entity(ws[j + 1].queue.entries@, PLAYER_ID));
        } else {
            assert(ws2[j] == ws.last());
            assert(ws2[j + 1] == after);
        }
    }
}

/// The same chain with its last advance, after which time stood still or the
/// player's entry was gone.
#[verifier::spinoff_prover]
#[verifier::rlimit(40)]
proof fn lemma_chain_ends(ws: Seq<World>, after: World, reg: &ItemRegistry)
    requires
        ws.len() >= 1,
        steps_ok(ws.push(after), reg),
        waits_ok(ws, ws.len() - 1),
        event_distance(ws.last()) == 0 || !holds_entity(after.queue.entries@, PLAYER_ID),
    ensures
        advances_until_player(ws.push(after), reg),
{
    let ws2 = ws.push(after);
    assert(ws2[ws2.len() - 2] == ws.last());
    assert(ws2.last() == after);
    assert(forall|j: int| 0 <= j < ws2.len() - 1 ==> #[trigger] advanced_by(ws2[j], ws2[j + 1], reg)) by {
        reveal(steps_ok);
    }
    assert forall|j: int| 0 <= j < ws2.len() - 2 implies event_distance(#[trigger] ws2[j]) > 0
        && holds_entity(ws2[j + 1].queue.entries@, PLAYER_ID) by {
        reveal(waits_ok);
        assert(ws2[j] == ws[j]);
        assert(ws2[j + 1] == ws[j + 1]);
        assert(event_distance(ws[j]) > 0 && holds_entity(ws[j + 1].queue.entries@, PLAYER_ID));
    }
}

/// `ws` runs queue advances from its first world to its last, going on while time
/// moves and the player still has an entry.
pub open spec fn advances_until_player(ws: Seq<World>, reg: &ItemRegistry) -> bool {
    &&& ws.len() >= 2
    &&& forall|j: int| 0 <= j < ws.len() - 1 ==> #[trigger] advanced_by(ws[j], ws[j + 1], reg)
    &&& forall|j: int|
        0 <= j < ws.len() - 2 ==> event_distance(#[trigger] ws[j]) > 0 && holds_entity(ws[j + 1].queue.entries@, PLAYER_ID)
    &&& event_distance(ws[ws.len() - 2]) == 0 || !holds_entity(ws.last().queue.entries@, PLAYER_ID)
}

/// `w2` comes from `w` by queue advances until time stops or the player's action
/// has run (see [`advances_until_player`]).
pub open spec fn ran_until_player(w: World, w2: World, reg: &ItemRegistry) -> bool {
    exists|ws: Seq<World>| ws[0] == w && ws.last() == w2 && #[trigger] advances_until_player(ws, reg)
}

impl World {
    /// Advances the queue until time stops moving or the player's action has run
    /// (see [`advances_until_player`]).
    #[verifier::rlimit(100)]
    #[verifier::spinoff_prover]
    pub fn advance_until_player_acted(&mut self, reg: &ItemRegistry, rng: &mut SmallRng)
        requires
            old(self).wf(),
        ensures
            final(self).wf(),
            ran_until_player(*old(self), *final(self), reg),
    {
        let ghost mut ws: Seq<World> = seq![*self];
        proof {
            lemma_av_sum_nonneg(self.queue.entries@);
            reveal(steps_ok);
            reveal(waits_ok);
        }
        loop
            invariant_except_break
                self.wf(),
                ws.len() >= 1,
                ws[0] == *old(self),
                ws.last() == *self,
                steps_ok(ws, reg),
                waits_ok(ws, ws.len() - 1),
                av_sum(self.queue.entries@) >= 0,
            ensures
                self.wf(),
                ws.len() >= 2,
                ws[0] == *old(self),
                ws.last() == *self,
                advances_until_player(ws, reg),
            decreases av_sum(self.queue.entries@),
        {
            let ghost before = *self;
            let dist = self.advance_action_queue(reg, rng);
            proof {
                lemma_chain_extends(ws, *self, reg);
            }
            if dist == 0 || !self.queue.has_entity(PLAYER_ID) {
                proof {
                    lemma_chain_ends(ws, *self, reg);
                    ws = ws.push(*self);
                }
                break;
            }
            proof {
                lemma_step_shrinks(before, *self, dist, reg);
                lemma_chain_waits(ws, *self);
                ws = ws.push(*self);
            }
        }
    }
}

/// A copy of `cells`.
fn copy_cells(cells: &Vec<(usize, usize)>) -> (r: Vec<(usize, usize)>)
    ensures
        r@ == cells@,
{
    let mut r: Vec<(usize, usize)> = Vec::new();
    let mut i: usize = 0;
    while i < cells.len()
        invariant
            i <= cells@.len(),
            r@ == cells@.take(i as int),
        decreases cells@.len() - i,
    {
        r.push(cells[i]);
        i = i + 1;
        assert(r@ =~= cells@.take(i as int));
    }
    assert(cells@.take(i as int) =~= cells@);
    r
}

/// `ss` tells the monster decisions about the monsters `ms`, one each in order: id,
/// agility, hit points, sight, and the abilities every monster has (chase at
/// priority 100, flight at 200, wander at 50).
pub open spec fn senses_of(ss: Seq<MonsterSense>, ms: Seq<Monster>) -> bool {
    &&& ss.len() == ms.len()
    &&& forall|i: int|
        0 <= i < ss.len() ==> {
            let s = #[trigger] ss[i];
            let m = ms[i];
            &&& s.entity == m.id && s.agility == m.stats.agility
            &&& s.hp == m.stats.hp && s.max_hp == m.stats.max_hp
            &&& s.visible@ == m.visible@
            &&& s.chase == Some(CanChase { duration: 250, priority: 100 })
            &&& s.flee == Some(CanFlee { duration: 250, priority: 200 })
            &&& s.wander == Some(CanWander { duration: 500, priority: 50 })
        }
}

/// `w2` is `w` once the monsters' wishes (chase, flight, wander) are merged into the
/// queue by priority.
pub open spec fn decided(w: World, w2: World) -> bool {
    &&& World { queue: w.queue, ..w2 } == w
    &&& exists|ss: Seq<MonsterSense>|
        #[trigger] senses_of(ss, w.monsters@) && w2.queue.entries@ == arbitrated(
            w.queue.entries@,
            priority_order(
                chase_wishes(ss, Some(w.pos)) + flee_wishes(ss) + wander_wishes(
                    ss,
                    chase_wishes(ss, Some(w.pos)) + flee_wishes(ss),
                ),
            ),
        )
}

/// The cells seen from `p` over `map`.
pub open spec fn sight(map: DungeonMap, p: (usize, usize)) -> Seq<(usize, usize)> {
    seen_cells(
        shadowcast_marks((p.0 as isize, p.1 as isize), vision_mask(map)),
        (p.0 as int, p.1 as int),
        SIGHT * SIGHT,
    )
}

/// `w2` is `w` with everyone's sight made anew from where they stand.
pub open spec fn sighted(w: World, w2: World) -> bool {
    &&& World { visible: w.visible, monsters: w.monsters, ..w2 } == w
    &&& w2.visible@ == sight(w.map, w.pos)
    &&& w2.monsters@.len() == w.monsters@.len()
    &&& forall|i: int|
        0 <= i < w.monsters@.len() ==> {
            let m = w.monsters@[i];
            let m2 = #[trigger] w2.monsters@[i];
            &&& m2.id == m.id && m2.kind == m.kind && m2.pos == m.pos && m2.stats == m.stats
                && m2.last_seen == m.last_seen
            &&& m2.visible@ == sight(w.map, m.pos)
        }
}

/// `w2` is `w` after the death check: a player with no hit points left ends the game,
/// and the log says so.
pub open spec fn death_checked(w: World, w2: World) -> bool {
    if w.stats.hp <= 0 {
        &&& World { turns: w.turns, log: w.log, ..w2 } == w
        &&& w2.turns.game_over && w2.turns.wants_quit == w.turns.wants_quit
        &&& log_view(&w2.log) == logged(log_view(&w.log), "你死了"@)
    } else {
        w2 == w
    }
}

/// A whole turn: the queue runs until the player's action has run, the monsters
/// decide, everyone's sight is made anew, and the death check follows.
pub open spec fn turn_taken(w: World, w2: World, reg: &ItemRegistry) -> bool {
    exists|w1: World, wd: World, ws: World|
        #![trigger ran_until_player(w, w1, reg), decided(w1, wd), sighted(wd, ws)]
        ran_until_player(w, w1, reg) && decided(w1, wd) && sighted(wd, ws) && death_checked(ws, w2)
}

impl World {
    /// The monsters decide what to do, and their wishes join the queue (see
    /// [`decided`]).
    pub fn decide_monsters(&mut self)
        requires
            old(self).wf(),
        ensures
            final(self).wf(),
            decided(*old(self), *final(self)),
    {
        let mut senses: Vec<MonsterSense> = Vec::new();
        let mut i: usize = 0;
        while i < self.monsters.len()
            invariant
                i <= self.monsters@.len(),
                senses_of(senses@, self.monsters@.take(i as int)),
            decreases self.monsters@.len() - i,
        {
            let m = &self.monsters[i];
            senses.push(
                MonsterSense {
                    entity: m.id,
                    agility: m.stats.agility,
                    hp: m.stats.hp,
                    max_hp: m.stats.max_hp,
                    visible: copy_cells(&m.visible),
                    chase: Some(CanChase::new(100)),
                    flee: Some(CanFlee::new(200)),
                    wander: Some(CanWander::new(50)),
                },
            );
            i = i + 1;
            proof {
                let ms = self.monsters@.take(i as int);
                assert forall|j: int| 0 <= j < senses@.len() implies {
                    let s = #[trigger] senses@[j];
                    let m = ms[j];
                    &&& s.entity == m.id && s.agility == m.stats.agility
                    &&& s.hp == m.stats.hp && s.max_hp == m.stats.max_hp
                    &&& s.visible@ == m.visible@
                    &&& s.chase == Some(CanChase { duration: 250, priority: 100 })
                    &&& s.flee == Some(CanFlee { duration: 250, priority: 200 })
                    &&& s.wander == Some(CanWander { duration: 500, priority: 50 })
                } by {
                    if j < i - 1 {
                        assert(ms[j] == self.monsters@.take(i - 1)[j]);
                    }
                }
            }
        }
        assert(self.monsters@.take(i as int) =~= self.monsters@);
        let chase = chase_decision(&senses, Some(self.pos));
        let flee = flee_decision(&senses);
        let wander = wander_decision(&senses, &chase, &flee);
        arbitration(&chase, &flee, &wander, &mut self.queue);
    }

    /// Everyone's sight made anew from where they stand (see [`sighted`]).
    pub fn refresh_sight(&mut self)
        requires
            old(self).wf(),
        ensures
            final(self).wf(),
            sighted(*old(self), *final(self)),
    {
        let ghost w0 = *self;
        self.visible = calculate_visible_tiles(self.pos.0, self.pos.1, SIGHT, &self.map);
        let mut i: usize = 0;
        while i < self.monsters.len()
            invariant
                self.wf(),
                i <= self.monsters@.len(),
                (World { visible: w0.visible, monsters: w0.monsters, ..*self }) == w0,
                self.visible@ == sight(w0.map, w0.pos),
                self.monsters@.len() == w0.monsters@.len(),
                forall|j: int|
                    0 <= j < w0.monsters@.len() ==> {
                        let m = w0.monsters@[j];
                        let m2 = #[trigger] self.monsters@[j];
                        &&& m2.id == m.id && m2.kind == m.kind && m2.pos == m.pos && m2.stats == m.stats
                            && m2.last_seen == m.last_seen
                        &&& j < i ==> m2.visible@ == sight(w0.map, m.pos)
                        &&& j >= i ==> m2 == m
                    },
            decreases self.monsters@.len() - i,
        {
            let mut m = self.monsters.remove(i);
            m.visible = calculate_visible_tiles(m.pos.0, m.pos.1, SIGHT, &self.map);
            self.monsters.insert(i, m);
            i = i + 1;
        }
    }

    /// A whole turn (see [`turn_taken`]).
    #[verifier::rlimit(60)]
    #[verifier::spinoff_prover]
    pub fn advance_and_settle(&mut self, reg: &ItemRegistry, rng: &mut SmallRng)
        requires
            old(self).wf(),
        ensures
            final(self).wf(),
            turn_taken(*old(self), *final(self), reg),
    {
        self.advance_until_player_acted(reg, rng);
        let ghost w1 = *self;
        self.decide_monsters();
        let ghost wd = *self;
        self.refresh_sight();
        let ghost ws = *self;
        check_death(&self.stats, &mut self.turns, &mut self.log);
        proof {
            assert(death_checked(ws, *self));
        }
    }
}

} // verus!

verus! {

/// Whether a monster may be put at the cell of candidate `c`, with the monsters
/// `placed` already put: a walkable cell, not the spawn, not the stairs, and free.
pub open spec fn spot_ok(
    map: DungeonMap,
    spawn: (usize, usize),
    stairs: (usize, usize),
    placed: Seq<(MonsterKindId, usize, usize)>,
    c: (MonsterKindId, usize, usize),
) -> bool {
    &&& map.walkable_at(c.1 as int, c.2 as int)
    &&& (c.1, c.2) != spawn
    &&& (c.1, c.2) != stairs
    &&& forall|i: int| 0 <= i < placed.len() ==> ((#[trigger] placed[i]).1, placed[i].2) != (c.1, c.2)
}

/// The candidates that are put, in order: each one whose spot is fit given those
/// put before it (see [`spot_ok`]).
pub open spec fn kept_candidates(
    map: DungeonMap,
    spawn: (usize, usize),
    stairs: (usize, usize),
    cs: Seq<(MonsterKindId, usize, usize)>,
) -> Seq<(MonsterKindId, usize, usize)>
    decreases cs.len(),
{
    if cs.len() == 0 {
        seq![]
    } else {
        let rest = kept_candidates(map, spawn, stairs, cs.drop_last());
        if spot_ok(map, spawn, stairs, rest, cs.last()) {
            rest.push(cs.last())
        } else {
            rest
        }
    }
}

/// Whether every kind of monster's numbers on `floor` fit `i32`.
pub open spec fn floor_fits(floor: u32) -> bool {
    &&& monster_fits(MonsterKindId::Rat, floor)
    &&& monster_fits(MonsterKindId::Scorpion, floor)
    &&& monster_fits(MonsterKindId::Goblin, floor)
}

/// Whether every kind of monster's numbers on `floor` fit `i32`.
pub fn floor_fits_check(floor: u32) -> (b: bool)
    ensures
        b == floor_fits(floor),
{
    let l: i64 = if floor >= 1 { floor as i64 - 1 } else { 0 };
    10 + 4 * l <= 0x7fff_ffff && 14 + 5 * l <= 0x7fff_ffff && 18 + 6 * l <= 0x7fff_ffff
}

/// Whether `w2` is `w` on a new floor (see [`World::place_floor`]).
pub open spec fn floor_placed(
    w: World,
    map: DungeonMap,
    spawn: (usize, usize),
    stairs: (usize, usize),
    candidates: Seq<(MonsterKindId, usize, usize)>,
    floor: u32,
    ground: Seq<(usize, usize, ItemStack)>,
    w2: World,
) -> bool {
    let kept = kept_candidates(map, spawn, stairs, candidates);
    &&& w2.wf()
    &&& w2.map == map
    &&& w2.pos == spawn
    &&& w2.stairs == stairs
    &&& w2.floor == floor
    &&& w2.monsters@.len() == kept.len()
    &&& forall|i: int|
        0 <= i < kept.len() ==> {
            let m = #[trigger] w2.monsters@[i];
            &&& m.id == i + 1
            &&& m.kind == kept[i].0
            &&& m.pos == (kept[i].1, kept[i].2)
            &&& monster_stats_are(m.stats, kept[i].0, floor)
            &&& m.last_seen is None
            &&& m.visible@.len() == 0
        }
    &&& w2.ground@ == ground
    &&& w2.queue.entries@.len() == 0
    &&& w2.active == w.active
    &&& w2.buffs == w.buffs
    &&& w2.visible@.len() == 0
    &&& w2.stats == w.stats
    &&& w2.inv == w.inv
    &&& w2.equip == w.equip
    &&& w2.skills == w.skills
    &&& w2.class == w.class
    &&& w2.log == w.log
    &&& w2.turns == w.turns
    &&& w2.pending == w.pending
    &&& forall|x: int, y: int|
        on_map(x, y) ==> #[trigger] w2.occ.cells@[cell_index(x, y)] == last_at(positions_of(w2), x, y)
}

/// The kept candidates stand on walkable cells other than the spawn and the stairs,
/// each in a cell of its own.
pub proof fn lemma_kept_spots(
    map: DungeonMap,
    spawn: (usize, usize),
    stairs: (usize, usize),
    cs: Seq<(MonsterKindId, usize, usize)>,
)
    ensures
        ({
            let k = kept_candidates(map, spawn, stairs, cs);
            &&& k.len() <= cs.len()
            &&& forall|i: int|
                0 <= i < k.len() ==> map.walkable_at((#[trigger] k[i]).1 as int, k[i].2 as int) && (k[i].1, k[i].2)
                    != spawn && (k[i].1, k[i].2) != stairs
            &&& forall|i: int, j: int|
                0 <= i < j < k.len() ==> ((#[trigger] k[i]).1, k[i].2) != ((#[trigger] k[j]).1, k[j].2)
        }),
    decreases cs.len(),
{
    if cs.len() > 0 {
        lemma_kept_spots(map, spawn, stairs, cs.drop_last());
    }
}

impl World {
    /// Whether the player stands on the stairs.
    pub fn on_stairs(&self) -> (b: bool)
        ensures
            b == (self.pos == self.stairs),
    {
        self.pos.0 == self.stairs.0 && self.pos.1 == self.stairs.1
    }

    /// Sets up floor `floor`: its map, the player at `spawn`, the stairs at `stairs`,
    /// its items `ground`, and its monsters from `candidates` (kind and cell, in
    /// order): a candidate is put when its cell is walkable, not the spawn, not the
    /// stairs and not taken by a monster put before it; the `i`-th put gets id
    /// `i + 1` and the numbers of its kind on that floor. The player keeps numbers,
    /// bag, worn items, skills and effects (timed ones too), and the log, turn state and
    /// pending experience stay; the queue empties, sight starts afresh and the occupancy
    /// is made anew (see [`floor_placed`]). Returns how many monsters were put.
    pub fn place_floor(
        &mut self,
        map: DungeonMap,
        spawn: (usize, usize),
        stairs: (usize, usize),
        candidates: Vec<(MonsterKindId, usize, usize)>,
        floor: u32,
        ground: Vec<(usize, usize, ItemStack)>,
    ) -> (placed: usize)
        requires
            old(self).wf(),
            map.wf(),
            on_map(spawn.0 as int, spawn.1 as int),
            floor_fits(floor),
        ensures
            placed == kept_candidates(map, spawn, stairs, candidates@).len(),
            floor_placed(*old(self), map, spawn, stairs, candidates@, floor, ground@, *final(self)),
            forall|i: int|
                0 <= i < final(self).monsters@.len() ==> {
                    let m = #[trigger] final(self).monsters@[i];
                    &&& final(self).map.walkable_at(m.pos.0 as int, m.pos.1 as int)
                    &&& m.pos != spawn
                    &&& m.pos != stairs
                },
            forall|i: int, j: int|
                0 <= i < j < final(self).monsters@.len() ==> (#[trigger] final(self).monsters@[i]).pos != (
                #[trigger] final(self).monsters@[j]).pos && final(self).monsters@[i].id != final(self).monsters@[j].id,
    {
        let ghost cs = candidates@;
        let mut kept: Vec<(MonsterKindId, usize, usize)> = Vec::new();
        let mut monsters: Vec<Monster> = Vec::new();
        let mut i: usize = 0;
        while i < candidates.len()
            invariant
                map.wf(),
                floor_fits(floor),
                cs == candidates@,
                i <= cs.len(),
                kept@ == kept_candidates(map, spawn, stairs, cs.take(i as int)),
                kept@.len() <= i,
                monsters@.len() == kept@.len(),
                forall|k: int|
                    0 <= k < kept@.len() ==> {
                        let m = #[trigger] monsters@[k];
                        &&& m.id == k + 1
                        &&& m.kind == kept@[k].0
                        &&& m.pos == (kept@[k].1, kept@[k].2)
                        &&& monster_stats_are(m.stats, kept@[k].0, floor)
                        &&& m.last_seen is None
                        &&& m.visible@.len() == 0
                    },
            decreases cs.len() - i,
        {
            proof {
                assert(cs.take(i as int + 1).drop_last() =~= cs.take(i as int));
            }
            let c = candidates[i];
            let mut ok = map.is_walkable(c.1, c.2) && !(c.1 == spawn.0 && c.2 == spawn.1) && !(c.1 == stairs.0 && c.2
                == stairs.1);
            let mut j: usize = 0;
            while j < kept.len()
                invariant
                    j <= kept@.len(),
                    ok == (map.walkable_at(c.1 as int, c.2 as int) && (c.1, c.2) != spawn && (c.1, c.2) != stairs
                        && forall|q: int| 0 <= q < j ==> ((#[trigger] kept@[q]).1, kept@[q].2) != (c.1, c.2)),
                decreases kept@.len() - j,
            {
                if kept[j].1 == c.1 && kept[j].2 == c.2 {
                    ok = false;
                }
                j = j + 1;
            }
            proof {
                assert(ok == spot_ok(map, spawn, stairs, kept@, c));
            }
            if ok {
                let n = kept.len();
                kept.push(c);
                monsters.push(Monster {
                    id: (n + 1) as u64,
                    kind: c.0,
                    pos: (c.1, c.2),
                    stats: monster_stats(c.0, floor),
                    last_seen: None,
                    visible: Vec::new(),
                });
            }
            i = i + 1;
        }
        proof {
            assert(cs.take(cs.len() as int) =~= cs);
            lemma_kept_spots(map, spawn, stairs, cs);
        }
        let placed = kept.len();
        self.map = map;
        self.pos = spawn;
        self.stairs = stairs;
        self.floor = floor;
        self.monsters = monsters;
        self.ground = ground;
        self.queue = ActionQueue::new();
        self.visible = Vec::new();
        proof {
            let k = kept@;
            assert forall|a: int, b: int| 0 <= a < b < self.monsters@.len() implies (#[trigger] self.monsters@[a]).id
                != (#[trigger] self.monsters@[b]).id by {}
            assert forall|q: int| 0 <= q < self.monsters@.len() implies on_map(
                (#[trigger] self.monsters@[q]).pos.0 as int,
                self.monsters@[q].pos.1 as int,
            ) by {
                assert(map.walkable_at(k[q].1 as int, k[q].2 as int));
            }
        }
        self.reoccupy();
        proof {
            let k = kept@;
            assert forall|a: int, b: int| 0 <= a < b < self.monsters@.len() implies (#[trigger] self.monsters@[a]).pos
                != (#[trigger] self.monsters@[b]).pos && self.monsters@[a].id != self.monsters@[b].id by {
                assert((k[a].1, k[a].2) != (k[b].1, k[b].2));
            }
            assert forall|q: int| 0 <= q < self.monsters@.len() implies {
                let m = #[trigger] self.monsters@[q];
                &&& self.map.walkable_at(m.pos.0 as int, m.pos.1 as int)
                &&& m.pos != spawn
                &&& m.pos != stairs
            } by {
                assert(map.walkable_at(k[q].1 as int, k[q].2 as int));
            }
        }
        placed
    }

    /// Goes down to the next floor (see [`World::place_floor`]): the floor number
    /// goes up by one, and the player keeps numbers, bag, worn items, skills and effects.
    pub fn descend(
        &mut self,
        map: DungeonMap,
        spawn: (usize, usize),
        stairs: (usize, usize),
        candidates: Vec<(MonsterKindId, usize, usize)>,
        ground: Vec<(usize, usize, ItemStack)>,
    ) -> (placed: usize)
        requires
            old(self).wf(),
            map.wf(),
            on_map(spawn.0 as int, spawn.1 as int),
            old(self).floor < u32::MAX,
            floor_fits((old(self).floor + 1) as u32),
        ensures
            final(self).floor == old(self).floor + 1,
            placed == kept_candidates(map, spawn, stairs, candidates@).len(),
            floor_placed(*old(self), map, spawn, stairs, candidates@, (old(self).floor + 1) as u32, ground@, *final(self)),
    {
        let next = self.floor + 1;
        self.place_floor(map, spawn, stairs, candidates, next, ground)
    }
}

} // verus!
