use vstd::prelude::*;
use crate::tile::{MAP_WIDTH, MAP_HEIGHT};
use crate::room::{on_map, abs_int};
use crate::map::{DungeonMap, wrap_step, manhattan};
use crate::occupancy::OccupancyMap;
use crate::action::{ActionQueue, ActionEntry, flees};
use crate::stats::{Stats, Skills, Skill, SkillKind, Buffs, ActiveBuffs, Buff, BuffKind, BuffStackType, ActiveCooldowns, Cooldown, EventLog, log_view, logged};
use crate::text::{push_text, push_signed, push_decimal, signed_decimal, decimal};
use crate::pathfinding::{astar, is_route, is_route_nodes, route_exists};
use crate::regions::cell_of;
use crate::rng::random_i32_in;
use rand::rngs::SmallRng;

verus! {

/// Whether a step by `(dx, dy)` from `(x, y)` (with `usize` wrap-around) lands on a
/// walkable, untaken map cell.
pub open spec fn move_ok(m: DungeonMap, occ: OccupancyMap, x: int, y: int, dx: int, dy: int) -> bool {
    let nx = wrap_step(x, dx);
    let ny = wrap_step(y, dy);
    on_map(nx, ny) && m.walkable_at(nx, ny) && !occ.occupied_at(nx, ny)
}

/// Whether an actor at `(x, y)` may step by `(dx, dy)`: onto a walkable cell of the
/// map that no one stands on.
pub fn can_move_to(map: &DungeonMap, occ: &OccupancyMap, x: usize, y: usize, dx: isize, dy: isize) -> (b: bool)
    requires
        map.wf(),
        occ.wf(),
    ensures
        b == move_ok(*map, *occ, x as int, y as int, dx as int, dy as int),
{
    let nx = x.wrapping_add_signed(dx);
    let ny = y.wrapping_add_signed(dy);
    if nx >= MAP_WIDTH || ny >= MAP_HEIGHT {
        return false;
    }
    if !map.is_walkable(nx, ny) {
        return false;
    }
    if occ.is_occupied(nx, ny) {
        return false;
    }
    true
}

/// The eight offsets in the order monsters try them.
pub open spec fn offset_of(j: int) -> (int, int) {
    if j == 0 { (0, -1) }
    else if j == 1 { (0, 1) }
    else if j == 2 { (-1, 0) }
    else if j == 3 { (1, 0) }
    else if j == 4 { (-1, -1) }
    else if j == 5 { (1, -1) }
    else if j == 6 { (-1, 1) }
    else { (1, 1) }
}

pub(crate) fn offset(j: usize) -> (d: (isize, isize))
    requires
        j < 8,
    ensures
        d.0 == offset_of(j as int).0 && d.1 == offset_of(j as int).1,
{
    if j == 0 { (0, -1) }
    else if j == 1 { (0, 1) }
    else if j == 2 { (-1, 0) }
    else if j == 3 { (1, 0) }
    else if j == 4 { (-1, -1) }
    else if j == 5 { (1, -1) }
    else if j == 6 { (-1, 1) }
    else { (1, 1) }
}

/// The flight step among the first `k` offsets: the first allowed step that lands
/// strictly farthest from the player along the axes (none when no step lands farther
/// than 0).
pub open spec fn flight_best(m: DungeonMap, occ: OccupancyMap, pos: (usize, usize), player: (usize, usize), k: int) -> (Option<(usize, usize)>, int)
    decreases k,
{
    if k <= 0 {
        (None, 0)
    } else {
        let (best, d) = flight_best(m, occ, pos, player, k - 1);
        let o = offset_of(k - 1);
        if move_ok(m, occ, pos.0 as int, pos.1 as int, o.0, o.1) {
            let n = (wrap_step(pos.0 as int, o.0) as usize, wrap_step(pos.1 as int, o.1) as usize);
            let nd = manhattan((n.0 as int, n.1 as int), (player.0 as int, player.1 as int));
            if nd > d { (Some(n), nd) } else { (best, d) }
        } else {
            (best, d)
        }
    }
}

/// The cell a step by `(dx, dy)` from `pos` lands on.
pub open spec fn landing(pos: (usize, usize), dx: int, dy: int) -> (usize, usize) {
    (wrap_step(pos.0 as int, dx) as usize, wrap_step(pos.1 as int, dy) as usize)
}

/// How far, along the axes, cell `n` is from `p`.
pub open spec fn axis_distance(n: (usize, usize), p: (usize, usize)) -> int {
    abs_int(n.0 - p.0) + abs_int(n.1 - p.1)
}

proof fn lemma_flight_best_upto(m: DungeonMap, occ: OccupancyMap, pos: (usize, usize), player: (usize, usize), k: int)
    requires
        0 <= k <= 8,
    ensures
        ({
            let (best, d) = flight_best(m, occ, pos, player, k);
            &&& d >= 0
            &&& best is None ==> d == 0
            &&& best matches Some(n) ==> d == axis_distance(n, player) && d > 0 && exists|j: int|
                0 <= j < k && move_ok(m, occ, pos.0 as int, pos.1 as int, offset_of(j).0, offset_of(j).1) && n
                    == #[trigger] landing(pos, offset_of(j).0, offset_of(j).1)
            &&& forall|j: int|
                0 <= j < k && move_ok(m, occ, pos.0 as int, pos.1 as int, offset_of(j).0, offset_of(j).1) ==> axis_distance(
                    #[trigger] landing(pos, offset_of(j).0, offset_of(j).1),
                    player,
                ) <= d
        }),
    decreases k,
{
    if k > 0 {
        lemma_flight_best_upto(m, occ, pos, player, k - 1);
        let (b0, d0) = flight_best(m, occ, pos, player, k - 1);
        let (b1, d1) = flight_best(m, occ, pos, player, k);
        let o = offset_of(k - 1);
        let n = landing(pos, o.0, o.1);
        assert(manhattan((n.0 as int, n.1 as int), (player.0 as int, player.1 as int)) == axis_distance(n, player));
        assert(d1 >= d0);
        if move_ok(m, occ, pos.0 as int, pos.1 as int, o.0, o.1) {
            assert(axis_distance(n, player) <= d1);
        }
        if b1 is Some && b1 != b0 {
            assert(b1->0 == n);
        }
        assert forall|j: int|
            0 <= j < k && move_ok(m, occ, pos.0 as int, pos.1 as int, offset_of(j).0, offset_of(j).1) implies axis_distance(
                #[trigger] landing(pos, offset_of(j).0, offset_of(j).1),
                player,
            ) <= d1 by {
            if j < k - 1 {
                assert(axis_distance(landing(pos, offset_of(j).0, offset_of(j).1), player) <= d0);
            }
        }
    }
}

/// A fleeing monster takes the best step away: the step it takes, if any, is one of
/// the eight around it that is allowed, and no allowed step among the eight lands
/// farther from the player along the axes; it stays only when every allowed step
/// lands on the player's distance 0, or none is allowed.
pub proof fn lemma_flight_farthest(m: DungeonMap, occ: OccupancyMap, pos: (usize, usize), player: (usize, usize))
    ensures
        ({
            let r = flight_best(m, occ, pos, player, 8).0;
            &&& r matches Some(n) ==> exists|dx: int, dy: int|
                -1 <= dx <= 1 && -1 <= dy <= 1 && !(dx == 0 && dy == 0) && move_ok(m, occ, pos.0 as int, pos.1 as int, dx, dy)
                    && n == #[trigger] landing(pos, dx, dy)
            &&& forall|dx: int, dy: int|
                -1 <= dx <= 1 && -1 <= dy <= 1 && !(dx == 0 && dy == 0) && move_ok(m, occ, pos.0 as int, pos.1 as int, dx, dy)
                    ==> axis_distance(#[trigger] landing(pos, dx, dy), player) <= match r {
                    Some(n) => axis_distance(n, player),
                    None => 0,
                }
        }),
{
    lemma_flight_best_upto(m, occ, pos, player, 8);
    let (best, d) = flight_best(m, occ, pos, player, 8);
    assert forall|dx: int, dy: int|
        -1 <= dx <= 1 && -1 <= dy <= 1 && !(dx == 0 && dy == 0) && move_ok(m, occ, pos.0 as int, pos.1 as int, dx, dy)
            implies axis_distance(#[trigger] landing(pos, dx, dy), player) <= d by {
        let j: int = if dx == 0 && dy == -1 { 0 } else if dx == 0 && dy == 1 { 1 } else if dx == -1 && dy == 0 { 2 }
            else if dx == 1 && dy == 0 { 3 } else if dx == -1 && dy == -1 { 4 } else if dx == 1 && dy == -1 { 5 }
            else if dx == -1 && dy == 1 { 6 } else { 7 };
        assert(offset_of(j) == (dx, dy));
        assert(axis_distance(landing(pos, offset_of(j).0, offset_of(j).1), player) <= d);
    }
    if best is Some {
        let j = choose|j: int|
            0 <= j < 8 && move_ok(m, occ, pos.0 as int, pos.1 as int, offset_of(j).0, offset_of(j).1) && best->0
                == #[trigger] landing(pos, offset_of(j).0, offset_of(j).1);
        let (dx, dy) = offset_of(j);
        assert(best->0 == landing(pos, dx, dy));
    }
}

/// Where a fleeing monster at `pos` steps (see [`flight_best`]), if anywhere.
pub fn flee_step(map: &DungeonMap, occ: &OccupancyMap, pos: (usize, usize), player: (usize, usize)) -> (r: Option<(usize, usize)>)
    requires
        map.wf(),
        occ.wf(),
        on_map(player.0 as int, player.1 as int),
    ensures
        r == flight_best(*map, *occ, pos, player, 8).0,
        forall|dx: int, dy: int|
            -1 <= dx <= 1 && -1 <= dy <= 1 && !(dx == 0 && dy == 0) && move_ok(*map, *occ, pos.0 as int, pos.1 as int, dx, dy)
                ==> axis_distance(#[trigger] landing(pos, dx, dy), player) <= match r {
                Some(n) => axis_distance(n, player),
                None => 0,
            },
{
    proof {
        lemma_flight_farthest(*map, *occ, pos, player);
    }
    let mut best: Option<(usize, usize)> = None;
    let mut best_dist: usize = 0;
    let mut j: usize = 0;
    while j < 8
        invariant
            j <= 8,
            map.wf(),
            occ.wf(),
            on_map(player.0 as int, player.1 as int),
            (best, best_dist as int) == flight_best(*map, *occ, pos, player, j as int),
        decreases 8 - j,
    {
        let d = offset(j);
        if can_move_to(map, occ, pos.0, pos.1, d.0, d.1) {
            let nx = pos.0.wrapping_add_signed(d.0);
            let ny = pos.1.wrapping_add_signed(d.1);
            let dist = (if nx >= player.0 { nx - player.0 } else { player.0 - nx }) + (if ny >= player.1 { ny - player.1 } else { player.1 - ny });
            if dist > best_dist {
                best_dist = dist;
                best = Some((nx, ny));
            }
        }
        j = j + 1;
    }
    best
}

/// A fleeing monster keeps fleeing while its hit points are under 30% of its maximum
/// (it starts under 25%).
pub open spec fn keeps_fleeing(hp: int, max_hp: int) -> bool {
    if max_hp > 0 {
        10 * hp < 3 * max_hp
    } else if max_hp == 0 {
        hp < 0
    } else {
        10 * hp > 3 * max_hp
    }
}

/// Whether a fleeing monster of `hp` out of `max_hp` keeps fleeing.
pub fn flee_continues(hp: i32, max_hp: i32) -> (b: bool)
    ensures
        b == keeps_fleeing(hp as int, max_hp as int),
{
    if max_hp > 0 {
        (hp as i64) * 10 < (max_hp as i64) * 3
    } else if max_hp == 0 {
        hp < 0
    } else {
        (hp as i64) * 10 > (max_hp as i64) * 3
    }
}

/// Fleeing has a margin: a monster that starts to flee (hit points under 25%, see
/// [`flees`]) also keeps fleeing (under 30%), and with a positive maximum the flight
/// goes on without starting again exactly for hit points from 25% up to under 30%.
pub proof fn lemma_flee_hysteresis(hp: int, max_hp: int)
    ensures
        flees(hp, max_hp) ==> keeps_fleeing(hp, max_hp),
        max_hp > 0 ==> ((keeps_fleeing(hp, max_hp) && !flees(hp, max_hp)) <==> (4 * hp >= max_hp && 10 * hp < 3
            * max_hp)),
{
}

/// Takes out every entry of the listed entities, keeping the others in order.
pub open spec fn without_entities(s: Seq<ActionEntry>, gone: Seq<u64>) -> Seq<ActionEntry>
    decreases s.len(),
{
    if s.len() == 0 {
        seq![]
    } else if gone.contains(s.last().entity) {
        without_entities(s.drop_last(), gone)
    } else {
        without_entities(s.drop_last(), gone).push(s.last())
    }
}

/// Whether `ids` holds `id`.
fn lists(ids: &Vec<u64>, id: u64) -> (b: bool)
    ensures
        b == ids@.contains(id),
{
    let mut i: usize = 0;
    while i < ids.len()
        invariant
            i <= ids@.len(),
            forall|k: int| 0 <= k < i ==> ids@[k] != id,
        decreases ids@.len() - i,
    {
        if ids[i] == id {
            return true;
        }
        i = i + 1;
    }
    false
}

impl ActionQueue {
    /// Takes out every entry of the entities in `gone` (their actions no longer hold).
    pub fn drop_entities(&mut self, gone: &Vec<u64>)
        ensures
            final(self).entries@ == without_entities(old(self).entries@, gone@),
    {
        let ghost s0 = self.entries@;
        let mut kept: Vec<ActionEntry> = Vec::new();
        let mut i: usize = 0;
        while i < self.entries.len()
            invariant
                i <= self.entries@.len(),
                self.entries@ == s0,
                kept@ == without_entities(s0.take(i as int), gone@),
            decreases self.entries@.len() - i,
        {
            proof {
                assert(s0.take(i as int + 1).drop_last() =~= s0.take(i as int));
            }
            let e = self.entries[i];
            if !lists(gone, e.entity) {
                kept.push(e);
            }
            i = i + 1;
        }
        assert(s0.take(s0.len() as int) =~= s0);
        self.entries = kept;
    }
}

/// The effects still running after `dist` more action value: each loses `dist`, and
/// those with none left go.
pub open spec fn buffs_after(s: Seq<Buff>, dist: u32) -> Seq<Buff>
    decreases s.len(),
{
    if s.len() == 0 {
        seq![]
    } else {
        let rest = buffs_after(s.drop_last(), dist);
        let b = s.last();
        if b.remaining_av > dist { rest.push(Buff { remaining_av: (b.remaining_av - dist) as u32, ..b }) } else { rest }
    }
}

/// The cooldowns still running after `dist` more action value.
pub open spec fn cooldowns_after(s: Seq<Cooldown>, dist: u32) -> Seq<Cooldown>
    decreases s.len(),
{
    if s.len() == 0 {
        seq![]
    } else {
        let rest = cooldowns_after(s.drop_last(), dist);
        let c = s.last();
        if c.remaining_av > dist { rest.push(Cooldown { remaining_av: (c.remaining_av - dist) as u32, ..c }) } else { rest }
    }
}

impl ActiveBuffs {
    /// Lets `dist` action value pass (see [`buffs_after`]).
    pub fn advance(&mut self, dist: u32)
        ensures
            final(self).0@ == buffs_after(old(self).0@, dist),
    {
        let ghost s0 = self.0@;
        let mut kept: Vec<Buff> = Vec::new();
        let mut i: usize = 0;
        while i < self.0.len()
            invariant
                i <= self.0@.len(),
                self.0@ == s0,
                kept@ == buffs_after(s0.take(i as int), dist),
            decreases self.0@.len() - i,
        {
            proof {
                assert(s0.take(i as int + 1).drop_last() =~= s0.take(i as int));
            }
            let b = self.0[i];
            if b.remaining_av > dist {
                kept.push(Buff { remaining_av: b.remaining_av - dist, ..b });
            }
            i = i + 1;
        }
        assert(s0.take(s0.len() as int) =~= s0);
        self.0 = kept;
    }
}

impl ActiveCooldowns {
    /// Lets `dist` action value pass (see [`cooldowns_after`]).
    pub fn advance(&mut self, dist: u32)
        ensures
            final(self).0@ == cooldowns_after(old(self).0@, dist),
    {
        let ghost s0 = self.0@;
        let mut kept: Vec<Cooldown> = Vec::new();
        let mut i: usize = 0;
        while i < self.0.len()
            invariant
                i <= self.0@.len(),
                self.0@ == s0,
                kept@ == cooldowns_after(s0.take(i as int), dist),
            decreases self.0@.len() - i,
        {
            proof {
                assert(s0.take(i as int + 1).drop_last() =~= s0.take(i as int));
            }
            let c = self.0[i];
            if c.remaining_av > dist {
                kept.push(Cooldown { remaining_av: c.remaining_av - dist, ..c });
            }
            i = i + 1;
        }
        assert(s0.take(s0.len() as int) =~= s0);
        self.0 = kept;
    }
}

/// The position of the first effect of kind `kind` (-1 when there is none).
pub open spec fn first_of_kind(s: Seq<Buff>, kind: BuffKind) -> int
    decreases s.len(),
{
    if s.len() == 0 {
        -1
    } else {
        let k = first_of_kind(s.drop_last(), kind);
        if k >= 0 { k } else if s.last().kind == kind { s.len() - 1 } else { -1 }
    }
}

proof fn lemma_first_of_kind(s: Seq<Buff>, kind: BuffKind)
    ensures
        -1 <= first_of_kind(s, kind) < s.len(),
        first_of_kind(s, kind) >= 0 ==> s[first_of_kind(s, kind)].kind == kind,
        forall|j: int| 0 <= j < s.len() && (first_of_kind(s, kind) < 0 || j < first_of_kind(s, kind)) ==> (#[trigger] s[j]).kind != kind,
    decreases s.len(),
{
    if s.len() > 0 {
        let t = s.drop_last();
        lemma_first_of_kind(t, kind);
        assert forall|j: int| 0 <= j < t.len() implies #[trigger] t[j] == s[j] by {}
        let k = first_of_kind(t, kind);
        if k >= 0 {
            assert(t[k] == s[k]);
        }
        assert forall|j: int| 0 <= j < s.len() && (first_of_kind(s, kind) < 0 || j < first_of_kind(s, kind)) implies (#[trigger] s[j]).kind != kind by {
            if j < t.len() {
                assert(t[j] == s[j]);
            }
        }
    }
}

/// The effects after an effect of `kind` is cast for `av` with strength `mag`: the
/// first one of that kind is refreshed, or a new one is added at the end.
pub open spec fn refreshed(s: Seq<Buff>, kind: BuffKind, av: u32, mag: i32) -> Seq<Buff> {
    let k = first_of_kind(s, kind);
    if k >= 0 {
        s.update(k, Buff { remaining_av: av, magnitude: mag, ..s[k] })
    } else {
        s.push(Buff { kind, remaining_av: av, magnitude: mag, stack_type: BuffStackType::NoStack })
    }
}

/// Casts an effect of `kind` for `av` with strength `mag` (see [`refreshed`]).
fn refresh_buff(active: &mut ActiveBuffs, kind: BuffKind, av: u32, mag: i32)
    ensures
        final(active).0@ == refreshed(old(active).0@, kind, av, mag),
{
    let ghost s0 = active.0@;
    proof {
        lemma_first_of_kind(s0, kind);
    }
    let mut i: usize = 0;
    while i < active.0.len()
        invariant
            i <= active.0@.len(),
            active.0@ == s0,
            s0 == old(active).0@,
            forall|j: int| 0 <= j < i ==> (#[trigger] s0[j]).kind != kind,
        decreases active.0@.len() - i,
    {
        let b = active.0[i];
        if b.kind == kind {
            proof {
                lemma_first_of_kind(s0, kind);
                let k = first_of_kind(s0, kind);
                if k < 0 || (i as int) < k {
                    assert(s0[i as int].kind != kind);
                }
                assert(k == i);
            }
            active.0.set(i, Buff { remaining_av: av, magnitude: mag, ..b });
            return;
        }
        i = i + 1;
    }
    proof {
        lemma_first_of_kind(s0, kind);
        let k = first_of_kind(s0, kind);
        if k >= 0 {
            assert(s0[k].kind == kind);
        }
    }
    active.0.push(Buff { kind, remaining_av: av, magnitude: mag, stack_type: BuffStackType::NoStack });
}

/// The message for a skill cast.
pub open spec fn cast_message(name: Seq<char>, kind: SkillKind) -> Seq<char> {
    match kind {
        SkillKind::Heal { amount } => name + "恢复了"@ + signed_decimal(amount as int) + "HP"@,
        SkillKind::Shield { def_boost, duration } => name + "施放了护盾，防御+"@ + signed_decimal(def_boost as int) + "持续"@
            + decimal(duration as nat) + "秒"@,
        SkillKind::Berserk { atk_boost, duration } => name + "进入狂暴，攻击+"@ + signed_decimal(atk_boost as int) + "持续"@
            + decimal(duration as nat) + "秒"@,
    }
}

/// Whether casting `kind` keeps every number in range for `s`.
pub open spec fn cast_fits(s: Stats, kind: SkillKind) -> bool {
    match kind {
        SkillKind::Heal { amount } => i32::MIN <= s.hp + amount <= i32::MAX,
        SkillKind::Shield { duration, .. } => duration <= i32::MAX && duration * 1000 <= u32::MAX,
        SkillKind::Berserk { duration, .. } => duration <= i32::MAX && duration * 1000 <= u32::MAX,
    }
}

/// The numbers, turn effects, timed effects and log (`s1`, `b1`, `a1`, `l1`) after the
/// skill at `idx` of `list` is cast from `s0`, `b0`, `a0`, `l0`: nothing for a missing
/// skill; without enough magic points only a log line; otherwise the cost is paid, a
/// heal restores hit points up to the maximum, a shield or berserk sets the turn effect
/// and refreshes the timed effect (1000 action value per turn), and the cast is logged.
pub open spec fn skill_cast(
    s0: Stats,
    list: Seq<Skill>,
    b0: Buffs,
    a0: Seq<Buff>,
    l0: Seq<Seq<char>>,
    idx: int,
    s1: Stats,
    b1: Buffs,
    a1: Seq<Buff>,
    l1: Seq<Seq<char>>,
) -> bool {
    if idx < 0 || idx >= list.len() {
        s1 == s0 && b1 == b0 && a1 == a0 && l1 == l0
    } else {
        let sk = list[idx];
        if s0.mp < sk.cost_mp {
            &&& s1 == s0 && b1 == b0 && a1 == a0
            &&& l1 == logged(l0, "MP不足，无法施放"@ + sk.name@)
        } else {
            &&& l1 == logged(l0, cast_message(sk.name@, sk.kind))
            &&& match sk.kind {
                SkillKind::Heal { amount } => {
                    &&& s1 == Stats {
                        mp: (s0.mp - sk.cost_mp) as i32,
                        hp: if s0.hp + amount < s0.max_hp { (s0.hp + amount) as i32 } else { s0.max_hp },
                        ..s0
                    }
                    &&& b1 == b0 && a1 == a0
                },
                SkillKind::Shield { def_boost, duration } => {
                    &&& s1 == Stats { mp: (s0.mp - sk.cost_mp) as i32, ..s0 }
                    &&& b1 == Buffs { shield_turns: duration as i32, shield_def: def_boost, ..b0 }
                    &&& a1 == refreshed(a0, BuffKind::Shield, (duration * 1000) as u32, def_boost)
                },
                SkillKind::Berserk { atk_boost, duration } => {
                    &&& s1 == Stats { mp: (s0.mp - sk.cost_mp) as i32, ..s0 }
                    &&& b1 == Buffs { berserk_turns: duration as i32, berserk_atk: atk_boost, ..b0 }
                    &&& a1 == refreshed(a0, BuffKind::Berserk, (duration * 1000) as u32, atk_boost)
                },
            }
        }
    }
}

/// Casts the skill at `idx` of `skills`: without enough magic points the log says so
/// and nothing else happens; otherwise its cost is paid and a heal restores hit
/// points (up to the maximum), a shield or berserk sets the turn effect and casts the
/// timed effect (for 1000 action value per turn), and the log says what happened. A
/// missing skill does nothing.
pub fn execute_skill(
    stats: &mut Stats,
    skills: &Skills,
    buffs: &mut Buffs,
    active: &mut ActiveBuffs,
    idx: usize,
    log: &mut EventLog,
)
    requires
        idx < skills.list@.len() ==> {
            let sk = skills.list@[idx as int];
            &&& old(stats).mp >= sk.cost_mp ==> i32::MIN <= old(stats).mp - sk.cost_mp <= i32::MAX
            &&& cast_fits(*old(stats), sk.kind)
        },
    ensures
        skill_cast(
            *old(stats),
            skills.list@,
            *old(buffs),
            old(active).0@,
            log_view(old(log)),
            idx as int,
            *final(stats),
            *final(buffs),
            final(active).0@,
            log_view(final(log)),
        ),
{
    if idx >= skills.list.len() {
        return;
    }
    let sk = &skills.list[idx];
    if stats.mp < sk.cost_mp {
        let mut msg = String::new();
        push_text(&mut msg, "MP不足，无法施放");
        push_text(&mut msg, sk.name.as_str());
        proof {
            assert(msg@ =~= "MP不足，无法施放"@ + sk.name@);
        }
        log.push(msg);
        return;
    }
    stats.mp = stats.mp - sk.cost_mp;
    let mut msg = String::new();
    push_text(&mut msg, sk.name.as_str());
    match sk.kind {
        SkillKind::Heal { amount } => {
            let h = stats.hp + amount;
            stats.hp = if h < stats.max_hp { h } else { stats.max_hp };
            push_text(&mut msg, "恢复了");
            push_signed(&mut msg, amount as i64);
            push_text(&mut msg, "HP");
        },
        SkillKind::Shield { def_boost, duration } => {
            buffs.shield_turns = duration as i32;
            buffs.shield_def = def_boost;
            refresh_buff(active, BuffKind::Shield, duration * 1000, def_boost);
            push_text(&mut msg, "施放了护盾，防御+");
            push_signed(&mut msg, def_boost as i64);
            push_text(&mut msg, "持续");
            push_decimal(&mut msg, duration as u64);
            push_text(&mut msg, "秒");
        },
        SkillKind::Berserk { atk_boost, duration } => {
            buffs.berserk_turns = duration as i32;
            buffs.berserk_atk = atk_boost;
            refresh_buff(active, BuffKind::Berserk, duration * 1000, atk_boost);
            push_text(&mut msg, "进入狂暴，攻击+");
            push_signed(&mut msg, atk_boost as i64);
            push_text(&mut msg, "持续");
            push_decimal(&mut msg, duration as u64);
            push_text(&mut msg, "秒");
        },
    }
    proof {
        assert(msg@ =~= cast_message(sk.name@, sk.kind));
    }
    log.push(msg);
}

/// Damage of a blow before any critical hit: attack less defense, at least 1.
pub fn raw_damage(attack: u32, defense: u32) -> (d: i32)
    requires
        attack <= i32::MAX,
        defense <= i32::MAX,
    ensures
        d == if attack - defense >= 1 { attack - defense } else { 1 },
{
    let d = attack as i32 - defense as i32;
    if d >= 1 { d } else { 1 }
}

/// `p` thousandths rounded to the nearest whole, halves away from zero.
pub open spec fn rounded_thousandths(p: int) -> int {
    if p >= 0 {
        (p + 500) / 1000
    } else {
        -((-p + 500) / 1000)
    }
}

/// The damage of a blow of `raw` damage: when critical, multiplied by one plus the
/// critical damage (`crit_damage_permille` thousandths) and rounded.
pub open spec fn blow_damage_spec(raw: int, critical: bool, crit_damage_permille: int) -> int {
    if critical {
        rounded_thousandths(raw * (1000 + crit_damage_permille))
    } else {
        raw
    }
}

/// A blow of `attack` against `defense`, critical when `roll` (out of 0..1000) is
/// below the critical rate: its damage (see [`raw_damage`], [`blow_damage_spec`]) and
/// whether it was critical.
pub fn blow_damage(attack: u32, defense: u32, roll: u32, crit_rate_permille: i32, crit_damage_permille: i32) -> (r: (
    i32,
    bool,
))
    requires
        attack <= i32::MAX,
        defense <= i32::MAX,
        (roll as int) < crit_rate_permille ==> i32::MIN <= blow_damage_spec(
            if attack - defense >= 1 { attack - defense } else { 1 },
            true,
            crit_damage_permille as int,
        ) <= i32::MAX,
    ensures
        r.1 == ((roll as int) < crit_rate_permille),
        r.0 == blow_damage_spec(
            if attack - defense >= 1 { attack - defense } else { 1 },
            r.1,
            crit_damage_permille as int,
        ),
{
    let raw = raw_damage(attack, defense);
    let critical = (roll as i64) < (crit_rate_permille as i64);
    if critical {
        let p: i64 = raw as i64 * (1000 + crit_damage_permille as i64);
        assert(-0x8000_0000_0000_0000 < raw * (1000 + crit_damage_permille) < 0x8000_0000_0000_0000) by (nonlinear_arith)
            requires
                1 <= raw <= i32::MAX,
                i32::MIN <= crit_damage_permille <= i32::MAX;
        let d: i64 = if p >= 0 { (p + 500) / 1000 } else { -((-p + 500) / 1000) };
        (d as i32, true)
    } else {
        (raw, false)
    }
}

/// A blow by an attacker of critical rate and damage `crit` (thousandths), with
/// `attack` against `defense`: whether it is critical comes from a draw out of
/// 0..1000; the damage is then as [`blow_damage`] says for that draw.
pub fn strike(attack: u32, defense: u32, crit: (i32, i32), rng: &mut SmallRng) -> (r: (i32, bool))
    requires
        attack <= i32::MAX,
        defense <= i32::MAX,
        i32::MIN <= blow_damage_spec(
            if attack - defense >= 1 { attack - defense } else { 1 },
            true,
            crit.1 as int,
        ) <= i32::MAX,
    ensures
        r.0 == blow_damage_spec(if attack - defense >= 1 { attack - defense } else { 1 }, r.1, crit.1 as int),
        r.1 ==> crit.0 > 0,
        crit.0 >= 1000 ==> r.1,
{
    let roll = random_i32_in(rng, 0, 1000) as u32;
    blow_damage(attack, defense, roll, crit.0, crit.1)
}

/// What a chasing monster does.
#[derive(Clone, Copy, Debug, PartialEq, Eq, Structural)]
pub enum ChaseMove {
    /// Strike the player, who stands next to it.
    Attack,
    /// Step to this cell, the first of a shortest route.
    Step(usize, usize),
    /// No route: stay.
    Stay,
}

/// Whether two cells are distinct neighbours among the eight.
pub open spec fn touching(a: (usize, usize), b: (usize, usize)) -> bool {
    abs_int(a.0 - b.0) <= 1 && abs_int(a.1 - b.1) <= 1 && a != b
}

/// What a chase step from `pos` after `target` may be: an attack when the target is
/// in sight and next to the chaser; otherwise the first cell of a shortest route to the
/// target around taken cells (the target walkable; no route has fewer cells), or staying put when the target cannot be
/// walked on, no route leads there, or the chaser stands on it.
pub open spec fn chase_answer(
    map: DungeonMap,
    occ: &OccupancyMap,
    pos: (usize, usize),
    target: (usize, usize),
    target_visible: bool,
    m: ChaseMove,
) -> bool {
    &&& target_visible && touching(pos, target) ==> m == ChaseMove::Attack
    &&& !(target_visible && touching(pos, target)) ==> match m {
        ChaseMove::Step(x, y) => map.walkable_at(target.0 as int, target.1 as int) && exists|p: Seq<(usize, usize)>|
            #[trigger] is_route(map, Some(occ), cell_of(pos), cell_of(target), p) && p.len() >= 1 && p[0] == (x, y)
                && forall|nodes: Seq<(int, int)>|
                #[trigger] is_route_nodes(map, Some(occ), cell_of(pos), cell_of(target), nodes) ==> p.len() + 1
                    <= nodes.len(),
        ChaseMove::Stay => !map.walkable_at(target.0 as int, target.1 as int) || !route_exists(map, Some(occ), cell_of(pos), cell_of(target)) || pos == target,
        ChaseMove::Attack => false,
    }
}

/// A chase step from `pos` after `target`: when the target is the player in sight and
/// stands next to the monster, an attack; otherwise the first cell of a shortest route
/// to the target around taken cells (see `astar`), or staying put when there is none.
pub fn chase_step(
    map: &DungeonMap,
    occ: &OccupancyMap,
    pos: (usize, usize),
    target: (usize, usize),
    target_visible: bool,
) -> (m: ChaseMove)
    requires
        map.wf(),
        occ.wf(),
        on_map(pos.0 as int, pos.1 as int),
        on_map(target.0 as int, target.1 as int),
    ensures
        chase_answer(*map, occ, pos, target, target_visible, m),
{
    let dx = if pos.0 >= target.0 { pos.0 - target.0 } else { target.0 - pos.0 };
    let dy = if pos.1 >= target.1 { pos.1 - target.1 } else { target.1 - pos.1 };
    if target_visible && dx <= 1 && dy <= 1 && (pos.0 != target.0 || pos.1 != target.1) {
        return ChaseMove::Attack;
    }
    match astar(pos, target, map, Some(occ)) {
        Some(path) => {
            if path.len() > 0 {
                let first = path[0];
                ChaseMove::Step(first.0, first.1)
            } else {
                proof {
                    assert(crate::pathfinding::route_nodes(cell_of(pos), path@).len() == 1);
                }
                ChaseMove::Stay
            }
        },
        None => ChaseMove::Stay,
    }
}

} // verus!
