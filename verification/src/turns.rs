use vstd::prelude::*;
use crate::tile::{MAP_WIDTH, MAP_HEIGHT};
use crate::room::on_map;
use crate::map::{DungeonMap, wrap_step, cell_index};
use crate::occupancy::OccupancyMap;
use crate::ranking::{first_top, ranked, lemma_first_top, lemma_ranked};
use crate::action::{
    ActionKindV3, ActionEntry, ActionQueue, CanMove, CanChase, CanFlee, CanWander, CanWait, holds_entity,
    reaction_for, scaled_duration, flees, action_value, agility_to_reaction, agility_scaled,
};
use crate::stats::{Skills, Skill, EventLog, log_view, logged};
use crate::text::{push_text, push_char};

verus! {

/// A key press as the game understands it.
#[derive(Clone, Copy, Debug, PartialEq, Eq, Structural)]
pub enum RecognizedInput {
    Direction(isize, isize),
    Skill(usize),
    Wait,
    OpenBag,
    Quit,
    Confirm,
}

/// Every action a key can start (monster behaviours are not among them).
#[derive(Clone, Copy, Debug, PartialEq, Eq, Structural)]
pub enum PlayerAction {
    Move(isize, isize),
    Wait,
    Skill(usize),
    Throw,
    OpenInventory,
    OpenLook,
    PickupGround,
    DescendStairs,
    SaveGame,
    LoadGame,
    Quit,
}

/// The buffer after `input` arrives: the oldest input goes when two are held, and a
/// direction repeating the last one held is dropped.
pub open spec fn buffered(b: Seq<RecognizedInput>, input: RecognizedInput) -> Seq<RecognizedInput> {
    let kept = if b.len() >= 2 { b.remove(0) } else { b };
    if kept.len() > 0 && kept.last() is Direction && input is Direction && kept.last() == input {
        kept
    } else {
        kept.push(input)
    }
}

/// At most two recognised inputs, oldest first.
pub struct InputBuffer {
    pub buffer: Vec<RecognizedInput>,
}

impl InputBuffer {
    /// An empty buffer.
    pub fn new() -> (b: InputBuffer)
        ensures
            b.buffer@ == Seq::<RecognizedInput>::empty(),
    {
        InputBuffer { buffer: Vec::new() }
    }

    /// Takes in an input: when two are held the oldest is dropped first, and a
    /// direction equal to the last one held is then ignored.
    pub fn push(&mut self, input: RecognizedInput)
        ensures
            final(self).buffer@ == buffered(old(self).buffer@, input),
    {
        if self.buffer.len() >= 2 {
            self.buffer.remove(0);
        }
        let n = self.buffer.len();
        if n > 0 {
            let last = self.buffer[n - 1];
            match (last, input) {
                (RecognizedInput::Direction(ax, ay), RecognizedInput::Direction(bx, by)) => {
                    if ax == bx && ay == by {
                        return;
                    }
                },
                _ => {},
            }
        }
        self.buffer.push(input);
    }

    /// Takes out the oldest input.
    pub fn pop(&mut self) -> (r: Option<RecognizedInput>)
        ensures
            old(self).buffer@.len() == 0 ==> r is None && final(self).buffer@ == old(self).buffer@,
            old(self).buffer@.len() > 0 ==> r == Some(old(self).buffer@[0]) && final(self).buffer@ == old(
                self,
            ).buffer@.remove(0),
    {
        if self.buffer.len() == 0 {
            None
        } else {
            Some(self.buffer.remove(0))
        }
    }
}

/// The action shown to the player before it is confirmed.
pub struct PlayerPreview {
    pub kind: Option<ActionKindV3>,
}

impl PlayerPreview {
    /// Nothing shown.
    pub fn new() -> (p: PlayerPreview)
        ensures
            p.kind is None,
    {
        PlayerPreview { kind: None }
    }
}

/// Whether `kind` repeats the previewed action: the same move, a wait, the same
/// skill, or any attack.
pub open spec fn confirms(preview: Option<ActionKindV3>, kind: ActionKindV3) -> bool {
    match (preview, kind) {
        (Some(ActionKindV3::Move { dx: a, dy: b }), ActionKindV3::Move { dx, dy }) => a == dx && b == dy,
        (Some(ActionKindV3::Wait), ActionKindV3::Wait) => true,
        (Some(ActionKindV3::Skill(a)), ActionKindV3::Skill(b)) => a == b,
        (Some(ActionKindV3::Attack { .. }), ActionKindV3::Attack { .. }) => true,
        _ => false,
    }
}

/// The queue once `entity`'s action is set to `kind`, due after `av`: its first entry
/// replaced where it stands, or a new entry at the end.
pub open spec fn replaced(s: Seq<ActionEntry>, entity: u64, kind: ActionKindV3, av: u32) -> Seq<ActionEntry> {
    if holds_entity(s, entity) {
        let k = choose|k: int|
            0 <= k < s.len() && (#[trigger] s[k]).entity == entity && forall|j: int|
                0 <= j < k ==> (#[trigger] s[j]).entity != entity;
        s.update(k, ActionEntry { entity, kind, av_remaining: av })
    } else {
        s.push(ActionEntry { entity, kind, av_remaining: av })
    }
}

/// A press of an action `kind` due after `av`, with the preview `p0` and queue `q0`
/// before and `p1`, `q1` after: a press that repeats the previewed action queues it
/// (replacing the entity's entry) and clears the preview; any other shows the preview
/// and leaves the queue.
pub open spec fn timed_press(
    p0: Option<ActionKindV3>,
    q0: Seq<ActionEntry>,
    entity: u64,
    kind: ActionKindV3,
    av: int,
    p1: Option<ActionKindV3>,
    q1: Seq<ActionEntry>,
    queued: bool,
) -> bool {
    &&& queued == confirms(p0, kind)
    &&& queued ==> p1 is None && q1 == replaced(q0, entity, kind, av as u32)
    &&& !queued ==> p1 == Some(kind) && q1 == q0
}

/// Pressing twice: when the preview does not already show the action, a first press
/// of a move, wait, attack or skill only previews it, and pressing the same again
/// queues it and clears the preview; on an empty queue the queue then holds one entry.
pub proof fn lemma_tap_tap(
    p0: Option<ActionKindV3>,
    q0: Seq<ActionEntry>,
    entity: u64,
    kind: ActionKindV3,
    av: int,
    p1: Option<ActionKindV3>,
    q1: Seq<ActionEntry>,
    queued1: bool,
    p2: Option<ActionKindV3>,
    q2: Seq<ActionEntry>,
    queued2: bool,
)
    requires
        kind is Move || kind is Wait || kind is Attack || kind is Skill,
        !confirms(p0, kind),
        timed_press(p0, q0, entity, kind, av, p1, q1, queued1),
        timed_press(p1, q1, entity, kind, av, p2, q2, queued2),
    ensures
        !queued1,
        p1 == Some(kind),
        q1 == q0,
        queued2,
        p2 is None,
        q2 == replaced(q0, entity, kind, av as u32),
        q0.len() == 0 ==> q2.len() == 1,
{
}

/// The first entry of `entity` is unique.
proof fn lemma_first_entry_unique(s: Seq<ActionEntry>, entity: u64, k1: int, k2: int)
    requires
        0 <= k1 < s.len() && s[k1].entity == entity,
        0 <= k2 < s.len() && s[k2].entity == entity,
        forall|j: int| 0 <= j < k1 ==> (#[trigger] s[j]).entity != entity,
        forall|j: int| 0 <= j < k2 ==> (#[trigger] s[j]).entity != entity,
    ensures
        k1 == k2,
{
    if k1 < k2 {
        assert(s[k1].entity != entity);
    } else if k2 < k1 {
        assert(s[k2].entity != entity);
    }
}

/// Press and press again: the first press of an action only previews it; pressing
/// the same action again queues it for `entity`, due after `av`, replacing any action
/// it had, and clears the preview. Returns whether the action was queued.
pub fn handle_timed_action(
    preview: &mut PlayerPreview,
    queue: &mut ActionQueue,
    entity: u64,
    kind: ActionKindV3,
    av: u32,
) -> (queued: bool)
    ensures
        queued == confirms(old(preview).kind, kind),
        queued ==> final(preview).kind is None && final(queue).entries@ == replaced(
            old(queue).entries@,
            entity,
            kind,
            av,
        ),
        !queued ==> final(preview).kind == Some(kind) && final(queue).entries@ == old(queue).entries@,
{
    let is_confirm = match (preview.kind, kind) {
        (Some(ActionKindV3::Move { dx: a, dy: b }), ActionKindV3::Move { dx, dy }) => a == dx && b == dy,
        (Some(ActionKindV3::Wait), ActionKindV3::Wait) => true,
        (Some(ActionKindV3::Skill(a)), ActionKindV3::Skill(b)) => a == b,
        (Some(ActionKindV3::Attack { .. }), ActionKindV3::Attack { .. }) => true,
        _ => false,
    };
    if is_confirm {
        let ghost s0 = queue.entries@;
        queue.enqueue_or_replace(entity, kind, av);
        proof {
            if holds_entity(s0, entity) {
                let k = choose|k: int|
                    0 <= k < s0.len() && (#[trigger] s0[k]).entity == entity && forall|j: int|
                        0 <= j < k ==> (#[trigger] s0[j]).entity != entity;
                let k2 = choose|k: int|
                    0 <= k < s0.len() && (#[trigger] s0[k]).entity == entity && (forall|j: int|
                        0 <= j < k ==> (#[trigger] s0[j]).entity != entity) && queue.entries@ == s0.update(
                        k,
                        ActionEntry { entity, kind, av_remaining: av },
                    );
                lemma_first_entry_unique(s0, entity, k, k2);
            }
        }
        preview.kind = None;
        true
    } else {
        preview.kind = Some(kind);
        false
    }
}

/// What a press towards `(dx, dy)` from `(x, y)` means: an attack on a monster
/// standing there, a move onto a walkable cell, or nothing (off the map, or a cell
/// that cannot be walked on with no monster on it).
pub open spec fn direction_kind(
    m: DungeonMap,
    occupied: OccupancyMap,
    monsters: Seq<u64>,
    x: int,
    y: int,
    dx: int,
    dy: int,
) -> Option<ActionKindV3> {
    let nx = wrap_step(x, dx);
    let ny = wrap_step(y, dy);
    if !on_map(nx, ny) {
        None
    } else {
        let occupant = occupied.cells@[cell_index(nx, ny)];
        let enemy = occupant is Some && monsters.contains(occupant->0);
        if enemy {
            Some(ActionKindV3::Attack { target: occupant->0 })
        } else if m.walkable_at(nx, ny) {
            Some(ActionKindV3::Move { dx: dx as isize, dy: dy as isize })
        } else {
            None
        }
    }
}

/// Whether `id` is listed.
fn listed(ids: &Vec<u64>, id: u64) -> (b: bool)
    ensures
        b == ids@.contains(id),
{
    let mut i: usize = 0;
    while i < ids.len()
        invariant
            i <= ids@.len(),
            forall|k: int| 0 <= k < i ==> ids@[k] != id,
        decreases ids@.len() - i,
    {
        if ids[i] == id {
            return true;
        }
        i = i + 1;
    }
    false
}

/// The action a direction press from `(x, y)` asks for (see [`direction_kind`]);
/// `monsters` lists the entities that are monsters.
pub fn direction_action(
    map: &DungeonMap,
    occupied: &OccupancyMap,
    monsters: &Vec<u64>,
    x: usize,
    y: usize,
    dx: isize,
    dy: isize,
) -> (k: Option<ActionKindV3>)
    requires
        map.wf(),
        occupied.wf(),
    ensures
        k == direction_kind(*map, *occupied, monsters@, x as int, y as int, dx as int, dy as int),
{
    let nx = x.wrapping_add_signed(dx);
    let ny = y.wrapping_add_signed(dy);
    if nx >= MAP_WIDTH || ny >= MAP_HEIGHT {
        return None;
    }
    let occupant = occupied.occupant(nx, ny);
    let enemy = match occupant {
        Some(e) => listed(monsters, e),
        None => false,
    };
    if enemy {
        Some(ActionKindV3::Attack { target: occupant.unwrap() })
    } else if map.is_walkable(nx, ny) {
        Some(ActionKindV3::Move { dx, dy })
    } else {
        None
    }
}

/// A direction press by the player `entity` standing at `(x, y)`: when the press asks
/// for an action, it is previewed or, pressed again, queued, due after the reaction
/// time plus the move's scaled duration (300 when the player has no move ability).
/// Returns whether an action was queued.
pub fn handle_player_direction(
    preview: &mut PlayerPreview,
    queue: &mut ActionQueue,
    map: &DungeonMap,
    occupied: &OccupancyMap,
    monsters: &Vec<u64>,
    entity: u64,
    x: usize,
    y: usize,
    dx: isize,
    dy: isize,
    agility: u32,
    mover: Option<CanMove>,
) -> (queued: bool)
    requires
        map.wf(),
        occupied.wf(),
        mover matches Some(m) ==> m.duration <= u32::MAX - 100,
    ensures
        ({
            let asked = direction_kind(*map, *occupied, monsters@, x as int, y as int, dx as int, dy as int);
            let av = reaction_for(agility as int) + match mover {
                Some(m) => scaled_duration(m.duration as int, agility as int),
                None => 300,
            };
            match asked {
                None => !queued && *final(preview) == *old(preview) && final(queue).entries@ == old(queue).entries@,
                Some(kind) => timed_press(
                    old(preview).kind,
                    old(queue).entries@,
                    entity,
                    kind,
                    av,
                    final(preview).kind,
                    final(queue).entries@,
                    queued,
                ),
            }
        }),
{
    let kind = match direction_action(map, occupied, monsters, x, y, dx, dy) {
        Some(k) => k,
        None => {
            return false;
        },
    };
    let reaction = agility_to_reaction(agility);
    let duration = match mover {
        Some(m) => agility_scaled(m.duration, agility),
        None => 300,
    };
    handle_timed_action(preview, queue, entity, kind, reaction + duration)
}

/// A wait press by the player `entity`: previewed or, pressed again, queued, due
/// after the reaction time plus the wait's scaled duration (800 without a wait
/// ability).
pub fn handle_wait(
    preview: &mut PlayerPreview,
    queue: &mut ActionQueue,
    entity: u64,
    agility: u32,
    waiter: Option<CanWait>,
) -> (queued: bool)
    requires
        waiter matches Some(w) ==> w.duration <= u32::MAX - 100,
    ensures
        ({
            let av = reaction_for(agility as int) + match waiter {
                Some(w) => scaled_duration(w.duration as int, agility as int),
                None => 800,
            };
            timed_press(
                old(preview).kind,
                old(queue).entries@,
                entity,
                ActionKindV3::Wait,
                av,
                final(preview).kind,
                final(queue).entries@,
                queued,
            )
        }),
{
    let reaction = agility_to_reaction(agility);
    let duration = match waiter {
        Some(w) => agility_scaled(w.duration, agility),
        None => 800,
    };
    handle_timed_action(preview, queue, entity, ActionKindV3::Wait, reaction + duration)
}

/// The key of skill slot `idx` (counted in 32 bits): the digit `idx + 1` for the
/// first nine slots, `'1'` past them.
pub open spec fn slot_key(idx: usize) -> char {
    if (idx as u32) < 9 {
        ((idx as u32) + 49) as char
    } else {
        '1'
    }
}

/// `k` is the first learnt skill with key `c`.
pub open spec fn first_keyed(list: Seq<Skill>, c: char, k: int) -> bool {
    0 <= k < list.len() && list[k].key == c && forall|j: int| 0 <= j < k ==> (#[trigger] list[j]).key != c
}

/// A skill press for slot `idx` by the player `entity`: the learnt skill whose key is
/// the slot's digit is previewed or, pressed again, queued, due after the reaction time
/// plus 600 scaled by agility. When no learnt skill has that key, nothing is queued
/// and the log says so.
pub fn handle_skill(
    preview: &mut PlayerPreview,
    queue: &mut ActionQueue,
    skills: &Skills,
    log: &mut EventLog,
    entity: u64,
    idx: usize,
    agility: u32,
) -> (queued: bool)
    requires
        (idx as u32) < u32::MAX,
    ensures
        ({
            let c = slot_key(idx);
            let list = skills.list@;
            let av = reaction_for(agility as int) + scaled_duration(600, agility as int);
            &&& (forall|j: int| 0 <= j < list.len() ==> (#[trigger] list[j]).key != c) ==> {
                &&& !queued && *final(preview) == *old(preview) && final(queue).entries@ == old(queue).entries@
                &&& log_view(final(log)) == logged(log_view(old(log)), "技能 "@ + seq![c] + " 未学习"@)
            }
            &&& forall|k: int| #[trigger] first_keyed(list, c, k) ==> {
                &&& log_view(final(log)) == log_view(old(log))
                &&& queued == confirms(old(preview).kind, ActionKindV3::Skill(k as usize))
                &&& queued ==> final(preview).kind is None && final(queue).entries@ == replaced(
                    old(queue).entries@,
                    entity,
                    ActionKindV3::Skill(k as usize),
                    av as u32,
                )
                &&& !queued ==> final(preview).kind == Some(ActionKindV3::Skill(k as usize))
                    && final(queue).entries@ == old(queue).entries@
            }
        }),
{
    let slot = idx as u32;
    let c: char = if slot < 9 { ((slot + 49) as u8) as char } else { '1' };
    proof {
        assert(c == slot_key(idx));
    }
    let mut i: usize = 0;
    while i < skills.list.len() && skills.list[i].key != c
        invariant
            i <= skills.list@.len(),
            forall|j: int| 0 <= j < i ==> (#[trigger] skills.list@[j]).key != c,
        decreases skills.list@.len() - i,
    {
        i = i + 1;
    }
    if i == skills.list.len() {
        let mut msg = String::new();
        push_text(&mut msg, "技能 ");
        push_char(&mut msg, c);
        push_text(&mut msg, " 未学习");
        proof {
            reveal_strlit("技能 ");
            reveal_strlit(" 未学习");
            assert(msg@ =~= "技能 "@ + seq![c] + " 未学习"@);
        }
        log.push(msg);
        return false;
    }
    proof {
        assert(first_keyed(skills.list@, c, i as int));
        assert forall|k: int| #[trigger] first_keyed(skills.list@, c, k) implies k == i as int by {
            if k < i {
                assert(skills.list@[k].key != c);
            } else if i < k {
                assert(skills.list@[i as int].key != c);
            }
        }
    }
    let reaction = agility_to_reaction(agility);
    let duration = agility_scaled(600, agility);
    handle_timed_action(preview, queue, entity, ActionKindV3::Skill(i), reaction + duration)
}

/// A monster's wish to act: its id, the priority of the behaviour, the action value
/// it would take, and the action.
#[derive(Clone, Copy, Debug, PartialEq, Eq, Structural)]
pub struct Intent {
    pub entity: u64,
    pub priority: u32,
    pub av: u32,
    pub kind: ActionKindV3,
}

/// What the monster decisions read of one monster.
pub struct MonsterSense {
    pub entity: u64,
    pub agility: u32,
    pub hp: i32,
    pub max_hp: i32,
    pub visible: Vec<(usize, usize)>,
    pub chase: Option<CanChase>,
    pub flee: Option<CanFlee>,
    pub wander: Option<CanWander>,
}

/// The action value of a behaviour of base `duration` for a monster of `agility`.
pub open spec fn behaviour_av(duration: u32, agility: u32) -> u32 {
    (reaction_for(agility as int) + scaled_duration(duration as int, agility as int)) as u32
}

/// Whether a monster that sees `visible` sees the player at `player`.
pub open spec fn sees(visible: Seq<(usize, usize)>, player: Option<(usize, usize)>) -> bool {
    match player {
        Some(p) => visible.contains(p),
        None => false,
    }
}

/// The chase wishes, in monster order: every monster able to chase that sees the
/// player.
pub open spec fn chase_wishes(ms: Seq<MonsterSense>, player: Option<(usize, usize)>) -> Seq<Intent>
    decreases ms.len(),
{
    if ms.len() == 0 {
        seq![]
    } else {
        let rest = chase_wishes(ms.drop_last(), player);
        let m = ms.last();
        match m.chase {
            Some(c) => if sees(m.visible@, player) {
                rest.push(Intent { entity: m.entity, priority: c.priority, av: behaviour_av(c.duration, m.agility), kind: ActionKindV3::Chase })
            } else {
                rest
            },
            None => rest,
        }
    }
}

/// The flight wishes, in monster order: every monster able to flee whose hit points
/// are under a quarter of its maximum.
pub open spec fn flee_wishes(ms: Seq<MonsterSense>) -> Seq<Intent>
    decreases ms.len(),
{
    if ms.len() == 0 {
        seq![]
    } else {
        let rest = flee_wishes(ms.drop_last());
        let m = ms.last();
        match m.flee {
            Some(f) => if flees(m.hp as int, m.max_hp as int) {
                rest.push(Intent { entity: m.entity, priority: f.priority, av: behaviour_av(f.duration, m.agility), kind: ActionKindV3::Flee })
            } else {
                rest
            },
            None => rest,
        }
    }
}

/// Whether some wish belongs to `entity`.
pub open spec fn wishes_of(ws: Seq<Intent>, entity: u64) -> bool {
    exists|i: int| 0 <= i < ws.len() && (#[trigger] ws[i]).entity == entity
}

/// The wander wishes, in monster order: every monster able to wander that has no
/// chase or flight wish in `decided`.
pub open spec fn wander_wishes(ms: Seq<MonsterSense>, decided: Seq<Intent>) -> Seq<Intent>
    decreases ms.len(),
{
    if ms.len() == 0 {
        seq![]
    } else {
        let rest = wander_wishes(ms.drop_last(), decided);
        let m = ms.last();
        match m.wander {
            Some(w) => if !wishes_of(decided, m.entity) {
                rest.push(Intent { entity: m.entity, priority: w.priority, av: behaviour_av(w.duration, m.agility), kind: ActionKindV3::Wander })
            } else {
                rest
            },
            None => rest,
        }
    }
}

/// Whether `visible` holds `p`.
fn sees_cell(visible: &Vec<(usize, usize)>, p: (usize, usize)) -> (b: bool)
    ensures
        b == visible@.contains(p),
{
    let mut i: usize = 0;
    while i < visible.len()
        invariant
            i <= visible@.len(),
            forall|k: int| 0 <= k < i ==> visible@[k] != p,
        decreases visible@.len() - i,
    {
        let q = visible[i];
        if q.0 == p.0 && q.1 == p.1 {
            return true;
        }
        i = i + 1;
    }
    false
}

/// Whether some wish belongs to `entity`.
fn has_wish(ws: &Vec<Intent>, entity: u64) -> (b: bool)
    ensures
        b == wishes_of(ws@, entity),
{
    let mut i: usize = 0;
    while i < ws.len()
        invariant
            i <= ws@.len(),
            forall|k: int| 0 <= k < i ==> (#[trigger] ws@[k]).entity != entity,
        decreases ws@.len() - i,
    {
        if ws[i].entity == entity {
            return true;
        }
        i = i + 1;
    }
    false
}

/// The action value of a behaviour of base `duration` for a monster of `agility`.
fn behaviour_value(duration: u32, agility: u32) -> (av: u32)
    requires
        duration <= u32::MAX - 100,
    ensures
        av == behaviour_av(duration, agility),
{
    action_value(duration, agility)
}

/// Every behaviour's base duration leaves room for the reaction time.
pub open spec fn durations_fit(ms: Seq<MonsterSense>) -> bool {
    forall|i: int|
        0 <= i < ms.len() ==> {
            &&& (#[trigger] ms[i]).chase matches Some(c) ==> c.duration <= u32::MAX - 100
            &&& ms[i].flee matches Some(f) ==> f.duration <= u32::MAX - 100
            &&& ms[i].wander matches Some(w) ==> w.duration <= u32::MAX - 100
        }
}

/// Chase decisions: every monster able to chase that sees the player at `player`
/// wishes to chase it.
pub fn chase_decision(monsters: &Vec<MonsterSense>, player: Option<(usize, usize)>) -> (out: Vec<Intent>)
    requires
        durations_fit(monsters@),
    ensures
        out@ == chase_wishes(monsters@, player),
{
    let mut out: Vec<Intent> = Vec::new();
    let mut i: usize = 0;
    while i < monsters.len()
        invariant
            i <= monsters@.len(),
            durations_fit(monsters@),
            out@ == chase_wishes(monsters@.take(i as int), player),
        decreases monsters@.len() - i,
    {
        proof {
            assert(monsters@.take(i as int + 1).drop_last() =~= monsters@.take(i as int));
        }
        let m = &monsters[i];
        match m.chase {
            Some(c) => {
                let can_see = match player {
                    Some(p) => sees_cell(&m.visible, p),
                    None => false,
                };
                if CanChase::condition(can_see) {
                    let av = behaviour_value(c.duration, m.agility);
                    out.push(Intent { entity: m.entity, priority: c.priority, av, kind: ActionKindV3::Chase });
                }
            },
            None => {},
        }
        i = i + 1;
    }
    assert(monsters@.take(monsters@.len() as int) =~= monsters@);
    out
}

/// Flight decisions: every monster able to flee whose hit points are under a
/// quarter of its maximum wishes to flee.
pub fn flee_decision(monsters: &Vec<MonsterSense>) -> (out: Vec<Intent>)
    requires
        durations_fit(monsters@),
    ensures
        out@ == flee_wishes(monsters@),
{
    let mut out: Vec<Intent> = Vec::new();
    let mut i: usize = 0;
    while i < monsters.len()
        invariant
            i <= monsters@.len(),
            durations_fit(monsters@),
            out@ == flee_wishes(monsters@.take(i as int)),
        decreases monsters@.len() - i,
    {
        proof {
            assert(monsters@.take(i as int + 1).drop_last() =~= monsters@.take(i as int));
        }
        let m = &monsters[i];
        match m.flee {
            Some(f) => {
                if CanFlee::condition(m.hp, m.max_hp) {
                    let av = behaviour_value(f.duration, m.agility);
                    out.push(Intent { entity: m.entity, priority: f.priority, av, kind: ActionKindV3::Flee });
                }
            },
            None => {},
        }
        i = i + 1;
    }
    assert(monsters@.take(monsters@.len() as int) =~= monsters@);
    out
}

/// Wander decisions: every monster able to wander that has not already decided to
/// chase or flee wishes to wander.
pub fn wander_decision(monsters: &Vec<MonsterSense>, chase: &Vec<Intent>, flee: &Vec<Intent>) -> (out: Vec<Intent>)
    requires
        durations_fit(monsters@),
    ensures
        out@ == wander_wishes(monsters@, chase@ + flee@),
{
    let mut out: Vec<Intent> = Vec::new();
    let ghost decided = chase@ + flee@;
    let mut i: usize = 0;
    while i < monsters.len()
        invariant
            i <= monsters@.len(),
            durations_fit(monsters@),
            decided == chase@ + flee@,
            out@ == wander_wishes(monsters@.take(i as int), decided),
        decreases monsters@.len() - i,
    {
        proof {
            assert(monsters@.take(i as int + 1).drop_last() =~= monsters@.take(i as int));
        }
        let m = &monsters[i];
        match m.wander {
            Some(w) => {
                let seen = has_wish(chase, m.entity) || has_wish(flee, m.entity);
                proof {
                    if wishes_of(decided, m.entity) {
                        let k = choose|k: int| 0 <= k < decided.len() && (#[trigger] decided[k]).entity == m.entity;
                        if k < chase@.len() {
                            assert(decided[k] == chase@[k]);
                        } else {
                            assert(decided[k] == flee@[k - chase@.len()]);
                        }
                    }
                    if wishes_of(chase@, m.entity) {
                        let k = choose|k: int| 0 <= k < chase@.len() && (#[trigger] chase@[k]).entity == m.entity;
                        assert(decided[k] == chase@[k]);
                    }
                    if wishes_of(flee@, m.entity) {
                        let k = choose|k: int| 0 <= k < flee@.len() && (#[trigger] flee@[k]).entity == m.entity;
                        assert(decided[k + chase@.len()] == flee@[k]);
                    }
                }
                if !seen && CanWander::condition() {
                    let av = behaviour_value(w.duration, m.agility);
                    out.push(Intent { entity: m.entity, priority: w.priority, av, kind: ActionKindV3::Wander });
                }
            },
            None => {},
        }
        i = i + 1;
    }
    assert(monsters@.take(monsters@.len() as int) =~= monsters@);
    out
}

/// A wish's priority, as a rank.
pub open spec fn wish_rank(w: Intent) -> int {
    w.priority as int
}

/// The wishes in the order they are considered: by priority, highest first, and in
/// their given order among equal priorities (a stable sort).
pub open spec fn priority_order(s: Seq<Intent>) -> Seq<Intent> {
    ranked(s, |w: Intent| wish_rank(w))
}

/// The queue after considering `order`: each wish is queued unless its entity already
/// has an entry.
pub open spec fn arbitrated(q: Seq<ActionEntry>, order: Seq<Intent>) -> Seq<ActionEntry>
    decreases order.len(),
{
    if order.len() == 0 {
        q
    } else {
        let before = arbitrated(q, order.drop_last());
        let w = order.last();
        if holds_entity(before, w.entity) {
            before
        } else {
            before.push(ActionEntry { entity: w.entity, kind: w.kind, av_remaining: w.av })
        }
    }
}

/// Wishes are considered highest priority first, each wish exactly once.
pub proof fn lemma_priority_order(s: Seq<Intent>)
    ensures
        priority_order(s).len() == s.len(),
        priority_order(s).to_multiset() == s.to_multiset(),
        forall|i: int, j: int|
            0 <= i < j < s.len() ==> (#[trigger] priority_order(s)[i]).priority >= (#[trigger] priority_order(s)[j]).priority,
{
    lemma_ranked(s, |w: Intent| wish_rank(w));
    assert forall|i: int, j: int|
        0 <= i < j < s.len() implies (#[trigger] priority_order(s)[i]).priority >= (#[trigger] priority_order(s)[j]).priority by {
        assert(wish_rank(priority_order(s)[i]) >= wish_rank(priority_order(s)[j]));
    }
}

/// The position of the first wish of highest priority.
fn find_first_max(s: &Vec<Intent>) -> (k: usize)
    requires
        s@.len() >= 1,
    ensures
        k == first_top(s@, |w: Intent| wish_rank(w)),
{
    let mut k: usize = 0;
    let mut i: usize = 1;
    while i < s.len()
        invariant
            1 <= i <= s@.len(),
            k == first_top(s@.take(i as int), |w: Intent| wish_rank(w)),
            k < i,
        decreases s@.len() - i,
    {
        proof {
            assert(s@.take(i as int + 1).drop_last() =~= s@.take(i as int));
            lemma_first_top(s@.take(i as int), |w: Intent| wish_rank(w));
        }
        if s[i].priority > s[k].priority {
            k = i;
        }
        i = i + 1;
    }
    assert(s@.take(s@.len() as int) =~= s@);
    k
}

/// Merges the chase, flight and wander wishes (in that order), considers them by
/// priority, highest first and stable among equals, and queues each one whose monster
/// has no entry yet.
pub fn arbitration(chase: &Vec<Intent>, flee: &Vec<Intent>, wander: &Vec<Intent>, queue: &mut ActionQueue)
    ensures
        final(queue).entries@ == arbitrated(old(queue).entries@, priority_order(chase@ + flee@ + wander@)),
{
    let mut all: Vec<Intent> = Vec::new();
    let mut i: usize = 0;
    while i < chase.len()
        invariant
            i <= chase@.len(),
            all@ == chase@.take(i as int),
        decreases chase@.len() - i,
    {
        all.push(chase[i]);
        i = i + 1;
        assert(all@ =~= chase@.take(i as int));
    }
    i = 0;
    while i < flee.len()
        invariant
            i <= flee@.len(),
            all@ == chase@ + flee@.take(i as int),
        decreases flee@.len() - i,
    {
        all.push(flee[i]);
        i = i + 1;
        assert(all@ =~= chase@ + flee@.take(i as int));
    }
    i = 0;
    while i < wander.len()
        invariant
            i <= wander@.len(),
            all@ == chase@ + flee@ + wander@.take(i as int),
        decreases wander@.len() - i,
    {
        all.push(wander[i]);
        i = i + 1;
        assert(all@ =~= chase@ + flee@ + wander@.take(i as int));
    }
    assert(chase@.take(chase@.len() as int) =~= chase@);
    assert(flee@.take(flee@.len() as int) =~= flee@);
    assert(wander@.take(wander@.len() as int) =~= wander@);
    let ghost all0 = all@;
    let ghost q0 = queue.entries@;
    let ghost mut done: Seq<Intent> = seq![];
    assert(all0 == chase@ + flee@ + wander@);
    while all.len() > 0
        invariant
            done + priority_order(all@) == priority_order(all0),
            queue.entries@ == arbitrated(q0, done),
        decreases all@.len(),
    {
        let k = find_first_max(&all);
        proof {
            lemma_first_top(all@, |w: Intent| wish_rank(w));
        }
        let ghost before = all@;
        let w = all.remove(k);
        queue.enqueue_if_absent(w.entity, w.kind, w.av);
        proof {
            assert(priority_order(before) == seq![w] + priority_order(all@));
            assert(done.push(w) + priority_order(all@) =~= done + priority_order(before));
            assert(done.push(w).drop_last() =~= done);
            done = done.push(w);
        }
    }
    assert(done =~= priority_order(all0));
}

} // verus!
